//! A dial with a hundred positions, turned left and right.
//!
//! Each instruction turns the dial a number of clicks right (`R`) or left
//! (`L`) from its starting position fifty.  The first part counts the
//! instructions that leave the dial at zero; the second counts every single
//! click that passes through or lands on zero.

use vstd::prelude::*;
use vstd::arithmetic::div_mod::lemma_fundamental_div_mod;
use vstd::arithmetic::div_mod::lemma_mod_multiples_vanish;
use vstd::string::StrSliceExecFns;

use crate::text::all_digits;
use crate::text::lines_of;
use crate::text::num_val;
use crate::text::spec_lines;
use crate::text::spec_trim;
use crate::text::trim_of;

verus! {

/// One instruction: turn right when the flag is set, this many clicks.
pub open spec fn line_instr(line: Seq<char>) -> Option<(bool, int)> {
    let t = spec_trim(line);
    if t.len() >= 2 && (t[0] == 'R' || t[0] == 'L') && all_digits(t.subrange(1, t.len() as int))
        && num_val(t.subrange(1, t.len() as int)) <= i32::MAX {
        Some((t[0] == 'R', num_val(t.subrange(1, t.len() as int))))
    } else {
        None
    }
}

/// The dial position after one instruction.
pub open spec fn step(pos: int, right: bool, d: int) -> int {
    if right {
        (pos + d) % 100
    } else {
        (pos - d) % 100
    }
}

/// How many clicks of one instruction put the dial at zero.
pub open spec fn zeros_in_move(pos: int, right: bool, d: int) -> int {
    let first = if pos == 0 {
        100int
    } else if right {
        100 - pos
    } else {
        pos
    };
    if d >= first {
        1 + (d - first) / 100
    } else {
        0
    }
}

/// Dial position and landing count after a sequence of instruction lines,
/// unreadable lines skipped.
pub open spec fn run_landings(lines: Seq<Seq<char>>) -> (int, int)
    decreases lines.len(),
{
    if lines.len() == 0 {
        (50, 0)
    } else {
        let prev = run_landings(lines.drop_last());
        match line_instr(lines.last()) {
            Some(ins) => {
                let pos = step(prev.0, ins.0, ins.1);
                (pos, prev.1 + if pos == 0 {
                    1int
                } else {
                    0int
                })
            },
            None => prev,
        }
    }
}

/// Dial position and click-through-zero count after a sequence of
/// instruction lines, unreadable lines skipped.
pub open spec fn run_crossings(lines: Seq<Seq<char>>) -> (int, int)
    decreases lines.len(),
{
    if lines.len() == 0 {
        (50, 0)
    } else {
        let prev = run_crossings(lines.drop_last());
        match line_instr(lines.last()) {
            Some(ins) => (
                step(prev.0, ins.0, ins.1),
                prev.1 + zeros_in_move(prev.0, ins.0, ins.1),
            ),
            None => prev,
        }
    }
}

/// Counts stay non-negative and positions stay on the dial.
proof fn lemma_runs_ok(lines: Seq<Seq<char>>)
    ensures
        0 <= run_landings(lines).0 < 100,
        run_landings(lines).1 >= 0,
        0 <= run_crossings(lines).0 < 100,
        run_crossings(lines).1 >= 0,
    decreases lines.len(),
{
    if lines.len() > 0 {
        lemma_runs_ok(lines.drop_last());
        match line_instr(lines.last()) {
            Some(ins) => {
                crate::text::lemma_num_val_nonneg(
                    spec_trim(lines.last()).subrange(1, spec_trim(lines.last()).len() as int),
                );
            },
            None => {
            },
        }
    }
}

/// A value clamped to the machine range.
pub open spec fn clamp_u32(x: int) -> int {
    if x <= u32::MAX as int {
        x
    } else {
        u32::MAX as int
    }
}

/// Reads one instruction line.
fn parse_line(line: &str) -> (r: Option<(bool, u64)>)
    ensures
        match r {
            Some(v) => line_instr(line@) == Some((v.0, v.1 as int)) && v.1 <= i32::MAX as u64,
            None => line_instr(line@) is None,
        },
{
    let t = trim_of(line);
    let n = t.unicode_len();
    if n < 2 {
        return None;
    }
    let c = t.get_char(0);
    if c != 'R' && c != 'L' {
        return None;
    }
    let rest = t.substring_char(1, n);
    match crate::text::parse_u64(rest) {
        Some(v) => {
            if v > i32::MAX as u64 {
                return None;
            }
            Some((c == 'R', v))
        },
        None => {
            proof {
                let digits = spec_trim(line@).subrange(1, spec_trim(line@).len() as int);
                if all_digits(digits) {
                    crate::text::lemma_num_val_nonneg(digits);
                }
            }
            None
        },
    }
}

/// Turns the dial one instruction and reports the new position.
fn apply_step(pos: u64, right: bool, d: u64) -> (r: u64)
    requires
        pos < 100,
        d <= i32::MAX as u64,
    ensures
        r as int == step(pos as int, right, d as int),
        r < 100,
{
    if right {
        (pos + d) % 100
    } else {
        let dm = d % 100;
        let r = (pos + 100 - dm) % 100;
        proof {
            lemma_fundamental_div_mod(d as int, 100);
            lemma_mod_multiples_vanish(1 + d as int / 100, pos as int - d as int, 100);
            assert(pos as int + 100 - dm as int == 100 * (1 + d as int / 100) + (pos as int
                - d as int));
        }
        r
    }
}

/// How many instructions leave the dial at zero, clamped to the machine
/// range.
pub fn part1(input: &str) -> (r: u32)
    ensures
        r as int == clamp_u32(run_landings(spec_lines(input@)).1),
{
    let lines = lines_of(input);
    let ghost lspec = spec_lines(input@);
    let mut pos: u64 = 50;
    let mut count: u32 = 0;
    let mut i: usize = 0;
    while i < lines.len()
        invariant
            0 <= i <= lines@.len(),
            lines@.len() == lspec.len(),
            lspec == spec_lines(input@),
            forall|t: int| 0 <= t < lines@.len() ==> #[trigger] lines@[t]@ == lspec[t],
            pos < 100,
            pos as int == run_landings(lspec.subrange(0, i as int)).0,
            count as int == clamp_u32(run_landings(lspec.subrange(0, i as int)).1),
        decreases lines@.len() - i,
    {
        let ghost done = lspec.subrange(0, i as int);
        proof {
            assert(lspec.subrange(0, i + 1).drop_last() =~= done);
            lemma_runs_ok(done);
        }
        match parse_line(lines[i]) {
            Some(ins) => {
                pos = apply_step(pos, ins.0, ins.1);
                if pos == 0 {
                    count = count.saturating_add(1);
                }
            },
            None => {
            },
        }
        i = i + 1;
    }
    proof {
        assert(lspec.subrange(0, lspec.len() as int) =~= lspec);
    }
    count
}

/// How many single clicks put the dial at zero, clamped to the machine
/// range.
pub fn part2(input: &str) -> (r: u32)
    ensures
        r as int == clamp_u32(run_crossings(spec_lines(input@)).1),
{
    let lines = lines_of(input);
    let ghost lspec = spec_lines(input@);
    let mut pos: u64 = 50;
    let mut count: u32 = 0;
    let mut i: usize = 0;
    while i < lines.len()
        invariant
            0 <= i <= lines@.len(),
            lines@.len() == lspec.len(),
            lspec == spec_lines(input@),
            forall|t: int| 0 <= t < lines@.len() ==> #[trigger] lines@[t]@ == lspec[t],
            pos < 100,
            pos as int == run_crossings(lspec.subrange(0, i as int)).0,
            count as int == clamp_u32(run_crossings(lspec.subrange(0, i as int)).1),
        decreases lines@.len() - i,
    {
        let ghost done = lspec.subrange(0, i as int);
        proof {
            assert(lspec.subrange(0, i + 1).drop_last() =~= done);
            lemma_runs_ok(done);
        }
        match parse_line(lines[i]) {
            Some(ins) => {
                let first: u64 = if pos == 0 {
                    100
                } else if ins.0 {
                    100 - pos
                } else {
                    pos
                };
                if ins.1 >= first {
                    let crossings = 1 + (ins.1 - first) / 100;
                    count = count.saturating_add(crossings as u32);
                }
                pos = apply_step(pos, ins.0, ins.1);
            },
            None => {
            },
        }
        i = i + 1;
    }
    proof {
        assert(lspec.subrange(0, lspec.len() as int) =~= lspec);
    }
    count
}

} // verus!
