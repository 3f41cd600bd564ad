//! Battery banks: the strongest joltage a bank can deliver.
//!
//! A bank is a line of digits.  The first part picks two positions in
//! order and reads them as a two-digit number, as large as possible; the
//! second part picks twelve positions in order, choosing greedily the
//! largest digit available at each step.

use vstd::prelude::*;
use vstd::string::StrSliceExecFns;

use crate::text::digit_val;
use crate::text::lines_of;
use crate::text::spec_is_digit;
use crate::text::spec_lines;
use crate::text::spec_trim;
use crate::text::trim_of;

verus! {

/// The digits of a text, in order, other characters skipped.
pub open spec fn digit_seq(s: Seq<char>) -> Seq<int>
    decreases s.len(),
{
    if s.len() == 0 {
        Seq::empty()
    } else {
        digit_seq(s.drop_last()) + (if spec_is_digit(s.last()) {
            seq![digit_val(s.last())]
        } else {
            Seq::empty()
        })
    }
}

/// Digits read from a text are between zero and nine.
pub proof fn lemma_digit_seq_range(s: Seq<char>)
    ensures
        forall|k: int| 0 <= k < digit_seq(s).len() ==> 0 <= #[trigger] digit_seq(s)[k] <= 9,
    decreases s.len(),
{
    if s.len() > 0 {
        lemma_digit_seq_range(s.drop_last());
        let pre = digit_seq(s.drop_last());
        assert forall|k: int| 0 <= k < digit_seq(s).len() implies 0 <= #[trigger] digit_seq(s)[k]
            <= 9 by {
            if k < pre.len() {
                assert(digit_seq(s)[k] == pre[k]);
            } else {
                assert(spec_is_digit(s.last()));
                assert(digit_seq(s)[k] == digit_val(s.last()));
            }
        };
    }
}

/// Extracts the digits of a line.
fn digits_of_line(s: &str) -> (r: Vec<u32>)
    ensures
        r@.map_values(|x: u32| x as int) == digit_seq(s@),
        forall|k: int| 0 <= k < r@.len() ==> #[trigger] r@[k] <= 9,
{
    let n = s.unicode_len();
    let mut r: Vec<u32> = Vec::new();
    let mut i: usize = 0;
    while i < n
        invariant
            0 <= i <= n,
            n == s@.len(),
            r@.map_values(|x: u32| x as int) =~= digit_seq(s@.subrange(0, i as int)),
            forall|k: int| 0 <= k < r@.len() ==> #[trigger] r@[k] <= 9,
        decreases n - i,
    {
        let c = s.get_char(i);
        let ghost oldr = r@;
        if crate::text::is_digit(c) {
            r.push(c as u32 - '0' as u32);
        }
        proof {
            assert(s@.subrange(0, i + 1).drop_last() =~= s@.subrange(0, i as int));
            assert(s@.subrange(0, i + 1).last() == s@[i as int]);
            assert(r@.map_values(|x: u32| x as int) =~= digit_seq(s@.subrange(0, i + 1)));
        }
        i = i + 1;
    }
    proof {
        assert(s@.subrange(0, n as int) =~= s@);
    }
    r
}

/// The largest two-digit joltage from picking two positions in order,
/// or zero when fewer than two digits are present.
pub fn max_joltage(bank: &str) -> (r: u32)
    ensures
        digit_seq(bank@).len() < 2 ==> r == 0,
        digit_seq(bank@).len() >= 2 ==> {
            let d = digit_seq(bank@);
            (exists|i: int, j: int| 0 <= i < j < d.len() && r == 10 * d[i] + d[j]) && (forall|
                i: int,
                j: int,
            |
                0 <= i < j < d.len() ==> 10 * d[i] + d[j] <= r)
        },
{
    let ds = digits_of_line(bank);
    let ghost d = digit_seq(bank@);
    proof {
        lemma_digit_seq_range(bank@);
        assert(forall|k: int| 0 <= k < d.len() ==> d[k] == ds@[k] as int);
    }
    let len = ds.len();
    if len < 2 {
        return 0;
    }
    let mut best: u32 = 0;
    let mut i: usize = 0;
    while i < len
        invariant
            0 <= i <= len,
            len == ds@.len(),
            len >= 2,
            d == digit_seq(bank@),
            d.len() == len,
            forall|k: int| 0 <= k < d.len() ==> 0 <= #[trigger] d[k] <= 9,
            forall|k: int| 0 <= k < d.len() ==> d[k] == ds@[k] as int,
            best <= 99,
            forall|a: int, b: int| 0 <= a < b < d.len() && a < i ==> 10 * d[a] + d[b] <= best,
            best == 0 || exists|a: int, b: int| 0 <= a < b < d.len() && best == 10 * d[a] + d[b],
        decreases len - i,
    {
        let mut j = i + 1;
        while j < len
            invariant
                i < j <= len,
                i < len,
                len == ds@.len(),
                len >= 2,
                d == digit_seq(bank@),
                d.len() == len,
                forall|k: int| 0 <= k < d.len() ==> 0 <= #[trigger] d[k] <= 9,
                forall|k: int| 0 <= k < d.len() ==> d[k] == ds@[k] as int,
                best <= 99,
                forall|a: int, b: int|
                    0 <= a < b < d.len() && (a < i || (a == i && b < j)) ==> 10 * d[a] + d[b]
                        <= best,
                best == 0 || exists|a: int, b: int|
                    0 <= a < b < d.len() && best == 10 * d[a] + d[b],
            decreases len - j,
        {
            proof {
                assert(d[i as int] == ds@[i as int] as int);
                assert(d[j as int] == ds@[j as int] as int);
            }
            let v = 10 * ds[i] + ds[j];
            if v > best {
                best = v;
            }
            j = j + 1;
        }
        i = i + 1;
    }
    proof {
        if best == 0 {
            assert(10 * d[0] + d[1] <= 0);
            assert(best == 10 * d[0] + d[1]);
        }
    }
    best
}

/// The position of the largest digit in `d[lo..=hi]`, earliest on ties;
/// `lo` itself when the window is empty.
pub open spec fn argmax_left(d: Seq<int>, lo: int, hi: int) -> int
    decreases hi - lo,
{
    if lo >= hi {
        lo
    } else {
        let r = argmax_left(d, lo, hi - 1);
        if d[hi] > d[r] {
            hi
        } else {
            r
        }
    }
}

/// The chosen position lies in the window and holds its largest digit.
pub proof fn lemma_argmax_left(d: Seq<int>, lo: int, hi: int)
    requires
        0 <= lo <= hi < d.len(),
    ensures
        lo <= argmax_left(d, lo, hi) <= hi,
        forall|k: int| lo <= k <= hi ==> #[trigger] d[k] <= d[argmax_left(d, lo, hi)],
    decreases hi - lo,
{
    if lo < hi {
        lemma_argmax_left(d, lo, hi - 1);
    }
}

/// Powers of ten.
pub open spec fn pow10(t: int) -> int
    decreases t,
{
    if t <= 0 {
        1
    } else {
        10 * pow10(t - 1)
    }
}

proof fn lemma_pow10_12()
    ensures
        pow10(12) == 1000000000000,
{
    assert(pow10(0) == 1);
    assert(pow10(1) == 10);
    assert(pow10(2) == 100);
    assert(pow10(3) == 1000);
    assert(pow10(4) == 10000);
    assert(pow10(5) == 100000);
    assert(pow10(6) == 1000000);
    assert(pow10(7) == 10000000);
    assert(pow10(8) == 100000000);
    assert(pow10(9) == 1000000000);
    assert(pow10(10) == 10000000000);
    assert(pow10(11) == 100000000000);
    assert(pow10(12) == 1000000000000);
}

proof fn lemma_pow10_pos(t: int)
    ensures
        pow10(t) >= 1,
    decreases t,
{
    if t > 0 {
        lemma_pow10_pos(t - 1);
    }
}

proof fn lemma_pow10_mono(t1: int, t2: int)
    requires
        t1 <= t2,
    ensures
        1 <= pow10(t1) <= pow10(t2),
    decreases t2 - t1,
{
    lemma_pow10_pos(t1);
    if t1 < t2 {
        lemma_pow10_mono(t1, t2 - 1);
    }
}

/// The number the greedy selection builds from round `t` on, with the
/// previous pick at `prev` and the digits picked so far worth `acc`.
pub open spec fn greedy_from(d: Seq<int>, prev: int, t: int, acc: int) -> int
    decreases 12 - t,
{
    if t >= 12 {
        acc
    } else {
        let p = argmax_left(d, prev + 1, d.len() - 12 + t);
        greedy_from(d, p, t + 1, acc * 10 + d[p])
    }
}

/// The twelve-digit joltage the greedy selection reads from the bank, or
/// zero when fewer than twelve digits are present.
pub fn max_joltage_12(bank: &str) -> (r: u64)
    ensures
        digit_seq(bank@).len() < 12 ==> r == 0,
        digit_seq(bank@).len() >= 12 ==> r == greedy_from(digit_seq(bank@), -1, 0, 0),
{
    let ds = digits_of_line(bank);
    let ghost d = digit_seq(bank@);
    proof {
        lemma_digit_seq_range(bank@);
        assert(forall|k: int| 0 <= k < d.len() ==> d[k] == ds@[k] as int);
    }
    let n = ds.len();
    if n < 12 {
        return 0;
    }
    let mut result: u64 = 0;
    let mut start: usize = 0;
    let mut t: usize = 0;
    while t < 12
        invariant
            0 <= t <= 12,
            n == ds@.len(),
            n >= 12,
            d == digit_seq(bank@),
            d.len() == n,
            forall|k: int| 0 <= k < d.len() ==> 0 <= #[trigger] d[k] <= 9,
            forall|k: int| 0 <= k < d.len() ==> d[k] == ds@[k] as int,
            start <= n - 12 + t,
            result < pow10(t as int),
            greedy_from(d, -1, 0, 0) == greedy_from(d, start - 1, t as int, result as int),
        decreases 12 - t,
    {
        let end = n - 12 + t;
        let mut max_val: u32 = 0;
        let mut max_pos = start;
        let mut p = start;
        while p <= end
            invariant
                start <= p <= end + 1,
                start <= end < n,
                n == ds@.len(),
                d.len() == n,
                forall|k: int| 0 <= k < d.len() ==> 0 <= #[trigger] d[k] <= 9,
                forall|k: int| 0 <= k < d.len() ==> d[k] == ds@[k] as int,
                max_val <= 9,
                p == start ==> (max_pos == start && max_val == 0),
                p > start ==> (max_pos == argmax_left(d, start as int, p - 1) && max_val as int
                    == d[max_pos as int]),
                start <= max_pos <= end,
            decreases end + 1 - p,
        {
            proof {
                assert(d[p as int] == ds@[p as int] as int);
            }
            if ds[p] > max_val {
                max_val = ds[p];
                max_pos = p;
            }
            proof {
                if p == start {
                    assert(argmax_left(d, start as int, start as int) == start);
                }
            }
            p = p + 1;
        }
        proof {
            assert(max_pos == argmax_left(d, start as int, end as int));
            lemma_pow10_mono(t as int, 11);
            lemma_pow10_12();
            assert(pow10(t + 1) == 10 * pow10(t as int));
        }
        result = result * 10 + max_val as u64;
        start = max_pos + 1;
        t = t + 1;
    }
    result
}

/// A value clamped to the machine range.
pub open spec fn clamp_u32(x: int) -> int {
    if x <= u32::MAX as int {
        x
    } else {
        u32::MAX as int
    }
}

/// A value clamped to the machine range.
pub open spec fn clamp_u64(x: int) -> int {
    if x <= u64::MAX as int {
        x
    } else {
        u64::MAX as int
    }
}

/// `v` is the largest two-digit joltage of the bank with digits `d`, or
/// zero when the bank has fewer than two digits.
pub open spec fn bank_max_ok(d: Seq<int>, v: int) -> bool {
    if d.len() < 2 {
        v == 0
    } else {
        (exists|i: int, j: int| 0 <= i < j < d.len() && v == 10 * d[i] + d[j]) && (forall|
            i: int,
            j: int,
        |
            0 <= i < j < d.len() ==> 10 * d[i] + d[j] <= v)
    }
}

/// Sum of a sequence of per-bank values.
pub open spec fn vals_sum(vals: Seq<int>) -> int
    decreases vals.len(),
{
    if vals.len() == 0 {
        0
    } else {
        vals_sum(vals.drop_last()) + vals.last()
    }
}

/// A sum of non-negative values is non-negative.
proof fn lemma_vals_sum_nonneg(vals: Seq<int>)
    requires
        forall|t: int| 0 <= t < vals.len() ==> vals[t] >= 0,
    ensures
        vals_sum(vals) >= 0,
    decreases vals.len(),
{
    if vals.len() > 0 {
        lemma_vals_sum_nonneg(vals.drop_last());
    }
}

/// Sum over every bank of the greedy twelve-digit joltage.
pub open spec fn spec_part2(lines: Seq<Seq<char>>) -> int
    decreases lines.len(),
{
    if lines.len() == 0 {
        0
    } else {
        spec_part2(lines.drop_last()) + {
            let line = spec_trim(lines.last());
            let d = digit_seq(line);
            if line.len() == 0 || d.len() < 12 {
                0int
            } else {
                greedy_from(d, -1, 0, 0)
            }
        }
    }
}

/// Sum over all banks of the largest two-digit joltage, clamped to the
/// machine range.  Each line's contribution is its bank maximum; blank
/// lines contribute nothing.
pub fn part1(input: &str) -> (r: u32)
    ensures
        exists|vals: Seq<int>|
            vals.len() == spec_lines(input@).len() && (forall|t: int|
                0 <= t < vals.len() ==> {
                    let line = spec_trim(spec_lines(input@)[t]);
                    if line.len() == 0 {
                        vals[t] == 0
                    } else {
                        bank_max_ok(digit_seq(line), #[trigger] vals[t])
                    }
                }) && r as int == clamp_u32(vals_sum(vals)),
{
    let lines = lines_of(input);
    let ghost lspec = spec_lines(input@);
    let ghost mut vals: Seq<int> = Seq::empty();
    let mut total: u32 = 0;
    let mut i: usize = 0;
    while i < lines.len()
        invariant
            0 <= i <= lines@.len(),
            lines@.len() == lspec.len(),
            lspec == spec_lines(input@),
            forall|t: int| 0 <= t < lines@.len() ==> #[trigger] lines@[t]@ == lspec[t],
            vals.len() == i,
            forall|t: int|
                0 <= t < i ==> {
                    let line = spec_trim(lspec[t]);
                    if line.len() == 0 {
                        vals[t] == 0
                    } else {
                        bank_max_ok(digit_seq(line), #[trigger] vals[t])
                    }
                },
            forall|t: int| 0 <= t < i ==> 0 <= #[trigger] vals[t] <= 99,
            total as int == clamp_u32(vals_sum(vals)),
        decreases lines@.len() - i,
    {
        let ghost oldvals = vals;
        proof {
            lemma_vals_sum_nonneg(oldvals);
        }
        let line = trim_of(lines[i]);
        if !line.is_empty() {
            let v = max_joltage(line);
            proof {
                let d = digit_seq(line@);
                lemma_digit_seq_range(line@);
                if d.len() >= 2 {
                    let (a, b) = choose|a: int, b: int|
                        0 <= a < b < d.len() && v as int == 10 * d[a] + d[b];
                    assert(v <= 99);
                }
                vals = vals.push(v as int);
                assert(vals.drop_last() =~= oldvals);
            }
            total = total.saturating_add(v);
        } else {
            proof {
                vals = vals.push(0);
                assert(vals.drop_last() =~= oldvals);
            }
        }
        i = i + 1;
    }
    total
}

/// The greedy number is bounded by twelve digits and never negative.
proof fn lemma_greedy_range(d: Seq<int>, prev: int, t: int, acc: int)
    requires
        forall|k: int| 0 <= k < d.len() ==> 0 <= #[trigger] d[k] <= 9,
        d.len() >= 12,
        0 <= t <= 12,
        -1 <= prev,
        prev + 1 <= d.len() - 12 + t,
        0 <= acc,
    ensures
        greedy_from(d, prev, t, acc) >= acc,
    decreases 12 - t,
{
    if t < 12 {
        let p = argmax_left(d, prev + 1, d.len() - 12 + t);
        lemma_argmax_left(d, prev + 1, d.len() - 12 + t);
        lemma_greedy_range(d, p, t + 1, acc * 10 + d[p]);
    }
}

/// The greedy sum over an input is never negative.
proof fn lemma_part_sums_nonneg(lines: Seq<Seq<char>>)
    ensures
        spec_part2(lines) >= 0,
    decreases lines.len(),
{
    if lines.len() > 0 {
        lemma_part_sums_nonneg(lines.drop_last());
        let line = spec_trim(lines.last());
        let d = digit_seq(line);
        lemma_digit_seq_range(line);
        if line.len() > 0 && d.len() >= 12 {
            lemma_greedy_range(d, -1, 0, 0);
        }
    }
}

/// Sum over all banks of the greedy twelve-digit joltage, clamped to the
/// machine range.
pub fn part2(input: &str) -> (r: u64)
    ensures
        r as int == clamp_u64(spec_part2(spec_lines(input@))),
{
    let lines = lines_of(input);
    let ghost lspec = spec_lines(input@);
    let mut total: u64 = 0;
    let mut i: usize = 0;
    while i < lines.len()
        invariant
            0 <= i <= lines@.len(),
            lines@.len() == lspec.len(),
            lspec == spec_lines(input@),
            forall|t: int| 0 <= t < lines@.len() ==> #[trigger] lines@[t]@ == lspec[t],
            total as int == clamp_u64(spec_part2(lspec.subrange(0, i as int))),
        decreases lines@.len() - i,
    {
        let ghost done = lspec.subrange(0, i as int);
        proof {
            assert(lspec.subrange(0, i + 1).drop_last() =~= done);
            lemma_part_sums_nonneg(done);
        }
        let line = trim_of(lines[i]);
        if !line.is_empty() {
            let v = max_joltage_12(line);
            proof {
                let d = digit_seq(line@);
                lemma_digit_seq_range(line@);
                if d.len() >= 12 {
                    lemma_greedy_range(d, -1, 0, 0);
                }
            }
            total = total.saturating_add(v);
        }
        i = i + 1;
    }
    proof {
        assert(lspec.subrange(0, lspec.len() as int) =~= lspec);
    }
    total
}

} // verus!
