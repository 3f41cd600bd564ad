//! Fresh ingredient identifiers.
//!
//! The input holds inclusive identifier ranges, a blank line, then single
//! identifiers.  An identifier is fresh when some range contains it; the
//! second part counts how many distinct identifiers all the ranges cover
//! together.

use vstd::prelude::*;
use vstd::string::StrSliceExecFns;

use crate::text::all_digits;
use crate::text::lines_of;
use crate::text::num_val;
use crate::text::parse_u64;
use crate::text::spec_lines;
use crate::text::spec_split;
use crate::text::split_of;

verus! {

/// Position of the first blank-line separator at or after `i`.
pub open spec fn find_sep(s: Seq<char>, i: int) -> Option<int>
    decreases s.len() - i,
{
    if i < 0 || i + 1 >= s.len() {
        None
    } else if s[i] == '\n' && s[i + 1] == '\n' {
        Some(i)
    } else {
        find_sep(s, i + 1)
    }
}

/// The two sections of the input: the text before the first blank line,
/// and the text from there to the next blank line or the end.
pub open spec fn sections(s: Seq<char>) -> Option<(Seq<char>, Seq<char>)> {
    match find_sep(s, 0) {
        None => None,
        Some(i) => {
            let rest = s.subrange(i + 2, s.len() as int);
            match find_sep(rest, 0) {
                None => Some((s.subrange(0, i), rest)),
                Some(j) => Some((s.subrange(0, i), rest.subrange(0, j))),
            }
        },
    }
}

/// One line read as an inclusive range: dash-separated numbers, the first
/// two of which bound the range; a line that does not parse whole yields
/// nothing.
pub open spec fn line_range(line: Seq<char>) -> Option<(int, int)> {
    let parts = spec_split(line, '-');
    if parts.len() >= 2 && (forall|t: int|
        0 <= t < parts.len() ==> (#[trigger] parts[t]).len() > 0 && all_digits(parts[t])
            && num_val(parts[t]) <= u64::MAX) {
        Some((num_val(parts[0]), num_val(parts[1])))
    } else {
        None
    }
}

/// The ranges of the first section, unreadable lines skipped.
pub open spec fn spec_ranges(sec: Seq<char>) -> Seq<(int, int)>
    decreases spec_lines(sec).len(),
{
    ranges_of_lines(spec_lines(sec))
}

pub open spec fn ranges_of_lines(lines: Seq<Seq<char>>) -> Seq<(int, int)>
    decreases lines.len(),
{
    if lines.len() == 0 {
        Seq::empty()
    } else {
        ranges_of_lines(lines.drop_last()) + match line_range(lines.last()) {
            Some(r) => seq![r],
            None => Seq::empty(),
        }
    }
}

/// The identifiers of the second section, unreadable lines skipped.
pub open spec fn ids_of_lines(lines: Seq<Seq<char>>) -> Seq<int>
    decreases lines.len(),
{
    if lines.len() == 0 {
        Seq::empty()
    } else {
        ids_of_lines(lines.drop_last()) + {
            let line = lines.last();
            if line.len() > 0 && all_digits(line) && num_val(line) <= u64::MAX {
                seq![num_val(line)]
            } else {
                Seq::empty()
            }
        }
    }
}

/// Splits the input into ranges and identifiers.  An input without a blank
/// separator line has neither.
pub fn parse_input(input: &str) -> (r: (Vec<(u64, u64)>, Vec<u64>))
    ensures
        match sections(input@) {
            None => r.0@.len() == 0 && r.1@.len() == 0,
            Some(secs) => r.0@.map_values(|p: (u64, u64)| (p.0 as int, p.1 as int))
                == spec_ranges(secs.0) && r.1@.map_values(|x: u64| x as int) == ids_of_lines(
                spec_lines(secs.1),
            ),
        },
{
    let n = input.unicode_len();
    // find the blank separator line
    let mut i: usize = 0;
    let mut sep: Option<usize> = None;
    loop
        invariant_except_break
            0 <= i <= n,
            n == input@.len(),
            sep is None,
            find_sep(input@, 0) == find_sep(input@, i as int),
        ensures
            match sep {
                Some(v) => find_sep(input@, 0) == Some(v as int) && v as int + 1 < n,
                None => find_sep(input@, 0) is None,
            },
        decreases n - i,
    {
        if n - i <= 1 {
            break ;
        }
        if input.get_char(i) == '\n' && input.get_char(i + 1) == '\n' {
            sep = Some(i);
            break ;
        }
        i = i + 1;
    }
    let si = match sep {
        Some(v) => v,
        None => {
            let empty_ranges: Vec<(u64, u64)> = Vec::new();
            let empty_ids: Vec<u64> = Vec::new();
            return (empty_ranges, empty_ids);
        },
    };
    let first = input.substring_char(0, si);
    let rest = input.substring_char(si + 2, n);
    let ghost restv = rest@;
    // the identifier section ends at the next blank line, if any
    let rn = rest.unicode_len();
    let mut j: usize = 0;
    let mut sep2: Option<usize> = None;
    loop
        invariant_except_break
            0 <= j <= rn,
            rn == restv.len(),
            restv == rest@,
            sep2 is None,
            find_sep(restv, 0) == find_sep(restv, j as int),
        ensures
            restv == rest@,
            match sep2 {
                Some(v) => find_sep(restv, 0) == Some(v as int) && v as int + 1 < rn,
                None => find_sep(restv, 0) is None,
            },
        decreases rn - j,
    {
        if rn - j <= 1 {
            break ;
        }
        if rest.get_char(j) == '\n' && rest.get_char(j + 1) == '\n' {
            sep2 = Some(j);
            break ;
        }
        j = j + 1;
    }
    let second = match sep2 {
        Some(v) => rest.substring_char(0, v),
        None => rest,
    };

    // ranges
    let rlines = lines_of(first);
    let ghost rlspec = spec_lines(first@);
    let mut ranges: Vec<(u64, u64)> = Vec::new();
    let mut k: usize = 0;
    while k < rlines.len()
        invariant
            0 <= k <= rlines@.len(),
            rlines@.len() == rlspec.len(),
            rlspec == spec_lines(first@),
            forall|t: int| 0 <= t < rlines@.len() ==> #[trigger] rlines@[t]@ == rlspec[t],
            ranges@.map_values(|p: (u64, u64)| (p.0 as int, p.1 as int)) =~= ranges_of_lines(
                rlspec.subrange(0, k as int),
            ),
        decreases rlines@.len() - k,
    {
        proof {
            assert(rlspec.subrange(0, k + 1).drop_last() =~= rlspec.subrange(0, k as int));
        }
        let line = rlines[k];
        let parts = split_of(line, '-');
        let ghost pspec = spec_split(line@, '-');
        let mut all_ok = parts.len() >= 2;
        let mut nums: Vec<u64> = Vec::new();
        let mut t: usize = 0;
        while t < parts.len()
            invariant
                0 <= t <= parts@.len(),
                parts@.len() == pspec.len(),
                pspec == spec_split(line@, '-'),
                forall|q: int| 0 <= q < parts@.len() ==> #[trigger] parts@[q]@ == pspec[q],
                all_ok ==> parts@.len() >= 2,
                all_ok ==> nums@.len() == t,
                all_ok ==> forall|q: int|
                    0 <= q < t ==> (#[trigger] pspec[q]).len() > 0 && all_digits(pspec[q])
                        && num_val(pspec[q]) <= u64::MAX && nums@[q] as int == num_val(pspec[q]),
                !all_ok ==> (parts@.len() < 2 || exists|q: int|
                    0 <= q < parts@.len() && !((#[trigger] pspec[q]).len() > 0 && all_digits(
                        pspec[q],
                    ) && num_val(pspec[q]) <= u64::MAX)),
            decreases parts@.len() - t,
        {
            match parse_u64(parts[t]) {
                Some(v) => {
                    nums.push(v);
                },
                None => {
                    proof {
                        if all_digits(pspec[t as int]) {
                            crate::text::lemma_num_val_nonneg(pspec[t as int]);
                        }
                    }
                    all_ok = false;
                },
            }
            t = t + 1;
        }
        if all_ok {
            let a = nums[0];
            let b = nums[1];
            let ghost oldm = ranges@.map_values(|p: (u64, u64)| (p.0 as int, p.1 as int));
            ranges.push((a, b));
            proof {
                assert(line_range(rlspec[k as int]) == Some((a as int, b as int)));
                assert(ranges@.map_values(|p: (u64, u64)| (p.0 as int, p.1 as int)) =~= oldm
                    + seq![(a as int, b as int)]);
            }
        } else {
            proof {
                assert(line_range(rlspec[k as int]) is None);
            }
        }
        k = k + 1;
    }
    proof {
        assert(rlspec.subrange(0, rlspec.len() as int) =~= rlspec);
    }

    // identifiers
    let ilines = lines_of(second);
    let ghost ilspec = spec_lines(second@);
    let mut ids: Vec<u64> = Vec::new();
    let mut k2: usize = 0;
    while k2 < ilines.len()
        invariant
            0 <= k2 <= ilines@.len(),
            ilines@.len() == ilspec.len(),
            ilspec == spec_lines(second@),
            forall|t: int| 0 <= t < ilines@.len() ==> #[trigger] ilines@[t]@ == ilspec[t],
            ids@.map_values(|x: u64| x as int) =~= ids_of_lines(ilspec.subrange(0, k2 as int)),
        decreases ilines@.len() - k2,
    {
        proof {
            assert(ilspec.subrange(0, k2 + 1).drop_last() =~= ilspec.subrange(0, k2 as int));
        }
        let line = ilines[k2];
        if !line.is_empty() {
            let ghost oldm = ids@.map_values(|x: u64| x as int);
            match parse_u64(line) {
                Some(v) => {
                    ids.push(v);
                    proof {
                        assert(ids@.map_values(|x: u64| x as int) =~= oldm + seq![v as int]);
                    }
                },
                None => {
                    proof {
                        if all_digits(ilspec[k2 as int]) {
                            crate::text::lemma_num_val_nonneg(ilspec[k2 as int]);
                        }
                    }
                },
            }
        }
        k2 = k2 + 1;
    }
    proof {
        assert(ilspec.subrange(0, ilspec.len() as int) =~= ilspec);
        match sections(input@) {
            Some(secs) => {
                assert(first@ =~= secs.0);
                assert(second@ =~= secs.1);
            },
            None => {
                assert(false);
            },
        }
    }
    (ranges, ids)
}

/// Some range contains the identifier.
pub open spec fn covered(ranges: Seq<(u64, u64)>, x: int) -> bool {
    exists|k: int|
        0 <= k < ranges.len() && (#[trigger] ranges[k]).0 <= x <= ranges[k].1
}

/// Whether the identifier lies in one of the ranges.
pub fn is_fresh(id: u64, ranges: &Vec<(u64, u64)>) -> (r: bool)
    ensures
        r == covered(ranges@, id as int),
{
    let n = ranges.len();
    let mut k: usize = 0;
    while k < n
        invariant
            0 <= k <= n,
            n == ranges@.len(),
            forall|t: int| 0 <= t < k ==> !((#[trigger] ranges@[t]).0 <= id as int <= ranges@[t].1),
        decreases n - k,
    {
        let (a, b) = ranges[k];
        if a <= id && id <= b {
            return true;
        }
        k = k + 1;
    }
    false
}

/// Total length of a sequence of inclusive ranges.
pub open spec fn sizes_sum(rs: Seq<(u64, u64)>) -> int
    decreases rs.len(),
{
    if rs.len() == 0 {
        0
    } else {
        sizes_sum(rs.drop_last()) + (rs.last().1 - rs.last().0 + 1)
    }
}

proof fn lemma_sizes_sum_nonneg(rs: Seq<(u64, u64)>)
    requires
        forall|t: int| 0 <= t < rs.len() ==> (#[trigger] rs[t]).0 <= rs[t].1,
    ensures
        sizes_sum(rs) >= 0,
    decreases rs.len(),
{
    if rs.len() > 0 {
        lemma_sizes_sum_nonneg(rs.drop_last());
    }
}

/// A value clamped to the machine range.
pub open spec fn clamp_u64(x: int) -> int {
    if x <= u64::MAX as int {
        x
    } else {
        u64::MAX as int
    }
}

/// How many distinct identifiers the ranges cover together: the overlapping
/// ranges are merged into separated ones covering the same identifiers, and
/// their lengths are added, clamped to the machine range.
#[verifier::rlimit(60)]
pub fn count_unique_fresh_ids(ranges: &Vec<(u64, u64)>) -> (r: u64)
    ensures
        exists|merged: Seq<(u64, u64)>|
            (forall|t: int| 0 <= t < merged.len() ==> (#[trigger] merged[t]).0 <= merged[t].1)
                && (forall|t: int|
                0 <= t < merged.len() - 1 ==> (#[trigger] merged[t]).1 + 1 < merged[t + 1].0) && (
            forall|x: int| covered(merged, x) <==> covered(ranges@, x)) && r as int == clamp_u64(
                sizes_sum(merged),
            ),
{
    // keep only the ranges that contain anything
    let mut rem: Vec<(u64, u64)> = Vec::new();
    let mut k: usize = 0;
    while k < ranges.len()
        invariant
            0 <= k <= ranges@.len(),
            forall|t: int| 0 <= t < rem@.len() ==> (#[trigger] rem@[t]).0 <= rem@[t].1,
            forall|x: int| covered(rem@, x) <==> covered(ranges@.subrange(0, k as int), x),
        decreases ranges@.len() - k,
    {
        let ghost pre = rem@;
        let (a, b) = ranges[k];
        if a <= b {
            rem.push((a, b));
        }
        proof {
            assert forall|x: int| covered(rem@, x) <==> covered(
                ranges@.subrange(0, k + 1),
                x,
            ) by {
                if covered(rem@, x) {
                    let t = choose|t: int|
                        0 <= t < rem@.len() && (#[trigger] rem@[t]).0 <= x <= rem@[t].1;
                    if t < pre.len() {
                        assert((pre[t]).0 <= x <= pre[t].1);
                        assert(covered(pre, x));
                        assert(covered(ranges@.subrange(0, k as int), x));
                        let w = choose|w: int|
                            0 <= w < k && (#[trigger] ranges@.subrange(0, k as int)[w]).0 <= x
                                <= ranges@.subrange(0, k as int)[w].1;
                        assert((ranges@.subrange(0, k + 1)[w]).0 <= x <= ranges@.subrange(
                            0,
                            k + 1,
                        )[w].1);
                    } else {
                        assert((ranges@.subrange(0, k + 1)[k as int]).0 <= x <= ranges@.subrange(
                            0,
                            k + 1,
                        )[k as int].1);
                    }
                }
                if covered(ranges@.subrange(0, k + 1), x) {
                    let w = choose|w: int|
                        0 <= w < k + 1 && (#[trigger] ranges@.subrange(0, k + 1)[w]).0 <= x
                            <= ranges@.subrange(0, k + 1)[w].1;
                    if w < k {
                        assert((ranges@.subrange(0, k as int)[w]).0 <= x <= ranges@.subrange(
                            0,
                            k as int,
                        )[w].1);
                        assert(covered(ranges@.subrange(0, k as int), x));
                        assert(covered(pre, x));
                        let u = choose|u: int|
                            0 <= u < pre.len() && (#[trigger] pre[u]).0 <= x <= pre[u].1;
                        assert((rem@[u]).0 <= x <= rem@[u].1);
                    } else {
                        assert(a <= x <= b);
                        assert((rem@[rem@.len() - 1]).0 <= x <= rem@[rem@.len() - 1].1);
                    }
                }
            };
        }
        k = k + 1;
    }
    proof {
        assert(ranges@.subrange(0, ranges@.len() as int) =~= ranges@);
    }
    let ghost orig = ranges@;

    // sort the remaining ranges by start, smallest first
    let mut sorted: Vec<(u64, u64)> = Vec::new();
    while rem.len() > 0
        invariant
            forall|t: int| 0 <= t < rem@.len() ==> (#[trigger] rem@[t]).0 <= rem@[t].1,
            forall|t: int| 0 <= t < sorted@.len() ==> (#[trigger] sorted@[t]).0 <= sorted@[t].1,
            forall|t1: int, t2: int|
                0 <= t1 < t2 < sorted@.len() ==> (#[trigger] sorted@[t1]).0 <= (
                #[trigger] sorted@[t2]).0,
            forall|t: int, u: int|
                0 <= t < sorted@.len() && 0 <= u < rem@.len() ==> (#[trigger] sorted@[t]).0 <= (
                #[trigger] rem@[u]).0,
            forall|x: int| (covered(sorted@, x) || covered(rem@, x)) <==> covered(orig, x),
        decreases rem@.len(),
    {
        let mut mi: usize = 0;
        let mut u: usize = 1;
        while u < rem.len()
            invariant
                0 <= mi < rem@.len(),
                1 <= u <= rem@.len(),
                forall|t: int| 0 <= t < u ==> (#[trigger] rem@[mi as int]).0 <= rem@[t].0,
            decreases rem@.len() - u,
        {
            if rem[u].0 < rem[mi].0 {
                mi = u;
            }
            u = u + 1;
        }
        let ghost prerem = rem@;
        let ghost presorted = sorted@;
        let v = rem.swap_remove(mi);
        sorted.push(v);
        proof {
            assert(v == prerem[mi as int]);
            assert forall|x: int| (covered(sorted@, x) || covered(rem@, x)) <==> covered(
                orig,
                x,
            ) by {
                if covered(sorted@, x) {
                    let t = choose|t: int|
                        0 <= t < sorted@.len() && (#[trigger] sorted@[t]).0 <= x <= sorted@[t].1;
                    if t < presorted.len() {
                        assert(covered(presorted, x));
                    } else {
                        assert((prerem[mi as int]).0 <= x <= prerem[mi as int].1);
                        assert(covered(prerem, x));
                    }
                }
                if covered(rem@, x) {
                    let t = choose|t: int|
                        0 <= t < rem@.len() && (#[trigger] rem@[t]).0 <= x <= rem@[t].1;
                    if t < mi {
                        assert((prerem[t]).0 <= x <= prerem[t].1);
                    } else {
                        assert(rem@[t] == prerem.update(mi as int, prerem.last())[t]);
                    }
                    assert(covered(prerem, x));
                }
                if covered(orig, x) {
                    if covered(presorted, x) {
                        let t = choose|t: int|
                            0 <= t < presorted.len() && (#[trigger] presorted[t]).0 <= x
                                <= presorted[t].1;
                        assert((sorted@[t]).0 <= x <= sorted@[t].1);
                    } else {
                        assert(covered(prerem, x));
                        let t = choose|t: int|
                            0 <= t < prerem.len() && (#[trigger] prerem[t]).0 <= x <= prerem[t].1;
                        if t == mi {
                            assert((sorted@[sorted@.len() - 1]).0 <= x <= sorted@[sorted@.len()
                                - 1].1);
                        } else if t == prerem.len() - 1 && mi < prerem.len() - 1 {
                            assert(rem@[mi as int] == prerem[t]);
                            assert(covered(rem@, x));
                        } else {
                            assert(rem@[t] == prerem[t]);
                            assert(covered(rem@, x));
                        }
                    }
                }
            };
        }
    }

    // merge overlapping or touching ranges
    let mut merged: Vec<(u64, u64)> = Vec::new();
    let ghost sortedv = sorted@;
    let mut k2: usize = 0;
    while k2 < sorted.len()
        invariant
            0 <= k2 <= sorted@.len(),
            sortedv == sorted@,
            forall|t: int| 0 <= t < sortedv.len() ==> (#[trigger] sortedv[t]).0 <= sortedv[t].1,
            forall|t1: int, t2: int|
                0 <= t1 < t2 < sortedv.len() ==> (#[trigger] sortedv[t1]).0 <= (
                #[trigger] sortedv[t2]).0,
            forall|t: int| 0 <= t < merged@.len() ==> (#[trigger] merged@[t]).0 <= merged@[t].1,
            forall|t: int|
                0 <= t < merged@.len() - 1 ==> (#[trigger] merged@[t]).1 + 1 < merged@[t + 1].0,
            forall|x: int| covered(merged@, x) <==> covered(sortedv.subrange(0, k2 as int), x),
            merged@.len() > 0 && k2 < sortedv.len() ==> (merged@.last().0 <= sortedv[k2 as int].0),
            merged@.len() == 0 ==> k2 == 0,
        decreases sorted@.len() - k2,
    {
        let (a, b) = sorted[k2];
        let ghost premerged = merged@;
        let mlen = merged.len();
        let mut extended = false;
        let ghost mut lastg: (u64, u64) = (0u64, 0u64);
        if mlen > 0 {
            let last = merged[mlen - 1];
            proof {
                lastg = last;
            }
            let touches = a <= last.1 || (a >= 1 && a - 1 <= last.1);
            if touches {
                let newend = if b > last.1 {
                    b
                } else {
                    last.1
                };
                merged[mlen - 1] = (last.0, newend);
                extended = true;
            }
        }
        if !extended {
            merged.push((a, b));
        }
        proof {
            assert(sortedv.subrange(0, k2 + 1).drop_last() =~= sortedv.subrange(0, k2 as int));
            if extended {
                assert(merged@ == premerged.update(premerged.len() - 1, merged@.last()));
                assert(merged@.last().0 == lastg.0);
                assert(merged@.last().1 >= lastg.1);
                assert(merged@.last().1 >= b);
                assert(a <= lastg.1 + 1);
                assert(lastg.0 <= a);
            }
            assert forall|x: int| covered(merged@, x) <==> covered(
                sortedv.subrange(0, k2 + 1),
                x,
            ) by {
                let prefix = sortedv.subrange(0, k2 as int);
                let prefix1 = sortedv.subrange(0, k2 + 1);
                assert(prefix1[k2 as int] == sortedv[k2 as int]);
                if covered(merged@, x) {
                    let t = choose|t: int|
                        0 <= t < merged@.len() && (#[trigger] merged@[t]).0 <= x <= merged@[t].1;
                    if t < premerged.len() && merged@[t] == premerged[t] {
                        assert(covered(premerged, x));
                        assert(covered(prefix, x));
                        let w = choose|w: int|
                            0 <= w < prefix.len() && (#[trigger] prefix[w]).0 <= x <= prefix[w].1;
                        assert((prefix1[w]).0 <= x <= prefix1[w].1);
                    } else if extended {
                        assert(t == premerged.len() - 1);
                        if x <= lastg.1 {
                            assert((premerged[t]).0 <= x <= premerged[t].1);
                            assert(covered(premerged, x));
                            assert(covered(prefix, x));
                            let w = choose|w: int|
                                0 <= w < prefix.len() && (#[trigger] prefix[w]).0 <= x
                                    <= prefix[w].1;
                            assert((prefix1[w]).0 <= x <= prefix1[w].1);
                        } else {
                            assert(a <= x <= b);
                            assert((prefix1[k2 as int]).0 <= x <= prefix1[k2 as int].1);
                        }
                    } else {
                        assert(merged@[t] == (a, b));
                        assert((prefix1[k2 as int]).0 <= x <= prefix1[k2 as int].1);
                    }
                }
                if covered(prefix1, x) {
                    let w = choose|w: int|
                        0 <= w < prefix1.len() && (#[trigger] prefix1[w]).0 <= x <= prefix1[w].1;
                    if w < k2 {
                        assert((prefix[w]).0 <= x <= prefix[w].1);
                        assert(covered(prefix, x));
                        assert(covered(premerged, x));
                        let t = choose|t: int|
                            0 <= t < premerged.len() && (#[trigger] premerged[t]).0 <= x
                                <= premerged[t].1;
                        if extended && t == premerged.len() - 1 {
                            assert(merged@[t].0 == lastg.0 && merged@[t].1 >= lastg.1);
                            assert((merged@[t]).0 <= x <= merged@[t].1);
                        } else {
                            assert(merged@[t] == premerged[t]);
                            assert((merged@[t]).0 <= x <= merged@[t].1);
                        }
                    } else {
                        assert(a <= x <= b);
                        assert((merged@[merged@.len() - 1]).0 <= x <= merged@[merged@.len()
                            - 1].1);
                    }
                }
            };
        }
        k2 = k2 + 1;
    }
    proof {
        assert(sortedv.subrange(0, sortedv.len() as int) =~= sortedv);
    }

    // add up the merged lengths
    let ghost mergedv = merged@;
    let mut total: u64 = 0;
    let mut k3: usize = 0;
    while k3 < merged.len()
        invariant
            0 <= k3 <= merged@.len(),
            mergedv == merged@,
            forall|t: int| 0 <= t < mergedv.len() ==> (#[trigger] mergedv[t]).0 <= mergedv[t].1,
            total as int == clamp_u64(sizes_sum(mergedv.subrange(0, k3 as int))),
        decreases merged@.len() - k3,
    {
        proof {
            assert(mergedv.subrange(0, k3 + 1).drop_last() =~= mergedv.subrange(0, k3 as int));
            lemma_sizes_sum_nonneg(mergedv.subrange(0, k3 as int));
        }
        let (a, b) = merged[k3];
        let size_less = b - a;
        total = total.saturating_add(size_less).saturating_add(1);
        k3 = k3 + 1;
    }
    proof {
        assert(mergedv.subrange(0, mergedv.len() as int) =~= mergedv);
    }
    total
}

/// How many of the listed identifiers lie in some range.
pub open spec fn fresh_count(ids: Seq<u64>, ranges: Seq<(u64, u64)>) -> int
    decreases ids.len(),
{
    if ids.len() == 0 {
        0
    } else {
        fresh_count(ids.drop_last(), ranges) + if covered(ranges, ids.last() as int) {
            1int
        } else {
            0int
        }
    }
}

/// Counts the listed identifiers that lie in some range.
pub fn count_fresh(ids: &Vec<u64>, ranges: &Vec<(u64, u64)>) -> (r: usize)
    ensures
        r as int == fresh_count(ids@, ranges@),
{
    let n = ids.len();
    let mut count: usize = 0;
    let mut i: usize = 0;
    while i < n
        invariant
            0 <= i <= n,
            n == ids@.len(),
            count <= i,
            count as int == fresh_count(ids@.subrange(0, i as int), ranges@),
        decreases n - i,
    {
        proof {
            assert(ids@.subrange(0, i + 1).drop_last() =~= ids@.subrange(0, i as int));
        }
        if is_fresh(ids[i], ranges) {
            count = count + 1;
        }
        i = i + 1;
    }
    proof {
        assert(ids@.subrange(0, n as int) =~= ids@);
    }
    count
}

} // verus!
