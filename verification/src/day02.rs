//! Invalid product identifiers: numbers whose decimal digits repeat.
//!
//! A number is invalid when its digit string is one block written twice
//! (first part), or any block written at least twice (second part).  The
//! puzzle input lists inclusive ranges; each part sums the invalid numbers
//! over every range.

use vstd::prelude::*;
use vstd::string::StrSliceExecFns;

use crate::text::all_digits;
use crate::text::lines_of;
use crate::text::num_val;
use crate::text::parse_u64;
use crate::text::spec_lines;
use crate::text::spec_split;
use crate::text::spec_trim;
use crate::text::split_of;
use crate::text::trim_of;

verus! {

/// The decimal digits of `n`, most significant first; zero is one digit.
pub open spec fn digits(n: int) -> Seq<int>
    decreases n,
{
    if n < 10 {
        seq![n]
    } else {
        digits(n / 10).push(n % 10)
    }
}

/// The digit string of `n` is some block of digits written exactly twice.
pub open spec fn spec_is_invalid(n: int) -> bool {
    let d = digits(n);
    d.len() % 2 == 0 && (forall|k: int| 0 <= k < d.len() / 2 ==> #[trigger] d[k] == d[k + d.len() / 2])
}

/// The digit string of `n` has period `p`: every digit repeats `p` later.
pub open spec fn has_period(d: Seq<int>, p: int) -> bool {
    1 <= p <= d.len() / 2 && d.len() % (p as nat) == 0 && (forall|k: int|
        p <= k < d.len() ==> #[trigger] d[k] == d[k - p])
}

/// The digit string of `n` is some block of digits written at least twice.
pub open spec fn spec_is_invalid_v2(n: int) -> bool {
    exists|p: int| has_period(digits(n), p)
}

/// The integer values of an exec digit vector.
pub open spec fn ints(s: Seq<u64>) -> Seq<int> {
    s.map_values(|x: u64| x as int)
}

/// The decimal digits of `n`, least significant first.
fn digits_of(n: u64) -> (r: Vec<u64>)
    ensures
        ints(r@).reverse() == digits(n as int),
        r@.len() >= 1,
{
    let mut ds: Vec<u64> = Vec::new();
    let mut m = n;
    while m >= 10
        invariant
            digits(n as int) =~= digits(m as int) + ints(ds@).reverse(),
        decreases m,
    {
        let d = m % 10;
        let ghost oldds = ds@;
        ds.push(d);
        m = m / 10;
        proof {
            assert(ints(ds@) =~= ints(oldds).push(d as int));
            assert(ints(ds@).reverse() =~= seq![d as int] + ints(oldds).reverse());
            assert(digits(m as int) + ints(ds@).reverse() =~= (digits(m as int) + seq![
                d as int]) + ints(oldds).reverse());
            assert(digits(m as int).push(d as int) =~= digits(m as int) + seq![d as int]);
        }
    }
    let ghost oldds = ds@;
    ds.push(m);
    proof {
        assert(digits(m as int) =~= seq![m as int]);
        assert(ints(ds@) =~= ints(oldds).push(m as int));
        assert(ints(ds@).reverse() =~= seq![m as int] + ints(oldds).reverse());
    }
    ds
}

/// Whether the digits of `n` are one block written exactly twice.
pub fn is_invalid_id(n: u64) -> (r: bool)
    ensures
        r == spec_is_invalid(n as int),
{
    let ds = digits_of(n);
    let len = ds.len();
    let ghost d = digits(n as int);
    proof {
        assert(d.len() == len);
        assert(forall|j: int| 0 <= j < len ==> d[j] == ints(ds@).reverse()[j]);
        assert(forall|j: int| 0 <= j < len ==> d[j] == ds@[len - 1 - j] as int);
    }
    if len % 2 != 0 {
        return false;
    }
    let half = len / 2;
    let mut k: usize = 0;
    while k < half
        invariant
            0 <= k <= half,
            half == len / 2,
            len % 2 == 0,
            len == ds@.len(),
            d == digits(n as int),
            d.len() == len,
            forall|j: int| 0 <= j < len ==> d[j] == ds@[len - 1 - j] as int,
            forall|t: int| 0 <= t < k ==> #[trigger] d[t] == d[t + half],
        decreases half - k,
    {
        // comparing digit `k` with digit `k + half` from the front is
        // comparing positions `half - 1 - k` and `len - 1 - k` from the back
        if ds[len - 1 - k] != ds[half - 1 - k] {
            proof {
                assert(d[k as int] == ds@[len - 1 - k] as int);
                assert(d[k + half] == ds@[len - 1 - (k + half)] as int);
            }
            return false;
        }
        k = k + 1;
    }
    proof {
        assert forall|t: int| 0 <= t < d.len() / 2 implies #[trigger] d[t] == d[t + d.len() / 2] by {
            assert(d[t] == d[t + half]);
        };
    }
    true
}

/// Whether the digits of `n` are some block written at least twice.
pub fn is_invalid_id_v2(n: u64) -> (r: bool)
    ensures
        r == spec_is_invalid_v2(n as int),
{
    let ds = digits_of(n);
    let len = ds.len();
    let ghost d = digits(n as int);
    proof {
        assert(d.len() == len);
        assert(forall|j: int| 0 <= j < len ==> d[j] == ints(ds@).reverse()[j]);
        assert(forall|j: int| 0 <= j < len ==> d[j] == ds@[len - 1 - j] as int);
    }
    if len < 2 {
        proof {
            assert forall|p: int| !has_period(d, p) by {}
        }
        return false;
    }
    let mut p: usize = 1;
    while p <= len / 2
        invariant
            1 <= p <= len / 2 + 1,
            len == ds@.len(),
            len >= 2,
            d == digits(n as int),
            d.len() == len,
            forall|j: int| 0 <= j < len ==> d[j] == ds@[len - 1 - j] as int,
            forall|q: int| 1 <= q < p ==> !has_period(d, q),
        decreases len / 2 + 1 - p,
    {
        if len % p == 0 {
            let mut k: usize = p;
            let mut matches = true;
            while k < len
                invariant
                    p <= k <= len,
                    1 <= p <= len / 2,
                    len == ds@.len(),
                    d.len() == len,
                    forall|j: int| 0 <= j < len ==> d[j] == ds@[len - 1 - j] as int,
                    matches == (forall|t: int| p <= t < k ==> #[trigger] d[t] == d[t - p]),
                decreases len - k,
            {
                // digit `k` from the front sits `len - 1 - k` from the back
                if ds[len - 1 - k] != ds[len - 1 - (k - p)] {
                    proof {
                        assert(d[k as int] == ds@[len - 1 - k] as int);
                        assert(d[k - p] == ds@[len - 1 - (k - p)] as int);
                    }
                    matches = false;
                }
                k = k + 1;
            }
            if matches {
                proof {
                    assert(has_period(d, p as int));
                }
                return true;
            }
            proof {
                assert(!has_period(d, p as int));
            }
        } else {
            proof {
                assert(!has_period(d, p as int));
            }
        }
        p = p + 1;
    }
    proof {
        assert forall|q: int| !has_period(d, q) by {
            if 1 <= q <= len / 2 {
                assert(!has_period(d, q));
            }
        }
    }
    false
}

/// Sum of the invalid numbers in the inclusive range, by the two-block rule.
pub open spec fn range_sum(lo: int, hi: int) -> int
    decreases hi + 1 - lo,
{
    if lo > hi {
        0
    } else {
        (if spec_is_invalid(lo) {
            lo
        } else {
            0int
        }) + range_sum(lo + 1, hi)
    }
}

/// Sum of the invalid numbers in the inclusive range, by the repeated-block
/// rule.
pub open spec fn range_sum_v2(lo: int, hi: int) -> int
    decreases hi + 1 - lo,
{
    if lo > hi {
        0
    } else {
        (if spec_is_invalid_v2(lo) {
            lo
        } else {
            0int
        }) + range_sum_v2(lo + 1, hi)
    }
}

/// Both range sums never go negative.
proof fn lemma_range_sums_nonneg(lo: int, hi: int)
    requires
        lo >= 0,
    ensures
        range_sum(lo, hi) >= 0,
        range_sum_v2(lo, hi) >= 0,
    decreases hi + 1 - lo,
{
    if lo <= hi {
        lemma_range_sums_nonneg(lo + 1, hi);
    }
}

/// A value clamped to the machine range.
pub open spec fn clamp_u64(x: int) -> int {
    if x <= u64::MAX as int {
        x
    } else {
        u64::MAX as int
    }
}

/// One comma-separated piece read as an inclusive range: two dash-separated
/// decimal numbers.
pub open spec fn piece_range(piece: Seq<char>) -> Option<(int, int)> {
    let parts = spec_split(piece, '-');
    if parts.len() == 2 {
        let a = spec_trim(parts[0]);
        let b = spec_trim(parts[1]);
        if a.len() > 0 && all_digits(a) && num_val(a) <= u64::MAX && b.len() > 0 && all_digits(b)
            && num_val(b) <= u64::MAX {
            Some((num_val(a), num_val(b)))
        } else {
            None
        }
    } else {
        None
    }
}

/// Parses one range piece.
fn parse_piece(piece: &str) -> (r: Option<(u64, u64)>)
    ensures
        match r {
            Some(v) => piece_range(piece@) == Some((v.0 as int, v.1 as int)),
            None => piece_range(piece@) is None,
        },
{
    let parts = split_of(piece, '-');
    if parts.len() != 2 {
        return None;
    }
    let a = match parse_u64(trim_of(parts[0])) {
        Some(x) => x,
        None => {
            proof {
                if all_digits(spec_trim(spec_split(piece@, '-')[0])) {
                    crate::text::lemma_num_val_nonneg(spec_trim(spec_split(piece@, '-')[0]));
                }
            }
            return None;
        },
    };
    let b = match parse_u64(trim_of(parts[1])) {
        Some(x) => x,
        None => {
            proof {
                if all_digits(spec_trim(spec_split(piece@, '-')[1])) {
                    crate::text::lemma_num_val_nonneg(spec_trim(spec_split(piece@, '-')[1]));
                }
            }
            return None;
        },
    };
    Some((a, b))
}

/// Sum over the pieces of one line (empty and malformed pieces skipped),
/// by the two-block rule.
pub open spec fn pieces_sum(pieces: Seq<Seq<char>>) -> int
    decreases pieces.len(),
{
    if pieces.len() == 0 {
        0
    } else {
        pieces_sum(pieces.drop_last()) + {
            let piece = spec_trim(pieces.last());
            if piece.len() == 0 {
                0int
            } else {
                match piece_range(piece) {
                    Some(r) => range_sum(r.0, r.1),
                    None => 0int,
                }
            }
        }
    }
}

/// Sum over the pieces of one line, by the repeated-block rule.
pub open spec fn pieces_sum_v2(pieces: Seq<Seq<char>>) -> int
    decreases pieces.len(),
{
    if pieces.len() == 0 {
        0
    } else {
        pieces_sum_v2(pieces.drop_last()) + {
            let piece = spec_trim(pieces.last());
            if piece.len() == 0 {
                0int
            } else {
                match piece_range(piece) {
                    Some(r) => range_sum_v2(r.0, r.1),
                    None => 0int,
                }
            }
        }
    }
}

/// Sum over every line of the input, by the two-block rule.
pub open spec fn spec_part1(lines: Seq<Seq<char>>) -> int
    decreases lines.len(),
{
    if lines.len() == 0 {
        0
    } else {
        spec_part1(lines.drop_last()) + {
            let line = spec_trim(lines.last());
            if line.len() == 0 {
                0int
            } else {
                pieces_sum(spec_split(line, ','))
            }
        }
    }
}

/// Sum over every line of the input, by the repeated-block rule.
pub open spec fn spec_part2(lines: Seq<Seq<char>>) -> int
    decreases lines.len(),
{
    if lines.len() == 0 {
        0
    } else {
        spec_part2(lines.drop_last()) + {
            let line = spec_trim(lines.last());
            if line.len() == 0 {
                0int
            } else {
                pieces_sum_v2(spec_split(line, ','))
            }
        }
    }
}

/// Clamped sums compose: adding two clamped non-negative parts and
/// clamping again clamps their exact sum.
proof fn lemma_clamp_add(a: int, b: int)
    requires
        a >= 0,
        b >= 0,
    ensures
        clamp_u64(clamp_u64(a) + clamp_u64(b)) == clamp_u64(a + b),
{
}

/// Sums the invalid numbers of one inclusive range, by the two-block rule,
/// clamped to the machine range.
fn sum_range(lo: u64, hi: u64) -> (r: u64)
    ensures
        r as int == clamp_u64(range_sum(lo as int, hi as int)),
{
    if lo > hi {
        return 0;
    }
    let mut total: u64 = 0;
    let mut n = lo;
    loop
        invariant_except_break
            lo <= n <= hi,
            clamp_u64(total as int + range_sum(n as int, hi as int)) == clamp_u64(
                range_sum(lo as int, hi as int),
            ),
        ensures
            total as int == clamp_u64(range_sum(lo as int, hi as int)),
        decreases hi - n,
    {
        proof {
            lemma_range_sums_nonneg(n as int, hi as int);
            lemma_range_sums_nonneg(n + 1, hi as int);
        }
        if is_invalid_id(n) {
            total = total.saturating_add(n);
        }
        if n == hi {
            proof {
                assert(range_sum(hi + 1, hi as int) == 0);
            }
            break ;
        }
        n = n + 1;
    }
    total
}

/// Sums the invalid numbers of one inclusive range, by the repeated-block
/// rule, clamped to the machine range.
fn sum_range_v2(lo: u64, hi: u64) -> (r: u64)
    ensures
        r as int == clamp_u64(range_sum_v2(lo as int, hi as int)),
{
    if lo > hi {
        return 0;
    }
    let mut total: u64 = 0;
    let mut n = lo;
    loop
        invariant_except_break
            lo <= n <= hi,
            clamp_u64(total as int + range_sum_v2(n as int, hi as int)) == clamp_u64(
                range_sum_v2(lo as int, hi as int),
            ),
        ensures
            total as int == clamp_u64(range_sum_v2(lo as int, hi as int)),
        decreases hi - n,
    {
        proof {
            lemma_range_sums_nonneg(n as int, hi as int);
            lemma_range_sums_nonneg(n + 1, hi as int);
        }
        if is_invalid_id_v2(n) {
            total = total.saturating_add(n);
        }
        if n == hi {
            proof {
                assert(range_sum_v2(hi + 1, hi as int) == 0);
            }
            break ;
        }
        n = n + 1;
    }
    total
}

/// Every partial sum in this module is non-negative.
proof fn lemma_pieces_sum_nonneg(pieces: Seq<Seq<char>>)
    ensures
        pieces_sum(pieces) >= 0,
        pieces_sum_v2(pieces) >= 0,
    decreases pieces.len(),
{
    if pieces.len() > 0 {
        lemma_pieces_sum_nonneg(pieces.drop_last());
        let piece = spec_trim(pieces.last());
        if piece.len() > 0 {
            match piece_range(piece) {
                Some(r) => {
                    crate::text::lemma_num_val_nonneg(spec_trim(spec_split(piece, '-')[0]));
                    lemma_range_sums_nonneg(r.0, r.1);
                },
                None => {
                },
            }
        }
    }
}

proof fn lemma_parts_nonneg(lines: Seq<Seq<char>>)
    ensures
        spec_part1(lines) >= 0,
        spec_part2(lines) >= 0,
    decreases lines.len(),
{
    if lines.len() > 0 {
        lemma_parts_nonneg(lines.drop_last());
        let line = spec_trim(lines.last());
        if line.len() > 0 {
            lemma_pieces_sum_nonneg(spec_split(line, ','));
        }
    }
}

/// Sums one line's ranges, by the two-block rule, clamped.
fn line_total(line: &str) -> (r: u64)
    ensures
        r as int == clamp_u64(pieces_sum(spec_split(line@, ','))),
{
    let pieces = split_of(line, ',');
    let ghost pspec = spec_split(line@, ',');
    let mut total: u64 = 0;
    let mut i: usize = 0;
    while i < pieces.len()
        invariant
            0 <= i <= pieces@.len(),
            pieces@.len() == pspec.len(),
            pspec == spec_split(line@, ','),
            forall|t: int| 0 <= t < pieces@.len() ==> #[trigger] pieces@[t]@ == pspec[t],
            total as int == clamp_u64(pieces_sum(pspec.subrange(0, i as int))),
        decreases pieces@.len() - i,
    {
        let ghost done = pspec.subrange(0, i as int);
        proof {
            assert(pspec.subrange(0, i + 1).drop_last() =~= done);
            lemma_pieces_sum_nonneg(done);
        }
        let piece = trim_of(pieces[i]);
        if !piece.is_empty() {
            match parse_piece(piece) {
                Some(range) => {
                    let part = sum_range(range.0, range.1);
                    proof {
                        lemma_range_sums_nonneg(range.0 as int, range.1 as int);
                        lemma_clamp_add(pieces_sum(done), range_sum(range.0 as int, range.1 as int));
                    }
                    total = total.saturating_add(part);
                },
                None => {
                },
            }
        }
        i = i + 1;
    }
    proof {
        assert(pspec.subrange(0, pspec.len() as int) =~= pspec);
    }
    total
}

/// Sums one line's ranges, by the repeated-block rule, clamped.
fn line_total_v2(line: &str) -> (r: u64)
    ensures
        r as int == clamp_u64(pieces_sum_v2(spec_split(line@, ','))),
{
    let pieces = split_of(line, ',');
    let ghost pspec = spec_split(line@, ',');
    let mut total: u64 = 0;
    let mut i: usize = 0;
    while i < pieces.len()
        invariant
            0 <= i <= pieces@.len(),
            pieces@.len() == pspec.len(),
            pspec == spec_split(line@, ','),
            forall|t: int| 0 <= t < pieces@.len() ==> #[trigger] pieces@[t]@ == pspec[t],
            total as int == clamp_u64(pieces_sum_v2(pspec.subrange(0, i as int))),
        decreases pieces@.len() - i,
    {
        let ghost done = pspec.subrange(0, i as int);
        proof {
            assert(pspec.subrange(0, i + 1).drop_last() =~= done);
            lemma_pieces_sum_nonneg(done);
        }
        let piece = trim_of(pieces[i]);
        if !piece.is_empty() {
            match parse_piece(piece) {
                Some(range) => {
                    let part = sum_range_v2(range.0, range.1);
                    proof {
                        lemma_range_sums_nonneg(range.0 as int, range.1 as int);
                        lemma_clamp_add(
                            pieces_sum_v2(done),
                            range_sum_v2(range.0 as int, range.1 as int),
                        );
                    }
                    total = total.saturating_add(part);
                },
                None => {
                },
            }
        }
        i = i + 1;
    }
    proof {
        assert(pspec.subrange(0, pspec.len() as int) =~= pspec);
    }
    total
}

/// Sum of the invalid numbers over every range of the input, by the
/// two-block rule, clamped to the machine range.
pub fn part1(input: &str) -> (r: u64)
    ensures
        r as int == clamp_u64(spec_part1(spec_lines(input@))),
{
    let lines = lines_of(input);
    let ghost lspec = spec_lines(input@);
    let mut total: u64 = 0;
    let mut i: usize = 0;
    while i < lines.len()
        invariant
            0 <= i <= lines@.len(),
            lines@.len() == lspec.len(),
            lspec == spec_lines(input@),
            forall|t: int| 0 <= t < lines@.len() ==> #[trigger] lines@[t]@ == lspec[t],
            total as int == clamp_u64(spec_part1(lspec.subrange(0, i as int))),
        decreases lines@.len() - i,
    {
        let ghost done = lspec.subrange(0, i as int);
        proof {
            assert(lspec.subrange(0, i + 1).drop_last() =~= done);
            lemma_parts_nonneg(done);
        }
        let line = trim_of(lines[i]);
        if !line.is_empty() {
            let lt = line_total(line);
            proof {
                lemma_pieces_sum_nonneg(spec_split(line@, ','));
                lemma_clamp_add(spec_part1(done), pieces_sum(spec_split(line@, ',')));
            }
            total = total.saturating_add(lt);
        }
        i = i + 1;
    }
    proof {
        assert(lspec.subrange(0, lspec.len() as int) =~= lspec);
    }
    total
}

/// Sum of the invalid numbers over every range of the input, by the
/// repeated-block rule, clamped to the machine range.
pub fn part2(input: &str) -> (r: u64)
    ensures
        r as int == clamp_u64(spec_part2(spec_lines(input@))),
{
    let lines = lines_of(input);
    let ghost lspec = spec_lines(input@);
    let mut total: u64 = 0;
    let mut i: usize = 0;
    while i < lines.len()
        invariant
            0 <= i <= lines@.len(),
            lines@.len() == lspec.len(),
            lspec == spec_lines(input@),
            forall|t: int| 0 <= t < lines@.len() ==> #[trigger] lines@[t]@ == lspec[t],
            total as int == clamp_u64(spec_part2(lspec.subrange(0, i as int))),
        decreases lines@.len() - i,
    {
        let ghost done = lspec.subrange(0, i as int);
        proof {
            assert(lspec.subrange(0, i + 1).drop_last() =~= done);
            lemma_parts_nonneg(done);
        }
        let line = trim_of(lines[i]);
        if !line.is_empty() {
            let lt = line_total_v2(line);
            proof {
                lemma_pieces_sum_nonneg(spec_split(line@, ','));
                lemma_clamp_add(spec_part2(done), pieces_sum_v2(spec_split(line@, ',')));
            }
            total = total.saturating_add(lt);
        }
        i = i + 1;
    }
    proof {
        assert(lspec.subrange(0, lspec.len() as int) =~= lspec);
    }
    total
}

} // verus!
