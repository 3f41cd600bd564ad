//! Shared text model: lines, trimming, and decimal numbers.
//!
//! The puzzle inputs are plain text.  This module gives the other modules a
//! common mathematical model of that text — a `Seq<char>` view split into
//! lines, stripped of surrounding blanks, or read as a decimal number — and
//! executable functions proved against that model.

use vstd::prelude::*;
use vstd::string::StrSliceExecFns;

verus! {

/// The character is an ASCII decimal digit.
pub open spec fn spec_is_digit(c: char) -> bool {
    '0' <= c && c <= '9'
}

/// Numeric value of one decimal digit.
pub open spec fn digit_val(c: char) -> int
    recommends
        spec_is_digit(c),
{
    c as int - '0' as int
}

/// Every character of `s` is a decimal digit.
pub open spec fn all_digits(s: Seq<char>) -> bool {
    forall|i: int| 0 <= i < s.len() ==> spec_is_digit(#[trigger] s[i])
}

/// Value of a digit string, most significant digit first.
pub open spec fn num_val(s: Seq<char>) -> int
    recommends
        all_digits(s),
    decreases s.len(),
{
    if s.len() == 0 {
        0
    } else {
        num_val(s.drop_last()) * 10 + digit_val(s.last())
    }
}

/// The value of a digit string is never negative.
pub proof fn lemma_num_val_nonneg(s: Seq<char>)
    requires
        all_digits(s),
    ensures
        num_val(s) >= 0,
    decreases s.len(),
{
    if s.len() > 0 {
        assert(all_digits(s.drop_last()));
        lemma_num_val_nonneg(s.drop_last());
    }
}

/// Appending digits never shrinks the value: a long digit string is worth at
/// least as much as any of its prefixes.
pub proof fn lemma_num_val_prefix_le(s: Seq<char>, n: int)
    requires
        all_digits(s),
        0 <= n <= s.len(),
    ensures
        num_val(s.subrange(0, n)) <= num_val(s),
    decreases s.len() - n,
{
    if n < s.len() {
        let t = s.subrange(0, n + 1);
        assert(t.drop_last() =~= s.subrange(0, n));
        assert(all_digits(t));
        lemma_num_val_nonneg(t.drop_last());
        assert(num_val(t) == num_val(s.subrange(0, n)) * 10 + digit_val(s[n]));
        lemma_num_val_prefix_le(s, n + 1);
    } else {
        assert(s.subrange(0, n) =~= s);
    }
}

/// Whether an exec character is a digit, tied to the spec notion.
pub fn is_digit(c: char) -> (r: bool)
    ensures
        r == spec_is_digit(c),
{
    '0' <= c && c <= '9'
}

/// Reads `s` as an unsigned decimal number.
///
/// Returns `Some` exactly when `s` is a non-empty all-digit string whose
/// value fits in a `u64`, and then the value is `num_val(s@)`.
pub fn parse_u64(s: &str) -> (r: Option<u64>)
    ensures
        match r {
            Some(v) => s@.len() > 0 && all_digits(s@) && v == num_val(s@),
            None => s@.len() == 0 || !all_digits(s@) || num_val(s@) > u64::MAX,
        },
{
    let n = s.unicode_len();
    if n == 0 {
        return None;
    }
    let mut acc: u64 = 0;
    let mut i: usize = 0;
    while i < n
        invariant
            0 <= i <= n,
            n == s@.len(),
            all_digits(s@.subrange(0, i as int)),
            acc == num_val(s@.subrange(0, i as int)),
        decreases n - i,
    {
        let c = s.get_char(i);
        if !is_digit(c) {
            return None;
        }
        let d: u64 = (c as u32 - '0' as u32) as u64;
        proof {
            assert(s@.subrange(0, i + 1).drop_last() =~= s@.subrange(0, i as int));
            assert(all_digits(s@.subrange(0, i + 1)));
        }
        let widened = match acc.checked_mul(10) {
            Some(x) => x.checked_add(d),
            None => None,
        };
        match widened {
            Some(x) => {
                acc = x;
            },
            None => {
                proof {
                    if all_digits(s@) {
                        lemma_num_val_prefix_le(s@, i + 1);
                    }
                }
                return None;
            },
        }
        i = i + 1;
    }
    proof {
        assert(s@.subrange(0, n as int) =~= s@);
    }
    Some(acc)
}

/// The value a signed decimal string denotes: an optional leading minus
/// sign followed by at least one digit.
pub open spec fn signed_ok(s: Seq<char>) -> bool {
    if s.len() > 0 && s[0] == '-' {
        s.len() > 1 && all_digits(s.subrange(1, s.len() as int))
    } else {
        s.len() > 0 && all_digits(s)
    }
}

/// Value of a signed decimal string.
pub open spec fn signed_val(s: Seq<char>) -> int
    recommends
        signed_ok(s),
{
    if s.len() > 0 && s[0] == '-' {
        -num_val(s.subrange(1, s.len() as int))
    } else {
        num_val(s)
    }
}

/// Reads `s` as a signed decimal number.
///
/// Returns `Some` exactly when `s` is an optional minus sign followed by a
/// non-empty digit string whose value fits in an `i64`, and then the value
/// is `signed_val(s@)`.
pub fn parse_i64(s: &str) -> (r: Option<i64>)
    ensures
        match r {
            Some(v) => signed_ok(s@) && v == signed_val(s@) && i64::MIN <= signed_val(s@)
                <= i64::MAX,
            None => !signed_ok(s@) || signed_val(s@) < i64::MIN || signed_val(s@) > i64::MAX,
        },
{
    let n = s.unicode_len();
    if n == 0 {
        return None;
    }
    if s.get_char(0) == '-' {
        let digits = s.substring_char(1, n);
        let ghost d = s@.subrange(1, s@.len() as int);
        match parse_u64(digits) {
            Some(v) => {
                if v > 9223372036854775808u64 {
                    proof {
                        if signed_ok(s@) {
                            assert(signed_val(s@) == -num_val(d));
                        }
                    }
                    None
                } else if v == 9223372036854775808u64 {
                    Some(i64::MIN)
                } else {
                    Some(-(v as i64))
                }
            },
            None => {
                proof {
                    if signed_ok(s@) {
                        lemma_num_val_nonneg(d);
                        assert(num_val(d) > u64::MAX);
                    }
                }
                None
            },
        }
    } else {
        match parse_u64(s) {
            Some(v) => {
                if v > i64::MAX as u64 {
                    None
                } else {
                    Some(v as i64)
                }
            },
            None => {
                proof {
                    if signed_ok(s@) {
                        lemma_num_val_nonneg(s@);
                    }
                }
                None
            },
        }
    }
}

/// Splitting on a separator, keeping every (possibly empty) segment, the way
/// `str::split` does: the empty text has one empty segment.
pub open spec fn spec_split(s: Seq<char>, sep: char) -> Seq<Seq<char>>
    decreases s.len(),
{
    if s.len() == 0 {
        seq![Seq::<char>::empty()]
    } else if s[0] == sep {
        seq![Seq::<char>::empty()] + spec_split(s.subrange(1, s.len() as int), sep)
    } else {
        let rest = spec_split(s.subrange(1, s.len() as int), sep);
        seq![seq![s[0]] + rest[0]] + rest.subrange(1, rest.len() as int)
    }
}

/// A split always has at least one segment.
pub proof fn lemma_split_len(s: Seq<char>, sep: char)
    ensures
        spec_split(s, sep).len() >= 1,
    decreases s.len(),
{
    if s.len() > 0 {
        lemma_split_len(s.subrange(1, s.len() as int), sep);
    }
}

/// With the first separator at position `k` (or none up to the end), the
/// split is the head segment followed by the split of the remainder.
pub proof fn lemma_split_first_sep(s: Seq<char>, sep: char, k: int)
    requires
        0 <= k <= s.len(),
        forall|j: int| 0 <= j < k ==> s[j] != sep,
        k == s.len() || s[k] == sep,
    ensures
        k == s.len() ==> spec_split(s, sep) == seq![s],
        k < s.len() ==> spec_split(s, sep) == seq![s.subrange(0, k)] + spec_split(
            s.subrange(k + 1, s.len() as int),
            sep,
        ),
    decreases s.len(),
{
    lemma_split_len(s, sep);
    if s.len() == 0 {
        assert(spec_split(s, sep) =~~= seq![s]);
    } else if k == 0 {
        assert(s.subrange(0, 0) =~= Seq::<char>::empty());
        assert(spec_split(s, sep) =~~= seq![s.subrange(0, 0)] + spec_split(
            s.subrange(1, s.len() as int),
            sep,
        ));
    } else {
        let tail = s.subrange(1, s.len() as int);
        lemma_split_first_sep(tail, sep, k - 1);
        lemma_split_len(tail, sep);
        let rest = spec_split(tail, sep);
        if k == s.len() {
            assert(rest == seq![tail]);
            assert(seq![s[0]] + rest[0] =~= s);
            assert(rest.subrange(1, rest.len() as int) =~= Seq::<Seq<char>>::empty());
            assert(spec_split(s, sep) =~~= seq![s]);
        } else {
            let cont = spec_split(tail.subrange(k, tail.len() as int), sep);
            assert(rest == seq![tail.subrange(0, k - 1)] + cont);
            assert(rest[0] == tail.subrange(0, k - 1));
            assert(seq![s[0]] + rest[0] =~= s.subrange(0, k));
            assert(rest.subrange(1, rest.len() as int) =~= cont);
            assert(tail.subrange(k, tail.len() as int) =~= s.subrange(k + 1, s.len() as int));
            assert(spec_split(s, sep) =~~= seq![s.subrange(0, k)] + spec_split(
                s.subrange(k + 1, s.len() as int),
                sep,
            ));
        }
    }
}

/// Splits `s` at every occurrence of `sep`, keeping empty segments.
pub fn split_of<'a>(s: &'a str, sep: char) -> (r: Vec<&'a str>)
    ensures
        r@.len() == spec_split(s@, sep).len(),
        forall|i: int| 0 <= i < r@.len() ==> #[trigger] r@[i]@ == spec_split(s@, sep)[i],
{
    let n = s.unicode_len();
    let ghost full = spec_split(s@, sep);
    let mut r: Vec<&'a str> = Vec::new();
    let mut start: usize = 0;
    let mut i: usize = 0;
    proof {
        assert(s@.subrange(0, n as int) =~= s@);
    }
    while i < n
        invariant
            0 <= start <= i <= n,
            n == s@.len(),
            full == spec_split(s@, sep),
            forall|j: int| start <= j < i ==> s@[j] != sep,
            r@.len() + spec_split(s@.subrange(start as int, n as int), sep).len() == full.len(),
            forall|j: int| 0 <= j < r@.len() ==> #[trigger] r@[j]@ == full[j],
            forall|j: int|
                0 <= j < spec_split(s@.subrange(start as int, n as int), sep).len() ==> #[trigger] spec_split(
                    s@.subrange(start as int, n as int),
                    sep,
                )[j] == full[r@.len() + j],
        decreases n - i,
    {
        if s.get_char(i) == sep {
            let ghost oldstart = start as int;
            let ghost oldlen = r@.len() as int;
            let seg = s.substring_char(start, i);
            r.push(seg);
            start = i + 1;
            proof {
                let suffix = s@.subrange(oldstart, n as int);
                let newsuffix = s@.subrange(i + 1, n as int);
                lemma_split_first_sep(suffix, sep, i - oldstart);
                assert(suffix.subrange(0, i - oldstart) =~= s@.subrange(oldstart, i as int));
                assert(suffix.subrange(i - oldstart + 1, suffix.len() as int) =~= newsuffix);
                assert(spec_split(suffix, sep) == seq![s@.subrange(oldstart, i as int)]
                    + spec_split(newsuffix, sep));
                assert(r@[oldlen]@ == spec_split(suffix, sep)[0]);
                assert(forall|j: int|
                    0 <= j < spec_split(newsuffix, sep).len() ==> #[trigger] spec_split(
                        newsuffix,
                        sep,
                    )[j] == spec_split(suffix, sep)[j + 1]);
            }
        }
        i = i + 1;
    }
    let ghost oldlen = r@.len() as int;
    let seg = s.substring_char(start, n);
    r.push(seg);
    proof {
        let suffix = s@.subrange(start as int, n as int);
        lemma_split_first_sep(suffix, sep, n - start);
        assert(spec_split(suffix, sep) == seq![suffix]);
        assert(spec_split(s@.subrange(start as int, n as int), sep)[0] == spec_split(
            s@,
            sep,
        )[oldlen + 0]);
        assert(r@[oldlen]@ == spec_split(s@, sep)[oldlen]);
    }
    r
}

/// A line segment without its trailing carriage return, if one is there.
pub open spec fn strip_cr(seg: Seq<char>) -> Seq<char> {
    if seg.len() > 0 && seg.last() == '\r' {
        seg.drop_last()
    } else {
        seg
    }
}

/// The newline-separated segments of a text, without a final empty
/// segment after a trailing newline.
pub open spec fn raw_lines(s: Seq<char>) -> Seq<Seq<char>> {
    if s.len() == 0 {
        Seq::empty()
    } else if s.last() == '\n' {
        spec_split(s, '\n').drop_last()
    } else {
        spec_split(s, '\n')
    }
}

/// The lines of a text: newline-separated segments, each without a
/// trailing carriage return, the way `str::lines` reads them.
pub open spec fn spec_lines(s: Seq<char>) -> Seq<Seq<char>> {
    raw_lines(s).map_values(|seg: Seq<char>| strip_cr(seg))
}

/// Splits `s` into its lines.
pub fn lines_of<'a>(s: &'a str) -> (r: Vec<&'a str>)
    ensures
        r@.len() == spec_lines(s@).len(),
        forall|i: int| 0 <= i < r@.len() ==> #[trigger] r@[i]@ == spec_lines(s@)[i],
{
    let mut segs = split_of(s, '\n');
    let n = s.unicode_len();
    proof {
        lemma_split_len(s@, '\n');
    }
    if n == 0 {
        let r: Vec<&'a str> = Vec::new();
        return r;
    }
    if s.get_char(n - 1) == '\n' {
        proof {
            let suffix = s@.subrange(n - 1 + 1, n as int);
            lemma_split_first_sep(suffix, '\n', 0);
            // the last segment of the split is empty exactly here
            lemma_split_last_empty(s@, '\n');
        }
        let _ = segs.pop();
    }
    let ghost raw = raw_lines(s@);
    proof {
        assert(segs@.len() == raw.len());
        assert(forall|i: int| 0 <= i < segs@.len() ==> #[trigger] segs@[i]@ == raw[i]);
    }
    // drop one trailing carriage return from each line
    let mut out: Vec<&'a str> = Vec::new();
    let mut i: usize = 0;
    while i < segs.len()
        invariant
            0 <= i <= segs@.len(),
            segs@.len() == raw.len(),
            raw == raw_lines(s@),
            forall|t: int| 0 <= t < segs@.len() ==> #[trigger] segs@[t]@ == raw[t],
            out@.len() == i,
            forall|t: int| 0 <= t < i ==> #[trigger] out@[t]@ == strip_cr(raw[t]),
        decreases segs@.len() - i,
    {
        let seg = segs[i];
        let n2 = seg.unicode_len();
        if n2 > 0 && seg.get_char(n2 - 1) == '\r' {
            let stripped = seg.substring_char(0, n2 - 1);
            proof {
                assert(stripped@ =~= strip_cr(raw[i as int]));
            }
            out.push(stripped);
        } else {
            out.push(seg);
        }
        i = i + 1;
    }
    out
}

/// A text ending in the separator has an empty last segment.
pub proof fn lemma_split_last_empty(s: Seq<char>, sep: char)
    requires
        s.len() > 0,
        s.last() == sep,
    ensures
        spec_split(s, sep).len() >= 2,
        spec_split(s, sep).last() == Seq::<char>::empty(),
    decreases s.len(),
{
    lemma_split_len(s, sep);
    if s.len() == 1 {
        assert(s.subrange(1, 1) =~= Seq::<char>::empty());
        assert(spec_split(s, sep) == seq![Seq::<char>::empty()] + spec_split(
            s.subrange(1, 1),
            sep,
        ));
    } else {
        let tail = s.subrange(1, s.len() as int);
        assert(tail.last() == s.last());
        lemma_split_last_empty(tail, sep);
        let rest = spec_split(tail, sep);
        if s[0] != sep {
            assert(spec_split(s, sep).last() == rest.subrange(1, rest.len() as int).last());
        }
    }
}

/// A blank character: space, tab, carriage return, or newline.
pub open spec fn is_blank(c: char) -> bool {
    c == ' ' || c == '\t' || c == '\r' || c == '\n'
}

/// `s` with leading blanks removed.
pub open spec fn spec_trim_start(s: Seq<char>) -> Seq<char>
    decreases s.len(),
{
    if s.len() > 0 && is_blank(s[0]) {
        spec_trim_start(s.subrange(1, s.len() as int))
    } else {
        s
    }
}

/// `s` with trailing blanks removed.
pub open spec fn spec_trim_end(s: Seq<char>) -> Seq<char>
    decreases s.len(),
{
    if s.len() > 0 && is_blank(s.last()) {
        spec_trim_end(s.drop_last())
    } else {
        s
    }
}

/// `s` with blanks removed at both ends.
pub open spec fn spec_trim(s: Seq<char>) -> Seq<char> {
    spec_trim_end(spec_trim_start(s))
}

pub proof fn lemma_trim_start_at(s: Seq<char>, a: int)
    requires
        0 <= a <= s.len(),
        forall|j: int| 0 <= j < a ==> is_blank(s[j]),
        a == s.len() || !is_blank(s[a]),
    ensures
        spec_trim_start(s) =~= s.subrange(a, s.len() as int),
    decreases a,
{
    if a == 0 {
        assert(s.subrange(0, s.len() as int) =~= s);
    } else {
        let tail = s.subrange(1, s.len() as int);
        lemma_trim_start_at(tail, a - 1);
        assert(tail.subrange(a - 1, tail.len() as int) =~= s.subrange(a, s.len() as int));
    }
}

pub proof fn lemma_trim_end_at(s: Seq<char>, b: int)
    requires
        0 <= b <= s.len(),
        forall|j: int| b <= j < s.len() ==> is_blank(s[j]),
        b == 0 || !is_blank(s[b - 1]),
    ensures
        spec_trim_end(s) =~= s.subrange(0, b),
    decreases s.len() - b,
{
    if b == s.len() {
        assert(s.subrange(0, s.len() as int) =~= s);
    } else {
        lemma_trim_end_at(s.drop_last(), b);
        assert(s.drop_last().subrange(0, b) =~= s.subrange(0, b));
    }
}

/// Removes blanks from both ends of `s`.
pub fn trim_of<'a>(s: &'a str) -> (r: &'a str)
    ensures
        r@ == spec_trim(s@),
{
    let n = s.unicode_len();
    let mut a: usize = 0;
    while a < n && is_blank_char(s.get_char(a))
        invariant
            0 <= a <= n,
            n == s@.len(),
            forall|j: int| 0 <= j < a ==> is_blank(s@[j]),
        decreases n - a,
    {
        a = a + 1;
    }
    let mut b: usize = n;
    while b > a && is_blank_char(s.get_char(b - 1))
        invariant
            a <= b <= n,
            n == s@.len(),
            forall|j: int| 0 <= j < a ==> is_blank(s@[j]),
            forall|j: int| b <= j < n ==> is_blank(s@[j]),
        decreases b,
    {
        b = b - 1;
    }
    proof {
        lemma_trim_start_at(s@, a as int);
        let t = s@.subrange(a as int, n as int);
        if b == a {
            lemma_trim_end_at(t, 0);
        } else {
            lemma_trim_end_at(t, b - a);
        }
        assert(t.subrange(0, b - a) =~= s@.subrange(a as int, b as int));
    }
    s.substring_char(a, b)
}

/// Whether an exec character is blank, tied to the spec notion.
pub fn is_blank_char(c: char) -> (r: bool)
    ensures
        r == is_blank(c),
{
    c == ' ' || c == '\t' || c == '\r' || c == '\n'
}

/// Whether two texts hold the same characters.
pub fn str_eq(a: &str, b: &str) -> (r: bool)
    ensures
        r == (a@ == b@),
{
    let n = a.unicode_len();
    if n != b.unicode_len() {
        return false;
    }
    let mut i: usize = 0;
    while i < n
        invariant
            0 <= i <= n,
            n == a@.len() == b@.len(),
            forall|j: int| 0 <= j < i ==> a@[j] == b@[j],
        decreases n - i,
    {
        if a.get_char(i) != b.get_char(i) {
            return false;
        }
        i = i + 1;
    }
    proof {
        assert(a@ =~= b@);
    }
    true
}

/// The characters of `s` as a vector.
pub fn chars_of(s: &str) -> (r: Vec<char>)
    ensures
        r@ == s@,
{
    let n = s.unicode_len();
    let mut r: Vec<char> = Vec::new();
    let mut i: usize = 0;
    while i < n
        invariant
            0 <= i <= n,
            n == s@.len(),
            r@ =~= s@.subrange(0, i as int),
        decreases n - i,
    {
        r.push(s.get_char(i));
        i = i + 1;
    }
    proof {
        assert(s@.subrange(0, n as int) =~= s@);
    }
    r
}

} // verus!
