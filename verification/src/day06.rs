//! Worksheet problems written in columns.
//!
//! The input is a grid of digits and operators; all-blank columns separate
//! the problems.  The first part reads each problem's numbers row by row,
//! the second reads them column by column from the right; the operator on
//! the last row (`+` or `*`) combines them.

use vstd::prelude::*;
use vstd::string::StrSliceExecFns;

use crate::text::all_digits;
use crate::text::chars_of;
use crate::text::lines_of;
use crate::text::num_val;
use crate::text::parse_u64;
use crate::text::spec_is_digit;
use crate::text::spec_lines;
use crate::text::spec_trim;
use crate::text::trim_of;

verus! {

/// The longest line length among the first `hi` lines.
pub open spec fn max_len(lines: Seq<Seq<char>>, hi: int) -> int
    decreases hi,
{
    if hi <= 0 {
        0
    } else {
        let rest = max_len(lines, hi - 1);
        if lines[hi - 1].len() > rest {
            lines[hi - 1].len() as int
        } else {
            rest
        }
    }
}

/// Every line fits in the longest length.
proof fn lemma_max_len(lines: Seq<Seq<char>>, hi: int)
    ensures
        forall|t: int| 0 <= t < hi ==> (#[trigger] lines[t]).len() <= max_len(lines, hi),
        max_len(lines, hi) >= 0,
    decreases hi,
{
    if hi > 0 {
        lemma_max_len(lines, hi - 1);
    }
}

/// One line padded with blanks to the given width.
pub open spec fn padded(line: Seq<char>, width: int) -> Seq<char> {
    Seq::new(
        width as nat,
        |c: int|
            if c < line.len() {
                line[c]
            } else {
                ' '
            },
    )
}

/// The worksheet grid: every line padded to the longest length.
pub open spec fn spec_grid(input: Seq<char>) -> Seq<Seq<char>> {
    let lines = spec_lines(input);
    Seq::new(lines.len(), |r: int| padded(lines[r], max_len(lines, lines.len() as int)))
}

/// Reads the input into a rectangular character grid.
pub fn parse_grid(input: &str) -> (r: Vec<Vec<char>>)
    ensures
        r@.map_values(|v: Vec<char>| v@) == spec_grid(input@),
{
    let lines = lines_of(input);
    let ghost lspec = spec_lines(input@);
    let mut width: usize = 0;
    let mut i: usize = 0;
    while i < lines.len()
        invariant
            0 <= i <= lines@.len(),
            lines@.len() == lspec.len(),
            lspec == spec_lines(input@),
            forall|t: int| 0 <= t < lines@.len() ==> #[trigger] lines@[t]@ == lspec[t],
            width as int == max_len(lspec, i as int),
        decreases lines@.len() - i,
    {
        let n = lines[i].unicode_len();
        if n > width {
            width = n;
        }
        i = i + 1;
    }
    let mut grid: Vec<Vec<char>> = Vec::new();
    let mut r: usize = 0;
    while r < lines.len()
        invariant
            0 <= r <= lines@.len(),
            lines@.len() == lspec.len(),
            lspec == spec_lines(input@),
            forall|t: int| 0 <= t < lines@.len() ==> #[trigger] lines@[t]@ == lspec[t],
            width as int == max_len(lspec, lspec.len() as int),
            grid@.len() == r,
            forall|t: int|
                0 <= t < r ==> #[trigger] grid@[t]@ == padded(lspec[t], width as int),
        decreases lines@.len() - r,
    {
        proof {
            lemma_max_len(lspec, lspec.len() as int);
        }
        let mut row = chars_of(lines[r]);
        while row.len() < width
            invariant
                row@.len() <= width,
                r < lines@.len(),
                lspec == spec_lines(input@),
                forall|t: int| 0 <= t < lines@.len() ==> #[trigger] lines@[t]@ == lspec[t],
                lines@.len() == lspec.len(),
                row@.len() >= lspec[r as int].len(),
                forall|c: int|
                    0 <= c < row@.len() ==> #[trigger] row@[c] == (if c < lspec[r as int].len() {
                        lspec[r as int][c]
                    } else {
                        ' '
                    }),
            decreases width - row@.len(),
        {
            row.push(' ');
        }
        proof {
            assert(row@ =~= padded(lspec[r as int], width as int));
        }
        grid.push(row);
        r = r + 1;
    }
    proof {
        assert(grid@.map_values(|v: Vec<char>| v@) =~= spec_grid(input@));
    }
    grid
}

/// The character at `(r, c)`, a blank outside the grid.
pub open spec fn cell(g: Seq<Seq<char>>, r: int, c: int) -> char {
    if 0 <= r < g.len() && 0 <= c < g[r].len() {
        g[r][c]
    } else {
        ' '
    }
}

/// Column `c` separates problems: it is blank in every row.
pub open spec fn sep_col(g: Seq<Seq<char>>, c: int) -> bool {
    forall|r: int| 0 <= r < g.len() ==> cell(g, r, c) == ' '
}

/// The maximal runs of non-separator columns from column `c` on, given the
/// start of the run currently open.
pub open spec fn runs_from(g: Seq<Seq<char>>, c: int, width: int, open: Option<int>) -> Seq<
    (int, int),
>
    decreases width + 1 - c,
{
    if c >= width + 1 || c < 0 {
        Seq::empty()
    } else {
        let is_sep = c == width || sep_col(g, c);
        match open {
            None => if is_sep {
                runs_from(g, c + 1, width, None)
            } else {
                runs_from(g, c + 1, width, Some(c))
            },
            Some(s) => if is_sep {
                seq![(s, c)] + runs_from(g, c + 1, width, None)
            } else {
                runs_from(g, c + 1, width, open)
            },
        }
    }
}

/// The column ranges of the problems: maximal runs of columns that are not
/// entirely blank, each as a start (inclusive) and end (exclusive) pair.
pub fn find_problem_ranges(grid: &Vec<Vec<char>>) -> (r: Vec<(usize, usize)>)
    ensures
        grid@.len() == 0 ==> r@.len() == 0,
        grid@.len() > 0 ==> r@.map_values(|p: (usize, usize)| (p.0 as int, p.1 as int))
            == runs_from(
            grid@.map_values(|v: Vec<char>| v@),
            0,
            grid@[0]@.len() as int,
            None,
        ),
{
    let ghost g = grid@.map_values(|v: Vec<char>| v@);
    if grid.len() == 0 {
        let empty: Vec<(usize, usize)> = Vec::new();
        return empty;
    }
    let rows = grid.len();
    let width = grid[0].len();
    let mut out: Vec<(usize, usize)> = Vec::new();
    let mut open: Option<usize> = None;
    let mut c: usize = 0;
    loop
        invariant_except_break
            0 <= c <= width,
            rows == grid@.len(),
            rows > 0,
            g == grid@.map_values(|v: Vec<char>| v@),
            width == g[0].len(),
            match open {
                Some(s) => s < c,
                None => true,
            },
            out@.map_values(|p: (usize, usize)| (p.0 as int, p.1 as int)) + runs_from(
                g,
                c as int,
                width as int,
                match open {
                    Some(s) => Some(s as int),
                    None => None,
                },
            ) =~= runs_from(g, 0, width as int, None),
        ensures
            out@.map_values(|p: (usize, usize)| (p.0 as int, p.1 as int)) =~= runs_from(
                g,
                0,
                width as int,
                None,
            ),
        decreases width + 1 - c,
    {
        let mut is_sep = true;
        if c < width {
            let mut rr: usize = 0;
            while rr < rows
                invariant
                    0 <= rr <= rows,
                    rows == grid@.len(),
                    g == grid@.map_values(|v: Vec<char>| v@),
                    c < width,
                    is_sep == (forall|t: int| 0 <= t < rr ==> cell(g, t, c as int) == ' '),
                decreases rows - rr,
            {
                proof {
                    assert(g[rr as int] == grid@[rr as int]@);
                }
                let ch = if c < grid[rr].len() {
                    grid[rr][c]
                } else {
                    ' '
                };
                proof {
                    assert(ch == cell(g, rr as int, c as int));
                }
                if ch != ' ' {
                    is_sep = false;
                }
                rr = rr + 1;
            }
            proof {
                assert(is_sep == sep_col(g, c as int));
            }
        } else {
            proof {
                assert(c == width);
            }
        }
        let ghost oldout = out@.map_values(|p: (usize, usize)| (p.0 as int, p.1 as int));
        match open {
            None => {
                if !is_sep {
                    open = Some(c);
                }
            },
            Some(s) => {
                if is_sep {
                    out.push((s, c));
                    open = None;
                    proof {
                        assert(out@.map_values(|p: (usize, usize)| (p.0 as int, p.1 as int))
                            =~= oldout + seq![(s as int, c as int)]);
                        assert(oldout + (seq![(s as int, c as int)] + runs_from(
                            g,
                            c + 1,
                            width as int,
                            None,
                        )) =~= (oldout + seq![(s as int, c as int)]) + runs_from(
                            g,
                            c + 1,
                            width as int,
                            None,
                        ));
                    }
                }
            },
        }
        if c == width {
            proof {
                assert(runs_from(g, width + 1, width as int, None) =~= Seq::<(int, int)>::empty());
            }
            break ;
        }
        c = c + 1;
    }
    out
}

/// The operator of one problem: the first `+` or `*` on the last row
/// within the columns, a `+` when none is written.
pub open spec fn op_from(g: Seq<Seq<char>>, c: int, end: int) -> char
    decreases end - c,
{
    if c < 0 || c >= end {
        '+'
    } else {
        let ch = cell(g, g.len() - 1, c);
        if ch == '+' || ch == '*' {
            ch
        } else {
            op_from(g, c + 1, end)
        }
    }
}

/// Finds the operator of the problem between the columns.
pub fn get_operator(grid: &Vec<Vec<char>>, start_col: usize, end_col: usize) -> (r: char)
    requires
        grid@.len() > 0,
    ensures
        r == op_from(
            grid@.map_values(|v: Vec<char>| v@),
            start_col as int,
            end_col as int,
        ),
{
    let ghost g = grid@.map_values(|v: Vec<char>| v@);
    let last = grid.len() - 1;
    let mut c = start_col;
    while c < end_col
        invariant
            start_col <= c,
            grid@.len() > 0,
            last == grid@.len() - 1,
            g == grid@.map_values(|v: Vec<char>| v@),
            op_from(g, start_col as int, end_col as int) == op_from(g, c as int, end_col as int),
        decreases end_col - c,
    {
        let ch = if c < grid[last].len() {
            grid[last][c]
        } else {
            ' '
        };
        if ch == '+' || ch == '*' {
            return ch;
        }
        c = c + 1;
    }
    '+'
}

/// The value the operator gives to a list of numbers.
pub open spec fn spec_calc(nums: Seq<int>, op: char) -> int
    decreases nums.len(),
{
    if op == '+' {
        if nums.len() == 0 {
            0
        } else {
            spec_calc(nums.drop_last(), op) + nums.last()
        }
    } else if op == '*' {
        if nums.len() == 0 {
            1
        } else {
            spec_calc(nums.drop_last(), op) * nums.last()
        }
    } else {
        0
    }
}

proof fn lemma_calc_nonneg(nums: Seq<int>, op: char)
    requires
        forall|t: int| 0 <= t < nums.len() ==> #[trigger] nums[t] >= 0,
    ensures
        spec_calc(nums, op) >= 0,
    decreases nums.len(),
{
    if (op == '+' || op == '*') && nums.len() > 0 {
        lemma_calc_nonneg(nums.drop_last(), op);
    }
}

/// A value clamped to the machine range.
pub open spec fn clamp_u64(x: int) -> int {
    if x <= u64::MAX as int {
        x
    } else {
        u64::MAX as int
    }
}

/// Combines the numbers with the operator: their sum under `+`, their
/// product under `*`, zero otherwise, clamped to the machine range.
pub fn calculate(nums: &Vec<u64>, op: char) -> (r: u64)
    ensures
        r as int == clamp_u64(spec_calc(nums@.map_values(|x: u64| x as int), op)),
{
    let ghost ns = nums@.map_values(|x: u64| x as int);
    if op == '+' {
        let mut total: u64 = 0;
        let mut i: usize = 0;
        while i < nums.len()
            invariant
                0 <= i <= nums@.len(),
                ns == nums@.map_values(|x: u64| x as int),
                total as int == clamp_u64(spec_calc(ns.subrange(0, i as int), op)),
                op == '+',
            decreases nums@.len() - i,
        {
            proof {
                assert(ns.subrange(0, i + 1).drop_last() =~= ns.subrange(0, i as int));
                lemma_calc_nonneg(ns.subrange(0, i as int), op);
            }
            total = total.saturating_add(nums[i]);
            i = i + 1;
        }
        proof {
            assert(ns.subrange(0, ns.len() as int) =~= ns);
        }
        total
    } else if op == '*' {
        let mut total: u64 = 1;
        let mut i: usize = 0;
        while i < nums.len()
            invariant
                0 <= i <= nums@.len(),
                ns == nums@.map_values(|x: u64| x as int),
                total as int == clamp_u64(spec_calc(ns.subrange(0, i as int), op)),
                op == '*',
            decreases nums@.len() - i,
        {
            let prod = total.checked_mul(nums[i]);
            proof {
                assert(ns.subrange(0, i + 1).drop_last() =~= ns.subrange(0, i as int));
                lemma_calc_nonneg(ns.subrange(0, i as int), op);
                let p = spec_calc(ns.subrange(0, i as int), op);
                let v = ns[i as int];
                assert(ns.subrange(0, i + 1).last() == v);
                assert(spec_calc(ns.subrange(0, i + 1), op) == p * v);
                assert(v >= 0);
                if p > u64::MAX as int && v >= 1 {
                    assert(p * v >= p) by (nonlinear_arith)
                        requires
                            p >= 0,
                            v >= 1,
                    ;
                }
                match prod {
                    Some(x) => {
                        if p <= u64::MAX as int {
                            assert(x as int == p * v);
                        } else {
                            assert(total == u64::MAX);
                            if v == 0 {
                                assert(p * v == 0) by (nonlinear_arith)
                                    requires
                                        v == 0,
                                ;
                                assert(x == 0);
                            } else if v == 1 {
                                assert(p * v == p) by (nonlinear_arith)
                                    requires
                                        v == 1,
                                ;
                                assert(x == u64::MAX);
                            } else {
                                assert(u64::MAX as int * v > u64::MAX as int) by (nonlinear_arith)
                                    requires
                                        v >= 2,
                                ;
                                assert(false);
                            }
                        }
                    },
                    None => {
                        if p <= u64::MAX as int {
                            assert(p * v > u64::MAX as int);
                        }
                    },
                }
            }
            total = match prod {
                Some(x) => x,
                None => u64::MAX,
            };
            i = i + 1;
        }
        proof {
            assert(ns.subrange(0, ns.len() as int) =~= ns);
        }
        total
    } else {
        0
    }
}

/// Reads one trimmed cell run as a number: blanks around a non-empty digit
/// string in machine range.
fn parse_cells(seg: &Vec<char>) -> (r: Option<u64>)
    ensures
        ({
            let t = spec_trim(seg@);
            match r {
                Some(v) => t.len() > 0 && all_digits(t) && num_val(t) <= u64::MAX && v as int
                    == num_val(t),
                None => !(t.len() > 0 && all_digits(t) && num_val(t) <= u64::MAX),
            }
        }),
{
    let n = seg.len();
    let mut a: usize = 0;
    while a < n && crate::text::is_blank_char(seg[a])
        invariant
            0 <= a <= n,
            n == seg@.len(),
            forall|j: int| 0 <= j < a ==> crate::text::is_blank(seg@[j]),
        decreases n - a,
    {
        a = a + 1;
    }
    let mut b: usize = n;
    while b > a && crate::text::is_blank_char(seg[b - 1])
        invariant
            a <= b <= n,
            n == seg@.len(),
            forall|j: int| 0 <= j < a ==> crate::text::is_blank(seg@[j]),
            forall|j: int| b <= j < n ==> crate::text::is_blank(seg@[j]),
        decreases b,
    {
        b = b - 1;
    }
    let ghost t = spec_trim(seg@);
    proof {
        crate::text::lemma_trim_start_at(seg@, a as int);
        let mid = seg@.subrange(a as int, n as int);
        if b == a {
            crate::text::lemma_trim_end_at(mid, 0);
        } else {
            crate::text::lemma_trim_end_at(mid, b - a);
        }
        assert(mid.subrange(0, b - a) =~= seg@.subrange(a as int, b as int));
        assert(t == seg@.subrange(a as int, b as int));
    }
    if a == b {
        return None;
    }
    let mut acc: u64 = 0;
    let mut i = a;
    while i < b
        invariant
            a <= i <= b,
            a < b <= n,
            n == seg@.len(),
            t == seg@.subrange(a as int, b as int),
            t == spec_trim(seg@),
            all_digits(t.subrange(0, i - a)),
            acc as int == num_val(t.subrange(0, i - a)),
        decreases b - i,
    {
        let c = seg[i];
        if !crate::text::is_digit(c) {
            proof {
                assert(t[i - a] == seg@[i as int]);
                assert(!spec_is_digit(t[i - a]));
            }
            return None;
        }
        let d: u64 = (c as u32 - '0' as u32) as u64;
        proof {
            assert(t.subrange(0, i - a + 1).drop_last() =~= t.subrange(0, i - a));
            assert(t.subrange(0, i - a + 1).last() == seg@[i as int]);
            assert(all_digits(t.subrange(0, i - a + 1)));
        }
        let widened = match acc.checked_mul(10) {
            Some(x) => x.checked_add(d),
            None => None,
        };
        match widened {
            Some(x) => {
                acc = x;
            },
            None => {
                proof {
                    if all_digits(t) {
                        crate::text::lemma_num_val_prefix_le(t, i - a + 1);
                    }
                }
                return None;
            },
        }
        i = i + 1;
    }
    proof {
        assert(t.subrange(0, b - a) =~= t);
    }
    Some(acc)
}

/// The numbers of one problem read row by row, top first.
pub open spec fn hnums(g: Seq<Seq<char>>, start: int, end: int, r_end: int) -> Seq<int>
    decreases r_end,
{
    if r_end <= 0 {
        Seq::empty()
    } else {
        hnums(g, start, end, r_end - 1) + {
            let t = spec_trim(Seq::new((end - start) as nat, |k: int| cell(g, r_end - 1, start + k)));
            if t.len() > 0 && all_digits(t) && num_val(t) <= u64::MAX {
                seq![num_val(t)]
            } else {
                Seq::empty()
            }
        }
    }
}

/// Reads the numbers of one problem row by row, with its operator.
pub fn extract_problem_horizontal(grid: &Vec<Vec<char>>, start_col: usize, end_col: usize) -> (r: (
    Vec<u64>,
    char,
))
    requires
        grid@.len() > 0,
        start_col <= end_col,
    ensures
        ({
            let g = grid@.map_values(|v: Vec<char>| v@);
            r.0@.map_values(|x: u64| x as int) == hnums(
                g,
                start_col as int,
                end_col as int,
                g.len() - 1,
            ) && r.1 == op_from(g, start_col as int, end_col as int)
        }),
{
    let ghost g = grid@.map_values(|v: Vec<char>| v@);
    let operator = get_operator(grid, start_col, end_col);
    let rows = grid.len();
    let mut numbers: Vec<u64> = Vec::new();
    let mut r: usize = 0;
    while r < rows - 1
        invariant
            0 <= r <= rows - 1,
            rows == grid@.len(),
            rows > 0,
            start_col <= end_col,
            g == grid@.map_values(|v: Vec<char>| v@),
            numbers@.map_values(|x: u64| x as int) =~= hnums(
                g,
                start_col as int,
                end_col as int,
                r as int,
            ),
        decreases rows - 1 - r,
    {
        let mut seg: Vec<char> = Vec::new();
        let mut k: usize = 0;
        while k < end_col - start_col
            invariant
                0 <= k <= end_col - start_col,
                r < rows,
                rows == grid@.len(),
                start_col <= end_col,
                g == grid@.map_values(|v: Vec<char>| v@),
                seg@.len() == k,
                forall|j: int|
                    0 <= j < k ==> #[trigger] seg@[j] == cell(g, r as int, start_col + j),
            decreases end_col - start_col - k,
        {
            let cc = start_col + k;
            let ch = if cc < grid[r].len() {
                grid[r][cc]
            } else {
                ' '
            };
            seg.push(ch);
            k = k + 1;
        }
        proof {
            assert(seg@ =~= Seq::new(
                (end_col - start_col) as nat,
                |j: int| cell(g, r as int, start_col + j),
            ));
        }
        let ghost oldm = numbers@.map_values(|x: u64| x as int);
        match parse_cells(&seg) {
            Some(v) => {
                numbers.push(v);
                proof {
                    assert(numbers@.map_values(|x: u64| x as int) =~= oldm + seq![v as int]);
                }
            },
            None => {
            },
        }
        r = r + 1;
    }
    (numbers, operator)
}

/// The digits of one column, read from the top, above the operator row.
pub open spec fn col_digits(g: Seq<Seq<char>>, c: int, r_end: int) -> Seq<char>
    decreases r_end,
{
    if r_end <= 0 {
        Seq::empty()
    } else {
        col_digits(g, c, r_end - 1) + {
            let ch = cell(g, r_end - 1, c);
            if spec_is_digit(ch) {
                seq![ch]
            } else {
                Seq::empty()
            }
        }
    }
}

/// The numbers of one problem read column by column, rightmost first.
pub open spec fn vnums(g: Seq<Seq<char>>, start: int, c: int) -> Seq<int>
    decreases c,
{
    if c <= start || c <= 0 {
        Seq::empty()
    } else {
        let ds = col_digits(g, c - 1, g.len() - 1);
        (if ds.len() > 0 && num_val(ds) <= u64::MAX {
            seq![num_val(ds)]
        } else {
            Seq::empty()
        }) + vnums(g, start, c - 1)
    }
}

/// Reads the numbers of one problem column by column from the right, with
/// its operator.
pub fn extract_problem_vertical(grid: &Vec<Vec<char>>, start_col: usize, end_col: usize) -> (r: (
    Vec<u64>,
    char,
))
    requires
        grid@.len() > 0,
        start_col <= end_col,
    ensures
        ({
            let g = grid@.map_values(|v: Vec<char>| v@);
            r.0@.map_values(|x: u64| x as int) == vnums(g, start_col as int, end_col as int)
                && r.1 == op_from(g, start_col as int, end_col as int)
        }),
{
    let ghost g = grid@.map_values(|v: Vec<char>| v@);
    let operator = get_operator(grid, start_col, end_col);
    let rows = grid.len();
    let mut numbers: Vec<u64> = Vec::new();
    let mut c = end_col;
    while c > start_col
        invariant
            start_col <= c <= end_col,
            rows == grid@.len(),
            rows > 0,
            g == grid@.map_values(|v: Vec<char>| v@),
            numbers@.map_values(|x: u64| x as int) =~= vnums(g, start_col as int, end_col as int)
                .subrange(0, vnums(g, start_col as int, end_col as int).len() - vnums(
                g,
                start_col as int,
                c as int,
            ).len()),
            vnums(g, start_col as int, c as int).len() <= vnums(
                g,
                start_col as int,
                end_col as int,
            ).len(),
            vnums(g, start_col as int, end_col as int) == numbers@.map_values(|x: u64| x as int)
                + vnums(g, start_col as int, c as int),
        decreases c,
    {
        let col = c - 1;
        let mut digs: Vec<char> = Vec::new();
        let mut r: usize = 0;
        while r < rows - 1
            invariant
                0 <= r <= rows - 1,
                rows == grid@.len(),
                rows > 0,
                g == grid@.map_values(|v: Vec<char>| v@),
                digs@ =~= col_digits(g, col as int, r as int),
            decreases rows - 1 - r,
        {
            let ch = if col < grid[r].len() {
                grid[r][col]
            } else {
                ' '
            };
            if crate::text::is_digit(ch) {
                digs.push(ch);
            }
            proof {
                assert(g[r as int] == grid@[r as int]@);
                assert(ch == cell(g, r as int, col as int));
            }
            r = r + 1;
        }
        let ghost oldm = numbers@.map_values(|x: u64| x as int);
        if digs.len() > 0 {
            proof {
                assert(all_digits(digs@)) by {
                    lemma_col_digits_are_digits(g, col as int, (rows - 1) as int);
                };
                let t = digs@;
                crate::text::lemma_trim_start_at(t, 0);
                crate::text::lemma_trim_end_at(t, t.len() as int);
                assert(t.subrange(0, t.len() as int) =~= t);
                assert(spec_trim(t) == t);
            }
            match parse_cells(&digs) {
                Some(v) => {
                    numbers.push(v);
                    proof {
                        assert(numbers@.map_values(|x: u64| x as int) =~= oldm + seq![v as int]);
                    }
                },
                None => {
                },
            }
        }
        c = c - 1;
    }
    proof {
        assert(vnums(g, start_col as int, start_col as int) =~= Seq::<int>::empty());
    }
    (numbers, operator)
}

/// The characters a column contributes are digits.
proof fn lemma_col_digits_are_digits(g: Seq<Seq<char>>, c: int, r_end: int)
    ensures
        all_digits(col_digits(g, c, r_end)),
    decreases r_end,
{
    if r_end > 0 {
        lemma_col_digits_are_digits(g, c, r_end - 1);
        let pre = col_digits(g, c, r_end - 1);
        assert forall|j: int| 0 <= j < col_digits(g, c, r_end).len() implies spec_is_digit(
            #[trigger] col_digits(g, c, r_end)[j],
        ) by {
            if j < pre.len() {
                assert(col_digits(g, c, r_end)[j] == pre[j]);
            }
        };
    }
}


/// Every run closes after it opens.
proof fn lemma_runs_ordered(g: Seq<Seq<char>>, c: int, width: int, open: Option<int>)
    requires
        0 <= c,
        match open {
            Some(s) => 0 <= s < c,
            None => true,
        },
    ensures
        forall|t: int|
            0 <= t < runs_from(g, c, width, open).len() ==> (#[trigger] runs_from(
                g,
                c,
                width,
                open,
            )[t]).0 < runs_from(g, c, width, open)[t].1,
    decreases width + 1 - c,
{
    if 0 <= c < width + 1 {
        let is_sep = c == width || sep_col(g, c);
        match open {
            None => {
                if is_sep {
                    lemma_runs_ordered(g, c + 1, width, None);
                    assert(runs_from(g, c, width, open) == runs_from(g, c + 1, width, None));
                } else {
                    lemma_runs_ordered(g, c + 1, width, Some(c));
                    assert(runs_from(g, c, width, open) == runs_from(g, c + 1, width, Some(c)));
                }
            },
            Some(s) => {
                if is_sep {
                    lemma_runs_ordered(g, c + 1, width, None);
                    let rest = runs_from(g, c + 1, width, None);
                    assert(runs_from(g, c, width, open) == seq![(s, c)] + rest);
                    assert forall|t: int|
                        0 <= t < runs_from(g, c, width, open).len() implies (
                        #[trigger] runs_from(g, c, width, open)[t]).0 < runs_from(
                        g,
                        c,
                        width,
                        open,
                    )[t].1 by {
                        if t > 0 {
                            assert(runs_from(g, c, width, open)[t] == rest[t - 1]);
                        }
                    };
                } else {
                    lemma_runs_ordered(g, c + 1, width, open);
                    assert(runs_from(g, c, width, open) == runs_from(g, c + 1, width, open));
                }
            },
        }
    }
}

/// The clamped value of the problem between two columns, read row by row.
pub open spec fn problem_value_h(g: Seq<Seq<char>>, start: int, end: int) -> int {
    spec_calc(hnums(g, start, end, g.len() - 1), op_from(g, start, end))
}

/// The clamped value of the problem between two columns, read column by
/// column from the right.
pub open spec fn problem_value_v(g: Seq<Seq<char>>, start: int, end: int) -> int {
    spec_calc(vnums(g, start, end), op_from(g, start, end))
}

/// Sum of the first `k` problems' values, row-wise reading, each clamped.
pub open spec fn problems_sum_h(g: Seq<Seq<char>>, runs: Seq<(int, int)>, k: int) -> int
    decreases k,
{
    if k <= 0 {
        0
    } else {
        problems_sum_h(g, runs, k - 1) + clamp_u64(problem_value_h(g, runs[k - 1].0, runs[k - 1].1))
    }
}

/// Sum of the first `k` problems' values, column-wise reading, each
/// clamped.
pub open spec fn problems_sum_v(g: Seq<Seq<char>>, runs: Seq<(int, int)>, k: int) -> int
    decreases k,
{
    if k <= 0 {
        0
    } else {
        problems_sum_v(g, runs, k - 1) + clamp_u64(problem_value_v(g, runs[k - 1].0, runs[k - 1].1))
    }
}

proof fn lemma_hnums_nonneg(g: Seq<Seq<char>>, start: int, end: int, r_end: int)
    ensures
        forall|t: int| 0 <= t < hnums(g, start, end, r_end).len() ==> #[trigger] hnums(
            g,
            start,
            end,
            r_end,
        )[t] >= 0,
    decreases r_end,
{
    if r_end > 0 {
        lemma_hnums_nonneg(g, start, end, r_end - 1);
        let pre = hnums(g, start, end, r_end - 1);
        let t0 = spec_trim(Seq::new((end - start) as nat, |k: int| cell(g, r_end - 1, start + k)));
        if t0.len() > 0 && all_digits(t0) && num_val(t0) <= u64::MAX {
            crate::text::lemma_num_val_nonneg(t0);
        }
        assert forall|t: int|
            0 <= t < hnums(g, start, end, r_end).len() implies #[trigger] hnums(
            g,
            start,
            end,
            r_end,
        )[t] >= 0 by {
            if t < pre.len() {
                assert(hnums(g, start, end, r_end)[t] == pre[t]);
            }
        };
    }
}

proof fn lemma_vnums_nonneg(g: Seq<Seq<char>>, start: int, c: int)
    ensures
        forall|t: int| 0 <= t < vnums(g, start, c).len() ==> #[trigger] vnums(g, start, c)[t] >= 0,
    decreases c,
{
    if c > start && c > 0 {
        lemma_vnums_nonneg(g, start, c - 1);
        let ds = col_digits(g, c - 1, g.len() - 1);
        lemma_col_digits_are_digits(g, c - 1, g.len() - 1);
        if ds.len() > 0 && num_val(ds) <= u64::MAX {
            crate::text::lemma_num_val_nonneg(ds);
        }
        let pre = vnums(g, start, c - 1);
        assert forall|t: int|
            0 <= t < vnums(g, start, c).len() implies #[trigger] vnums(g, start, c)[t] >= 0 by {
            let head = (if ds.len() > 0 && num_val(ds) <= u64::MAX {
                seq![num_val(ds)]
            } else {
                Seq::<int>::empty()
            });
            if t >= head.len() {
                assert(vnums(g, start, c)[t] == pre[t - head.len()]);
            }
        };
    }
}

proof fn lemma_problems_sums_nonneg(g: Seq<Seq<char>>, runs: Seq<(int, int)>, k: int)
    ensures
        problems_sum_h(g, runs, k) >= 0,
        problems_sum_v(g, runs, k) >= 0,
    decreases k,
{
    if k > 0 {
        lemma_problems_sums_nonneg(g, runs, k - 1);
        lemma_hnums_nonneg(g, runs[k - 1].0, runs[k - 1].1, g.len() - 1);
        lemma_vnums_nonneg(g, runs[k - 1].0, runs[k - 1].1);
        lemma_calc_nonneg(
            hnums(g, runs[k - 1].0, runs[k - 1].1, g.len() - 1),
            op_from(g, runs[k - 1].0, runs[k - 1].1),
        );
        lemma_calc_nonneg(
            vnums(g, runs[k - 1].0, runs[k - 1].1),
            op_from(g, runs[k - 1].0, runs[k - 1].1),
        );
    }
}

/// Clamped sums compose.
proof fn lemma_clamp_add2(a: int, b: int)
    requires
        a >= 0,
        b >= 0,
    ensures
        clamp_u64(clamp_u64(a) + clamp_u64(b)) == clamp_u64(a + b),
{
}

/// Both worksheet answers: the sum over every problem of its value read
/// row by row, and read column by column from the right, each clamped to
/// the machine range.
pub fn worksheet_totals(input: &str) -> (r: (u64, u64))
    ensures
        ({
            let g = spec_grid(input@);
            if g.len() == 0 {
                r.0 == 0 && r.1 == 0
            } else {
                let runs = runs_from(g, 0, g[0].len() as int, None);
                r.0 as int == clamp_u64(problems_sum_h(g, runs, runs.len() as int)) && r.1 as int
                    == clamp_u64(problems_sum_v(g, runs, runs.len() as int))
            }
        }),
{
    let grid = parse_grid(input);
    let ghost g = spec_grid(input@);
    if grid.len() == 0 {
        return (0, 0);
    }
    let ranges = find_problem_ranges(&grid);
    let ghost runs = runs_from(g, 0, g[0].len() as int, None);
    proof {
        assert(ranges@.map_values(|p: (usize, usize)| (p.0 as int, p.1 as int)) == runs);
    }
    let mut total1: u64 = 0;
    let mut total2: u64 = 0;
    let mut k: usize = 0;
    while k < ranges.len()
        invariant
            0 <= k <= ranges@.len(),
            grid@.len() > 0,
            grid@.map_values(|v: Vec<char>| v@) == g,
            g == spec_grid(input@),
            runs == runs_from(g, 0, g[0].len() as int, None),
            ranges@.map_values(|p: (usize, usize)| (p.0 as int, p.1 as int)) == runs,
            ranges@.len() == runs.len(),
            total1 as int == clamp_u64(problems_sum_h(g, runs, k as int)),
            total2 as int == clamp_u64(problems_sum_v(g, runs, k as int)),
        decreases ranges@.len() - k,
    {
        let (start, end) = ranges[k];
        proof {
            assert(runs[k as int] == (start as int, end as int));
            lemma_runs_ordered(g, 0, g[0].len() as int, None);
            assert(runs[k as int].0 < runs[k as int].1);
            lemma_problems_sums_nonneg(g, runs, k as int);
            lemma_hnums_nonneg(g, start as int, end as int, g.len() - 1);
            lemma_vnums_nonneg(g, start as int, end as int);
            lemma_calc_nonneg(
                hnums(g, start as int, end as int, g.len() - 1),
                op_from(g, start as int, end as int),
            );
            lemma_calc_nonneg(
                vnums(g, start as int, end as int),
                op_from(g, start as int, end as int),
            );
            lemma_clamp_add2(
                problems_sum_h(g, runs, k as int),
                clamp_u64(problem_value_h(g, start as int, end as int)),
            );
            lemma_clamp_add2(
                problems_sum_v(g, runs, k as int),
                clamp_u64(problem_value_v(g, start as int, end as int)),
            );
        }
        let (nums, op) = extract_problem_horizontal(&grid, start, end);
        total1 = total1.saturating_add(calculate(&nums, op));
        let (nums2, op2) = extract_problem_vertical(&grid, start, end);
        total2 = total2.saturating_add(calculate(&nums2, op2));
        k = k + 1;
    }
    (total1, total2)
}


} // verus!
