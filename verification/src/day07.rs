//! A beam falling through a grid of splitters.
//!
//! The beam starts at `S` and falls straight down; a splitter (`^`) stops
//! it and sends beams down-left and down-right.  The first part counts how
//! often a beam meets a splitter; the second counts the timelines — every
//! split doubles the count along that path.

use vstd::prelude::*;

verus! {

/// The character at `(r, c)`, a blank outside the grid.
pub open spec fn cell(g: Seq<Seq<char>>, r: int, c: int) -> char {
    if 0 <= r < g.len() && 0 <= c < g[r].len() {
        g[r][c]
    } else {
        ' '
    }
}

/// The rightmost `S` before column `hi` of one row.
pub open spec fn row_last_s(row: Seq<char>, hi: int) -> Option<int>
    decreases hi,
{
    if hi <= 0 {
        None
    } else if hi - 1 < row.len() && row[hi - 1] == 'S' {
        Some(hi - 1)
    } else {
        row_last_s(row, hi - 1)
    }
}

/// The leftmost `S` of one row.
pub open spec fn row_first_s(row: Seq<char>, i: int) -> Option<int>
    decreases row.len() - i,
{
    if i < 0 || i >= row.len() {
        None
    } else if row[i] == 'S' {
        Some(i)
    } else {
        row_first_s(row, i + 1)
    }
}

/// The start position of the beam: the row-major last `S` of the grid.
pub open spec fn start_of(g: Seq<Seq<char>>, hi: int) -> (int, int)
    decreases hi,
{
    if hi <= 0 {
        (0, 0)
    } else {
        match row_last_s(g[hi - 1], g[hi - 1].len() as int) {
            Some(c) => (hi - 1, c),
            None => start_of(g, hi - 1),
        }
    }
}

/// The start column of the timeline count: the leftmost `S` of the last
/// row that has one.
pub open spec fn start_col_of(g: Seq<Seq<char>>, hi: int) -> int
    decreases hi,
{
    if hi <= 0 {
        0
    } else {
        match row_first_s(g[hi - 1], 0) {
            Some(c) => c,
            None => start_col_of(g, hi - 1),
        }
    }
}

/// The columns holding a beam one row further down.
pub open spec fn step_active(g: Seq<Seq<char>>, active: Seq<bool>, r: int, cols: int) -> Seq<
    bool,
> {
    Seq::new(
        cols as nat,
        |c: int|
            (active[c] && cell(g, r + 1, c) != '^') || (c >= 1 && active[c - 1] && cell(
                g,
                r + 1,
                c - 1,
            ) == '^') || (c + 1 < cols && active[c + 1] && cell(g, r + 1, c + 1) == '^'),
    )
}

/// How many active beams meet a splitter in the next row, before column
/// `c_end`.
pub open spec fn splits_row(
    g: Seq<Seq<char>>,
    active: Seq<bool>,
    r: int,
    c_end: int,
) -> int
    decreases c_end,
{
    if c_end <= 0 {
        0
    } else {
        splits_row(g, active, r, c_end - 1) + if active[c_end - 1] && cell(g, r + 1, c_end - 1)
            == '^' {
            1int
        } else {
            0int
        }
    }
}

/// Total number of splits from row `r` down.
pub open spec fn run_splits(
    g: Seq<Seq<char>>,
    active: Seq<bool>,
    r: int,
    rows: int,
    cols: int,
) -> int
    decreases rows - r,
{
    if r + 1 >= rows {
        0
    } else {
        splits_row(g, active, r, cols) + run_splits(
            g,
            step_active(g, active, r, cols),
            r + 1,
            rows,
            cols,
        )
    }
}

proof fn lemma_splits_row_nonneg(g: Seq<Seq<char>>, active: Seq<bool>, r: int, c_end: int)
    ensures
        splits_row(g, active, r, c_end) >= 0,
    decreases c_end,
{
    if c_end > 0 {
        lemma_splits_row_nonneg(g, active, r, c_end - 1);
    }
}

proof fn lemma_run_splits_nonneg(g: Seq<Seq<char>>, active: Seq<bool>, r: int, rows: int, cols: int)
    ensures
        run_splits(g, active, r, rows, cols) >= 0,
    decreases rows - r,
{
    if r + 1 < rows {
        lemma_splits_row_nonneg(g, active, r, cols);
        lemma_run_splits_nonneg(g, step_active(g, active, r, cols), r + 1, rows, cols);
    }
}

/// The start row is always inside the grid.
proof fn lemma_start_of_range(g: Seq<Seq<char>>, hi: int)
    requires
        hi > 0,
    ensures
        0 <= start_of(g, hi).0 < hi,
    decreases hi,
{
    match row_last_s(g[hi - 1], g[hi - 1].len() as int) {
        Some(c) => {
        },
        None => {
            if hi > 1 {
                lemma_start_of_range(g, hi - 1);
            } else {
                assert(start_of(g, 0) == (0int, 0int));
            }
        },
    }
}

/// A value clamped to the machine range.
pub open spec fn clamp_usize(x: int) -> int {
    if x <= usize::MAX as int {
        x
    } else {
        usize::MAX as int
    }
}

/// A value clamped to the machine range.
pub open spec fn clamp_u64(x: int) -> int {
    if x <= u64::MAX as int {
        x
    } else {
        u64::MAX as int
    }
}

/// Counts how often a beam meets a splitter, from the last `S` of the grid
/// down, clamped to the machine range.
pub fn count_splits(grid: &Vec<Vec<char>>) -> (r: usize)
    ensures
        grid@.len() == 0 ==> r == 0,
        grid@.len() > 0 ==> {
            let g = grid@.map_values(|v: Vec<char>| v@);
            let rows = g.len() as int;
            let cols = g[0].len() as int;
            let start = start_of(g, rows);
            r as int == clamp_usize(
                run_splits(
                    g,
                    Seq::new(cols as nat, |c: int| c == start.1 && start.1 < cols),
                    start.0,
                    rows,
                    cols,
                ),
            )
        },
{
    let ghost g = grid@.map_values(|v: Vec<char>| v@);
    let rows = grid.len();
    if rows == 0 {
        return 0;
    }
    let cols = grid[0].len();

    // find the row-major last `S`
    let mut sr: usize = 0;
    let mut sc: usize = 0;
    let mut rr: usize = 0;
    while rr < rows
        invariant
            0 <= rr <= rows,
            rows == grid@.len(),
            g == grid@.map_values(|v: Vec<char>| v@),
            (sr as int, sc as int) == start_of(g, rr as int),
        decreases rows - rr,
    {
        let rowlen = grid[rr].len();
        let mut cc: usize = 0;
        let mut found: Option<usize> = None;
        while cc < rowlen
            invariant
                0 <= cc <= rowlen,
                rr < rows,
                rows == grid@.len(),
                g == grid@.map_values(|v: Vec<char>| v@),
                rowlen == g[rr as int].len(),
                match found {
                    Some(v) => row_last_s(g[rr as int], cc as int) == Some(v as int),
                    None => row_last_s(g[rr as int], cc as int) is None,
                },
            decreases rowlen - cc,
        {
            if grid[rr][cc] == 'S' {
                found = Some(cc);
            }
            cc = cc + 1;
        }
        match found {
            Some(v) => {
                sr = rr;
                sc = v;
            },
            None => {
            },
        }
        rr = rr + 1;
    }

    // one row at a time: count the splitters met, move the beams down
    let ghost start = start_of(g, rows as int);
    let mut active: Vec<bool> = Vec::new();
    let mut c0: usize = 0;
    while c0 < cols
        invariant
            0 <= c0 <= cols,
            active@.len() == c0,
            forall|c: int| 0 <= c < c0 ==> #[trigger] active@[c] == (c == sc as int),
        decreases cols - c0,
    {
        active.push(c0 == sc);
        c0 = c0 + 1;
    }
    let ghost act0 = Seq::new(cols as nat, |c: int| c == start.1 && start.1 < cols as int);
    proof {
        assert(start == (sr as int, sc as int));
        assert(active@ =~= act0);
    }
    let mut total: usize = 0;
    let mut r: usize = sr;
    proof {
        lemma_run_splits_nonneg(g, act0, sr as int, rows as int, cols as int);
        lemma_start_of_range(g, rows as int);
    }
    while r + 1 < rows
        invariant
            sr <= r < rows,
            rows == grid@.len(),
            rows > 0,
            cols == g[0].len(),
            g == grid@.map_values(|v: Vec<char>| v@),
            active@.len() == cols,
            clamp_usize(
                total as int + run_splits(g, active@, r as int, rows as int, cols as int),
            ) == clamp_usize(run_splits(g, act0, sr as int, rows as int, cols as int)),
            total as int <= clamp_usize(run_splits(g, act0, sr as int, rows as int, cols as int)),
        decreases rows - r,
    {
        proof {
            lemma_splits_row_nonneg(g, active@, r as int, cols as int);
            lemma_run_splits_nonneg(
                g,
                step_active(g, active@, r as int, cols as int),
                r + 1,
                rows as int,
                cols as int,
            );
        }
        // count this row's splits
        let ghost act = active@;
        let mut c: usize = 0;
        let mut hits: usize = 0;
        while c < cols
            invariant
                0 <= c <= cols,
                r + 1 < rows,
                rows == grid@.len(),
                g == grid@.map_values(|v: Vec<char>| v@),
                act == active@,
                active@.len() == cols,
                hits as int == clamp_usize(splits_row(g, active@, r as int, c as int)),
            decreases cols - c,
        {
            proof {
                lemma_splits_row_nonneg(g, act, r as int, c as int);
            }
            let below = if c < grid[r + 1].len() {
                grid[r + 1][c]
            } else {
                ' '
            };
            if active[c] && below == '^' {
                hits = hits.saturating_add(1);
            }
            c = c + 1;
        }
        // move the beams down one row
        let mut next: Vec<bool> = Vec::new();
        let mut c2: usize = 0;
        while c2 < cols
            invariant
                0 <= c2 <= cols,
                r + 1 < rows,
                rows == grid@.len(),
                g == grid@.map_values(|v: Vec<char>| v@),
                act == active@,
                active@.len() == cols,
                next@.len() == c2,
                forall|cc: int|
                    0 <= cc < c2 ==> #[trigger] next@[cc] == step_active(
                        g,
                        act,
                        r as int,
                        cols as int,
                    )[cc],
            decreases cols - c2,
        {
            let straight = active[c2] && {
                let ch = if c2 < grid[r + 1].len() {
                    grid[r + 1][c2]
                } else {
                    ' '
                };
                ch != '^'
            };
            let from_left = c2 >= 1 && active[c2 - 1] && {
                let ch = if c2 - 1 < grid[r + 1].len() {
                    grid[r + 1][c2 - 1]
                } else {
                    ' '
                };
                ch == '^'
            };
            let from_right = c2 + 1 < cols && active[c2 + 1] && {
                let ch = if c2 + 1 < grid[r + 1].len() {
                    grid[r + 1][c2 + 1]
                } else {
                    ' '
                };
                ch == '^'
            };
            next.push(straight || from_left || from_right);
            c2 = c2 + 1;
        }
        proof {
            assert(next@ =~= step_active(g, act, r as int, cols as int));
        }
        active = next;
        total = total.saturating_add(hits);
        r = r + 1;
    }
    total
}

/// The timeline counts one row further down.
pub open spec fn step_counts(g: Seq<Seq<char>>, t: Seq<int>, r: int, cols: int) -> Seq<int> {
    Seq::new(
        cols as nat,
        |c: int|
            (if cell(g, r + 1, c) != '^' {
                t[c]
            } else {
                0int
            }) + (if c >= 1 && cell(g, r + 1, c - 1) == '^' {
                t[c - 1]
            } else {
                0int
            }) + (if c + 1 < cols && cell(g, r + 1, c + 1) == '^' {
                t[c + 1]
            } else {
                0int
            }),
    )
}

/// The timeline counts after falling through every row.
pub open spec fn run_counts(g: Seq<Seq<char>>, t: Seq<int>, r: int, rows: int, cols: int) -> Seq<
    int,
>
    decreases rows - r,
{
    if r + 1 >= rows {
        t
    } else {
        run_counts(g, step_counts(g, t, r, cols), r + 1, rows, cols)
    }
}

/// Sum of a sequence of counts.
pub open spec fn counts_sum(t: Seq<int>) -> int
    decreases t.len(),
{
    if t.len() == 0 {
        0
    } else {
        counts_sum(t.drop_last()) + t.last()
    }
}

proof fn lemma_counts_nonneg(t: Seq<int>)
    requires
        forall|c: int| 0 <= c < t.len() ==> #[trigger] t[c] >= 0,
    ensures
        counts_sum(t) >= 0,
    decreases t.len(),
{
    if t.len() > 0 {
        lemma_counts_nonneg(t.drop_last());
    }
}

/// Counts the timelines reaching the bottom row: every split sends a
/// timeline down both sides.  The count starts at one on the leftmost `S`
/// of the last row holding one, and every entry is clamped to the machine
/// range.
pub fn count_timelines(grid: &Vec<Vec<char>>) -> (r: u64)
    ensures
        grid@.len() == 0 ==> r == 0,
        grid@.len() > 0 ==> {
            let g = grid@.map_values(|v: Vec<char>| v@);
            let rows = g.len() as int;
            let cols = g[0].len() as int;
            let sc = start_col_of(g, rows);
            r as int == clamp_u64(
                counts_sum(
                    run_counts(
                        g,
                        Seq::new(cols as nat, |c: int| if c == sc { 1int } else { 0int }),
                        0,
                        rows,
                        cols,
                    ),
                ),
            )
        },
{
    let ghost g = grid@.map_values(|v: Vec<char>| v@);
    let rows = grid.len();
    if rows == 0 {
        return 0;
    }
    let cols = grid[0].len();

    // the leftmost `S` of the last row holding one
    let mut sc: usize = 0;
    let mut rr: usize = 0;
    while rr < rows
        invariant
            0 <= rr <= rows,
            rows == grid@.len(),
            g == grid@.map_values(|v: Vec<char>| v@),
            sc as int == start_col_of(g, rr as int),
        decreases rows - rr,
    {
        let rowlen = grid[rr].len();
        let mut cc: usize = 0;
        let mut found: Option<usize> = None;
        loop
            invariant_except_break
                0 <= cc <= rowlen,
                rr < rows,
                rows == grid@.len(),
                g == grid@.map_values(|v: Vec<char>| v@),
                rowlen == g[rr as int].len(),
                found is None,
                row_first_s(g[rr as int], 0) == row_first_s(g[rr as int], cc as int),
            ensures
                match found {
                    Some(v) => row_first_s(g[rr as int], 0) == Some(v as int),
                    None => row_first_s(g[rr as int], 0) is None,
                },
            decreases rowlen - cc,
        {
            if cc >= rowlen {
                break ;
            }
            if grid[rr][cc] == 'S' {
                found = Some(cc);
                break ;
            }
            cc = cc + 1;
        }
        match found {
            Some(v) => {
                sc = v;
            },
            None => {
            },
        }
        rr = rr + 1;
    }

    // fall through the rows, carrying a clamped count per column
    let ghost t0 = Seq::new(
        cols as nat,
        |c: int|
            if c == start_col_of(g, rows as int) {
                1int
            } else {
                0int
            },
    );
    let ghost mut ttrue = t0;
    let mut counts: Vec<u64> = Vec::new();
    let mut c0: usize = 0;
    while c0 < cols
        invariant
            0 <= c0 <= cols,
            counts@.len() == c0,
            forall|c: int|
                0 <= c < c0 ==> #[trigger] counts@[c] == (if c == sc as int {
                    1u64
                } else {
                    0u64
                }),
        decreases cols - c0,
    {
        if c0 == sc {
            counts.push(1);
        } else {
            counts.push(0);
        }
        c0 = c0 + 1;
    }
    let mut r: usize = 0;
    while r + 1 < rows
        invariant
            0 <= r < rows,
            rows == grid@.len(),
            rows > 0,
            cols == g[0].len(),
            g == grid@.map_values(|v: Vec<char>| v@),
            counts@.len() == cols,
            ttrue.len() == cols,
            forall|c: int| 0 <= c < cols ==> #[trigger] ttrue[c] >= 0,
            forall|c: int|
                0 <= c < cols ==> #[trigger] counts@[c] as int == clamp_u64(ttrue[c]),
            run_counts(g, ttrue, r as int, rows as int, cols as int) == run_counts(
                g,
                t0,
                0,
                rows as int,
                cols as int,
            ),
        decreases rows - r,
    {
        let ghost act = counts@;
        let ghost told = ttrue;
        let mut next: Vec<u64> = Vec::new();
        let mut c: usize = 0;
        while c < cols
            invariant
                0 <= c <= cols,
                r + 1 < rows,
                rows == grid@.len(),
                g == grid@.map_values(|v: Vec<char>| v@),
                act == counts@,
                counts@.len() == cols,
                told.len() == cols,
                forall|cc: int| 0 <= cc < cols ==> #[trigger] told[cc] >= 0,
                forall|cc: int|
                    0 <= cc < cols ==> #[trigger] counts@[cc] as int == clamp_u64(told[cc]),
                next@.len() == c,
                forall|cc: int|
                    0 <= cc < c ==> #[trigger] next@[cc] as int == clamp_u64(
                        step_counts(g, told, r as int, cols as int)[cc],
                    ),
            decreases cols - c,
        {
            let mid = if c < grid[r + 1].len() {
                grid[r + 1][c]
            } else {
                ' '
            };
            let mut v: u64 = if mid != '^' {
                counts[c]
            } else {
                0
            };
            if c >= 1 {
                let left = if c - 1 < grid[r + 1].len() {
                    grid[r + 1][c - 1]
                } else {
                    ' '
                };
                if left == '^' {
                    v = v.saturating_add(counts[c - 1]);
                }
            }
            if c + 1 < cols {
                let right = if c + 1 < grid[r + 1].len() {
                    grid[r + 1][c + 1]
                } else {
                    ' '
                };
                if right == '^' {
                    v = v.saturating_add(counts[c + 1]);
                }
            }
            next.push(v);
            c = c + 1;
        }
        proof {
            ttrue = step_counts(g, told, r as int, cols as int);
        }
        counts = next;
        r = r + 1;
    }
    // add the clamped counts together
    let mut total: u64 = 0;
    let mut c3: usize = 0;
    let ghost tfinal = ttrue;
    while c3 < cols
        invariant
            0 <= c3 <= cols,
            counts@.len() == cols,
            tfinal.len() == cols,
            tfinal == ttrue,
            forall|c: int| 0 <= c < cols ==> #[trigger] tfinal[c] >= 0,
            forall|c: int|
                0 <= c < cols ==> #[trigger] counts@[c] as int == clamp_u64(tfinal[c]),
            total as int == clamp_u64(counts_sum(tfinal.subrange(0, c3 as int))),
        decreases cols - c3,
    {
        proof {
            assert(tfinal.subrange(0, c3 + 1).drop_last() =~= tfinal.subrange(0, c3 as int));
            lemma_counts_nonneg(tfinal.subrange(0, c3 as int));
        }
        total = total.saturating_add(counts[c3]);
        c3 = c3 + 1;
    }
    proof {
        assert(tfinal.subrange(0, cols as int) =~= tfinal);
        if r + 1 >= rows {
            assert(run_counts(g, ttrue, r as int, rows as int, cols as int) == ttrue);
        }
    }
    total
}

} // verus!
