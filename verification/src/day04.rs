//! Paper rolls in a storage grid.
//!
//! A roll (`@`) is accessible when fewer than four of its eight neighbours
//! are rolls.  The first part counts the accessible rolls; the second
//! removes every accessible roll, over and over, until none is accessible,
//! and counts the rolls removed.

use vstd::prelude::*;
use vstd::string::StrSliceExecFns;

use crate::text::chars_of;
use crate::text::lines_of;
use crate::text::spec_lines;

verus! {

/// The character at `(r, c)`, a blank outside the grid.
pub open spec fn cell(g: Seq<Seq<char>>, r: int, c: int) -> char {
    if 0 <= r < g.len() && 0 <= c < g[r].len() {
        g[r][c]
    } else {
        ' '
    }
}

/// One when the cell inside the first `cols` columns holds a roll.
pub open spec fn roll_at(g: Seq<Seq<char>>, r: int, c: int, cols: int) -> int {
    if 0 <= c < cols && cell(g, r, c) == '@' {
        1
    } else {
        0
    }
}

/// How many of the eight neighbours hold rolls.
pub open spec fn adj(g: Seq<Seq<char>>, r: int, c: int, cols: int) -> int {
    roll_at(g, r - 1, c - 1, cols) + roll_at(g, r - 1, c, cols) + roll_at(g, r - 1, c + 1, cols)
        + roll_at(g, r, c - 1, cols) + roll_at(g, r, c + 1, cols) + roll_at(g, r + 1, c - 1, cols)
        + roll_at(g, r + 1, c, cols) + roll_at(g, r + 1, c + 1, cols)
}

/// A roll with fewer than four neighbouring rolls can be taken out.
pub open spec fn accessible(g: Seq<Seq<char>>, r: int, c: int, cols: int) -> bool {
    cell(g, r, c) == '@' && adj(g, r, c, cols) < 4
}

/// Number of accessible rolls in row `r` before column `c_end`.
pub open spec fn row_accessible(g: Seq<Seq<char>>, r: int, c_end: int, cols: int) -> int
    decreases c_end,
{
    if c_end <= 0 {
        0
    } else {
        row_accessible(g, r, c_end - 1, cols) + if accessible(g, r, c_end - 1, cols) {
            1int
        } else {
            0int
        }
    }
}

/// Number of accessible rolls in the first `r_end` rows.
pub open spec fn grid_accessible(g: Seq<Seq<char>>, r_end: int, cols: int) -> int
    decreases r_end,
{
    if r_end <= 0 {
        0
    } else {
        grid_accessible(g, r_end - 1, cols) + row_accessible(g, r_end - 1, cols, cols)
    }
}

/// Accessible counts are never negative.
pub proof fn lemma_access_nonneg(g: Seq<Seq<char>>, r_end: int, cols: int)
    ensures
        grid_accessible(g, r_end, cols) >= 0,
        forall|r: int, c_end: int| row_accessible(g, r, c_end, cols) >= 0,
    decreases r_end,
{
    assert forall|r: int, c_end: int| row_accessible(g, r, c_end, cols) >= 0 by {
        lemma_row_access_nonneg(g, r, c_end, cols);
    };
    if r_end > 0 {
        lemma_access_nonneg(g, r_end - 1, cols);
    }
}

proof fn lemma_row_access_nonneg(g: Seq<Seq<char>>, r: int, c_end: int, cols: int)
    ensures
        row_accessible(g, r, c_end, cols) >= 0,
    decreases c_end,
{
    if c_end > 0 {
        lemma_row_access_nonneg(g, r, c_end - 1, cols);
    }
}

/// Number of rolls in one row.
pub open spec fn row_rolls(row: Seq<char>, c_end: int) -> int
    decreases c_end,
{
    if c_end <= 0 {
        0
    } else {
        row_rolls(row, c_end - 1) + if 0 <= c_end - 1 < row.len() && row[c_end - 1] == '@' {
            1int
        } else {
            0int
        }
    }
}

/// Number of rolls in the whole grid.
pub open spec fn grid_rolls(g: Seq<Seq<char>>, r_end: int) -> int
    decreases r_end,
{
    if r_end <= 0 {
        0
    } else {
        grid_rolls(g, r_end - 1) + row_rolls(g[r_end - 1], g[r_end - 1].len() as int)
    }
}

/// Replacing roll cells by floor never raises a row's roll count, and
/// strictly lowers it when some roll in range goes.
proof fn lemma_row_rolls_le(row1: Seq<char>, row2: Seq<char>, c_end: int)
    requires
        row1.len() == row2.len(),
        forall|c: int|
            0 <= c < row1.len() ==> row2[c] == row1[c] || (row1[c] == '@' && #[trigger] row2[c]
                != '@'),
    ensures
        row_rolls(row2, c_end) <= row_rolls(row1, c_end),
    decreases c_end,
{
    if c_end > 0 {
        lemma_row_rolls_le(row1, row2, c_end - 1);
    }
}

/// Strictly lower when the roll at column `wc` goes.
proof fn lemma_row_rolls_lt(row1: Seq<char>, row2: Seq<char>, c_end: int, wc: int)
    requires
        row1.len() == row2.len(),
        forall|c: int|
            0 <= c < row1.len() ==> row2[c] == row1[c] || (row1[c] == '@' && #[trigger] row2[c]
                != '@'),
        0 <= wc < c_end,
        wc < row1.len(),
        row1[wc] == '@',
        row2[wc] != '@',
    ensures
        row_rolls(row2, c_end) < row_rolls(row1, c_end),
    decreases c_end,
{
    if wc == c_end - 1 {
        lemma_row_rolls_le(row1, row2, c_end - 1);
    } else {
        lemma_row_rolls_lt(row1, row2, c_end - 1, wc);
    }
}

/// The same, over the whole grid.
proof fn lemma_grid_rolls_le(g1: Seq<Seq<char>>, g2: Seq<Seq<char>>, r_end: int)
    requires
        g1.len() == g2.len(),
        r_end <= g1.len(),
        forall|r: int| 0 <= r < g1.len() ==> (#[trigger] g2[r]).len() == g1[r].len(),
        forall|r: int, c: int|
            0 <= r < g1.len() && 0 <= c < g1[r].len() ==> g2[r][c] == g1[r][c] || (g1[r][c] == '@'
                && #[trigger] g2[r][c] != '@'),
    ensures
        grid_rolls(g2, r_end) <= grid_rolls(g1, r_end),
    decreases r_end,
{
    if r_end > 0 {
        lemma_grid_rolls_le(g1, g2, r_end - 1);
        lemma_row_rolls_le(g1[r_end - 1], g2[r_end - 1], g1[r_end - 1].len() as int);
    }
}

/// Strictly lower when the roll at `(wr, wc)` goes.
proof fn lemma_grid_rolls_lt(g1: Seq<Seq<char>>, g2: Seq<Seq<char>>, r_end: int, wr: int, wc: int)
    requires
        g1.len() == g2.len(),
        r_end <= g1.len(),
        forall|r: int| 0 <= r < g1.len() ==> (#[trigger] g2[r]).len() == g1[r].len(),
        forall|r: int, c: int|
            0 <= r < g1.len() && 0 <= c < g1[r].len() ==> g2[r][c] == g1[r][c] || (g1[r][c] == '@'
                && #[trigger] g2[r][c] != '@'),
        0 <= wr < r_end,
        0 <= wc < g1[wr].len(),
        g1[wr][wc] == '@',
        g2[wr][wc] != '@',
    ensures
        grid_rolls(g2, r_end) < grid_rolls(g1, r_end),
    decreases r_end,
{
    if wr == r_end - 1 {
        lemma_grid_rolls_le(g1, g2, r_end - 1);
        lemma_row_rolls_lt(g1[wr], g2[wr], g1[wr].len() as int, wc);
    } else {
        lemma_grid_rolls_lt(g1, g2, r_end - 1, wr, wc);
        lemma_row_rolls_le(g1[r_end - 1], g2[r_end - 1], g1[r_end - 1].len() as int);
    }
}

/// The grid model of the input: one row of characters per line.
pub open spec fn grid_of(input: Seq<char>) -> Seq<Seq<char>> {
    spec_lines(input)
}

/// Whether the cell at `(rr, cc)` within the first `cols` columns holds a
/// roll.
fn probe(grid: &Vec<Vec<char>>, rr: usize, cc: usize, cols: usize) -> (b: bool)
    ensures
        b == (roll_at(grid@.map_values(|v: Vec<char>| v@), rr as int, cc as int, cols as int)
            == 1),
{
    if rr < grid.len() && cc < cols && cc < grid[rr].len() {
        grid[rr][cc] == '@'
    } else {
        false
    }
}

/// Counts the rolls neighbouring `(r, c)` within the first `cols` columns.
pub fn count_adjacent(grid: &Vec<Vec<char>>, r: usize, c: usize, rows: usize, cols: usize) -> (n:
    usize)
    requires
        rows == grid@.len(),
        r < rows,
        c < cols,
    ensures
        n == adj(grid@.map_values(|v: Vec<char>| v@), r as int, c as int, cols as int),
        n <= 8,
{
    let ghost g = grid@.map_values(|v: Vec<char>| v@);
    let mut n: usize = 0;
    if r >= 1 {
        if c >= 1 && probe(grid, r - 1, c - 1, cols) {
            n = n + 1;
        }
        if probe(grid, r - 1, c, cols) {
            n = n + 1;
        }
        if probe(grid, r - 1, c + 1, cols) {
            n = n + 1;
        }
    }
    if c >= 1 && probe(grid, r, c - 1, cols) {
        n = n + 1;
    }
    if probe(grid, r, c + 1, cols) {
        n = n + 1;
    }
    if c >= 1 && probe(grid, r + 1, c - 1, cols) {
        n = n + 1;
    }
    if probe(grid, r + 1, c, cols) {
        n = n + 1;
    }
    if probe(grid, r + 1, c + 1, cols) {
        n = n + 1;
    }
    n
}

/// Roll counts are never negative.
proof fn lemma_rolls_nonneg(g: Seq<Seq<char>>, r_end: int)
    ensures
        grid_rolls(g, r_end) >= 0,
    decreases r_end,
{
    assert forall|row: Seq<char>, c_end: int| row_rolls(row, c_end) >= 0 by {
        lemma_row_rolls_nonneg(row, c_end);
    };
    if r_end > 0 {
        lemma_rolls_nonneg(g, r_end - 1);
    }
}

proof fn lemma_row_rolls_nonneg(row: Seq<char>, c_end: int)
    ensures
        row_rolls(row, c_end) >= 0,
    decreases c_end,
{
    if c_end > 0 {
        lemma_row_rolls_nonneg(row, c_end - 1);
    }
}

/// A positive accessible count names an accessible roll.
proof fn lemma_row_access_witness(g: Seq<Seq<char>>, r: int, c_end: int, cols: int)
    requires
        row_accessible(g, r, c_end, cols) > 0,
    ensures
        exists|c: int| 0 <= c < c_end && #[trigger] accessible(g, r, c, cols),
    decreases c_end,
{
    if c_end > 0 {
        if accessible(g, r, c_end - 1, cols) {
        } else {
            lemma_row_access_witness(g, r, c_end - 1, cols);
        }
    }
}

proof fn lemma_grid_access_witness(g: Seq<Seq<char>>, r_end: int, cols: int)
    requires
        grid_accessible(g, r_end, cols) > 0,
    ensures
        exists|r: int, c: int| 0 <= r < r_end && 0 <= c < cols && #[trigger] accessible(g, r, c, cols),
    decreases r_end,
{
    if r_end > 0 {
        lemma_row_access_nonneg(g, r_end - 1, cols, cols);
        lemma_access_nonneg(g, r_end - 1, cols);
        if row_accessible(g, r_end - 1, cols, cols) > 0 {
            lemma_row_access_witness(g, r_end - 1, cols, cols);
            let c = choose|c: int| 0 <= c < cols && #[trigger] accessible(g, r_end - 1, c, cols);
            assert(accessible(g, r_end - 1, c, cols));
        } else {
            lemma_grid_access_witness(g, r_end - 1, cols);
        }
    }
}

/// The grid after one round: every accessible roll replaced by floor.
pub open spec fn sweep(g: Seq<Seq<char>>, cols: int) -> Seq<Seq<char>> {
    Seq::new(
        g.len(),
        |r: int|
            Seq::new(
                g[r].len(),
                |c: int|
                    if c < cols && accessible(g, r, c, cols) {
                        '.'
                    } else {
                        g[r][c]
                    },
            ),
    )
}

/// Sweeping an accessible roll strictly lowers the roll count.
proof fn lemma_sweep_decreases(g: Seq<Seq<char>>, cols: int)
    requires
        grid_accessible(g, g.len() as int, cols) > 0,
    ensures
        grid_rolls(sweep(g, cols), sweep(g, cols).len() as int) < grid_rolls(g, g.len() as int),
    decreases g.len(),
{
    let g2 = sweep(g, cols);
    lemma_grid_access_witness(g, g.len() as int, cols);
    let (r, c) = choose|r: int, c: int|
        0 <= r < g.len() && 0 <= c < cols && #[trigger] accessible(g, r, c, cols);
    assert(cell(g, r, c) == '@');
    assert(0 <= c < g[r].len());
    assert(g2[r][c] == '.');
    lemma_grid_rolls_lt(g, g2, g.len() as int, r, c);
}

/// The number of rolls removed before no roll is accessible any more.
pub open spec fn total_removed(g: Seq<Seq<char>>, cols: int) -> int
    decreases grid_rolls(g, g.len() as int),
    when grid_rolls(g, g.len() as int) >= 0
    via total_removed_dec
{
    let k = grid_accessible(g, g.len() as int, cols);
    if k <= 0 {
        0
    } else {
        k + total_removed(sweep(g, cols), cols)
    }
}

#[via_fn]
proof fn total_removed_dec(g: Seq<Seq<char>>, cols: int) {
    lemma_rolls_nonneg(g, g.len() as int);
    lemma_rolls_nonneg(sweep(g, cols), sweep(g, cols).len() as int);
    if grid_accessible(g, g.len() as int, cols) > 0 {
        lemma_sweep_decreases(g, cols);
    }
}

/// The removal total is never negative.
proof fn lemma_total_removed_nonneg(g: Seq<Seq<char>>, cols: int)
    ensures
        total_removed(g, cols) >= 0,
    decreases grid_rolls(g, g.len() as int),
{
    lemma_rolls_nonneg(g, g.len() as int);
    let k = grid_accessible(g, g.len() as int, cols);
    if k > 0 {
        lemma_sweep_decreases(g, cols);
        lemma_rolls_nonneg(sweep(g, cols), sweep(g, cols).len() as int);
        lemma_total_removed_nonneg(sweep(g, cols), cols);
        lemma_access_nonneg(g, g.len() as int, cols);
    }
}

/// A value clamped to the machine range.
pub open spec fn clamp_usize(x: int) -> int {
    if x <= usize::MAX as int {
        x
    } else {
        usize::MAX as int
    }
}

/// Builds the character grid of the input.
fn build_grid(input: &str) -> (r: Vec<Vec<char>>)
    ensures
        r@.map_values(|v: Vec<char>| v@) == grid_of(input@),
{
    let lines = lines_of(input);
    let mut grid: Vec<Vec<char>> = Vec::new();
    let mut i: usize = 0;
    while i < lines.len()
        invariant
            0 <= i <= lines@.len(),
            lines@.len() == spec_lines(input@).len(),
            forall|t: int|
                0 <= t < lines@.len() ==> #[trigger] lines@[t]@ == spec_lines(input@)[t],
            grid@.len() == i,
            forall|t: int|
                0 <= t < i ==> #[trigger] grid@[t]@ == spec_lines(input@)[t],
        decreases lines@.len() - i,
    {
        grid.push(chars_of(lines[i]));
        i = i + 1;
    }
    proof {
        assert(grid@.map_values(|v: Vec<char>| v@) =~= grid_of(input@));
    }
    grid
}

/// Counts the accessible rolls of the input grid, clamped to the machine
/// range.
pub fn part1(input: &str) -> (r: usize)
    ensures
        grid_of(input@).len() == 0 ==> r == 0,
        grid_of(input@).len() > 0 ==> r as int == clamp_usize(
            grid_accessible(grid_of(input@), grid_of(input@).len() as int, grid_of(input@)[0].len() as int),
        ),
{
    let grid = build_grid(input);
    let ghost g = grid_of(input@);
    let rows = grid.len();
    if rows == 0 {
        return 0;
    }
    let cols = grid[0].len();
    let mut count: usize = 0;
    let mut r: usize = 0;
    while r < rows
        invariant
            0 <= r <= rows,
            rows == grid@.len(),
            g == grid_of(input@),
            grid@.map_values(|v: Vec<char>| v@) == g,
            rows > 0,
            cols == g[0].len(),
            count as int == clamp_usize(grid_accessible(g, r as int, cols as int)),
        decreases rows - r,
    {
        let mut c: usize = 0;
        while c < cols
            invariant
                0 <= c <= cols,
                r < rows,
                rows == grid@.len(),
                g == grid_of(input@),
                grid@.map_values(|v: Vec<char>| v@) == g,
                rows > 0,
                cols == g[0].len(),
                count as int == clamp_usize(
                    grid_accessible(g, r as int, cols as int) + row_accessible(
                        g,
                        r as int,
                        c as int,
                        cols as int,
                    ),
                ),
            decreases cols - c,
        {
            proof {
                lemma_access_nonneg(g, r as int, cols as int);
                lemma_row_access_nonneg(g, r as int, c as int, cols as int);
            }
            let is_roll = c < grid[r].len() && grid[r][c] == '@';
            if is_roll {
                let a = count_adjacent(&grid, r, c, rows, cols);
                if a < 4 {
                    count = count.saturating_add(1);
                }
            }
            c = c + 1;
        }
        r = r + 1;
    }
    count
}

/// Removes accessible rolls round after round until none is accessible,
/// and counts the removed rolls, clamped to the machine range.
pub fn part2(input: &str) -> (r: usize)
    ensures
        grid_of(input@).len() == 0 ==> r == 0,
        grid_of(input@).len() > 0 ==> r as int == clamp_usize(
            total_removed(grid_of(input@), grid_of(input@)[0].len() as int),
        ),
{
    let mut grid = build_grid(input);
    let ghost g0 = grid_of(input@);
    let rows = grid.len();
    if rows == 0 {
        return 0;
    }
    let cols = grid[0].len();
    let mut total: usize = 0;
    proof {
        lemma_rolls_nonneg(g0, g0.len() as int);
        lemma_total_removed_nonneg(g0, cols as int);
    }
    loop
        invariant_except_break
            rows == grid@.len(),
            rows > 0,
            g0 == grid_of(input@),
            grid_rolls(
                grid@.map_values(|v: Vec<char>| v@),
                grid@.map_values(|v: Vec<char>| v@).len() as int,
            ) >= 0,
            clamp_usize(
                total as int + total_removed(grid@.map_values(|v: Vec<char>| v@), cols as int),
            ) == clamp_usize(total_removed(g0, cols as int)),
            total as int <= clamp_usize(total_removed(g0, cols as int)),
        ensures
            total as int == clamp_usize(total_removed(g0, cols as int)),
        decreases grid_rolls(
            grid@.map_values(|v: Vec<char>| v@),
            grid@.map_values(|v: Vec<char>| v@).len() as int,
        ),
    {
        let ghost g = grid@.map_values(|v: Vec<char>| v@);
        // find every accessible roll
        let mut to_remove: Vec<(usize, usize)> = Vec::new();
        let mut r: usize = 0;
        while r < rows
            invariant
                0 <= r <= rows,
                rows == grid@.len(),
                g == grid@.map_values(|v: Vec<char>| v@),
                to_remove@.len() as int == grid_accessible(g, r as int, cols as int),
                forall|t: int|
                    0 <= t < to_remove@.len() ==> {
                        let p = #[trigger] to_remove@[t];
                        p.0 < rows && p.1 < cols && accessible(g, p.0 as int, p.1 as int, cols as int)
                    },
                forall|rr: int, cc: int|
                    0 <= rr < r && 0 <= cc < cols && accessible(g, rr, cc, cols as int)
                        ==> exists|t: int|
                        0 <= t < to_remove@.len() && (#[trigger] to_remove@[t]).0 == rr
                            && to_remove@[t].1 == cc,
            decreases rows - r,
        {
            let mut c: usize = 0;
            while c < cols
                invariant
                    0 <= c <= cols,
                    r < rows,
                    rows == grid@.len(),
                    g == grid@.map_values(|v: Vec<char>| v@),
                    to_remove@.len() as int == grid_accessible(g, r as int, cols as int)
                        + row_accessible(g, r as int, c as int, cols as int),
                    forall|t: int|
                        0 <= t < to_remove@.len() ==> {
                            let p = #[trigger] to_remove@[t];
                            p.0 < rows && p.1 < cols && accessible(
                                g,
                                p.0 as int,
                                p.1 as int,
                                cols as int,
                            )
                        },
                    forall|rr: int, cc: int|
                        0 <= rr < r && 0 <= cc < cols && accessible(g, rr, cc, cols as int)
                            ==> exists|t: int|
                            0 <= t < to_remove@.len() && (#[trigger] to_remove@[t]).0 == rr
                                && to_remove@[t].1 == cc,
                    forall|cc: int|
                        0 <= cc < c && accessible(g, r as int, cc, cols as int) ==> exists|t: int|
                            0 <= t < to_remove@.len() && (#[trigger] to_remove@[t]).0 == r as int
                                && to_remove@[t].1 == cc,
                decreases cols - c,
            {
                let ghost pre = to_remove@;
                proof {
                    assert(g[r as int] == grid@[r as int]@);
                }
                let is_roll = c < grid[r].len() && grid[r][c] == '@';
                let mut pushed = false;
                if is_roll {
                    let a = count_adjacent(&grid, r, c, rows, cols);
                    if a < 4 {
                        to_remove.push((r, c));
                        pushed = true;
                    }
                }
                proof {
                    assert(is_roll == (cell(g, r as int, c as int) == '@'));
                    assert(pushed == accessible(g, r as int, c as int, cols as int));
                    assert(forall|t: int| 0 <= t < pre.len() ==> #[trigger] to_remove@[t] == pre[t]);
                    if pushed {
                        assert(to_remove@[pre.len() as int] == (r, c));
                    }
                    assert forall|rr: int, cc: int|
                        0 <= rr < r && 0 <= cc < cols && accessible(g, rr, cc, cols as int)
                            implies exists|t: int|
                            0 <= t < to_remove@.len() && (#[trigger] to_remove@[t]).0 == rr
                                && to_remove@[t].1 == cc by {
                        let t = choose|t: int|
                            0 <= t < pre.len() && (#[trigger] pre[t]).0 == rr && pre[t].1 == cc;
                        assert(to_remove@[t] == pre[t]);
                    };
                    assert forall|cc: int|
                        0 <= cc < c + 1 && accessible(g, r as int, cc, cols as int)
                            implies exists|t: int|
                            0 <= t < to_remove@.len() && (#[trigger] to_remove@[t]).0 == r as int
                                && to_remove@[t].1 == cc by {
                        if cc < c {
                            let t = choose|t: int|
                                0 <= t < pre.len() && (#[trigger] pre[t]).0 == r as int
                                    && pre[t].1 == cc;
                            assert(to_remove@[t] == pre[t]);
                        } else {
                            assert(to_remove@[pre.len() as int].0 == r as int);
                        }
                    };
                }
                c = c + 1;
            }
            r = r + 1;
        }
        if to_remove.len() == 0 {
            proof {
                assert(total_removed(g, cols as int) == 0);
            }
            break ;
        }
        // take them out
        let k = to_remove.len();
        let mut j: usize = 0;
        while j < k
            invariant
                0 <= j <= k,
                k == to_remove@.len(),
                rows == grid@.len(),
                forall|t: int|
                    0 <= t < to_remove@.len() ==> {
                        let p = #[trigger] to_remove@[t];
                        p.0 < rows && p.1 < cols && accessible(g, p.0 as int, p.1 as int, cols as int)
                    },
                forall|rr: int| 0 <= rr < rows ==> (#[trigger] grid@[rr]@).len() == g[rr].len(),
                forall|rr: int, cc: int|
                    0 <= rr < rows && 0 <= cc < g[rr].len() ==> #[trigger] grid@[rr]@[cc] == (
                    if exists|t: int|
                        0 <= t < j && (#[trigger] to_remove@[t]).0 == rr && to_remove@[t].1 == cc {
                        '.'
                    } else {
                        g[rr][cc]
                    }),
            decreases k - j,
        {
            let p = to_remove[j];
            proof {
                assert(accessible(g, p.0 as int, p.1 as int, cols as int));
                assert(cell(g, p.0 as int, p.1 as int) == '@');
            }
            grid[p.0][p.1] = '.';
            j = j + 1;
        }
        proof {
            let g2 = grid@.map_values(|v: Vec<char>| v@);
            assert forall|rr: int| 0 <= rr < g.len() implies #[trigger] g2[rr] == sweep(
                g,
                cols as int,
            )[rr] by {
                assert(g2[rr] =~= sweep(g, cols as int)[rr]);
            };
            assert(g2 =~= sweep(g, cols as int));
            lemma_rolls_nonneg(g2, g2.len() as int);
            lemma_sweep_decreases(g, cols as int);
            lemma_total_removed_nonneg(g2, cols as int);
            lemma_access_nonneg(g, rows as int, cols as int);
            assert(total_removed(g, cols as int) == k + total_removed(g2, cols as int));
        }
        total = total.saturating_add(k);
    }
    total
}

} // verus!
