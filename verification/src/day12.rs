//! Polyomino pieces for a packing puzzle.
//!
//! Each piece is a set of grid cells; it can be rotated, mirrored and
//! shifted against the top-left corner, and placed on a board of occupied
//! and free cells.

use vstd::prelude::*;
use vstd::string::StrSliceExecFns;

verus! {

/// The cell coordinates of a shape as mathematical pairs.
pub open spec fn cm(cells: Seq<(i32, i32)>) -> Seq<(int, int)> {
    cells.map_values(|p: (i32, i32)| (p.0 as int, p.1 as int))
}

/// Every coordinate lies within the given magnitude.
pub open spec fn cells_bounded(cells: Seq<(i32, i32)>, m: int) -> bool {
    forall|t: int|
        0 <= t < cells.len() ==> -m <= (#[trigger] cells[t]).0 <= m && -m <= cells[t].1 <= m
}


/// A quarter turn clockwise of a cell set.
pub open spec fn rot_cells(s: Seq<(int, int)>) -> Seq<(int, int)> {
    s.map_values(|p: (int, int)| (p.1, -p.0))
}

/// A left-right mirror of a cell set.
pub open spec fn flip_cells(s: Seq<(int, int)>) -> Seq<(int, int)> {
    s.map_values(|p: (int, int)| (p.0, -p.1))
}

/// `k` quarter turns.
pub open spec fn rot_n(s: Seq<(int, int)>, k: nat) -> Seq<(int, int)>
    decreases k,
{
    if k == 0 {
        s
    } else {
        rot_cells(rot_n(s, (k - 1) as nat))
    }
}

/// The smallest row offset among the first `hi` cells of a cell set.
pub open spec fn pmin0(s: Seq<(int, int)>, hi: int) -> int
    decreases hi,
{
    if hi <= 1 {
        s[0].0
    } else {
        let rest = pmin0(s, hi - 1);
        if s[hi - 1].0 < rest {
            s[hi - 1].0
        } else {
            rest
        }
    }
}

/// The smallest column offset among the first `hi` cells of a cell set.
pub open spec fn pmin1(s: Seq<(int, int)>, hi: int) -> int
    decreases hi,
{
    if hi <= 1 {
        s[0].1
    } else {
        let rest = pmin1(s, hi - 1);
        if s[hi - 1].1 < rest {
            s[hi - 1].1
        } else {
            rest
        }
    }
}

/// A cell set shifted against the top-left corner.
pub open spec fn norm_cells(s: Seq<(int, int)>) -> Seq<(int, int)> {
    if s.len() == 0 {
        s
    } else {
        s.map_values(|p: (int, int)| (p.0 - pmin0(s, s.len() as int), p.1 - pmin1(s, s.len() as int)))
    }
}

/// The image of `base` after `k` quarter turns, mirrored when `f` is set.
pub open spec fn image_of(base: Seq<(int, int)>, k: nat, f: bool) -> Seq<(int, int)> {
    if f {
        flip_cells(rot_n(base, k))
    } else {
        rot_n(base, k)
    }
}

/// `c` is one of the eight corner-shifted rotation or mirror images of
/// `base`.
pub open spec fn orientation_of(c: Seq<(int, int)>, base: Seq<(int, int)>) -> bool {
    exists|k: nat, f: bool| k < 4 && c == norm_cells(#[trigger] image_of(base, k, f))
}

/// Some listed shape is the corner-shifted image of `base` turned `k`
/// quarter turns, mirrored first when `f` is set.
pub open spec fn has_image(shapes: Seq<Shape>, base: Seq<(int, int)>, k: nat, f: bool) -> bool {
    exists|t: int|
        0 <= t < shapes.len() && cm((#[trigger] shapes[t]).cells@) == norm_cells(
            image_of(base, k, f),
        )
}

/// The integer minima agree with the machine-level ones.
proof fn lemma_pmin_bridge(cells: Seq<(i32, i32)>, hi: int)
    requires
        1 <= hi <= cells.len(),
    ensures
        pmin0(cm(cells), hi) == min0(cells, hi),
        pmin1(cm(cells), hi) == min1(cells, hi),
    decreases hi,
{
    if hi > 1 {
        lemma_pmin_bridge(cells, hi - 1);
    }
}

/// The filled cells of one picture row, leftmost first.
pub open spec fn row_cells(row: Seq<char>, r: int, c_end: int) -> Seq<(int, int)>
    decreases c_end,
{
    if c_end <= 0 {
        Seq::empty()
    } else {
        row_cells(row, r, c_end - 1) + (if row[c_end - 1] == '#' {
            seq![(r, c_end - 1)]
        } else {
            Seq::empty()
        })
    }
}

/// The filled cells of a picture, top row first.
pub open spec fn picture_cells(lines: Seq<Seq<char>>, r_end: int) -> Seq<(int, int)>
    decreases r_end,
{
    if r_end <= 0 {
        Seq::empty()
    } else {
        picture_cells(lines, r_end - 1) + row_cells(
            lines[r_end - 1],
            r_end - 1,
            lines[r_end - 1].len() as int,
        )
    }
}

/// One puzzle piece: the cells it covers, relative to its own origin.
pub struct Shape {
    /// The covered cells, as row and column offsets.
    pub cells: Vec<(i32, i32)>,
}

impl Shape {
    /// Reads a piece from its picture: every `#` is a covered cell.
    pub fn new(grid: &Vec<String>) -> (r: Shape)
        requires
            grid@.len() <= 1000000,
            forall|t: int| 0 <= t < grid@.len() ==> (#[trigger] grid@[t]@).len() <= 1000000,
        ensures
            cm(r.cells@) == picture_cells(
                grid@.map_values(|s: String| s@),
                grid@.len() as int,
            ),
    {
        let ghost lines = grid@.map_values(|s: String| s@);
        let mut cells: Vec<(i32, i32)> = Vec::new();
        let mut r: usize = 0;
        while r < grid.len()
            invariant
                0 <= r <= grid@.len(),
                grid@.len() <= 1000000,
                forall|t: int| 0 <= t < grid@.len() ==> (#[trigger] grid@[t]@).len() <= 1000000,
                lines == grid@.map_values(|s: String| s@),
                cm(cells@) =~= picture_cells(lines, r as int),
            decreases grid@.len() - r,
        {
            let row = grid[r].as_str();
            let n = row.unicode_len();
            let mut c: usize = 0;
            while c < n
                invariant
                    0 <= c <= n,
                    r < grid@.len(),
                    grid@.len() <= 1000000,
                    n == lines[r as int].len(),
                    n <= 1000000,
                    row@ == lines[r as int],
                    lines == grid@.map_values(|s: String| s@),
                    cm(cells@) =~= picture_cells(lines, r as int) + row_cells(
                        lines[r as int],
                        r as int,
                        c as int,
                    ),
                decreases n - c,
            {
                let ghost oldm = cm(cells@);
                if row.get_char(c) == '#' {
                    cells.push((r as i32, c as i32));
                    proof {
                        assert(cm(cells@) =~= oldm + seq![(r as int, c as int)]);
                    }
                }
                c = c + 1;
            }
            r = r + 1;
        }
        Shape { cells }
    }

    /// The piece turned a quarter turn clockwise.
    pub fn rotated(&self) -> (r: Shape)
        requires
            cells_bounded(self.cells@, 1000000000),
        ensures
            r.cells@.len() == self.cells@.len(),
            forall|t: int|
                0 <= t < self.cells@.len() ==> (#[trigger] r.cells@[t]) == (
                    self.cells@[t].1,
                    (-self.cells@[t].0) as i32,
                ),
            cells_bounded(r.cells@, 1000000000),
    {
        let n = self.cells.len();
        let mut cells: Vec<(i32, i32)> = Vec::new();
        let mut t: usize = 0;
        while t < n
            invariant
                0 <= t <= n,
                n == self.cells@.len(),
                cells_bounded(self.cells@, 1000000000),
                cells@.len() == t,
                forall|q: int|
                    0 <= q < t ==> (#[trigger] cells@[q]) == (
                        self.cells@[q].1,
                        (-self.cells@[q].0) as i32,
                    ),
                cells_bounded(cells@, 1000000000),
            decreases n - t,
        {
            let (row, col) = self.cells[t];
            cells.push((col, -row));
            t = t + 1;
        }
        Shape { cells }
    }

    /// The piece mirrored left to right.
    pub fn flipped(&self) -> (r: Shape)
        requires
            cells_bounded(self.cells@, 1000000000),
        ensures
            r.cells@.len() == self.cells@.len(),
            forall|t: int|
                0 <= t < self.cells@.len() ==> (#[trigger] r.cells@[t]) == (
                    self.cells@[t].0,
                    (-self.cells@[t].1) as i32,
                ),
            cells_bounded(r.cells@, 1000000000),
    {
        let n = self.cells.len();
        let mut cells: Vec<(i32, i32)> = Vec::new();
        let mut t: usize = 0;
        while t < n
            invariant
                0 <= t <= n,
                n == self.cells@.len(),
                cells_bounded(self.cells@, 1000000000),
                cells@.len() == t,
                forall|q: int|
                    0 <= q < t ==> (#[trigger] cells@[q]) == (
                        self.cells@[q].0,
                        (-self.cells@[q].1) as i32,
                    ),
                cells_bounded(cells@, 1000000000),
            decreases n - t,
        {
            let (row, col) = self.cells[t];
            cells.push((row, -col));
            t = t + 1;
        }
        Shape { cells }
    }

    /// The piece shifted so that its smallest row and column offsets are
    /// zero; an empty piece stays empty.
    pub fn normalized(&self) -> (r: Shape)
        requires
            cells_bounded(self.cells@, 1000000000),
        ensures
            r.cells@.len() == self.cells@.len(),
            self.cells@.len() > 0 ==> {
                let mr = min0(self.cells@, self.cells@.len() as int);
                let mc = min1(self.cells@, self.cells@.len() as int);
                forall|t: int|
                    0 <= t < self.cells@.len() ==> (#[trigger] r.cells@[t]) == (
                        (self.cells@[t].0 - mr) as i32,
                        (self.cells@[t].1 - mc) as i32,
                    )
            },
            cells_bounded(r.cells@, 2000000001),
    {
        let n = self.cells.len();
        if n == 0 {
            let cells: Vec<(i32, i32)> = Vec::new();
            return Shape { cells };
        }
        let mut mr = self.cells[0].0;
        let mut mc = self.cells[0].1;
        let mut t: usize = 1;
        while t < n
            invariant
                1 <= t <= n,
                n == self.cells@.len(),
                cells_bounded(self.cells@, 1000000000),
                mr as int == min0(self.cells@, t as int),
                mc as int == min1(self.cells@, t as int),
                -1000000000 <= mr <= 1000000000,
                -1000000000 <= mc <= 1000000000,
            decreases n - t,
        {
            let (row, col) = self.cells[t];
            if row < mr {
                mr = row;
            }
            if col < mc {
                mc = col;
            }
            t = t + 1;
        }
        proof {
            lemma_mins(self.cells@, n as int);
        }
        let mut cells: Vec<(i32, i32)> = Vec::new();
        let mut q: usize = 0;
        while q < n
            invariant
                0 <= q <= n,
                n == self.cells@.len(),
                n > 0,
                cells_bounded(self.cells@, 1000000000),
                mr as int == min0(self.cells@, n as int),
                mc as int == min1(self.cells@, n as int),
                -1000000000 <= mr <= 1000000000,
                -1000000000 <= mc <= 1000000000,
                forall|j: int|
                    0 <= j < n ==> mr as int <= (#[trigger] self.cells@[j]).0 && mc as int
                        <= self.cells@[j].1,
                cells@.len() == q,
                forall|j: int|
                    0 <= j < q ==> (#[trigger] cells@[j]) == (
                        (self.cells@[j].0 - mr as int) as i32,
                        (self.cells@[j].1 - mc as int) as i32,
                    ),
            decreases n - q,
        {
            let (row, col) = self.cells[q];
            cells.push((row - mr, col - mc));
            q = q + 1;
        }
        Shape { cells }
    }

    /// The distinct orientations of the piece: the four rotations and
    /// their mirror images, each shifted against the corner, kept once.
    pub fn rotations_and_flips(&self) -> (r: Vec<Shape>)
        requires
            cells_bounded(self.cells@, 1000000000),
        ensures
            1 <= r@.len() <= 8,
            forall|t1: int, t2: int|
                0 <= t1 < t2 < r@.len() ==> (#[trigger] r@[t1]).cells@ != (
                #[trigger] r@[t2]).cells@,
            forall|t: int|
                0 <= t < r@.len() ==> cells_bounded((#[trigger] r@[t]).cells@, 2000000001),
            forall|t: int|
                0 <= t < r@.len() ==> orientation_of(
                    cm((#[trigger] r@[t]).cells@),
                    cm(self.cells@),
                ),
            forall|k: nat, f: bool| k < 4 ==> #[trigger] has_image(r@, cm(self.cells@), k, f),
    {
        let ghost base = cm(self.cells@);
        let mut variations: Vec<Shape> = Vec::new();
        let mut current = Shape { cells: copy_cells(&self.cells) };
        let mut round: usize = 0;
        proof {
            assert(cm(current.cells@) == rot_n(base, 0));
        }
        while round < 4
            invariant
                0 <= round <= 4,
                base == cm(self.cells@),
                cells_bounded(current.cells@, 1000000000),
                cm(current.cells@) == rot_n(base, round as nat),
                variations@.len() == 2 * round,
                forall|t: int|
                    0 <= t < variations@.len() ==> cells_bounded(
                        (#[trigger] variations@[t]).cells@,
                        2000000001,
                    ),
                forall|t: int|
                    0 <= t < variations@.len() ==> orientation_of(
                        cm((#[trigger] variations@[t]).cells@),
                        base,
                    ),
                forall|q: int|
                    0 <= q < variations@.len() ==> cm((#[trigger] variations@[q]).cells@)
                        == norm_cells(image_of(base, (q / 2) as nat, q % 2 == 1)),
            decreases 4 - round,
        {
            let a = current.normalized();
            let mirrored = current.flipped();
            let b = mirrored.normalized();
            proof {
                let cc = cm(current.cells@);
                // the plain image, shifted against the corner
                if current.cells@.len() > 0 {
                    lemma_pmin_bridge(current.cells@, current.cells@.len() as int);
                    lemma_min_bounds(current.cells@, current.cells@.len() as int, 1000000000);
                    assert forall|t: int| 0 <= t < a.cells@.len() implies cm(a.cells@)[t]
                        == norm_cells(cc)[t] by {
                        assert(a.cells@[t] == (
                            (current.cells@[t].0 - min0(
                                current.cells@,
                                current.cells@.len() as int,
                            )) as i32,
                            (current.cells@[t].1 - min1(
                                current.cells@,
                                current.cells@.len() as int,
                            )) as i32,
                        ));
                    };
                }
                assert(cm(a.cells@) =~= norm_cells(cc));
                assert(cm(a.cells@) == norm_cells(image_of(base, round as nat, false)));
                assert(orientation_of(cm(a.cells@), base));
                // the mirrored image likewise
                assert(cm(mirrored.cells@) =~= flip_cells(cc));
                let fc = flip_cells(cc);
                if mirrored.cells@.len() > 0 {
                    lemma_pmin_bridge(mirrored.cells@, mirrored.cells@.len() as int);
                    lemma_min_bounds(mirrored.cells@, mirrored.cells@.len() as int, 1000000000);
                    assert forall|t: int| 0 <= t < b.cells@.len() implies cm(b.cells@)[t]
                        == norm_cells(fc)[t] by {
                        assert(b.cells@[t] == (
                            (mirrored.cells@[t].0 - min0(
                                mirrored.cells@,
                                mirrored.cells@.len() as int,
                            )) as i32,
                            (mirrored.cells@[t].1 - min1(
                                mirrored.cells@,
                                mirrored.cells@.len() as int,
                            )) as i32,
                        ));
                    };
                }
                assert(cm(b.cells@) =~= norm_cells(fc));
                assert(cm(b.cells@) == norm_cells(image_of(base, round as nat, true)));
                assert(orientation_of(cm(b.cells@), base));
            }
            let ghost vars0 = variations@;
            variations.push(a);
            variations.push(b);
            proof {
                assert forall|q: int|
                    0 <= q < variations@.len() implies cm((#[trigger] variations@[q]).cells@)
                    == norm_cells(image_of(base, (q / 2) as nat, q % 2 == 1)) by {
                    if q < vars0.len() {
                        assert(variations@[q].cells@ == vars0[q].cells@);
                    } else if q == vars0.len() {
                        assert(variations@[q].cells@ == a.cells@);
                        assert(q / 2 == round && q % 2 == 0);
                    } else {
                        assert(variations@[q].cells@ == b.cells@);
                        assert(q / 2 == round && q % 2 == 1);
                    }
                };
            }
            let turned = current.rotated();
            proof {
                assert(cm(turned.cells@) =~= rot_cells(cm(current.cells@)));
                assert(rot_n(base, (round + 1) as nat) == rot_cells(rot_n(base, round as nat)));
            }
            current = turned;
            round = round + 1;
        }
        let mut unique: Vec<Shape> = Vec::new();
        let mut t: usize = 0;
        while t < variations.len()
            invariant
                0 <= t <= variations@.len(),
                variations@.len() == 8,
                unique@.len() <= t,
                t >= 1 ==> unique@.len() >= 1,
                forall|q1: int, q2: int|
                    0 <= q1 < q2 < unique@.len() ==> (#[trigger] unique@[q1]).cells@ != (
                    #[trigger] unique@[q2]).cells@,
                forall|t2: int|
                    0 <= t2 < variations@.len() ==> cells_bounded(
                        (#[trigger] variations@[t2]).cells@,
                        2000000001,
                    ),
                forall|q1: int|
                    0 <= q1 < unique@.len() ==> cells_bounded(
                        (#[trigger] unique@[q1]).cells@,
                        2000000001,
                    ),
                base == cm(self.cells@),
                forall|t2: int|
                    0 <= t2 < variations@.len() ==> orientation_of(
                        cm((#[trigger] variations@[t2]).cells@),
                        base,
                    ),
                forall|q1: int|
                    0 <= q1 < unique@.len() ==> orientation_of(
                        cm((#[trigger] unique@[q1]).cells@),
                        base,
                    ),
                forall|q: int|
                    0 <= q < variations@.len() ==> cm((#[trigger] variations@[q]).cells@)
                        == norm_cells(image_of(base, (q / 2) as nat, q % 2 == 1)),
                forall|q: int|
                    0 <= q < t ==> exists|q1: int|
                        0 <= q1 < unique@.len() && (#[trigger] variations@[q]).cells@
                            == unique@[q1].cells@,
            decreases variations@.len() - t,
        {
            let mut seen = false;
            let mut q: usize = 0;
            while q < unique.len()
                invariant
                    0 <= q <= unique@.len(),
                    t < variations@.len(),
                    seen == exists|j: int|
                        0 <= j < q && (#[trigger] unique@[j]).cells@ == variations@[t as int]
                            .cells@,
                decreases unique@.len() - q,
            {
                let eq = same_cells(&unique[q].cells, &variations[t].cells);
                if eq {
                    seen = true;
                }
                q = q + 1;
            }
            let ghost uniq0 = unique@;
            if !seen {
                let copied = Shape { cells: copy_cells(&variations[t].cells) };
                proof {
                    assert(copied.cells@ == variations@[t as int].cells@);
                }
                unique.push(copied);
            }
            proof {
                assert forall|q2: int|
                    0 <= q2 < t + 1 implies exists|q1: int|
                    0 <= q1 < unique@.len() && (#[trigger] variations@[q2]).cells@
                        == unique@[q1].cells@ by {
                    if q2 < t {
                        let j = choose|j: int|
                            0 <= j < uniq0.len() && (#[trigger] variations@[q2]).cells@
                                == uniq0[j].cells@;
                        assert(unique@[j].cells@ == uniq0[j].cells@);
                        assert(variations@[q2].cells@ == unique@[j].cells@);
                    } else if seen {
                        let j = choose|j: int|
                            0 <= j < uniq0.len() && (#[trigger] uniq0[j]).cells@
                                == variations@[t as int].cells@;
                        assert(unique@[j].cells@ == uniq0[j].cells@);
                        assert(variations@[q2].cells@ == unique@[j].cells@);
                    } else {
                        assert(variations@[q2].cells@ == unique@[unique@.len() - 1].cells@);
                    }
                };
            }
            t = t + 1;
        }
        proof {
            assert forall|k: nat, f: bool| k < 4 implies #[trigger] has_image(
                unique@,
                cm(self.cells@),
                k,
                f,
            ) by {
                let q: int = 2 * (k as int) + (if f {
                    1int
                } else {
                    0int
                });
                assert(q / 2 == k && (q % 2 == 1) == f);
                assert(cm(variations@[q].cells@) == norm_cells(image_of(base, k, f)));
                let q1 = choose|q1: int|
                    0 <= q1 < unique@.len() && (#[trigger] variations@[q]).cells@
                        == unique@[q1].cells@;
                assert(0 <= q1 < unique@.len() && cm(unique@[q1].cells@) == norm_cells(
                    image_of(cm(self.cells@), k, f),
                ));
            };
        }
        unique
    }
}

/// The smallest row offset among the first `hi` cells.
pub open spec fn min0(cells: Seq<(i32, i32)>, hi: int) -> int
    decreases hi,
{
    if hi <= 1 {
        cells[0].0 as int
    } else {
        let rest = min0(cells, hi - 1);
        if (cells[hi - 1].0 as int) < rest {
            cells[hi - 1].0 as int
        } else {
            rest
        }
    }
}

/// The smallest column offset among the first `hi` cells.
pub open spec fn min1(cells: Seq<(i32, i32)>, hi: int) -> int
    decreases hi,
{
    if hi <= 1 {
        cells[0].1 as int
    } else {
        let rest = min1(cells, hi - 1);
        if (cells[hi - 1].1 as int) < rest {
            cells[hi - 1].1 as int
        } else {
            rest
        }
    }
}

/// The minima are themselves within the cells' bounds.
proof fn lemma_min_bounds(cells: Seq<(i32, i32)>, hi: int, m: int)
    requires
        1 <= hi <= cells.len(),
        cells_bounded(cells, m),
    ensures
        -m <= min0(cells, hi) <= m,
        -m <= min1(cells, hi) <= m,
    decreases hi,
{
    if hi > 1 {
        lemma_min_bounds(cells, hi - 1, m);
    }
}

/// The minima bound every cell.
proof fn lemma_mins(cells: Seq<(i32, i32)>, hi: int)
    requires
        1 <= hi <= cells.len(),
    ensures
        forall|j: int|
            0 <= j < hi ==> min0(cells, hi) <= (#[trigger] cells[j]).0 && min1(cells, hi)
                <= cells[j].1,
    decreases hi,
{
    if hi > 1 {
        lemma_mins(cells, hi - 1);
    }
}

/// Copies a cell list.
fn copy_cells(a: &Vec<(i32, i32)>) -> (r: Vec<(i32, i32)>)
    ensures
        r@ == a@,
{
    let n = a.len();
    let mut r: Vec<(i32, i32)> = Vec::new();
    let mut i: usize = 0;
    while i < n
        invariant
            0 <= i <= n,
            n == a@.len(),
            r@ =~= a@.subrange(0, i as int),
        decreases n - i,
    {
        r.push(a[i]);
        i = i + 1;
    }
    proof {
        assert(a@.subrange(0, n as int) =~= a@);
    }
    r
}

/// Whether two cell lists are equal entry by entry.
fn same_cells(a: &Vec<(i32, i32)>, b: &Vec<(i32, i32)>) -> (r: bool)
    ensures
        r == (a@ == b@),
{
    if a.len() != b.len() {
        proof {
            assert(a@ != b@);
        }
        return false;
    }
    let n = a.len();
    let mut i: usize = 0;
    while i < n
        invariant
            0 <= i <= n,
            n == a@.len() == b@.len(),
            forall|j: int| 0 <= j < i ==> #[trigger] a@[j] == b@[j],
        decreases n - i,
    {
        let (ar, ac) = a[i];
        let (br, bc) = b[i];
        if ar != br || ac != bc {
            proof {
                assert(a@[i as int] != b@[i as int]);
            }
            return false;
        }
        i = i + 1;
    }
    proof {
        assert(a@ =~= b@);
    }
    true
}

/// The piece fits at `(row, col)`: every covered cell lands on the board
/// and on a free square.
pub open spec fn fits(
    board: Seq<Seq<bool>>,
    cells: Seq<(i32, i32)>,
    row: int,
    col: int,
) -> bool {
    forall|k: int|
        0 <= k < cells.len() ==> {
            let rr = row + (#[trigger] cells[k]).0;
            let cc = col + cells[k].1;
            0 <= rr < board.len() && 0 <= cc < board[rr].len() && !board[rr][cc]
        }
}

/// Whether the piece can be put down at `(row, col)`.
pub fn can_place(grid: &Vec<Vec<bool>>, shape: &Shape, row: i32, col: i32) -> (r: bool)
    requires
        grid@.len() <= 1000000,
        forall|t: int| 0 <= t < grid@.len() ==> (#[trigger] grid@[t]@).len() <= 1000000,
    ensures
        r == fits(
            grid@.map_values(|v: Vec<bool>| v@),
            shape.cells@,
            row as int,
            col as int,
        ),
{
    let ghost board = grid@.map_values(|v: Vec<bool>| v@);
    let n = shape.cells.len();
    let mut k: usize = 0;
    while k < n
        invariant
            0 <= k <= n,
            n == shape.cells@.len(),
            grid@.len() <= 1000000,
            forall|t: int| 0 <= t < grid@.len() ==> (#[trigger] grid@[t]@).len() <= 1000000,
            board == grid@.map_values(|v: Vec<bool>| v@),
            forall|j: int|
                0 <= j < k ==> {
                    let rr = row + (#[trigger] shape.cells@[j]).0;
                    let cc = col + shape.cells@[j].1;
                    0 <= rr < board.len() && 0 <= cc < board[rr].len() && !board[rr][cc]
                },
        decreases n - k,
    {
        let (dr, dc) = shape.cells[k];
        let rr = row as i64 + dr as i64;
        let cc = col as i64 + dc as i64;
        if rr < 0 || cc < 0 {
            return false;
        }
        if rr >= grid.len() as i64 {
            return false;
        }
        let rru = rr as usize;
        if cc >= grid[rru].len() as i64 {
            return false;
        }
        let ccu = cc as usize;
        if grid[rru][ccu] {
            return false;
        }
        k = k + 1;
    }
    true
}

/// Puts the piece down or lifts it: every covered square is set to `mark`.
pub fn place_shape(grid: &mut Vec<Vec<bool>>, shape: &Shape, row: i32, col: i32, mark: bool)
    requires
        old(grid)@.len() <= 1000000,
        forall|t: int| 0 <= t < old(grid)@.len() ==> (#[trigger] old(grid)@[t]@).len() <= 1000000,
        forall|k: int|
            0 <= k < shape.cells@.len() ==> {
                let rr = row + (#[trigger] shape.cells@[k]).0;
                let cc = col + shape.cells@[k].1;
                0 <= rr < old(grid)@.len() && 0 <= cc < old(grid)@[rr]@.len()
            },
    ensures
        final(grid)@.len() == old(grid)@.len(),
        forall|r: int|
            0 <= r < old(grid)@.len() ==> (#[trigger] final(grid)@[r]@).len() == old(
                grid,
            )@[r]@.len(),
        forall|r: int, c: int|
            0 <= r < old(grid)@.len() && 0 <= c < old(grid)@[r]@.len()
                ==> #[trigger] final(grid)@[r]@[c] == (if exists|k: int|
                0 <= k < shape.cells@.len() && row + (#[trigger] shape.cells@[k]).0 == r && col
                    + shape.cells@[k].1 == c {
                mark
            } else {
                old(grid)@[r]@[c]
            }),
{
    let n = shape.cells.len();
    let mut k: usize = 0;
    while k < n
        invariant
            0 <= k <= n,
            n == shape.cells@.len(),
            old(grid)@.len() <= 1000000,
            grid@.len() == old(grid)@.len(),
            forall|j: int|
                0 <= j < n ==> {
                    let rr = row + (#[trigger] shape.cells@[j]).0;
                    let cc = col + shape.cells@[j].1;
                    0 <= rr < old(grid)@.len() && 0 <= cc < old(grid)@[rr]@.len()
                },
            forall|r: int|
                0 <= r < old(grid)@.len() ==> (#[trigger] grid@[r]@).len() == old(
                    grid,
                )@[r]@.len(),
            forall|r: int, c: int|
                0 <= r < old(grid)@.len() && 0 <= c < old(grid)@[r]@.len()
                    ==> #[trigger] grid@[r]@[c] == (if exists|j: int|
                    0 <= j < k && row + (#[trigger] shape.cells@[j]).0 == r && col
                        + shape.cells@[j].1 == c {
                    mark
                } else {
                    old(grid)@[r]@[c]
                }),
        decreases n - k,
    {
        let (dr, dc) = shape.cells[k];
        let rru = (row as i64 + dr as i64) as usize;
        let ccu = (col as i64 + dc as i64) as usize;
        let ghost pre = grid@;
        grid[rru][ccu] = mark;
        proof {
            assert forall|r: int, c: int|
                0 <= r < old(grid)@.len() && 0 <= c < old(grid)@[r]@.len()
                    implies #[trigger] grid@[r]@[c] == (if exists|j: int|
                    0 <= j < k + 1 && row + (#[trigger] shape.cells@[j]).0 == r && col
                        + shape.cells@[j].1 == c {
                    mark
                } else {
                    old(grid)@[r]@[c]
                }) by {
                if r == rru as int && c == ccu as int {
                    assert(row + shape.cells@[k as int].0 == r && col + shape.cells@[k as int].1
                        == c);
                } else {
                    assert(grid@[r]@[c] == pre[r]@[c]);
                }
            };
        }
        k = k + 1;
    }
}

/// Number of free squares in one row, before column `c_end`.
pub open spec fn row_free(row: Seq<bool>, c_end: int) -> int
    decreases c_end,
{
    if c_end <= 0 {
        0
    } else {
        row_free(row, c_end - 1) + if 0 <= c_end - 1 < row.len() && !row[c_end - 1] {
            1int
        } else {
            0int
        }
    }
}

/// Number of free squares on the board, in the first `r_end` rows.
pub open spec fn board_free(b: Seq<Seq<bool>>, r_end: int) -> int
    decreases r_end,
{
    if r_end <= 0 {
        0
    } else {
        board_free(b, r_end - 1) + row_free(b[r_end - 1], b[r_end - 1].len() as int)
    }
}

proof fn lemma_row_free_nonneg(row: Seq<bool>, c_end: int)
    ensures
        row_free(row, c_end) >= 0,
    decreases c_end,
{
    if c_end > 0 {
        lemma_row_free_nonneg(row, c_end - 1);
    }
}

proof fn lemma_board_free_nonneg(b: Seq<Seq<bool>>, r_end: int)
    ensures
        board_free(b, r_end) >= 0,
    decreases r_end,
{
    assert forall|row: Seq<bool>, c_end: int| row_free(row, c_end) >= 0 by {
        lemma_row_free_nonneg(row, c_end);
    };
    if r_end > 0 {
        lemma_board_free_nonneg(b, r_end - 1);
    }
}

/// Filling squares never raises the free count.
proof fn lemma_row_free_le(r1: Seq<bool>, r2: Seq<bool>, c_end: int)
    requires
        r1.len() == r2.len(),
        forall|c: int| 0 <= c < r1.len() ==> r2[c] == r1[c] || (#[trigger] r2[c]) == true,
    ensures
        row_free(r2, c_end) <= row_free(r1, c_end),
    decreases c_end,
{
    if c_end > 0 {
        lemma_row_free_le(r1, r2, c_end - 1);
    }
}

proof fn lemma_row_free_lt(r1: Seq<bool>, r2: Seq<bool>, c_end: int, wc: int)
    requires
        r1.len() == r2.len(),
        forall|c: int| 0 <= c < r1.len() ==> r2[c] == r1[c] || (#[trigger] r2[c]) == true,
        0 <= wc < c_end,
        wc < r1.len(),
        !r1[wc],
        r2[wc],
    ensures
        row_free(r2, c_end) < row_free(r1, c_end),
    decreases c_end,
{
    if wc == c_end - 1 {
        lemma_row_free_le(r1, r2, c_end - 1);
    } else {
        lemma_row_free_lt(r1, r2, c_end - 1, wc);
    }
}

proof fn lemma_board_free_le(b1: Seq<Seq<bool>>, b2: Seq<Seq<bool>>, r_end: int)
    requires
        b1.len() == b2.len(),
        r_end <= b1.len(),
        forall|r: int| 0 <= r < b1.len() ==> (#[trigger] b2[r]).len() == b1[r].len(),
        forall|r: int, c: int|
            0 <= r < b1.len() && 0 <= c < b1[r].len() ==> b2[r][c] == b1[r][c] || (
            #[trigger] b2[r][c]) == true,
    ensures
        board_free(b2, r_end) <= board_free(b1, r_end),
    decreases r_end,
{
    if r_end > 0 {
        lemma_board_free_le(b1, b2, r_end - 1);
        lemma_row_free_le(b1[r_end - 1], b2[r_end - 1], b1[r_end - 1].len() as int);
    }
}

/// Filling a free square strictly lowers the free count.
proof fn lemma_board_free_lt(
    b1: Seq<Seq<bool>>,
    b2: Seq<Seq<bool>>,
    r_end: int,
    wr: int,
    wc: int,
)
    requires
        b1.len() == b2.len(),
        r_end <= b1.len(),
        forall|r: int| 0 <= r < b1.len() ==> (#[trigger] b2[r]).len() == b1[r].len(),
        forall|r: int, c: int|
            0 <= r < b1.len() && 0 <= c < b1[r].len() ==> b2[r][c] == b1[r][c] || (
            #[trigger] b2[r][c]) == true,
        0 <= wr < r_end,
        0 <= wc < b1[wr].len(),
        !b1[wr][wc],
        b2[wr][wc],
    ensures
        board_free(b2, r_end) < board_free(b1, r_end),
    decreases r_end,
{
    if wr == r_end - 1 {
        lemma_board_free_le(b1, b2, r_end - 1);
        lemma_row_free_lt(b1[wr], b2[wr], b1[wr].len() as int, wc);
    } else {
        lemma_board_free_lt(b1, b2, r_end - 1, wr, wc);
        lemma_row_free_le(b1[r_end - 1], b2[r_end - 1], b1[r_end - 1].len() as int);
    }
}

/// The board model of a vector of rows.
pub open spec fn bm(g: Seq<Vec<bool>>) -> Seq<Seq<bool>> {
    g.map_values(|vv: Vec<bool>| vv@)
}

/// Some put-down piece of `ps` covers the square `(r, c)`: each entry of
/// `ps` is an offset pair and the image cells laid down there.
pub open spec fn placed_at(ps: Seq<(int, int, Seq<(int, int)>)>, r: int, c: int) -> bool {
    exists|t: int, k: int|
        0 <= t < ps.len() && 0 <= k < ps[t].2.len() && ps[t].0 + (#[trigger] ps[t].2[k]).0 == r
            && ps[t].1 + ps[t].2[k].1 == c
}

/// Each entry of `ps`, in order, is an orientation image of its piece
/// among `to_place[idx..]`.
pub open spec fn packing_pieces_ok(
    shapes: Seq<Shape>,
    to_place: Seq<usize>,
    idx: int,
    ps: Seq<(int, int, Seq<(int, int)>)>,
) -> bool
    decreases ps.len(),
{
    ps.len() == 0 || (0 <= idx < to_place.len() && to_place[idx] < shapes.len()
        && orientation_of(ps[0].2, cm(shapes[to_place[idx] as int].cells@))
        && packing_pieces_ok(shapes, to_place, idx + 1, ps.drop_first()))
}

/// Each entry of `ps` sits within the board on squares that are free and
/// not covered by an earlier entry.
pub open spec fn packing_cells_ok(b: Seq<Seq<bool>>, ps: Seq<(int, int, Seq<(int, int)>)>) -> bool {
    forall|t: int, k: int|
        0 <= t < ps.len() && 0 <= k < ps[t].2.len() ==> {
            let rr = ps[t].0 + (#[trigger] ps[t].2[k]).0;
            let cc = ps[t].1 + ps[t].2[k].1;
            0 <= rr < b.len() && 0 <= cc < b[rr].len() && !b[rr][cc] && !placed_at(
                ps.subrange(0, t),
                rr,
                cc,
            )
        }
}

/// `ps` lays down the first `ps.len()` of the pieces `to_place[idx..]` on
/// board `b`: each entry is an orientation image of its piece, placed
/// within the board on squares that are free and not covered by an
/// earlier entry.
pub open spec fn packing_ok(
    b: Seq<Seq<bool>>,
    shapes: Seq<Shape>,
    to_place: Seq<usize>,
    idx: int,
    ps: Seq<(int, int, Seq<(int, int)>)>,
) -> bool {
    &&& idx + ps.len() <= to_place.len()
    &&& packing_pieces_ok(shapes, to_place, idx, ps)
    &&& packing_cells_ok(b, ps)
}

/// A board unchanged carries the empty packing.
proof fn lemma_empty_packing(g: Seq<Vec<bool>>, shapes: Seq<Shape>, to_place: Seq<usize>, idx: int)
    requires
        0 <= idx <= to_place.len(),
    ensures
        exists|ps: Seq<(int, int, Seq<(int, int)>)>|
            #[trigger] packing_ok(bm(g), shapes, to_place, idx, ps) && (forall|rr: int, cc: int|
                0 <= rr < g.len() && 0 <= cc < g[rr]@.len() ==> #[trigger] g[rr]@[cc] == (
                g[rr]@[cc] || placed_at(ps, rr, cc))),
{
    let ps = Seq::<(int, int, Seq<(int, int)>)>::empty();
    assert(packing_ok(bm(g), shapes, to_place, idx, ps));
    assert forall|rr: int, cc: int|
        0 <= rr < g.len() && 0 <= cc < g[rr]@.len() implies #[trigger] g[rr]@[cc] == (g[rr]@[cc]
        || placed_at(ps, rr, cc)) by {
        assert(!placed_at(ps, rr, cc));
    };
}


/// A piece placed on the entry board followed by a packing of the rest is
/// a packing of the whole remainder.
#[verifier::rlimit(100)]
#[verifier::spinoff_prover]
proof fn lemma_success_packing_step(
    b0: Seq<Vec<bool>>,
    mid: Seq<Vec<bool>>,
    fin: Seq<Vec<bool>>,
    shapes: Seq<Shape>,
    to_place: Seq<usize>,
    idx: int,
    cells: Seq<(i32, i32)>,
    pr: int,
    pc: int,
)
    requires
        0 <= idx < to_place.len(),
        to_place[idx] < shapes.len(),
        orientation_of(cm(cells), cm(shapes[to_place[idx] as int].cells@)),
        fits(bm(b0), cells, pr, pc),
        mid.len() == b0.len(),
        forall|t: int| 0 <= t < b0.len() ==> (#[trigger] mid[t]@).len() == b0[t]@.len(),
        forall|rr: int, cc2: int|
            0 <= rr < b0.len() && 0 <= cc2 < b0[rr]@.len() ==> #[trigger] mid[rr]@[cc2] == (
            if exists|kk: int|
                0 <= kk < cells.len() && pr + (#[trigger] cells[kk]).0 == rr && pc + cells[kk].1
                    == cc2 {
                true
            } else {
                b0[rr]@[cc2]
            }),
        exists|psx: Seq<(int, int, Seq<(int, int)>)>|
            #[trigger] packing_ok(bm(mid), shapes, to_place, idx + 1, psx) && (forall|
                rr: int,
                cc2: int,
            |
                0 <= rr < mid.len() && 0 <= cc2 < mid[rr]@.len() ==> #[trigger] fin[rr]@[cc2] == (
                mid[rr]@[cc2] || placed_at(psx, rr, cc2))),
    ensures
        exists|ps: Seq<(int, int, Seq<(int, int)>)>|
            #[trigger] packing_ok(bm(b0), shapes, to_place, idx, ps) && (forall|rr: int, cc2: int|
                0 <= rr < b0.len() && 0 <= cc2 < b0[rr]@.len() ==> #[trigger] fin[rr]@[cc2] == (
                b0[rr]@[cc2] || placed_at(ps, rr, cc2))),
{
    let b = bm(b0);
    let midb = bm(mid);
    let cellsm = cm(cells);
    let e0 = (pr, pc, cellsm);
    let ps_c = choose|psx: Seq<(int, int, Seq<(int, int)>)>|
        #[trigger] packing_ok(bm(mid), shapes, to_place, idx + 1, psx) && (forall|
            rr: int,
            cc2: int,
        |
            0 <= rr < mid.len() && 0 <= cc2 < mid[rr]@.len() ==> #[trigger] fin[rr]@[cc2] == (
            mid[rr]@[cc2] || placed_at(psx, rr, cc2)));
    let ps = seq![e0] + ps_c;
    assert(ps[0] == e0);
    assert(forall|t: int| 1 <= t < ps.len() ==> #[trigger] ps[t] == ps_c[t - 1]);
    assert(cellsm.len() == cells.len());
    assert(forall|k: int|
        0 <= k < cells.len() ==> #[trigger] cellsm[k] == ((#[trigger] cells[k]).0 as int, cells[k].1 as int));

    assert(packing_pieces_ok(shapes, to_place, idx, ps)) by {
        assert(ps.drop_first() =~= ps_c);
        assert(packing_pieces_ok(shapes, to_place, idx + 1, ps_c));
    }

    assert forall|t: int, k: int|
        0 <= t < ps.len() && 0 <= k < ps[t].2.len() implies {
        let rr = ps[t].0 + (#[trigger] ps[t].2[k]).0;
        let cc2 = ps[t].1 + ps[t].2[k].1;
        0 <= rr < b.len() && 0 <= cc2 < b[rr].len() && !b[rr][cc2] && !placed_at(
            ps.subrange(0, t),
            rr,
            cc2,
        )
    } by {
        let rr = ps[t].0 + ps[t].2[k].0;
        let cc2 = ps[t].1 + ps[t].2[k].1;
        if t == 0 {
            assert(ps[0].2[k] == cellsm[k]);
            assert(rr == pr + cells[k].0 && cc2 == pc + cells[k].1);
            assert(0 <= rr < b.len() && 0 <= cc2 < b[rr].len() && !b[rr][cc2]);
            assert(ps.subrange(0, 0) =~= Seq::<(int, int, Seq<(int, int)>)>::empty());
            assert(!placed_at(ps.subrange(0, 0), rr, cc2));
        } else {
            assert(ps[t] == ps_c[t - 1]);
            assert(0 <= rr < midb.len() && 0 <= cc2 < midb[rr].len() && !midb[rr][cc2]
                && !placed_at(ps_c.subrange(0, t - 1), rr, cc2));
            assert(!mid[rr]@[cc2]);
            assert(!b0[rr]@[cc2]);
            assert(!(exists|kk: int|
                0 <= kk < cells.len() && pr + (#[trigger] cells[kk]).0 == rr && pc + cells[kk].1
                    == cc2));
            if placed_at(ps.subrange(0, t), rr, cc2) {
                let (t2, k2) = choose|t2: int, k2: int|
                    0 <= t2 < ps.subrange(0, t).len() && 0 <= k2 < ps.subrange(0, t)[t2].2.len()
                        && ps.subrange(0, t)[t2].0 + (#[trigger] ps.subrange(0, t)[t2].2[k2]).0
                        == rr && ps.subrange(0, t)[t2].1 + ps.subrange(0, t)[t2].2[k2].1 == cc2;
                if t2 == 0 {
                    assert(ps.subrange(0, t)[0] == e0);
                    assert(pr + cells[k2].0 == rr && pc + cells[k2].1 == cc2);
                    assert(false);
                } else {
                    assert(ps.subrange(0, t)[t2] == ps_c[t2 - 1]);
                    assert(ps_c.subrange(0, t - 1)[t2 - 1] == ps_c[t2 - 1]);
                    assert(ps_c.subrange(0, t - 1)[t2 - 1].0 + ps_c.subrange(0, t - 1)[t2
                        - 1].2[k2].0 == rr);
                    assert(placed_at(ps_c.subrange(0, t - 1), rr, cc2));
                    assert(false);
                }
            }
        }
    };
    assert(idx + ps.len() <= to_place.len());
    assert(packing_cells_ok(b, ps));
    assert(packing_ok(b, shapes, to_place, idx, ps));

    assert forall|rr: int, cc2: int|
        0 <= rr < b0.len() && 0 <= cc2 < b0[rr]@.len() implies #[trigger] fin[rr]@[cc2] == (
        b0[rr]@[cc2] || placed_at(ps, rr, cc2)) by {
        assert(fin[rr]@[cc2] == (mid[rr]@[cc2] || placed_at(ps_c, rr, cc2)));
        let covered = exists|kk: int|
            0 <= kk < cells.len() && pr + (#[trigger] cells[kk]).0 == rr && pc + cells[kk].1
                == cc2;
        if covered {
            let kk = choose|kk: int|
                0 <= kk < cells.len() && pr + (#[trigger] cells[kk]).0 == rr && pc + cells[kk].1
                    == cc2;
            assert(ps[0].2[kk] == cellsm[kk]);
            assert(ps[0].0 + ps[0].2[kk].0 == rr && ps[0].1 + ps[0].2[kk].1 == cc2);
            assert(placed_at(ps, rr, cc2));
        }
        if placed_at(ps_c, rr, cc2) {
            let (t2, k2) = choose|t2: int, k2: int|
                0 <= t2 < ps_c.len() && 0 <= k2 < ps_c[t2].2.len() && ps_c[t2].0 + (
                #[trigger] ps_c[t2].2[k2]).0 == rr && ps_c[t2].1 + ps_c[t2].2[k2].1 == cc2;
            assert(ps[t2 + 1] == ps_c[t2]);
            assert(ps[t2 + 1].0 + ps[t2 + 1].2[k2].0 == rr && ps[t2 + 1].1 + ps[t2 + 1].2[k2].1
                == cc2);
            assert(placed_at(ps, rr, cc2));
        }
        if placed_at(ps, rr, cc2) {
            let (t2, k2) = choose|t2: int, k2: int|
                0 <= t2 < ps.len() && 0 <= k2 < ps[t2].2.len() && ps[t2].0 + (
                #[trigger] ps[t2].2[k2]).0 == rr && ps[t2].1 + ps[t2].2[k2].1 == cc2;
            if t2 == 0 {
                assert(pr + cells[k2].0 == rr && pc + cells[k2].1 == cc2);
                assert(covered);
            } else {
                assert(ps[t2] == ps_c[t2 - 1]);
                assert(ps_c[t2 - 1].0 + ps_c[t2 - 1].2[k2].0 == rr);
                assert(placed_at(ps_c, rr, cc2));
            }
        }
    };
}

/// A packing found with the first free square left as a gap is a packing
/// of the entry board once the gap mark is lifted again.
#[verifier::rlimit(100)]
#[verifier::spinoff_prover]
proof fn lemma_success_packing_gap(
    b0: Seq<Vec<bool>>,
    gap: Seq<Vec<bool>>,
    childfin: Seq<Vec<bool>>,
    fin: Seq<Vec<bool>>,
    shapes: Seq<Shape>,
    to_place: Seq<usize>,
    idx: int,
    tr: int,
    tc: int,
)
    requires
        0 <= idx <= to_place.len(),
        0 <= tr < b0.len(),
        0 <= tc < b0[tr]@.len(),
        !b0[tr]@[tc],
        gap.len() == b0.len(),
        forall|t: int| 0 <= t < b0.len() ==> (#[trigger] gap[t]@).len() == b0[t]@.len(),
        forall|rr: int, cc2: int|
            0 <= rr < b0.len() && 0 <= cc2 < b0[rr]@.len() ==> #[trigger] gap[rr]@[cc2] == (if rr
                == tr && cc2 == tc {
                true
            } else {
                b0[rr]@[cc2]
            }),
        exists|psx: Seq<(int, int, Seq<(int, int)>)>|
            #[trigger] packing_ok(bm(gap), shapes, to_place, idx, psx) && (forall|
                rr: int,
                cc2: int,
            |
                0 <= rr < gap.len() && 0 <= cc2 < gap[rr]@.len() ==> #[trigger] childfin[rr]@[cc2]
                    == (gap[rr]@[cc2] || placed_at(psx, rr, cc2))),
        fin.len() == b0.len(),
        forall|t: int| 0 <= t < b0.len() ==> (#[trigger] fin[t]@).len() == b0[t]@.len(),
        forall|rr: int, cc2: int|
            0 <= rr < b0.len() && 0 <= cc2 < b0[rr]@.len() ==> #[trigger] fin[rr]@[cc2] == (if rr
                == tr && cc2 == tc {
                false
            } else {
                childfin[rr]@[cc2]
            }),
    ensures
        exists|ps: Seq<(int, int, Seq<(int, int)>)>|
            #[trigger] packing_ok(bm(b0), shapes, to_place, idx, ps) && (forall|rr: int, cc2: int|
                0 <= rr < b0.len() && 0 <= cc2 < b0[rr]@.len() ==> #[trigger] fin[rr]@[cc2] == (
                b0[rr]@[cc2] || placed_at(ps, rr, cc2))),
{
    let b = bm(b0);
    let gb = bm(gap);
    let ps_c = choose|psx: Seq<(int, int, Seq<(int, int)>)>|
        #[trigger] packing_ok(bm(gap), shapes, to_place, idx, psx) && (forall|rr: int, cc2: int|
            0 <= rr < gap.len() && 0 <= cc2 < gap[rr]@.len() ==> #[trigger] childfin[rr]@[cc2] == (
            gap[rr]@[cc2] || placed_at(psx, rr, cc2)));
    assert(packing_pieces_ok(shapes, to_place, idx, ps_c));
    assert forall|t: int, k: int|
        0 <= t < ps_c.len() && 0 <= k < ps_c[t].2.len() implies {
        let rr = ps_c[t].0 + (#[trigger] ps_c[t].2[k]).0;
        let cc2 = ps_c[t].1 + ps_c[t].2[k].1;
        0 <= rr < b.len() && 0 <= cc2 < b[rr].len() && !b[rr][cc2] && !placed_at(
            ps_c.subrange(0, t),
            rr,
            cc2,
        )
    } by {
        let rr = ps_c[t].0 + ps_c[t].2[k].0;
        let cc2 = ps_c[t].1 + ps_c[t].2[k].1;
        assert(0 <= rr < gb.len() && 0 <= cc2 < gb[rr].len() && !gb[rr][cc2] && !placed_at(
            ps_c.subrange(0, t),
            rr,
            cc2,
        ));
        assert(!gap[rr]@[cc2]);
        assert(!b0[rr]@[cc2]);
    };
    assert(packing_ok(b, shapes, to_place, idx, ps_c));
    // no placement sits on the gap square, which was free and is free again
    assert(!placed_at(ps_c, tr, tc)) by {
        if placed_at(ps_c, tr, tc) {
            let (t2, k2) = choose|t2: int, k2: int|
                0 <= t2 < ps_c.len() && 0 <= k2 < ps_c[t2].2.len() && ps_c[t2].0 + (
                #[trigger] ps_c[t2].2[k2]).0 == tr && ps_c[t2].1 + ps_c[t2].2[k2].1 == tc;
            assert(!bm(gap)[tr][tc]);
            assert(false);
        }
    }
    assert forall|rr: int, cc2: int|
        0 <= rr < b0.len() && 0 <= cc2 < b0[rr]@.len() implies #[trigger] fin[rr]@[cc2] == (
        b0[rr]@[cc2] || placed_at(ps_c, rr, cc2)) by {
        if rr == tr && cc2 == tc {
            assert(fin[rr]@[cc2] == false);
        } else {
            assert(fin[rr]@[cc2] == childfin[rr]@[cc2]);
            assert(childfin[rr]@[cc2] == (gap[rr]@[cc2] || placed_at(ps_c, rr, cc2)));
            assert(gap[rr]@[cc2] == b0[rr]@[cc2]);
        }
    };
}

/// Tries to put down the remaining pieces in order, each covering the
/// first free square or leaving that square as a gap; the board is put
/// back exactly as it was whenever the search fails.  By design the
/// search accepts a board that runs out of free squares early, so success
/// guarantees a gap-free packing of the leading remaining pieces -- all
/// of them only when the board never fills -- and the board gained
/// exactly that packing's marks; pieces beyond the packing found no free
/// square any more.
#[verifier::rlimit(100)]
pub fn backtrack(shapes: &Vec<Shape>, grid: &mut Vec<Vec<bool>>, to_place: &Vec<usize>, idx: usize) -> (r: bool)
    requires
        old(grid)@.len() <= 1000000,
        forall|t: int| 0 <= t < old(grid)@.len() ==> (#[trigger] old(grid)@[t]@).len() <= 1000000,
        idx <= to_place@.len(),
        forall|t: int| 0 <= t < to_place@.len() ==> (#[trigger] to_place@[t]) < shapes@.len(),
        forall|s: int|
            0 <= s < shapes@.len() ==> cells_bounded((#[trigger] shapes@[s]).cells@, 1000000000),
    ensures
        final(grid)@.len() == old(grid)@.len(),
        forall|t: int|
            0 <= t < old(grid)@.len() ==> (#[trigger] final(grid)@[t]@).len() == old(
                grid,
            )@[t]@.len(),
        !r ==> forall|t: int|
            0 <= t < old(grid)@.len() ==> (#[trigger] final(grid)@[t]@) == old(grid)@[t]@,
        idx >= to_place@.len() ==> r == true,
        r ==> exists|ps: Seq<(int, int, Seq<(int, int)>)>|
            #[trigger] packing_ok(bm(old(grid)@), shapes@, to_place@, idx as int, ps) && (forall|
                rr: int,
                cc: int,
            |
                0 <= rr < old(grid)@.len() && 0 <= cc < old(grid)@[rr]@.len()
                    ==> #[trigger] final(grid)@[rr]@[cc] == (old(grid)@[rr]@[cc] || placed_at(
                    ps,
                    rr,
                    cc,
                ))),
    decreases board_free(
        grid@.map_values(|v: Vec<bool>| v@),
        grid@.len() as int,
    ), to_place@.len() - idx,
{
    proof {
        lemma_board_free_nonneg(
            old(grid)@.map_values(|v: Vec<bool>| v@),
            old(grid)@.len() as int,
        );
    }
    if idx >= to_place.len() {
        proof {
            lemma_empty_packing(old(grid)@, shapes@, to_place@, idx as int);
        }
        return true;
    }
    let rows = grid.len();
    // the first free square, scanning row by row
    let mut target: Option<(usize, usize)> = None;
    let mut rr: usize = 0;
    while rr < rows && target.is_none()
        invariant
            0 <= rr <= rows,
            rows == grid@.len(),
            *grid == *old(grid),
            match target {
                Some(p) => p.0 < rows && p.1 < grid@[p.0 as int]@.len() && !grid@[p.0 as int]@[p.1 as int],
                None => true,
            },
        decreases rows - rr,
    {
        let mut cc: usize = 0;
        let rowlen = grid[rr].len();
        while cc < rowlen && target.is_none()
            invariant
                0 <= cc <= rowlen,
                rr < rows,
                rows == grid@.len(),
                *grid == *old(grid),
                rowlen == grid@[rr as int]@.len(),
                match target {
                    Some(p) => p.0 < rows && p.1 < grid@[p.0 as int]@.len() && !grid@[p.0 as int]@[p.1 as int],
                    None => true,
                },
            decreases rowlen - cc,
        {
            if !grid[rr][cc] {
                target = Some((rr, cc));
            }
            cc = cc + 1;
        }
        rr = rr + 1;
    }
    let (tr, tc) = match target {
        Some(p) => p,
        None => {
            proof {
                lemma_empty_packing(old(grid)@, shapes@, to_place@, idx as int);
            }
            return true;
        },
    };
    let shape_idx = to_place[idx];
    let idx1 = idx + 1;
    let variations = shapes[shape_idx].rotations_and_flips();
    let ghost entry = grid@;
    let mut v: usize = 0;
    while v < variations.len()
        invariant
            0 <= v <= variations@.len(),
            grid@.len() == old(grid)@.len(),
            forall|t: int|
                0 <= t < old(grid)@.len() ==> (#[trigger] grid@[t]@).len() == old(grid)@[t]@.len(),
            forall|t: int| 0 <= t < old(grid)@.len() ==> (#[trigger] grid@[t]@) == old(grid)@[t]@,
            entry == old(grid)@,
            idx1 == idx + 1,
            old(grid)@.len() <= 1000000,
            forall|t: int|
                0 <= t < old(grid)@.len() ==> (#[trigger] old(grid)@[t]@).len() <= 1000000,
            idx < to_place@.len(),
            forall|t: int| 0 <= t < to_place@.len() ==> (#[trigger] to_place@[t]) < shapes@.len(),
            forall|s: int|
                0 <= s < shapes@.len() ==> cells_bounded(
                    (#[trigger] shapes@[s]).cells@,
                    1000000000,
                ),
            forall|q: int|
                0 <= q < variations@.len() ==> cells_bounded(
                    (#[trigger] variations@[q]).cells@,
                    2000000001,
                ),
            shape_idx == to_place@[idx as int],
            forall|q: int|
                0 <= q < variations@.len() ==> orientation_of(
                    cm((#[trigger] variations@[q]).cells@),
                    cm(shapes@[shape_idx as int].cells@),
                ),
            tr < old(grid)@.len(),
            tc < old(grid)@[tr as int]@.len(),
            !old(grid)@[tr as int]@[tc as int],
        decreases variations@.len() - v,
    {
        let ncells = variations[v].cells.len();
        let mut k: usize = 0;
        while k < ncells
            invariant
                0 <= k <= ncells,
                v < variations@.len(),
                ncells == variations@[v as int].cells@.len(),
                grid@.len() == old(grid)@.len(),
                forall|t: int|
                    0 <= t < old(grid)@.len() ==> (#[trigger] grid@[t]@).len() == old(
                        grid,
                    )@[t]@.len(),
                forall|t: int|
                    0 <= t < old(grid)@.len() ==> (#[trigger] grid@[t]@) == old(grid)@[t]@,
                idx1 == idx + 1,
                old(grid)@.len() <= 1000000,
                forall|t: int|
                    0 <= t < old(grid)@.len() ==> (#[trigger] old(grid)@[t]@).len() <= 1000000,
                idx < to_place@.len(),
                forall|t: int|
                    0 <= t < to_place@.len() ==> (#[trigger] to_place@[t]) < shapes@.len(),
                forall|s: int|
                    0 <= s < shapes@.len() ==> cells_bounded(
                        (#[trigger] shapes@[s]).cells@,
                        1000000000,
                    ),
                forall|q: int|
                    0 <= q < variations@.len() ==> cells_bounded(
                        (#[trigger] variations@[q]).cells@,
                        2000000001,
                    ),
                shape_idx == to_place@[idx as int],
                forall|q: int|
                    0 <= q < variations@.len() ==> orientation_of(
                        cm((#[trigger] variations@[q]).cells@),
                        cm(shapes@[shape_idx as int].cells@),
                    ),
                tr < old(grid)@.len(),
                tc < old(grid)@[tr as int]@.len(),
                !old(grid)@[tr as int]@[tc as int],
            decreases ncells - k,
        {
            let (dr, dc) = variations[v].cells[k];
            let place_r = (tr as i64 - dr as i64) as i32;
            let place_c = (tc as i64 - dc as i64) as i32;
            if can_place(grid, &variations[v], place_r, place_c) {
                let ghost before = grid@;
                place_shape(grid, &variations[v], place_r, place_c, true);
                proof {
                    let b1 = before.map_values(|vv: Vec<bool>| vv@);
                    let b2 = grid@.map_values(|vv: Vec<bool>| vv@);
                    assert(b1 =~~= old(grid)@.map_values(|vv: Vec<bool>| vv@));
                    assert(b2[tr as int][tc as int]) by {
                        assert(place_r + variations@[v as int].cells@[k as int].0 == tr as int
                            && place_c + variations@[v as int].cells@[k as int].1 == tc as int);
                    };
                    lemma_board_free_lt(b1, b2, b1.len() as int, tr as int, tc as int);
                    lemma_board_free_nonneg(b2, b2.len() as int);
                }
                let ghost mid = grid@;
                if backtrack(shapes, grid, to_place, idx1) {
                    proof {
                        lemma_success_packing_step(
                            old(grid)@,
                            mid,
                            grid@,
                            shapes@,
                            to_place@,
                            idx as int,
                            variations@[v as int].cells@,
                            place_r as int,
                            place_c as int,
                        );
                    }
                    return true;
                }
                place_shape(grid, &variations[v], place_r, place_c, false);
                proof {
                    let cells = variations@[v as int].cells@;
                    assert forall|t: int|
                        0 <= t < old(grid)@.len() implies (#[trigger] grid@[t]@) == old(
                        grid,
                    )@[t]@ by {
                        assert forall|c: int|
                            0 <= c < old(grid)@[t]@.len() implies grid@[t]@[c] == old(
                            grid,
                        )@[t]@[c] by {
                            let b1 = before.map_values(|vv: Vec<bool>| vv@);
                            if exists|kk: int|
                                0 <= kk < cells.len() && place_r + (#[trigger] cells[kk]).0 == t
                                    && place_c + cells[kk].1 == c {
                                let kk = choose|kk: int|
                                    0 <= kk < cells.len() && place_r + (#[trigger] cells[kk]).0
                                        == t && place_c + cells[kk].1 == c;
                                assert(!b1[t][c]);
                                assert(grid@[t]@[c] == false);
                            }
                        };
                        assert(grid@[t]@ =~= old(grid)@[t]@);
                    };
                }
            }
            k = k + 1;
        }
        v = v + 1;
    }
    // no orientation covers the first free square: leave it as a gap
    grid[tr][tc] = true;
    let ghost gapstate = grid@;
    proof {
        let b1 = entry.map_values(|vv: Vec<bool>| vv@);
        let b2 = grid@.map_values(|vv: Vec<bool>| vv@);
        assert(b1 =~~= old(grid)@.map_values(|vv: Vec<bool>| vv@));
        lemma_board_free_lt(b1, b2, b1.len() as int, tr as int, tc as int);
        lemma_board_free_nonneg(b2, b2.len() as int);
    }
    let result = backtrack(shapes, grid, to_place, idx);
    let ghost childfin = grid@;
    grid[tr][tc] = false;
    proof {
        if !result {
            assert forall|t: int|
                0 <= t < old(grid)@.len() implies (#[trigger] grid@[t]@) == old(grid)@[t]@ by {
                assert(grid@[t]@ =~= old(grid)@[t]@);
            };
        } else {
            assert forall|rr: int, cc2: int|
                0 <= rr < old(grid)@.len() && 0 <= cc2 < old(grid)@[rr]@.len()
                    implies #[trigger] gapstate[rr]@[cc2] == (if rr == tr && cc2 == tc {
                    true
                } else {
                    old(grid)@[rr]@[cc2]
                }) by {
                assert(entry[rr]@ == old(grid)@[rr]@);
            };
            assert forall|rr: int, cc2: int|
                0 <= rr < old(grid)@.len() && 0 <= cc2 < old(grid)@[rr]@.len()
                    implies #[trigger] grid@[rr]@[cc2] == (if rr == tr && cc2 == tc {
                    false
                } else {
                    childfin[rr]@[cc2]
                }) by {}
            lemma_success_packing_gap(
                old(grid)@,
                gapstate,
                childfin,
                grid@,
                shapes@,
                to_place@,
                idx as int,
                tr as int,
                tc as int,
            );
        }
    }
    result
}

/// The piece list the counts ask for: `required[s]` copies of piece `s`,
/// in index order.
pub open spec fn repeat_list(required: Seq<usize>, idx: int) -> Seq<usize>
    decreases idx,
{
    if idx <= 0 {
        Seq::empty()
    } else {
        repeat_list(required, idx - 1) + Seq::new(
            required[idx - 1] as nat,
            |q: int| (idx - 1) as usize,
        )
    }
}

/// A fresh board of the given size, every square free.
pub open spec fn fresh_board(w: int, h: int) -> Seq<Seq<bool>> {
    Seq::new(h as nat, |r: int| Seq::new(w as nat, |c: int| false))
}

/// Total number of cells of the required pieces.
pub open spec fn required_cells(shapes: Seq<Shape>, required: Seq<usize>, k: int) -> int
    decreases k,
{
    if k <= 0 {
        0
    } else {
        required_cells(shapes, required, k - 1) + shapes[k - 1].cells@.len() * required[k - 1]
    }
}

/// Whether the first-free-square search accepts the region: it tries to
/// put down every required copy on a fresh board of the given size, gaps
/// allowed, and accepts as soon as the board runs out of free squares.
/// By that design an accepted region carries a packing of a leading run
/// of its copies -- every copy whenever the board never fills -- while
/// copies whose cells alone outnumber the squares are always refused.
pub fn can_fit_region(shapes: &Vec<Shape>, width: usize, height: usize, required: &Vec<usize>) -> (r: bool)
    requires
        width <= 1000,
        height <= 1000,
        required@.len() <= shapes@.len(),
        forall|s: int|
            0 <= s < shapes@.len() ==> cells_bounded((#[trigger] shapes@[s]).cells@, 1000000000),
    ensures
        required_cells(shapes@, required@, required@.len() as int) > width * height ==> !r,
        r ==> exists|ps: Seq<(int, int, Seq<(int, int)>)>|
            #[trigger] packing_ok(
                fresh_board(width as int, height as int),
                shapes@,
                repeat_list(required@, required@.len() as int),
                0,
                ps,
            ),
        (forall|s: int| 0 <= s < required@.len() ==> required@[s] == 0) ==> r == true,
{
    // the pieces to place, one entry per copy
    let mut shape_list: Vec<usize> = Vec::new();
    let mut total_cells: u64 = 0;
    let mut idx: usize = 0;
    while idx < required.len()
        invariant
            0 <= idx <= required@.len(),
            required@.len() <= shapes@.len(),
            forall|t: int| 0 <= t < shape_list@.len() ==> (#[trigger] shape_list@[t]) < shapes@.len(),
            shape_list@ == repeat_list(required@, idx as int),
            total_cells as int == (if required_cells(shapes@, required@, idx as int)
                <= u64::MAX as int {
                required_cells(shapes@, required@, idx as int)
            } else {
                u64::MAX as int
            }),
        decreases required@.len() - idx,
    {
        proof {
            lemma_required_cells_nonneg(shapes@, required@, idx as int);
        }
        let count = required[idx];
        let mut c: usize = 0;
        while c < count
            invariant
                0 <= c <= count,
                count == required@[idx as int],
                idx < required@.len(),
                required@.len() <= shapes@.len(),
                forall|t: int|
                    0 <= t < shape_list@.len() ==> (#[trigger] shape_list@[t]) < shapes@.len(),
                shape_list@ =~= repeat_list(required@, idx as int) + Seq::new(
                    c as nat,
                    |q: int| idx,
                ),
            decreases count - c,
        {
            shape_list.push(idx);
            c = c + 1;
        }
        proof {
            assert(shape_list@ =~= repeat_list(required@, idx + 1));
        }
        let piece = shapes[idx].cells.len() as u64;
        let add = match piece.checked_mul(count as u64) {
            Some(x) => x,
            None => u64::MAX,
        };
        proof {
            let p = shapes@[idx as int].cells@.len() as int;
            let q = required@[idx as int] as int;
            assert(p * q >= 0) by (nonlinear_arith)
                requires
                    p >= 0,
                    q >= 0,
            ;
            if p * q > u64::MAX as int {
                assert(add == u64::MAX || add as int == p * q);
            }
        }
        total_cells = total_cells.saturating_add(add);
        idx = idx + 1;
    }
    proof {
        assert((width as int) * (height as int) <= 1000000) by (nonlinear_arith)
            requires
                0 <= width as int <= 1000,
                0 <= height as int <= 1000,
        ;
        assert((width as int) * (height as int) >= 0) by (nonlinear_arith)
            requires
                0 <= width as int,
                0 <= height as int,
        ;
    }
    let grid_size = (width as u64) * (height as u64);
    if total_cells > grid_size {
        proof {
            lemma_required_cells_nonneg(shapes@, required@, required@.len() as int);
            if forall|sq: int| 0 <= sq < required@.len() ==> required@[sq] == 0 {
                lemma_required_cells_zero(shapes@, required@, required@.len() as int);
            }
        }
        return false;
    }
    proof {
        // from here on the pieces' cells fit within the board's squares
        assert(required_cells(shapes@, required@, required@.len() as int) <= width as int
            * height as int);
    }
    // an empty board of the region's size
    let mut grid: Vec<Vec<bool>> = Vec::new();
    let mut r: usize = 0;
    while r < height
        invariant
            0 <= r <= height,
            width <= 1000,
            grid@.len() == r,
            forall|t: int| 0 <= t < r ==> (#[trigger] grid@[t]@).len() == width,
            forall|t: int, c: int| 0 <= t < r && 0 <= c < width ==> !(#[trigger] grid@[t]@[c]),
        decreases height - r,
    {
        let mut row: Vec<bool> = Vec::new();
        let mut c: usize = 0;
        while c < width
            invariant
                0 <= c <= width,
                row@.len() == c,
                forall|j: int| 0 <= j < c ==> !(#[trigger] row@[j]),
            decreases width - c,
        {
            row.push(false);
            c = c + 1;
        }
        grid.push(row);
        r = r + 1;
    }
    proof {
        assert(bm(grid@) =~~= fresh_board(width as int, height as int));
        assert(shape_list@ == repeat_list(required@, required@.len() as int));
        if forall|sq: int| 0 <= sq < required@.len() ==> required@[sq] == 0 {
            lemma_repeat_list_empty(required@, required@.len() as int);
        }
    }
    let placed = backtrack(shapes, &mut grid, &shape_list, 0);
    placed
}

/// Asking for no copies of anything asks for no cells either.
proof fn lemma_required_cells_zero(shapes: Seq<Shape>, required: Seq<usize>, k: int)
    requires
        forall|sq: int| 0 <= sq < required.len() ==> required[sq] == 0,
        k <= required.len(),
    ensures
        required_cells(shapes, required, k) == 0,
    decreases k,
{
    if k > 0 {
        lemma_required_cells_zero(shapes, required, k - 1);
        let p = shapes[k - 1].cells@.len() as int;
        assert(p * 0 == 0) by (nonlinear_arith);
    }
}

/// Asking for no copies of anything asks for an empty piece list.
proof fn lemma_repeat_list_empty(required: Seq<usize>, idx: int)
    requires
        forall|sq: int| 0 <= sq < required.len() ==> required[sq] == 0,
        idx <= required.len(),
    ensures
        repeat_list(required, idx).len() == 0,
    decreases idx,
{
    if idx > 0 {
        lemma_repeat_list_empty(required, idx - 1);
    }
}

proof fn lemma_required_cells_nonneg(shapes: Seq<Shape>, required: Seq<usize>, k: int)
    ensures
        required_cells(shapes, required, k) >= 0,
    decreases k,
{
    if k > 0 {
        lemma_required_cells_nonneg(shapes, required, k - 1);
        let p = shapes[k - 1].cells@.len() as int;
        let q = required[k - 1] as int;
        assert(p * q >= 0) by (nonlinear_arith)
            requires
                p >= 0,
                q >= 0,
        ;
    }
}


/// Whether one region meets the packing search's accepted outcome `a`:
/// an accepted region carries a packing of a leading run of its required
/// copies on a fresh board, a region whose copies' cells outnumber its
/// squares is refused, and a region requiring no copies is accepted.
pub open spec fn region_verdict_ok(
    shapes: Seq<Shape>,
    region: (usize, usize, Vec<usize>),
    a: bool,
) -> bool {
    &&& (a ==> exists|ps: Seq<(int, int, Seq<(int, int)>)>|
        #[trigger] packing_ok(
            fresh_board(region.0 as int, region.1 as int),
            shapes,
            repeat_list(region.2@, region.2@.len() as int),
            0,
            ps,
        ))
    &&& (required_cells(shapes, region.2@, region.2@.len() as int) > region.0 * region.1 ==> !a)
    &&& ((forall|t: int| 0 <= t < region.2@.len() ==> region.2@[t] == 0) ==> a)
}

/// How many of the listed regions the first-free-square search accepts,
/// taking the regions in order.
pub fn count_fitting_regions(
    shapes: &Vec<Shape>,
    regions: &Vec<(usize, usize, Vec<usize>)>,
) -> (r: usize)
    requires
        forall|si: int|
            0 <= si < shapes@.len() ==> cells_bounded((#[trigger] shapes@[si]).cells@, 1000000000),
        forall|t: int|
            0 <= t < regions@.len() ==> (#[trigger] regions@[t]).0 <= 1000 && regions@[t].1 <= 1000
                && regions@[t].2@.len() <= shapes@.len(),
    ensures
        r <= regions@.len(),
        exists|accept: Seq<bool>|
            accept.len() == regions@.len() && r as int == accepted_count(
                accept,
                accept.len() as int,
            ) && (forall|t: int|
                0 <= t < regions@.len() ==> region_verdict_ok(
                    shapes@,
                    #[trigger] regions@[t],
                    accept[t],
                )),
{
    let mut count: usize = 0;
    let ghost mut accept: Seq<bool> = Seq::empty();
    let mut t: usize = 0;
    while t < regions.len()
        invariant
            0 <= t <= regions@.len(),
            forall|si: int|
                0 <= si < shapes@.len() ==> cells_bounded(
                    (#[trigger] shapes@[si]).cells@,
                    1000000000,
                ),
            forall|t2: int|
                0 <= t2 < regions@.len() ==> (#[trigger] regions@[t2]).0 <= 1000 && regions@[t2].1
                    <= 1000 && regions@[t2].2@.len() <= shapes@.len(),
            accept.len() == t,
            count <= t,
            count as int == accepted_count(accept, accept.len() as int),
            forall|t2: int|
                0 <= t2 < t ==> region_verdict_ok(shapes@, #[trigger] regions@[t2], accept[t2]),
        decreases regions@.len() - t,
    {
        let (w, h, ref req) = regions[t];
        let ok = can_fit_region(shapes, w, h, req);
        proof {
            let oldaccept = accept;
            accept = accept.push(ok);
            assert(accept.drop_last() =~= oldaccept);
            lemma_accepted_push(oldaccept, ok, t as int);
        }
        if ok {
            count = count + 1;
        }
        t = t + 1;
    }
    count
}

proof fn lemma_accepted_push(s: Seq<bool>, b: bool, k: int)
    requires
        0 <= k <= s.len(),
    ensures
        accepted_count(s.push(b), k) == accepted_count(s, k),
    decreases k,
{
    if k > 0 {
        lemma_accepted_push(s, b, k - 1);
    }
}

/// How many of the first `k` verdicts accepted.
pub open spec fn accepted_count(accept: Seq<bool>, k: int) -> int
    decreases k,
{
    if k <= 0 {
        0
    } else {
        accepted_count(accept, k - 1) + if accept[k - 1] {
            1int
        } else {
            0int
        }
    }
}

} // verus!
