//! Red tiles on a floor: the largest rectangle between two of them.
//!
//! The input lists tile coordinates; the first part looks for the two
//! tiles that span the largest axis-aligned rectangle, corner tiles
//! included.  A ray cast decides whether a point lies inside the polygon
//! the tiles trace out.

use vstd::prelude::*;

use crate::text::lines_of;
use crate::text::parse_i64;
use crate::text::signed_ok;
use crate::text::signed_val;
use crate::text::spec_lines;
use crate::text::spec_split;
use crate::text::spec_trim;
use crate::text::split_of;
use crate::text::trim_of;

verus! {

/// One line read as a tile: comma-separated numbers, the first two of
/// which are the coordinates; a line that does not parse whole yields
/// nothing.
pub open spec fn line_tile(line: Seq<char>) -> Option<(int, int)> {
    let parts = spec_split(line, ',');
    if parts.len() >= 2 && (forall|t: int|
        0 <= t < parts.len() ==> {
            let p = spec_trim(#[trigger] parts[t]);
            signed_ok(p) && i64::MIN <= signed_val(p) <= i64::MAX
        }) {
        Some((signed_val(spec_trim(parts[0])), signed_val(spec_trim(parts[1]))))
    } else {
        None
    }
}

/// The tiles of the input, in order, unreadable and empty lines skipped.
pub open spec fn tiles_of_lines(lines: Seq<Seq<char>>) -> Seq<(int, int)>
    decreases lines.len(),
{
    if lines.len() == 0 {
        Seq::empty()
    } else {
        tiles_of_lines(lines.drop_last()) + (if lines.last().len() == 0 {
            Seq::empty()
        } else {
            match line_tile(lines.last()) {
                Some(p) => seq![p],
                None => Seq::empty(),
            }
        })
    }
}

/// Reads the tile coordinates of the input.
pub fn parse_input(input: &str) -> (r: Vec<(i64, i64)>)
    ensures
        r@.map_values(|p: (i64, i64)| (p.0 as int, p.1 as int)) == tiles_of_lines(
            spec_lines(input@),
        ),
{
    let lines = lines_of(input);
    let ghost lspec = spec_lines(input@);
    let mut out: Vec<(i64, i64)> = Vec::new();
    let mut i: usize = 0;
    while i < lines.len()
        invariant
            0 <= i <= lines@.len(),
            lines@.len() == lspec.len(),
            lspec == spec_lines(input@),
            forall|t: int| 0 <= t < lines@.len() ==> #[trigger] lines@[t]@ == lspec[t],
            out@.map_values(|p: (i64, i64)| (p.0 as int, p.1 as int)) =~= tiles_of_lines(
                lspec.subrange(0, i as int),
            ),
        decreases lines@.len() - i,
    {
        proof {
            assert(lspec.subrange(0, i + 1).drop_last() =~= lspec.subrange(0, i as int));
        }
        let line = lines[i];
        if !line.is_empty() {
            let parts = split_of(line, ',');
            let ghost pspec = spec_split(line@, ',');
            let mut all_ok = parts.len() >= 2;
            let mut nums: Vec<i64> = Vec::new();
            let mut t: usize = 0;
            while t < parts.len()
                invariant
                    0 <= t <= parts@.len(),
                    parts@.len() == pspec.len(),
                    pspec == spec_split(line@, ','),
                    forall|q: int| 0 <= q < parts@.len() ==> #[trigger] parts@[q]@ == pspec[q],
                    all_ok ==> parts@.len() >= 2,
                    all_ok ==> nums@.len() == t,
                    all_ok ==> forall|q: int|
                        0 <= q < t ==> {
                            let p = spec_trim(#[trigger] pspec[q]);
                            signed_ok(p) && i64::MIN <= signed_val(p) <= i64::MAX && nums@[q] as int
                                == signed_val(p)
                        },
                    !all_ok ==> (parts@.len() < 2 || exists|q: int|
                        0 <= q < parts@.len() && !{
                            let p = spec_trim(#[trigger] pspec[q]);
                            signed_ok(p) && i64::MIN <= signed_val(p) <= i64::MAX
                        }),
                decreases parts@.len() - t,
            {
                match parse_i64(trim_of(parts[t])) {
                    Some(v) => {
                        nums.push(v);
                    },
                    None => {
                        all_ok = false;
                    },
                }
                t = t + 1;
            }
            if all_ok {
                let ghost oldm = out@.map_values(|p: (i64, i64)| (p.0 as int, p.1 as int));
                let x = nums[0];
                let y = nums[1];
                out.push((x, y));
                proof {
                    assert(line_tile(lspec[i as int]) == Some((x as int, y as int)));
                    assert(out@.map_values(|p: (i64, i64)| (p.0 as int, p.1 as int)) =~= oldm
                        + seq![(x as int, y as int)]);
                }
            } else {
                proof {
                    assert(line_tile(lspec[i as int]) is None);
                }
            }
        }
        i = i + 1;
    }
    proof {
        assert(lspec.subrange(0, lspec.len() as int) =~= lspec);
    }
    out
}

/// The rectangle two tiles span, corner tiles included.
pub open spec fn pair_area(a: (int, int), b: (int, int)) -> int {
    let w = if a.0 <= b.0 {
        b.0 - a.0 + 1
    } else {
        a.0 - b.0 + 1
    };
    let h = if a.1 <= b.1 {
        b.1 - a.1 + 1
    } else {
        a.1 - b.1 + 1
    };
    w * h
}

/// All coordinates lie within the given magnitude.
pub open spec fn tiles_bounded(tiles: Seq<(int, int)>, m: int) -> bool {
    forall|t: int|
        0 <= t < tiles.len() ==> -m <= (#[trigger] tiles[t]).0 <= m && -m <= tiles[t].1 <= m
}

/// The largest rectangle spanned by two tiles of the input: zero with
/// fewer than two tiles, else the maximum of `pair_area` over all pairs.
pub fn solve_part1(input: &str) -> (r: i64)
    requires
        tiles_bounded(tiles_of_lines(spec_lines(input@)), 1000000000),
    ensures
        ({
            let tiles = tiles_of_lines(spec_lines(input@));
            if tiles.len() < 2 {
                r == 0
            } else {
                (exists|i: int, j: int|
                    0 <= i < j < tiles.len() && r == pair_area(tiles[i], tiles[j])) && (forall|
                    i: int,
                    j: int,
                |
                    0 <= i < j < tiles.len() ==> pair_area(tiles[i], tiles[j]) <= r)
            }
        }),
{
    let tiles = parse_input(input);
    let ghost ts = tiles_of_lines(spec_lines(input@));
    proof {
        assert(forall|t: int|
            0 <= t < ts.len() ==> ts[t] == ((#[trigger] tiles@[t]).0 as int, tiles@[t].1 as int));
    }
    let n = tiles.len();
    if n < 2 {
        return 0;
    }
    let mut best: i64 = 0;
    let mut i: usize = 0;
    while i < n
        invariant
            0 <= i <= n,
            n == tiles@.len(),
            n >= 2,
            ts == tiles_of_lines(spec_lines(input@)),
            ts.len() == n,
            tiles_bounded(ts, 1000000000),
            forall|t: int|
                0 <= t < ts.len() ==> ts[t] == ((#[trigger] tiles@[t]).0 as int, tiles@[t].1
                    as int),
            best >= 0,
            forall|a: int, b: int|
                0 <= a < b < ts.len() && a < i ==> pair_area(ts[a], ts[b]) <= best,
            best == 0 || exists|a: int, b: int|
                0 <= a < b < ts.len() && best == pair_area(ts[a], ts[b]),
        decreases n - i,
    {
        let mut j = i + 1;
        while j < n
            invariant
                i < j <= n,
                i < n,
                n == tiles@.len(),
                n >= 2,
                ts.len() == n,
                tiles_bounded(ts, 1000000000),
                forall|t: int|
                    0 <= t < ts.len() ==> ts[t] == ((#[trigger] tiles@[t]).0 as int, tiles@[t].1
                        as int),
                best >= 0,
                forall|a: int, b: int|
                    0 <= a < b < ts.len() && (a < i || (a == i && b < j)) ==> pair_area(
                        ts[a],
                        ts[b],
                    ) <= best,
                best == 0 || exists|a: int, b: int|
                    0 <= a < b < ts.len() && best == pair_area(ts[a], ts[b]),
            decreases n - j,
        {
            let (x1, y1) = tiles[i];
            let (x2, y2) = tiles[j];
            let w = if x1 <= x2 {
                x2 - x1 + 1
            } else {
                x1 - x2 + 1
            };
            let h = if y1 <= y2 {
                y2 - y1 + 1
            } else {
                y1 - y2 + 1
            };
            proof {
                assert(1 <= w <= 2000000001);
                assert(1 <= h <= 2000000001);
                assert(w * h <= 2000000001 * 2000000001) by (nonlinear_arith)
                    requires
                        1 <= w <= 2000000001,
                        1 <= h <= 2000000001,
                ;
                assert(w * h >= 1) by (nonlinear_arith)
                    requires
                        w >= 1,
                        h >= 1,
                ;
            }
            let area = w * h;
            proof {
                assert(ts[i as int] == (tiles@[i as int].0 as int, tiles@[i as int].1 as int));
                assert(ts[j as int] == (tiles@[j as int].0 as int, tiles@[j as int].1 as int));
                assert(area as int == pair_area(ts[i as int], ts[j as int]));
            }
            if area > best {
                best = area;
            }
            j = j + 1;
        }
        i = i + 1;
    }
    proof {
        if best == 0 {
            assert(pair_area(ts[0], ts[1]) <= 0);
            let w = if ts[0].0 <= ts[1].0 {
                ts[1].0 - ts[0].0 + 1
            } else {
                ts[0].0 - ts[1].0 + 1
            };
            let h = if ts[0].1 <= ts[1].1 {
                ts[1].1 - ts[0].1 + 1
            } else {
                ts[0].1 - ts[1].1 + 1
            };
            assert(w * h >= 1) by (nonlinear_arith)
                requires
                    w >= 1,
                    h >= 1,
            ;
            assert(false);
        }
    }
    best
}

/// How many vertical polygon edges a ray cast to the right from the point
/// crosses, among the first `k` edges.
pub open spec fn crossings(
    point: (int, int),
    edges: Seq<((i64, i64), (i64, i64))>,
    k: int,
) -> int
    decreases k,
{
    if k <= 0 {
        0
    } else {
        crossings(point, edges, k - 1) + {
            let e = edges[k - 1];
            let x1 = e.0.0 as int;
            let y1 = e.0.1 as int;
            let x2 = e.1.0 as int;
            let y2 = e.1.1 as int;
            let min_y = if y1 <= y2 {
                y1
            } else {
                y2
            };
            let max_y = if y1 <= y2 {
                y2
            } else {
                y1
            };
            if x1 == x2 && x1 > point.0 && min_y <= point.1 < max_y {
                1int
            } else {
                0int
            }
        }
    }
}

/// Whether the point lies inside the polygon: a ray cast to the right
/// crosses the vertical edges an odd number of times.
pub fn is_inside_polygon(point: (i64, i64), edges: &Vec<((i64, i64), (i64, i64))>) -> (r: bool)
    ensures
        r == (crossings((point.0 as int, point.1 as int), edges@, edges@.len() as int) % 2 == 1),
{
    let ghost p = (point.0 as int, point.1 as int);
    let n = edges.len();
    let mut count: u64 = 0;
    let mut k: usize = 0;
    while k < n
        invariant
            0 <= k <= n,
            n == edges@.len(),
            p == (point.0 as int, point.1 as int),
            count as int == crossings(p, edges@, k as int),
            count <= k,
        decreases n - k,
    {
        let ((x1, y1), (x2, y2)) = edges[k];
        if x1 == x2 {
            let min_y = if y1 <= y2 {
                y1
            } else {
                y2
            };
            let max_y = if y1 <= y2 {
                y2
            } else {
                y1
            };
            if x1 > point.0 && point.1 >= min_y && point.1 < max_y {
                count = count + 1;
            }
        }
        k = k + 1;
    }
    count % 2 == 1
}

} // verus!
