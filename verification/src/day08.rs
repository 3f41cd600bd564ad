//! Junction boxes joined into circuits.
//!
//! Boxes sit at integer points in space; connecting the closest pairs
//! builds circuits.  A union-find forest over the box indices keeps track
//! of the circuits: every tree in the forest is one circuit, its root
//! carries the circuit's size, and ranks keep the trees shallow.

use vstd::prelude::*;

verus! {

/// Powers of two.
pub open spec fn pow2(k: int) -> int
    decreases k,
{
    if k <= 0 {
        1
    } else {
        2 * pow2(k - 1)
    }
}

proof fn lemma_pow2_pos(k: int)
    ensures
        pow2(k) >= 1,
    decreases k,
{
    if k > 0 {
        lemma_pow2_pos(k - 1);
    }
}

/// Sum of the sizes recorded at the roots of the forest, over the first
/// `hi` nodes.
pub open spec fn root_size_sum(parent: Seq<usize>, size: Seq<usize>, hi: int) -> int
    decreases hi,
{
    if hi <= 0 {
        0
    } else {
        root_size_sum(parent, size, hi - 1) + if parent[hi - 1] == hi - 1 {
            size[hi - 1] as int
        } else {
            0int
        }
    }
}

/// Two forests that agree on who is a root and on the root sizes have the
/// same root size sum.
proof fn lemma_root_size_sum_same(
    p1: Seq<usize>,
    s1: Seq<usize>,
    p2: Seq<usize>,
    s2: Seq<usize>,
    hi: int,
)
    requires
        hi <= p1.len(),
        hi <= p2.len(),
        hi <= s1.len(),
        hi <= s2.len(),
        forall|i: int| 0 <= i < hi ==> ((#[trigger] p1[i]) == i <==> (#[trigger] p2[i]) == i),
        forall|i: int| 0 <= i < hi && p1[i] == i ==> (#[trigger] s1[i]) == s2[i],
    ensures
        root_size_sum(p1, s1, hi) == root_size_sum(p2, s2, hi),
    decreases hi,
{
    if hi > 0 {
        lemma_root_size_sum_same(p1, s1, p2, s2, hi - 1);
    }
}

/// Removing one root `b` and growing another root `a` by `b`'s size keeps
/// the root size sum.
proof fn lemma_root_size_sum_merge(
    p1: Seq<usize>,
    s1: Seq<usize>,
    p2: Seq<usize>,
    s2: Seq<usize>,
    a: int,
    b: int,
    hi: int,
)
    requires
        p1.len() == p2.len(),
        s1.len() == s2.len(),
        hi <= p1.len(),
        hi <= s1.len(),
        0 <= a < p1.len(),
        0 <= b < p1.len(),
        a != b,
        p1[a] == a,
        p1[b] == b,
        p2[a] == a,
        p2[b] != b,
        s2[a] as int == s1[a] as int + s1[b] as int,
        forall|i: int| 0 <= i < p1.len() && i != b ==> ((#[trigger] p1[i]) == i <==> p2[i] == i),
        forall|i: int| 0 <= i < s1.len() && i != a && p1[i] == i ==> (#[trigger] s1[i]) == s2[i],
    ensures
        root_size_sum(p2, s2, hi) == root_size_sum(p1, s1, hi) + (if a < hi {
            s1[b] as int
        } else {
            0int
        }) - (if b < hi {
            s1[b] as int
        } else {
            0int
        }),
    decreases hi,
{
    if hi > 0 {
        lemma_root_size_sum_merge(p1, s1, p2, s2, a, b, hi - 1);
    }
}

/// Every partial root size sum of non-negative sizes is at most the whole.
proof fn lemma_root_size_sum_le(parent: Seq<usize>, size: Seq<usize>, lo: int, hi: int)
    requires
        0 <= lo <= hi,
    ensures
        root_size_sum(parent, size, lo) <= root_size_sum(parent, size, hi),
    decreases hi - lo,
{
    if lo < hi {
        lemma_root_size_sum_le(parent, size, lo, hi - 1);
    }
}

/// One root's size is at most the root size sum over any range containing
/// it.
proof fn lemma_root_size_le(parent: Seq<usize>, size: Seq<usize>, r: int, hi: int)
    requires
        0 <= r < hi,
        parent[r] == r,
    ensures
        size[r] as int <= root_size_sum(parent, size, hi),
    decreases hi,
{
    if r == hi - 1 {
        lemma_root_size_sum_le(parent, size, 0, hi - 1);
    } else {
        lemma_root_size_le(parent, size, r, hi - 1);
    }
}

/// A well-formed union-find forest: parents stay in range, ranks strictly
/// increase towards the root, every root's size covers two to its rank,
/// and the root sizes add up to the number of nodes.
pub open spec fn uf_wf(parent: Seq<usize>, rank: Seq<usize>, size: Seq<usize>) -> bool {
    &&& parent.len() == rank.len()
    &&& parent.len() == size.len()
    &&& forall|i: int| 0 <= i < parent.len() ==> (#[trigger] parent[i]) < parent.len()
    &&& forall|i: int|
        0 <= i < parent.len() && parent[i] != i ==> (#[trigger] rank[i]) < rank[parent[i] as int]
    &&& forall|i: int|
        0 <= i < parent.len() && parent[i] == i ==> pow2((#[trigger] rank[i]) as int)
            <= size[i] as int
    &&& root_size_sum(parent, size, parent.len() as int) == parent.len()
}

/// The root above a node: follow parents until a node is its own parent.
pub open spec fn root_of(parent: Seq<usize>, rank: Seq<usize>, x: int) -> int
    decreases usize::MAX - rank[x],
    when 0 <= x < parent.len() && uf_wf_parents(parent, rank)
{
    if parent[x] == x {
        x
    } else {
        root_of(parent, rank, parent[x] as int)
    }
}

/// The part of well-formedness the root function needs.
pub open spec fn uf_wf_parents(parent: Seq<usize>, rank: Seq<usize>) -> bool {
    &&& parent.len() == rank.len()
    &&& forall|i: int| 0 <= i < parent.len() ==> (#[trigger] parent[i]) < parent.len()
    &&& forall|i: int|
        0 <= i < parent.len() && parent[i] != i ==> (#[trigger] rank[i]) < rank[parent[i] as int]
}

/// The root is in range and is its own parent.
pub proof fn lemma_root_of(parent: Seq<usize>, rank: Seq<usize>, x: int)
    requires
        uf_wf_parents(parent, rank),
        0 <= x < parent.len(),
    ensures
        0 <= root_of(parent, rank, x) < parent.len(),
        parent[root_of(parent, rank, x)] == root_of(parent, rank, x),
        rank[x] <= rank[root_of(parent, rank, x)],
    decreases usize::MAX - rank[x],
{
    if parent[x] != x {
        lemma_root_of(parent, rank, parent[x] as int);
    }
}

/// The union-find forest over the boxes.
pub struct UnionFind {
    /// Parent pointers; a node that is its own parent is a root.
    pub parent: Vec<usize>,
    /// Rank bound of the tree below each node.
    pub rank: Vec<usize>,
    /// At a root, the number of nodes of its tree.
    pub size: Vec<usize>,
}

/// The root that names the circuit after joining the circuits of `x` and
/// `y`: the root of higher rank, the root of `x` on a tie.
pub open spec fn merged_root(uf: UnionFind, x: int, y: int) -> int {
    let rx = uf.root(x);
    let ry = uf.root(y);
    if uf.rank@[ry] > uf.rank@[rx] {
        ry
    } else {
        rx
    }
}

impl UnionFind {
    /// The forest is well formed.
    pub open spec fn wf(self) -> bool {
        uf_wf(self.parent@, self.rank@, self.size@)
    }

    /// How many boxes the forest holds.
    pub open spec fn len(self) -> int {
        self.parent@.len() as int
    }

    /// The circuit of a box, named by its root.
    pub open spec fn root(self, x: int) -> int {
        root_of(self.parent@, self.rank@, x)
    }

    /// A fresh forest: every box alone in its own circuit.
    pub fn new(n: usize) -> (r: UnionFind)
        ensures
            r.wf(),
            r.len() == n,
            forall|i: int| 0 <= i < n ==> r.root(i) == i,
            forall|i: int| 0 <= i < n ==> (#[trigger] r.size@[i]) == 1,
    {
        let mut parent: Vec<usize> = Vec::new();
        let mut rank: Vec<usize> = Vec::new();
        let mut size: Vec<usize> = Vec::new();
        let mut i: usize = 0;
        while i < n
            invariant
                0 <= i <= n,
                parent@.len() == i,
                rank@.len() == i,
                size@.len() == i,
                forall|t: int| 0 <= t < i ==> (#[trigger] parent@[t]) == t,
                forall|t: int| 0 <= t < i ==> (#[trigger] rank@[t]) == 0,
                forall|t: int| 0 <= t < i ==> (#[trigger] size@[t]) == 1,
                root_size_sum(parent@, size@, i as int) == i,
            decreases n - i,
        {
            let ghost pp = parent@;
            let ghost ss = size@;
            parent.push(i);
            rank.push(0);
            size.push(1);
            proof {
                lemma_root_size_sum_same(parent@, size@, pp, ss, i as int);
                assert(root_size_sum(parent@, size@, i + 1) == root_size_sum(
                    parent@,
                    size@,
                    i as int,
                ) + 1);
            }
            i = i + 1;
        }
        let r = UnionFind { parent, rank, size };
        proof {
            assert forall|t: int| 0 <= t < n implies r.root(t) == t by {
                assert(r.parent@[t] == t);
            };
        }
        r
    }

    /// The root of the box's circuit.
    pub fn find(&mut self, x: usize) -> (r: usize)
        requires
            old(self).wf(),
            x < old(self).len(),
        ensures
            *final(self) == *old(self),
            r as int == old(self).root(x as int),
            final(self).parent@[r as int] == r,
    {
        proof {
            lemma_root_of(self.parent@, self.rank@, x as int);
        }
        let mut cur = x;
        while self.parent[cur] != cur
            invariant
                self.wf(),
                *self == *old(self),
                cur < self.len(),
                root_of(self.parent@, self.rank@, cur as int) == old(self).root(x as int),
            decreases usize::MAX - self.rank@[cur as int],
        {
            proof {
                lemma_root_of(self.parent@, self.rank@, cur as int);
            }
            cur = self.parent[cur];
        }
        cur
    }

    /// Joins the circuits of two boxes: afterwards one of their old roots
    /// names the merged circuit, and every other circuit is untouched.
    #[verifier::rlimit(60)]
    pub fn union(&mut self, x: usize, y: usize)
        requires
            old(self).wf(),
            x < old(self).len(),
            y < old(self).len(),
        ensures
            final(self).wf(),
            final(self).len() == old(self).len(),
            forall|i: int|
                0 <= i < old(self).len() ==> #[trigger] final(self).root(i) == (if old(self).root(
                    i,
                ) == old(self).root(x as int) || old(self).root(i) == old(self).root(y as int) {
                    merged_root(*old(self), x as int, y as int)
                } else {
                    old(self).root(i)
                }),
            old(self).root(x as int) == old(self).root(y as int) ==> *final(self) == *old(self),
            old(self).root(x as int) != old(self).root(y as int) ==> final(self).size@ == old(
                self,
            ).size@.update(
                merged_root(*old(self), x as int, y as int),
                (old(self).size@[old(self).root(x as int)] + old(self).size@[old(self).root(
                    y as int,
                )]) as usize,
            ),
    {
        let n = self.parent.len();
        let root_x = self.find(x);
        let root_y = self.find(y);
        proof {
            lemma_root_of(self.parent@, self.rank@, x as int);
            lemma_root_of(self.parent@, self.rank@, y as int);
        }
        if root_x != root_y {
            let rx_rank = self.rank[root_x];
            let ry_rank = self.rank[root_y];
            proof {
                lemma_pow2_gt(self.rank@[root_x as int] as int);
                lemma_pow2_gt(self.rank@[root_y as int] as int);
                lemma_two_roots_le(
                    self.parent@,
                    self.size@,
                    root_x as int,
                    root_y as int,
                    self.parent@.len() as int,
                );
            }
            if rx_rank < ry_rank {
                self.link(root_y, root_x, false);
            } else if rx_rank > ry_rank {
                self.link(root_x, root_y, false);
            } else {
                self.link(root_x, root_y, true);
            }
        }
    }

    /// Hangs the root `b` under the root `a`, growing `a`'s tree; with
    /// `bump` the rank of `a` moves past the equal rank of `b`.
    #[verifier::rlimit(100)]
    #[verifier::spinoff_prover]
    fn link(&mut self, a: usize, b: usize, bump: bool)
        requires
            old(self).wf(),
            a < old(self).len(),
            b < old(self).len(),
            a != b,
            old(self).parent@[a as int] == a,
            old(self).parent@[b as int] == b,
            !bump ==> old(self).rank@[b as int] < old(self).rank@[a as int],
            bump ==> old(self).rank@[b as int] == old(self).rank@[a as int],
            old(self).rank@[a as int] < usize::MAX,
            old(self).size@[a as int] + old(self).size@[b as int] <= usize::MAX,
        ensures
            final(self).wf(),
            final(self).len() == old(self).len(),
            forall|i: int|
                0 <= i < old(self).len() ==> #[trigger] final(self).root(i) == (if old(self).root(
                    i,
                ) == b {
                    a as int
                } else {
                    old(self).root(i)
                }),
            final(self).size@ == old(self).size@.update(
                a as int,
                (old(self).size@[a as int] + old(self).size@[b as int]) as usize,
            ),
    {
        let ghost o = *self;
        let newsize = self.size[a] + self.size[b];
        self.size[a] = newsize;
        self.parent[b] = a;
        if bump {
            let newrank = self.rank[a] + 1;
            self.rank[a] = newrank;
        }
        proof {
            let f = *self;
            assert(f.parent@ == o.parent@.update(b as int, a));
            // the (possibly bumped) ranks are still well formed over the old
            // parents, and strict across the new edge
            assert(uf_wf_parents(o.parent@, f.rank@)) by {
                assert forall|i: int|
                    0 <= i < o.parent@.len() && o.parent@[i] != i implies (#[trigger] f.rank@[i])
                    < f.rank@[o.parent@[i] as int] by {
                    assert(o.rank@[i] < o.rank@[o.parent@[i] as int]);
                    assert(i != a as int);
                };
            }
            assert(f.rank@[b as int] < f.rank@[a as int]);
            assert forall|i: int| 0 <= i < o.parent@.len() implies #[trigger] f.root(i) == (if o
                .root(i) == b {
                a as int
            } else {
                o.root(i)
            }) by {
                lemma_root_after_link(o.parent@, f.rank@, a as int, b as int, i);
                lemma_rank_irrelevant(o.parent@, o.rank@, f.rank@, i);
            };
            // well-formedness: the merged root keeps its power-of-two bound
            assert forall|i: int|
                0 <= i < f.parent@.len() && f.parent@[i] == i implies pow2(
                (#[trigger] f.rank@[i]) as int,
            ) <= f.size@[i] as int by {
                if i == a as int {
                    lemma_pow2_pos(o.rank@[b as int] as int);
                    if bump {
                        assert(pow2(f.rank@[i] as int) == 2 * pow2(o.rank@[a as int] as int));
                    } else {
                        lemma_pow2_mono(o.rank@[a as int] as int);
                    }
                } else {
                    assert(o.parent@[i] == i);
                }
            };
            lemma_root_size_sum_merge(
                o.parent@,
                o.size@,
                f.parent@,
                f.size@,
                a as int,
                b as int,
                f.parent@.len() as int,
            );
        }
    }

    /// The sizes of the circuits, in root index order.
    pub fn get_component_sizes(&mut self) -> (r: Vec<usize>)
        requires
            old(self).wf(),
        ensures
            *final(self) == *old(self),
            r@ == roots_sizes(old(self).parent@, old(self).size@, old(self).len()),
    {
        let n = self.parent.len();
        let mut sizes: Vec<usize> = Vec::new();
        let mut i: usize = 0;
        while i < n
            invariant
                0 <= i <= n,
                self.wf(),
                *self == *old(self),
                n == self.parent@.len(),
                sizes@ =~= roots_sizes(self.parent@, self.size@, i as int),
            decreases n - i,
        {
            let r = self.find(i);
            if r == i {
                proof {
                    assert(self.parent@[i as int] == i);
                }
                sizes.push(self.size[i]);
            } else {
                proof {
                    if self.parent@[i as int] == i {
                        assert(self.root(i as int) == i);
                    }
                }
            }
            i = i + 1;
        }
        sizes
    }
}

/// The sizes at the roots, in index order.
pub open spec fn roots_sizes(parent: Seq<usize>, size: Seq<usize>, hi: int) -> Seq<usize>
    decreases hi,
{
    if hi <= 0 {
        Seq::empty()
    } else {
        roots_sizes(parent, size, hi - 1) + if parent[hi - 1] == hi - 1 {
            seq![size[hi - 1]]
        } else {
            Seq::empty()
        }
    }
}

/// Two to any power exceeds the exponent.
proof fn lemma_pow2_gt(k: int)
    ensures
        pow2(k) > k,
    decreases k,
{
    if k > 0 {
        lemma_pow2_gt(k - 1);
    }
}

proof fn lemma_pow2_mono(k: int)
    ensures
        pow2(k) <= pow2(k + 1),
{
    lemma_pow2_pos(k);
}

/// Two distinct roots together hold at most all the nodes.
proof fn lemma_two_roots_le(parent: Seq<usize>, size: Seq<usize>, a: int, b: int, hi: int)
    requires
        0 <= a < hi,
        0 <= b < hi,
        a != b,
        parent[a] == a,
        parent[b] == b,
    ensures
        size[a] as int + size[b] as int <= root_size_sum(parent, size, hi),
    decreases hi,
{
    if a == hi - 1 {
        lemma_root_size_le(parent, size, b, hi - 1);
    } else if b == hi - 1 {
        lemma_root_size_le(parent, size, a, hi - 1);
    } else {
        lemma_two_roots_le(parent, size, a, b, hi - 1);
    }
}

/// The root function does not look at the ranks.
proof fn lemma_rank_irrelevant(parent: Seq<usize>, r1: Seq<usize>, r2: Seq<usize>, i: int)
    requires
        uf_wf_parents(parent, r1),
        uf_wf_parents(parent, r2),
        0 <= i < parent.len(),
    ensures
        root_of(parent, r1, i) == root_of(parent, r2, i),
    decreases usize::MAX - r1[i],
{
    if parent[i] != i {
        lemma_rank_irrelevant(parent, r1, r2, parent[i] as int);
    }
}

/// Hanging root `b` under root `a` sends `b`'s circuit to `a` and leaves
/// every other node's root alone.
proof fn lemma_root_after_link(parent: Seq<usize>, rank: Seq<usize>, a: int, b: int, i: int)
    requires
        uf_wf_parents(parent, rank),
        0 <= a < parent.len(),
        0 <= b < parent.len(),
        a != b,
        parent[a] == a,
        parent[b] == b,
        rank[b] < rank[a],
        0 <= i < parent.len(),
    ensures
        uf_wf_parents(parent.update(b, a as usize), rank),
        root_of(parent.update(b, a as usize), rank, i) == (if root_of(parent, rank, i) == b {
            a
        } else {
            root_of(parent, rank, i)
        }),
    decreases usize::MAX - rank[i],
{
    let np = parent.update(b, a as usize);
    assert(uf_wf_parents(np, rank)) by {
        assert forall|j: int|
            0 <= j < np.len() && np[j] != j implies (#[trigger] rank[j]) < rank[np[j] as int] by {
            if j != b {
                assert(parent[j] == np[j]);
                assert(rank[j] < rank[parent[j] as int]);
            }
        };
    }
    if i == b {
        assert(root_of(np, rank, b) == root_of(np, rank, a));
        assert(np[a] == a);
        assert(root_of(np, rank, a) == a);
        assert(root_of(parent, rank, b) == b);
    } else if parent[i] == i {
        assert(root_of(np, rank, i) == i);
        assert(root_of(parent, rank, i) == i);
    } else {
        lemma_root_after_link(parent, rank, a, b, parent[i] as int);
        assert(np[i] == parent[i]);
        assert(root_of(np, rank, i) == root_of(np, rank, np[i] as int));
    }
}

/// A value clamped to the machine range.
pub open spec fn clamp_u64(x: int) -> int {
    if x <= u64::MAX as int {
        x
    } else {
        u64::MAX as int
    }
}

/// Product of the largest three circuit sizes — of all of them when there
/// are fewer than three — clamped to the machine range.  The chosen three
/// are each at least as large as every size left out.
pub fn largest_three_product(sizes: &Vec<usize>) -> (r: u64)
    ensures
        sizes@.len() == 0 ==> r == 1,
        sizes@.len() == 1 ==> r == sizes@[0],
        sizes@.len() == 2 ==> r as int == clamp_u64(sizes@[0] as int * sizes@[1] as int),
        sizes@.len() >= 3 ==> exists|i1: int, i2: int, i3: int|
            0 <= i1 < sizes@.len() && 0 <= i2 < sizes@.len() && 0 <= i3 < sizes@.len() && i1 != i2
                && i1 != i3 && i2 != i3 && r as int == clamp_u64(
                #[trigger] (sizes@[i1] as int * sizes@[i2] as int * sizes@[i3] as int),
            ) && (forall|j: int|
                0 <= j < sizes@.len() && j != i1 && j != i2 && j != i3
                    ==> #[trigger] sizes@[j] <= sizes@[i1] && sizes@[j] <= sizes@[i2] && sizes@[j]
                    <= sizes@[i3]),
{
    let n = sizes.len();
    if n == 0 {
        return 1;
    }
    if n == 1 {
        return sizes[0] as u64;
    }
    if n == 2 {
        let r = match (sizes[0] as u64).checked_mul(sizes[1] as u64) {
            Some(x) => x,
            None => u64::MAX,
        };
        return r;
    }
    // the indices of the three largest sizes
    let mut i1: usize = 0;
    let mut t: usize = 1;
    while t < n
        invariant
            1 <= t <= n,
            i1 < n,
            n == sizes@.len(),
            forall|j: int| 0 <= j < t ==> #[trigger] sizes@[j] <= sizes@[i1 as int],
        decreases n - t,
    {
        if sizes[t] > sizes[i1] {
            i1 = t;
        }
        t = t + 1;
    }
    let mut i2: usize = if i1 == 0 {
        1
    } else {
        0
    };
    let mut t2: usize = 0;
    while t2 < n
        invariant
            0 <= t2 <= n,
            i1 < n,
            i2 < n,
            i2 != i1,
            n == sizes@.len(),
            n >= 3,
            forall|j: int| 0 <= j < t2 && j != i1 ==> #[trigger] sizes@[j] <= sizes@[i2 as int],
        decreases n - t2,
    {
        if t2 != i1 && sizes[t2] > sizes[i2] {
            i2 = t2;
        }
        t2 = t2 + 1;
    }
    let mut i3: usize = if i1 != 0 && i2 != 0 {
        0
    } else if i1 != 1 && i2 != 1 {
        1
    } else {
        2
    };
    let mut t3: usize = 0;
    while t3 < n
        invariant
            0 <= t3 <= n,
            i1 < n,
            i2 < n,
            i3 < n,
            i3 != i1,
            i3 != i2,
            i2 != i1,
            n == sizes@.len(),
            n >= 3,
            forall|j: int|
                0 <= j < t3 && j != i1 && j != i2 ==> #[trigger] sizes@[j] <= sizes@[i3 as int],
        decreases n - t3,
    {
        if t3 != i1 && t3 != i2 && sizes[t3] > sizes[i3] {
            i3 = t3;
        }
        t3 = t3 + 1;
    }
    proof {
        let a = sizes@[i1 as int] as int;
        let b = sizes@[i2 as int] as int;
        let c = sizes@[i3 as int] as int;
        assert(a * b >= 0 && a * b * c >= 0) by (nonlinear_arith)
            requires
                a >= 0,
                b >= 0,
                c >= 0,
        ;
    }
    let r: u64 = match (sizes[i1] as u64).checked_mul(sizes[i2] as u64) {
        Some(p12) => match p12.checked_mul(sizes[i3] as u64) {
            Some(x) => x,
            None => u64::MAX,
        },
        None => {
            proof {
                lemma_three_product_big(
                    sizes@[i1 as int] as int,
                    sizes@[i2 as int] as int,
                    sizes@[i3 as int] as int,
                );
            }
            if sizes[i3] == 0 {
                0
            } else {
                u64::MAX
            }
        },
    };
    proof {
        let a = sizes@[i1 as int] as int;
        let b = sizes@[i2 as int] as int;
        let c = sizes@[i3 as int] as int;
        if a * b > u64::MAX as int {
            lemma_three_product_big(a, b, c);
        }
        assert(r as int == clamp_u64(a * b * c));
        assert((i1 as int) < sizes@.len() && (i2 as int) < sizes@.len() && (i3 as int)
            < sizes@.len());
    }
    r
}

/// A product of three sizes is at least its first factor pair whenever the
/// third is at least one; past the machine maximum it stays past it.
proof fn lemma_three_product_big(a: int, b: int, c: int)
    requires
        a >= 0,
        b >= 0,
        c >= 0,
        a * b > u64::MAX as int,
    ensures
        c >= 1 ==> a * b * c > u64::MAX as int,
        c == 0 ==> a * b * c == 0,
{
    if c >= 1 {
        assert(a * b * c >= a * b) by (nonlinear_arith)
            requires
                a * b >= 0,
                c >= 1,
        ;
    } else {
        assert(a * b * c == 0) by (nonlinear_arith)
            requires
                c == 0,
        ;
    }
}


/// Class labels of the boxes after some connections: each box starts in
/// a class of its own, and connecting two boxes folds the first one's
/// class into the second one's.
pub open spec fn cls_step(cls: Seq<int>, a: int, b: int) -> Seq<int> {
    if cls[a] == cls[b] {
        cls
    } else {
        Seq::new(
            cls.len(),
            |z: int|
                if cls[z] == cls[a] {
                    cls[b]
                } else {
                    cls[z]
                },
        )
    }
}

/// Class labels after the first `k` listed connections.
pub open spec fn cls_after(n: int, pairs: Seq<(usize, usize)>, k: int) -> Seq<int>
    decreases k,
{
    if k <= 0 {
        Seq::new(n as nat, |z: int| z)
    } else {
        cls_step(cls_after(n, pairs, k - 1), pairs[k - 1].0 as int, pairs[k - 1].1 as int)
    }
}

proof fn lemma_cls_len(n: int, pairs: Seq<(usize, usize)>, k: int)
    requires
        n >= 0,
        k >= 0,
    ensures
        cls_after(n, pairs, k).len() == n,
    decreases k,
{
    if k > 0 {
        lemma_cls_len(n, pairs, k - 1);
    }
}

/// Every box belongs to one circuit.
pub open spec fn one_circuit(cls: Seq<int>) -> bool {
    forall|z1: int, z2: int|
        0 <= z1 < cls.len() && 0 <= z2 < cls.len() ==> (#[trigger] cls[z1]) == (#[trigger] cls[z2])
}

/// One circuit, once complete, stays complete: connecting any further
/// pair relabels nothing, so the transition into one circuit happens at
/// most once and the pair reported below is the first to make it.
pub proof fn lemma_one_circuit_persists(n: int, pairs: Seq<(usize, usize)>, k: int)
    requires
        0 <= k < pairs.len(),
        n >= 0,
        (pairs[k].0 as int) < n,
        (pairs[k].1 as int) < n,
        one_circuit(cls_after(n, pairs, k)),
    ensures
        one_circuit(cls_after(n, pairs, k + 1)),
{
    lemma_cls_len(n, pairs, k);
    let c = cls_after(n, pairs, k);
    assert(c[pairs[k].0 as int] == c[pairs[k].1 as int]);
    assert(cls_after(n, pairs, k + 1) == c);
}

/// Every box of the forest has the same root.
pub open spec fn all_roots_equal(uf: UnionFind) -> bool {
    forall|z1: int, z2: int|
        0 <= z1 < uf.len() && 0 <= z2 < uf.len() ==> (#[trigger] uf.root(z1)) == (
        #[trigger] uf.root(z2))
}

/// Whether every box of the forest shares one root.
fn all_connected(uf: &mut UnionFind) -> (r: bool)
    requires
        old(uf).wf(),
    ensures
        *final(uf) == *old(uf),
        r == all_roots_equal(*old(uf)),
{
    let n = uf.parent.len();
    if n == 0 {
        return true;
    }
    let r0 = uf.find(0);
    let mut z: usize = 1;
    while z < n
        invariant
            1 <= z <= n,
            uf.wf(),
            *uf == *old(uf),
            n == uf.len(),
            r0 as int == uf.root(0),
            forall|t: int| 0 <= t < z ==> (#[trigger] uf.root(t)) == uf.root(0),
        decreases n - z,
    {
        let rz = uf.find(z);
        if rz != r0 {
            proof {
                assert(uf.root(z as int) != uf.root(0));
            }
            return false;
        }
        z = z + 1;
    }
    proof {
        assert forall|z1: int, z2: int|
            0 <= z1 < uf.len() && 0 <= z2 < uf.len() implies (#[trigger] uf.root(z1)) == (
        #[trigger] uf.root(z2)) by {
            assert(uf.root(z1) == uf.root(0));
            assert(uf.root(z2) == uf.root(0));
        };
    }
    true
}

/// The first listed pair whose connection leaves every box in one
/// circuit, the pairs connected in the order given, or `None` when no
/// pair ever completes the single circuit.
pub fn last_connecting_pair(n: usize, pairs: &Vec<(usize, usize)>) -> (r: Option<(usize, usize)>)
    requires
        forall|t: int| 0 <= t < pairs@.len() ==> (#[trigger] pairs@[t]).0 < n && pairs@[t].1 < n,
    ensures
        match r {
            Some(p) => exists|k: int|
                0 <= k < pairs@.len() && pairs@[k] == p && !one_circuit(
                    cls_after(n as int, pairs@, k),
                ) && one_circuit(cls_after(n as int, pairs@, k + 1)),
            None => forall|k: int|
                0 <= k < pairs@.len() ==> !(!one_circuit(#[trigger] cls_after(n as int, pairs@, k))
                    && one_circuit(cls_after(n as int, pairs@, k + 1))),
        },
{
    let ghost ni = n as int;
    let ghost pv = pairs@;
    let mut uf = UnionFind::new(n);
    let np = pairs.len();
    let mut k: usize = 0;
    while k < np
        invariant
            0 <= k <= pv.len(),
            np == pv.len(),
            pv == pairs@,
            ni == n as int,
            forall|t: int| 0 <= t < pv.len() ==> (#[trigger] pv[t]).0 < n && pv[t].1 < n,
            uf.wf(),
            uf.len() == n,
            forall|z1: int, z2: int|
                0 <= z1 < ni && 0 <= z2 < ni ==> ((#[trigger] uf.root(z1)) == (
                #[trigger] uf.root(z2)) <==> cls_after(ni, pv, k as int)[z1] == cls_after(
                    ni,
                    pv,
                    k as int,
                )[z2]),
            forall|k2: int|
                0 <= k2 < k ==> !(!one_circuit(#[trigger] cls_after(ni, pv, k2)) && one_circuit(
                    cls_after(ni, pv, k2 + 1),
                )),
        decreases pv.len() - k,
    {
        proof {
            lemma_cls_len(ni, pv, k as int);
            lemma_cls_len(ni, pv, k as int + 1);
        }
        let ghost c = cls_after(ni, pv, k as int);
        let ghost c2 = cls_after(ni, pv, k as int + 1);
        let (i, j) = pairs[k];
        let ri = uf.find(i);
        let rj = uf.find(j);
        if ri != rj {
            proof {
                assert(uf.root(i as int) != uf.root(j as int));
                assert(c[i as int] != c[j as int]);
            }
            let ghost uf0 = uf;
            uf.union(i, j);
            proof {
                assert(c2 == cls_step(c, i as int, j as int));
                let m = merged_root(uf0, i as int, j as int);
                assert(m == uf0.root(i as int) || m == uf0.root(j as int));
                assert forall|z1: int, z2: int|
                    0 <= z1 < ni && 0 <= z2 < ni implies ((#[trigger] uf.root(z1)) == (
                #[trigger] uf.root(z2)) <==> c2[z1] == c2[z2]) by {
                    assert(uf.root(z1) == (if uf0.root(z1) == uf0.root(i as int) || uf0.root(z1)
                        == uf0.root(j as int) {
                        m
                    } else {
                        uf0.root(z1)
                    }));
                    assert(uf.root(z2) == (if uf0.root(z2) == uf0.root(i as int) || uf0.root(z2)
                        == uf0.root(j as int) {
                        m
                    } else {
                        uf0.root(z2)
                    }));
                    assert((uf0.root(z1) == uf0.root(i as int)) <==> (c[z1] == c[i as int]));
                    assert((uf0.root(z1) == uf0.root(j as int)) <==> (c[z1] == c[j as int]));
                    assert((uf0.root(z2) == uf0.root(i as int)) <==> (c[z2] == c[i as int]));
                    assert((uf0.root(z2) == uf0.root(j as int)) <==> (c[z2] == c[j as int]));
                    assert((uf0.root(z1) == uf0.root(z2)) <==> (c[z1] == c[z2]));
                    assert(c2[z1] == (if c[z1] == c[i as int] {
                        c[j as int]
                    } else {
                        c[z1]
                    }));
                    assert(c2[z2] == (if c[z2] == c[i as int] {
                        c[j as int]
                    } else {
                        c[z2]
                    }));
                };
            }
            let connected = all_connected(&mut uf);
            if connected {
                proof {
                    assert(all_roots_equal(uf));
                    assert forall|z1: int, z2: int|
                        0 <= z1 < c2.len() && 0 <= z2 < c2.len() implies (#[trigger] c2[z1]) == (
                    #[trigger] c2[z2]) by {
                        assert(uf.root(z1) == uf.root(z2));
                    };
                    assert(one_circuit(c2));
                    assert(!one_circuit(c)) by {
                        if one_circuit(c) {
                            assert(c[i as int] == c[j as int]);
                        }
                    };
                    assert(0 <= (k as int) < pv.len() && pv[k as int] == (i, j) && !one_circuit(
                        cls_after(ni, pv, k as int),
                    ) && one_circuit(cls_after(ni, pv, k as int + 1)));
                }
                return Some((i, j));
            }
            proof {
                assert(!all_roots_equal(uf));
                let (w1, w2) = choose|w1: int, w2: int|
                    0 <= w1 < uf.len() && 0 <= w2 < uf.len() && uf.root(w1) != uf.root(w2);
                assert(c2[w1] != c2[w2]);
                assert(!one_circuit(c2)) by {
                    if one_circuit(c2) {
                        assert((c2[w1]) == (c2[w2]));
                    }
                };
                assert forall|k2: int|
                    0 <= k2 < k + 1 implies !(!one_circuit(#[trigger] cls_after(ni, pv, k2))
                    && one_circuit(cls_after(ni, pv, k2 + 1))) by {};
            }
        } else {
            proof {
                assert(uf.root(i as int) == uf.root(j as int));
                assert(c[i as int] == c[j as int]);
                assert(c2 == c);
                assert(!(!one_circuit(c) && one_circuit(c2)));
                assert forall|k2: int|
                    0 <= k2 < k + 1 implies !(!one_circuit(#[trigger] cls_after(ni, pv, k2))
                    && one_circuit(cls_after(ni, pv, k2 + 1))) by {};
            }
        }
        k = k + 1;
    }
    None
}

} // verus!
