//! Paths through a device graph.
//!
//! Each device feeds a list of other devices.  The counters below follow
//! every forwarding chain for as many steps as the graph has devices —
//! long enough to meet every path when no chain loops — and count the
//! chains that reach the target, in the second part only those that pass
//! through both the `dac` and the `fft` device.

use vstd::prelude::*;
use vstd::string::StrSliceExecFns;

use crate::text::is_blank_char;
use crate::text::lines_of;
use crate::text::spec_lines;
use crate::text::str_eq;

verus! {

/// The first entry of the graph with the given device name.
pub open spec fn lookup(g: Seq<(String, Vec<String>)>, name: Seq<char>, i: int) -> Option<int>
    decreases g.len() - i,
{
    if i < 0 || i >= g.len() {
        None
    } else if g[i].0@ == name {
        Some(i)
    } else {
        lookup(g, name, i + 1)
    }
}

/// No two entries share a name.
pub open spec fn keys_distinct(g: Seq<(String, Vec<String>)>) -> bool {
    forall|i1: int, i2: int|
        0 <= i1 < i2 < g.len() ==> (#[trigger] g[i1].0@) != (#[trigger] g[i2].0@)
}

/// With distinct names, an entry's name looks up that entry.
proof fn lemma_lookup_self(g: Seq<(String, Vec<String>)>, i: int, from: int)
    requires
        keys_distinct(g),
        0 <= from <= i < g.len(),
    ensures
        lookup(g, g[i].0@, from) == Some(i),
    decreases i - from,
{
    if from < i {
        lemma_lookup_self(g, i, from + 1);
    }
}

/// A found entry holds the name looked up.
proof fn lemma_lookup_found(g: Seq<(String, Vec<String>)>, name: Seq<char>, from: int)
    ensures
        match lookup(g, name, from) {
            Some(j) => from <= j < g.len() && g[j].0@ == name,
            None => true,
        },
    decreases g.len() - from,
{
    if 0 <= from < g.len() && g[from].0@ != name {
        lemma_lookup_found(g, name, from + 1);
    }
}

/// How many forwarding chains of at most `fuel` steps lead from the device
/// to the target: one when the device is the target itself, else the
/// chains continuing through each of its outputs.
pub open spec fn count_fuel(
    g: Seq<(String, Vec<String>)>,
    node: Seq<char>,
    target: Seq<char>,
    fuel: nat,
) -> int
    decreases fuel, 1int, 0int,
{
    if node == target {
        1
    } else if fuel == 0 {
        0
    } else {
        match lookup(g, node, 0) {
            None => 0,
            Some(i) => outs_sum(g, g[i].1@, target, fuel, g[i].1@.len() as int),
        }
    }
}

/// The chains continuing through the first `k` outputs.
pub open spec fn outs_sum(
    g: Seq<(String, Vec<String>)>,
    outs: Seq<String>,
    target: Seq<char>,
    fuel: nat,
    k: int,
) -> int
    decreases fuel, 0int, k,
{
    if k <= 0 || fuel == 0 {
        0
    } else {
        outs_sum(g, outs, target, fuel, k - 1) + count_fuel(
            g,
            outs[k - 1]@,
            target,
            (fuel - 1) as nat,
        )
    }
}

proof fn lemma_counts_nonneg(
    g: Seq<(String, Vec<String>)>,
    node: Seq<char>,
    target: Seq<char>,
    fuel: nat,
)
    ensures
        count_fuel(g, node, target, fuel) >= 0,
    decreases fuel, 1int, 0int,
{
    if node != target && fuel > 0 {
        match lookup(g, node, 0) {
            None => {
            },
            Some(i) => {
                lemma_outs_nonneg(g, g[i].1@, target, fuel, g[i].1@.len() as int);
            },
        }
    }
}

proof fn lemma_outs_nonneg(
    g: Seq<(String, Vec<String>)>,
    outs: Seq<String>,
    target: Seq<char>,
    fuel: nat,
    k: int,
)
    ensures
        outs_sum(g, outs, target, fuel, k) >= 0,
    decreases fuel, 0int, k,
{
    if k > 0 && fuel > 0 {
        lemma_outs_nonneg(g, outs, target, fuel, k - 1);
        lemma_counts_nonneg(g, outs[k - 1]@, target, (fuel - 1) as nat);
    }
}

/// A value clamped to the machine range.
pub open spec fn clamp_u64(x: int) -> int {
    if x <= u64::MAX as int {
        x
    } else {
        u64::MAX as int
    }
}

/// Looks a device up by name.
fn lookup_device(graph: &Vec<(String, Vec<String>)>, name: &str) -> (r: Option<usize>)
    ensures
        match r {
            Some(j) => lookup(graph@, name@, 0) == Some(j as int) && j < graph@.len(),
            None => lookup(graph@, name@, 0) is None,
        },
{
    let n = graph.len();
    let mut i: usize = 0;
    while i < n
        invariant
            0 <= i <= n,
            n == graph@.len(),
            lookup(graph@, name@, 0) == lookup(graph@, name@, i as int),
        decreases n - i,
    {
        if str_eq(graph[i].0.as_str(), name) {
            return Some(i);
        }
        i = i + 1;
    }
    None
}

/// The number of forwarding chains from `current` to `target` of at most
/// as many steps as the graph has devices, clamped to the machine range.
/// When no chain loops, these are exactly the paths to the target.
pub fn count_paths(graph: &Vec<(String, Vec<String>)>, current: &str, target: &str) -> (r: u64)
    requires
        keys_distinct(graph@),
    ensures
        r as int == clamp_u64(count_fuel(graph@, current@, target@, graph@.len() as nat)),
{
    let ghost g = graph@;
    let n = graph.len();
    // table[i]: chains from device i within the fuel so far, clamped
    let mut table: Vec<u64> = Vec::new();
    let mut i: usize = 0;
    while i < n
        invariant
            0 <= i <= n,
            n == graph@.len(),
            g == graph@,
            table@.len() == i,
            forall|t: int|
                0 <= t < i ==> #[trigger] table@[t] as int == clamp_u64(
                    count_fuel(g, g[t].0@, target@, 0),
                ),
        decreases n - i,
    {
        if str_eq(graph[i].0.as_str(), target) {
            table.push(1);
        } else {
            table.push(0);
        }
        i = i + 1;
    }
    let mut fuel: usize = 0;
    while fuel < n
        invariant
            0 <= fuel <= n,
            n == graph@.len(),
            g == graph@,
            keys_distinct(g),
            table@.len() == n,
            forall|t: int|
                0 <= t < n ==> #[trigger] table@[t] as int == clamp_u64(
                    count_fuel(g, g[t].0@, target@, fuel as nat),
                ),
        decreases n - fuel,
    {
        let mut next: Vec<u64> = Vec::new();
        let mut i2: usize = 0;
        while i2 < n
            invariant
                0 <= i2 <= n,
                fuel < n,
                n == graph@.len(),
                g == graph@,
                keys_distinct(g),
                table@.len() == n,
                forall|t: int|
                    0 <= t < n ==> #[trigger] table@[t] as int == clamp_u64(
                        count_fuel(g, g[t].0@, target@, fuel as nat),
                    ),
                next@.len() == i2,
                forall|t: int|
                    0 <= t < i2 ==> #[trigger] next@[t] as int == clamp_u64(
                        count_fuel(g, g[t].0@, target@, (fuel + 1) as nat),
                    ),
            decreases n - i2,
        {
            if str_eq(graph[i2].0.as_str(), target) {
                next.push(1);
            } else {
                let outs_len = graph[i2].1.len();
                let mut sum: u64 = 0;
                let mut k: usize = 0;
                while k < outs_len
                    invariant
                        0 <= k <= outs_len,
                        i2 < n,
                        fuel < n,
                        n == graph@.len(),
                        g == graph@,
                        keys_distinct(g),
                        outs_len == g[i2 as int].1@.len(),
                        table@.len() == n,
                        forall|t: int|
                            0 <= t < n ==> #[trigger] table@[t] as int == clamp_u64(
                                count_fuel(g, g[t].0@, target@, fuel as nat),
                            ),
                        sum as int == clamp_u64(
                            outs_sum(g, g[i2 as int].1@, target@, (fuel + 1) as nat, k as int),
                        ),
                    decreases outs_len - k,
                {
                    proof {
                        lemma_outs_nonneg(g, g[i2 as int].1@, target@, (fuel + 1) as nat, k as int);
                        lemma_counts_nonneg(
                            g,
                            g[i2 as int].1@[k as int]@,
                            target@,
                            fuel as nat,
                        );
                    }
                    let out = &graph[i2].1[k];
                    let v: u64 = if str_eq(out.as_str(), target) {
                        1
                    } else {
                        match lookup_device(graph, out.as_str()) {
                            Some(j) => {
                                proof {
                                    lemma_lookup_found(g, out@, 0);
                                }
                                table[j]
                            },
                            None => 0,
                        }
                    };
                    proof {
                        assert(v as int == clamp_u64(
                            count_fuel(g, g[i2 as int].1@[k as int]@, target@, fuel as nat),
                        ));
                    }
                    sum = sum.saturating_add(v);
                    k = k + 1;
                }
                proof {
                    lemma_lookup_self(g, i2 as int, 0);
                    assert(count_fuel(g, g[i2 as int].0@, target@, (fuel + 1) as nat)
                        == outs_sum(
                        g,
                        g[i2 as int].1@,
                        target@,
                        (fuel + 1) as nat,
                        g[i2 as int].1@.len() as int,
                    ));
                }
                next.push(sum);
            }
            i2 = i2 + 1;
        }
        table = next;
        fuel = fuel + 1;
    }
    // the answer for the start device, looked up in the final table
    if str_eq(current, target) {
        1
    } else {
        proof {
            lemma_lookup_found(g, current@, 0);
        }
        match lookup_device(graph, current) {
            Some(j) => table[j],
            None => 0,
        }
    }
}

/// The index of one flag pair in a four-way state table.
pub open spec fn bidx(d: bool, f: bool) -> int {
    (if d {
        2int
    } else {
        0int
    }) + (if f {
        1int
    } else {
        0int
    })
}

/// Like `count_fuel`, but carrying whether the chain has already passed
/// the `dac` and the `fft` device; only chains that reach the target with
/// both flags set count.
pub open spec fn count_both_fuel(
    g: Seq<(String, Vec<String>)>,
    node: Seq<char>,
    target: Seq<char>,
    dac: bool,
    fft: bool,
    fuel: nat,
) -> int
    decreases fuel, 1int, 0int,
{
    let nd = dac || node == "dac"@;
    let nf = fft || node == "fft"@;
    if node == target {
        if nd && nf {
            1
        } else {
            0
        }
    } else if fuel == 0 {
        0
    } else {
        match lookup(g, node, 0) {
            None => 0,
            Some(i) => outs_both_sum(g, g[i].1@, target, nd, nf, fuel, g[i].1@.len() as int),
        }
    }
}

/// The flagged chains continuing through the first `k` outputs.
pub open spec fn outs_both_sum(
    g: Seq<(String, Vec<String>)>,
    outs: Seq<String>,
    target: Seq<char>,
    dac: bool,
    fft: bool,
    fuel: nat,
    k: int,
) -> int
    decreases fuel, 0int, k,
{
    if k <= 0 || fuel == 0 {
        0
    } else {
        outs_both_sum(g, outs, target, dac, fft, fuel, k - 1) + count_both_fuel(
            g,
            outs[k - 1]@,
            target,
            dac,
            fft,
            (fuel - 1) as nat,
        )
    }
}

proof fn lemma_both_nonneg(
    g: Seq<(String, Vec<String>)>,
    node: Seq<char>,
    target: Seq<char>,
    dac: bool,
    fft: bool,
    fuel: nat,
)
    ensures
        count_both_fuel(g, node, target, dac, fft, fuel) >= 0,
    decreases fuel, 1int, 0int,
{
    let nd = dac || node == "dac"@;
    let nf = fft || node == "fft"@;
    if node != target && fuel > 0 {
        match lookup(g, node, 0) {
            None => {
            },
            Some(i) => {
                lemma_outs_both_nonneg(g, g[i].1@, target, nd, nf, fuel, g[i].1@.len() as int);
            },
        }
    }
}

proof fn lemma_outs_both_nonneg(
    g: Seq<(String, Vec<String>)>,
    outs: Seq<String>,
    target: Seq<char>,
    dac: bool,
    fft: bool,
    fuel: nat,
    k: int,
)
    ensures
        outs_both_sum(g, outs, target, dac, fft, fuel, k) >= 0,
    decreases fuel, 0int, k,
{
    if k > 0 && fuel > 0 {
        lemma_outs_both_nonneg(g, outs, target, dac, fft, fuel, k - 1);
        lemma_both_nonneg(g, outs[k - 1]@, target, dac, fft, (fuel - 1) as nat);
    }
}

/// The chains from `current` to `target` within the graph's device count
/// that pass through both `dac` and `fft`, clamped to the machine range;
/// the flags say which of the two the chain has already passed.
pub fn count_paths_with_both(
    graph: &Vec<(String, Vec<String>)>,
    current: &str,
    target: &str,
    visited_dac: bool,
    visited_fft: bool,
) -> (r: u64)
    requires
        keys_distinct(graph@),
    ensures
        r as int == clamp_u64(
            count_both_fuel(
                graph@,
                current@,
                target@,
                visited_dac,
                visited_fft,
                graph@.len() as nat,
            ),
        ),
{
    let ghost g = graph@;
    let n = graph.len();
    // table[4 * i + bidx(d, f)]: flagged chains from device i so far
    let mut table: Vec<u64> = Vec::new();
    let mut i: usize = 0;
    while i < n
        invariant
            0 <= i <= n,
            n == graph@.len(),
            g == graph@,
            table@.len() == 4 * i,
            forall|t: int, d: bool, f: bool|
                0 <= t < i ==> #[trigger] table@[4 * t + bidx(d, f)] as int == clamp_u64(
                    count_both_fuel(g, g[t].0@, target@, d, f, 0),
                ),
        decreases n - i,
    {
        let key = graph[i].0.as_str();
        let is_target = str_eq(key, target);
        let is_dac = str_eq(key, "dac");
        let is_fft = str_eq(key, "fft");
        let mut s: usize = 0;
        while s < 4
            invariant
                0 <= s <= 4,
                i < n,
                n == graph@.len(),
                g == graph@,
                table@.len() == 4 * i + s,
                is_target == (g[i as int].0@ == target@),
                is_dac == (g[i as int].0@ == "dac"@),
                is_fft == (g[i as int].0@ == "fft"@),
                forall|t: int, d: bool, f: bool|
                    0 <= t < i ==> #[trigger] table@[4 * t + bidx(d, f)] as int == clamp_u64(
                        count_both_fuel(g, g[t].0@, target@, d, f, 0),
                    ),
                forall|d: bool, f: bool|
                    bidx(d, f) < s ==> #[trigger] table@[4 * (i as int) + bidx(d, f)] as int
                        == clamp_u64(count_both_fuel(g, g[i as int].0@, target@, d, f, 0)),
            decreases 4 - s,
        {
            let d = s >= 2;
            let f = s % 2 == 1;
            let nd = d || is_dac;
            let nf = f || is_fft;
            if is_target && nd && nf {
                table.push(1);
            } else {
                table.push(0);
            }
            proof {
                assert(bidx(d, f) == s as int);
            }
            s = s + 1;
        }
        i = i + 1;
    }
    let mut fuel: usize = 0;
    while fuel < n
        invariant
            0 <= fuel <= n,
            n == graph@.len(),
            g == graph@,
            keys_distinct(g),
            table@.len() == 4 * n,
            forall|t: int, d: bool, f: bool|
                0 <= t < n ==> #[trigger] table@[4 * t + bidx(d, f)] as int == clamp_u64(
                    count_both_fuel(g, g[t].0@, target@, d, f, fuel as nat),
                ),
        decreases n - fuel,
    {
        let mut next: Vec<u64> = Vec::new();
        let mut i2: usize = 0;
        while i2 < n
            invariant
                0 <= i2 <= n,
                fuel < n,
                n == graph@.len(),
                g == graph@,
                keys_distinct(g),
                table@.len() == 4 * n,
                forall|t: int, d: bool, f: bool|
                    0 <= t < n ==> #[trigger] table@[4 * t + bidx(d, f)] as int == clamp_u64(
                        count_both_fuel(g, g[t].0@, target@, d, f, fuel as nat),
                    ),
                next@.len() == 4 * i2,
                forall|t: int, d: bool, f: bool|
                    0 <= t < i2 ==> #[trigger] next@[4 * t + bidx(d, f)] as int == clamp_u64(
                        count_both_fuel(g, g[t].0@, target@, d, f, (fuel + 1) as nat),
                    ),
            decreases n - i2,
        {
            let key = graph[i2].0.as_str();
            let is_target = str_eq(key, target);
            let is_dac = str_eq(key, "dac");
            let is_fft = str_eq(key, "fft");
            let mut s: usize = 0;
            while s < 4
                invariant
                    0 <= s <= 4,
                    i2 < n,
                    fuel < n,
                    n == graph@.len(),
                    g == graph@,
                    keys_distinct(g),
                    table@.len() == 4 * n,
                    is_target == (g[i2 as int].0@ == target@),
                    is_dac == (g[i2 as int].0@ == "dac"@),
                    is_fft == (g[i2 as int].0@ == "fft"@),
                    forall|t: int, d: bool, f: bool|
                        0 <= t < n ==> #[trigger] table@[4 * t + bidx(d, f)] as int == clamp_u64(
                            count_both_fuel(g, g[t].0@, target@, d, f, fuel as nat),
                        ),
                    next@.len() == 4 * i2 + s,
                    forall|t: int, d: bool, f: bool|
                        0 <= t < i2 ==> #[trigger] next@[4 * t + bidx(d, f)] as int == clamp_u64(
                            count_both_fuel(g, g[t].0@, target@, d, f, (fuel + 1) as nat),
                        ),
                    forall|d: bool, f: bool|
                        bidx(d, f) < s ==> #[trigger] next@[4 * (i2 as int) + bidx(d, f)] as int
                            == clamp_u64(
                            count_both_fuel(g, g[i2 as int].0@, target@, d, f, (fuel + 1) as nat),
                        ),
                decreases 4 - s,
            {
                let d = s >= 2;
                let f = s % 2 == 1;
                let nd = d || is_dac;
                let nf = f || is_fft;
                if is_target {
                    if nd && nf {
                        next.push(1);
                    } else {
                        next.push(0);
                    }
                } else {
                    let outs_len = graph[i2].1.len();
                    let mut sum: u64 = 0;
                    let mut k: usize = 0;
                    while k < outs_len
                        invariant
                            0 <= k <= outs_len,
                            i2 < n,
                            fuel < n,
                            n == graph@.len(),
                            g == graph@,
                            keys_distinct(g),
                            outs_len == g[i2 as int].1@.len(),
                            table@.len() == 4 * n,
                            nd == (d || g[i2 as int].0@ == "dac"@),
                            nf == (f || g[i2 as int].0@ == "fft"@),
                            forall|t: int, dd: bool, ff: bool|
                                0 <= t < n ==> #[trigger] table@[4 * t + bidx(dd, ff)] as int
                                    == clamp_u64(
                                    count_both_fuel(g, g[t].0@, target@, dd, ff, fuel as nat),
                                ),
                            sum as int == clamp_u64(
                                outs_both_sum(
                                    g,
                                    g[i2 as int].1@,
                                    target@,
                                    nd,
                                    nf,
                                    (fuel + 1) as nat,
                                    k as int,
                                ),
                            ),
                        decreases outs_len - k,
                    {
                        proof {
                            lemma_outs_both_nonneg(
                                g,
                                g[i2 as int].1@,
                                target@,
                                nd,
                                nf,
                                (fuel + 1) as nat,
                                k as int,
                            );
                            lemma_both_nonneg(
                                g,
                                g[i2 as int].1@[k as int]@,
                                target@,
                                nd,
                                nf,
                                fuel as nat,
                            );
                        }
                        let out = &graph[i2].1[k];
                        let v: u64 = if str_eq(out.as_str(), target) {
                            let od = nd || str_eq(out.as_str(), "dac");
                            let of = nf || str_eq(out.as_str(), "fft");
                            if od && of {
                                1
                            } else {
                                0
                            }
                        } else {
                            let tlen = table.len();
                            match lookup_device(graph, out.as_str()) {
                                Some(j) => {
                                    proof {
                                        lemma_lookup_found(g, out@, 0);
                                        assert(4 * (j as int) + bidx(nd, nf) < table@.len());
                                        assert(table@[4 * (j as int) + bidx(nd, nf)] as int
                                            == clamp_u64(
                                            count_both_fuel(
                                                g,
                                                g[j as int].0@,
                                                target@,
                                                nd,
                                                nf,
                                                fuel as nat,
                                            ),
                                        ));
                                    }
                                    let jidx = 4 * j + (if nd {
                                        2
                                    } else {
                                        0
                                    }) + (if nf {
                                        1
                                    } else {
                                        0
                                    });
                                    table[jidx]
                                },
                                None => 0,
                            }
                        };
                        proof {
                            assert(v as int == clamp_u64(
                                count_both_fuel(
                                    g,
                                    g[i2 as int].1@[k as int]@,
                                    target@,
                                    nd,
                                    nf,
                                    fuel as nat,
                                ),
                            ));
                        }
                        sum = sum.saturating_add(v);
                        k = k + 1;
                    }
                    proof {
                        lemma_lookup_self(g, i2 as int, 0);
                        assert(count_both_fuel(
                            g,
                            g[i2 as int].0@,
                            target@,
                            d,
                            f,
                            (fuel + 1) as nat,
                        ) == outs_both_sum(
                            g,
                            g[i2 as int].1@,
                            target@,
                            nd,
                            nf,
                            (fuel + 1) as nat,
                            g[i2 as int].1@.len() as int,
                        ));
                    }
                    next.push(sum);
                }
                proof {
                    assert(bidx(d, f) == s as int);
                }
                s = s + 1;
            }
            i2 = i2 + 1;
        }
        table = next;
        fuel = fuel + 1;
    }
    // the answer for the start device with the given flags
    let nd = visited_dac || str_eq(current, "dac");
    let nf = visited_fft || str_eq(current, "fft");
    if str_eq(current, target) {
        if nd && nf {
            1
        } else {
            0
        }
    } else {
        proof {
            lemma_lookup_found(g, current@, 0);
        }
        let tlen = table.len();
        match lookup_device(graph, current) {
            Some(j) => {
                proof {
                    assert(4 * (j as int) + bidx(nd, nf) < table@.len());
                    assert(table@[4 * (j as int) + bidx(nd, nf)] as int == clamp_u64(
                        count_both_fuel(g, g[j as int].0@, target@, nd, nf, n as nat),
                    ));
                }
                let jidx = 4 * j + (if nd {
                    2
                } else {
                    0
                }) + (if nf {
                    1
                } else {
                    0
                });
                table[jidx]
            },
            None => 0,
        }
    }
}


/// The first colon-space separator of a line at or after `i`.
pub open spec fn find_colon_sep(line: Seq<char>, i: int) -> Option<int>
    decreases line.len() - i,
{
    if i < 0 || i + 1 >= line.len() {
        None
    } else if line[i] == ':' && line[i + 1] == ' ' {
        Some(i)
    } else {
        find_colon_sep(line, i + 1)
    }
}

/// The maximal non-blank runs of a text, scanning from `j` with the run
/// open since `start`.
pub open spec fn tokens_from(s: Seq<char>, j: int, start: int) -> Seq<Seq<char>>
    decreases s.len() - j,
{
    if j < 0 || start < 0 || start > j {
        Seq::empty()
    } else if j >= s.len() {
        if start < s.len() {
            seq![s.subrange(start, s.len() as int)]
        } else {
            Seq::empty()
        }
    } else if crate::text::is_blank(s[j]) {
        (if start < j {
            seq![s.subrange(start, j)]
        } else {
            Seq::empty()
        }) + tokens_from(s, j + 1, j + 1)
    } else {
        tokens_from(s, j + 1, start)
    }
}

/// The device and outputs one line defines: the name before a single
/// colon-space separator, then the blank-separated outputs.
pub open spec fn line_entry(line: Seq<char>) -> Option<(Seq<char>, Seq<Seq<char>>)> {
    match find_colon_sep(line, 0) {
        None => None,
        Some(si) => if find_colon_sep(line, si + 1) is Some {
            None
        } else {
            Some(
                (
                    line.subrange(0, si),
                    tokens_from(line.subrange(si + 2, line.len() as int), 0, 0),
                ),
            )
        },
    }
}

/// The first entry with the given name in a graph model.
pub open spec fn key_index(g: Seq<(Seq<char>, Seq<Seq<char>>)>, name: Seq<char>, i: int) -> Option<
    int,
>
    decreases g.len() - i,
{
    if i < 0 || i >= g.len() {
        None
    } else if g[i].0 == name {
        Some(i)
    } else {
        key_index(g, name, i + 1)
    }
}

/// The graph the first `k` lines define: empty and unreadable lines are
/// skipped, and a later line for a device replaces its earlier entry.
pub open spec fn spec_graph(lines: Seq<Seq<char>>, k: int) -> Seq<(Seq<char>, Seq<Seq<char>>)>
    decreases k,
{
    if k <= 0 {
        Seq::empty()
    } else {
        let g = spec_graph(lines, k - 1);
        let line = lines[k - 1];
        if line.len() == 0 {
            g
        } else {
            match line_entry(line) {
                None => g,
                Some(e) => match key_index(g, e.0, 0) {
                    None => g.push(e),
                    Some(j) => g.update(j, e),
                },
            }
        }
    }
}

/// The mathematical value of a parsed graph.
pub open spec fn gmm(g: Seq<(String, Vec<String>)>) -> Seq<(Seq<char>, Seq<Seq<char>>)> {
    g.map_values(|p: (String, Vec<String>)| (p.0@, p.1@.map_values(|o: String| o@)))
}

/// A separator pattern at `p` means the search from any earlier point
/// finds one.
proof fn lemma_colon_sep_found(line: Seq<char>, from: int, p: int)
    requires
        0 <= from <= p,
        p + 1 < line.len(),
        line[p] == ':',
        line[p + 1] == ' ',
    ensures
        find_colon_sep(line, from) is Some,
    decreases p - from,
{
    if from < p && !(line[from] == ':' && line[from + 1] == ' ') {
        lemma_colon_sep_found(line, from + 1, p);
    }
}

/// A found separator is in range and holds the pattern.
proof fn lemma_colon_sep_range(line: Seq<char>, i: int)
    ensures
        match find_colon_sep(line, i) {
            Some(p) => i <= p && p + 1 < line.len() && line[p] == ':' && line[p + 1] == ' ',
            None => true,
        },
    decreases line.len() - i,
{
    if 0 <= i && i + 1 < line.len() && !(line[i] == ':' && line[i + 1] == ' ') {
        lemma_colon_sep_range(line, i + 1);
    }
}

/// Reads the device graph: each line names a device, a colon-space, and
/// its outputs.  A later line for the same device replaces the earlier
/// one, so every device keeps exactly one entry.
pub fn parse_input(input: &str) -> (r: Vec<(String, Vec<String>)>)
    ensures
        keys_distinct(r@),
        gmm(r@) == spec_graph(spec_lines(input@), spec_lines(input@).len() as int),
{
    let lines = lines_of(input);
    let ghost lspec = spec_lines(input@);
    let mut graph: Vec<(String, Vec<String>)> = Vec::new();
    let mut li: usize = 0;
    while li < lines.len()
        invariant
            0 <= li <= lines@.len(),
            lines@.len() == lspec.len(),
            lspec == spec_lines(input@),
            forall|t: int| 0 <= t < lines@.len() ==> #[trigger] lines@[t]@ == lspec[t],
            keys_distinct(graph@),
            gmm(graph@) == spec_graph(lspec, li as int),
        decreases lines@.len() - li,
    {
        let line = lines[li];
        let ghost linev = lspec[li as int];
        li = li + 1;
        let n = line.unicode_len();
        if n == 0 {
            continue ;
        }
        // the single colon-space separator of a well-formed line
        let mut sep: Option<usize> = None;
        let mut bad = false;
        let mut i: usize = 0;
        while n - i > 1
            invariant
                0 <= i <= n,
                n == line@.len(),
                line@ == linev,
                n >= 1,
                match sep {
                    Some(v) => v as int + 1 < n as int && v < i && find_colon_sep(linev, 0)
                        == Some(v as int) && (bad <==> exists|p: int|
                        v < p < i && p + 1 < n as int && linev[p] == ':' && #[trigger] linev[p
                            + 1] == ' '),
                    None => !bad && find_colon_sep(linev, 0) == find_colon_sep(linev, i as int),
                },
            decreases n - i,
        {
            if line.get_char(i) == ':' && line.get_char(i + 1) == ' ' {
                if sep.is_none() {
                    sep = Some(i);
                    proof {
                        assert(find_colon_sep(linev, i as int) == Some(i as int));
                    }
                } else {
                    bad = true;
                    proof {
                        let v = sep.unwrap() as int;
                        lemma_colon_sep_found(linev, v + 1, i as int);
                    }
                }
            }
            i = i + 1;
        }
        let si = match sep {
            Some(v) => v,
            None => {
                proof {
                    assert(find_colon_sep(linev, i as int) is None);
                    assert(line_entry(linev) is None);
                }
                continue ;
            },
        };
        if bad {
            proof {
                let p = choose|p: int|
                    si < p < i && p + 1 < n as int && linev[p] == ':' && #[trigger] linev[p + 1]
                        == ' ';
                lemma_colon_sep_found(linev, si as int + 1, p);
                assert(line_entry(linev) is None);
            }
            continue ;
        }
        proof {
            assert(si as int + 1 < n as int);
            // no second separator: the scan would have flagged it as bad
            if find_colon_sep(linev, si + 1) is Some {
                lemma_colon_sep_range(linev, si + 1);
                let p0 = find_colon_sep(linev, si + 1).unwrap();
                assert(si < p0 && p0 + 1 < n as int && linev[p0] == ':' && linev[p0 + 1] == ' ');
                assert(false);
            }
            assert(line_entry(linev) == Some(
                (linev.subrange(0, si as int), tokens_from(linev.subrange(si + 2, n as int), 0, 0)),
            ));
        }
        let device = line.substring_char(0, si).to_owned();
        let rest = line.substring_char(si + 2, n);
        let ghost restv = linev.subrange(si + 2, n as int);
        // the outputs: maximal runs of non-blank characters
        let rn = rest.unicode_len();
        let mut outputs: Vec<String> = Vec::new();
        let mut start: usize = 0;
        let mut j: usize = 0;
        while j < rn
            invariant
                0 <= start <= j <= rn,
                rn == restv.len(),
                rest@ == restv,
                outputs@.map_values(|o: String| o@) + tokens_from(restv, j as int, start as int)
                    =~= tokens_from(restv, 0, 0),
            decreases rn - j,
        {
            if is_blank_char(rest.get_char(j)) {
                if start < j {
                    let ghost pre = outputs@.map_values(|o: String| o@);
                    outputs.push(rest.substring_char(start, j).to_owned());
                    proof {
                        assert(outputs@.map_values(|o: String| o@) =~= pre + seq![
                            restv.subrange(start as int, j as int)]);
                    }
                }
                start = j + 1;
            }
            j = j + 1;
        }
        if start < rn {
            let ghost pre = outputs@.map_values(|o: String| o@);
            outputs.push(rest.substring_char(start, rn).to_owned());
            proof {
                assert(outputs@.map_values(|o: String| o@) =~= pre + seq![
                    restv.subrange(start as int, rn as int)]);
            }
        }
        proof {
            assert(outputs@.map_values(|o: String| o@) =~= tokens_from(restv, 0, 0));
            assert(line_entry(linev) == Some((linev.subrange(0, si as int), tokens_from(
                restv,
                0,
                0,
            ))));
        }
        // a later entry for the same device replaces the earlier one
        let mut existing: Option<usize> = None;
        let mut k: usize = 0;
        while k < graph.len()
            invariant
                0 <= k <= graph@.len(),
                keys_distinct(graph@),
                match existing {
                    Some(v) => v < graph@.len() && graph@[v as int].0@ == device@ && key_index(
                        gmm(graph@),
                        device@,
                        0,
                    ) == Some(v as int),
                    None => (forall|t: int|
                        0 <= t < k ==> (#[trigger] graph@[t].0@) != device@) && key_index(
                        gmm(graph@),
                        device@,
                        0,
                    ) == key_index(gmm(graph@), device@, k as int),
                },
            decreases graph@.len() - k,
        {
            if existing.is_none() && str_eq(graph[k].0.as_str(), device.as_str()) {
                existing = Some(k);
                proof {
                    assert(gmm(graph@)[k as int].0 == graph@[k as int].0@);
                    assert(key_index(gmm(graph@), device@, k as int) == Some(k as int));
                }
            } else {
                proof {
                    assert(gmm(graph@)[k as int].0 == graph@[k as int].0@);
                }
            }
            k = k + 1;
        }
        let ghost entry_model = (device@, outputs@.map_values(|o: String| o@));
        match existing {
            Some(v) => {
                let ghost pre = graph@;
                graph[v] = (device, outputs);
                proof {
                    assert forall|i1: int, i2: int|
                        0 <= i1 < i2 < graph@.len() implies (#[trigger] graph@[i1].0@) != (
                        #[trigger] graph@[i2].0@) by {
                        assert(pre[i1].0@ != pre[i2].0@);
                        if i1 != v && i2 != v {
                            assert(graph@[i1] == pre[i1] && graph@[i2] == pre[i2]);
                        }
                    };
                    assert(gmm(graph@) =~~= gmm(pre).update(v as int, entry_model));
                    assert(gmm(graph@) == spec_graph(lspec, li as int));
                }
            },
            None => {
                let ghost pre = graph@;
                graph.push((device, outputs));
                proof {
                    assert forall|i1: int, i2: int|
                        0 <= i1 < i2 < graph@.len() implies (#[trigger] graph@[i1].0@) != (
                        #[trigger] graph@[i2].0@) by {
                        if i2 < pre.len() {
                            assert(pre[i1].0@ != pre[i2].0@);
                        } else {
                            assert(graph@[i2].0@ == device@);
                            assert(pre[i1].0@ != device@);
                        }
                    };
                    assert(gmm(graph@) =~~= gmm(pre).push(entry_model));
                    assert(gmm(graph@) == spec_graph(lspec, li as int));
                }
            },
        }
    }
    proof {
        assert(lines@.len() == lspec.len());
    }
    graph
}

/// Number of forwarding chains from `you` to `out` in the parsed device
/// graph, clamped to the machine range.
pub fn solve_part1(input: &str) -> (r: u64)
    ensures
        exists|g: Seq<(String, Vec<String>)>|
            keys_distinct(g) && gmm(g) == spec_graph(
                spec_lines(input@),
                spec_lines(input@).len() as int,
            ) && r as int == clamp_u64(count_fuel(g, "you"@, "out"@, g.len() as nat)),
{
    let graph = parse_input(input);
    count_paths(&graph, "you", "out")
}

/// Number of forwarding chains from `svr` to `out` that pass through both
/// flagged devices, clamped to the machine range.
pub fn solve_part2(input: &str) -> (r: u64)
    ensures
        exists|g: Seq<(String, Vec<String>)>|
            keys_distinct(g) && gmm(g) == spec_graph(
                spec_lines(input@),
                spec_lines(input@).len() as int,
            ) && r as int == clamp_u64(
                count_both_fuel(g, "svr"@, "out"@, false, false, g.len() as nat),
            ),
{
    let graph = parse_input(input);
    count_paths_with_both(&graph, "svr", "out", false, false)
}

} // verus!
