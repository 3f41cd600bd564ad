//! Toggle/counter machines: minimum button presses to reach a target.
//!
//! A machine has a row of lights with a target on/off pattern, a list of
//! buttons (each toggling a fixed set of positions), and optionally a list
//! of counter targets (each button increments the counters at its
//! positions).  The boolean stage asks for the fewest buttons to press, each
//! at most once, so that exactly the target lights are on; the counter stage
//! asks for the least total number of presses, each button any number of
//! times, driving every counter exactly to its target.
//!
//! Both stages build the corresponding linear system (over GF(2), over the
//! integers), eliminate, and enumerate the free-variable choices left open
//! by the system.

use vstd::prelude::*;
use vstd::string::StrSliceExecFns;

use crate::text::all_digits;
use crate::text::lines_of;
use crate::text::num_val;
use crate::text::parse_i64;
use crate::text::parse_u64;
use crate::text::signed_ok;
use crate::text::signed_val;
use crate::text::spec_lines;
use crate::text::spec_split;
use crate::text::spec_trim;
use crate::text::split_of;
use crate::text::trim_of;

verus! {

/// One puzzle machine.
pub struct Machine {
    /// Target on/off pattern, one entry per light.
    pub target: Vec<bool>,
    /// Each button lists the positions it toggles (and increments).
    pub buttons: Vec<Vec<usize>>,
    /// Counter targets; empty when the machine has no counter stage.
    pub joltages: Vec<i64>,
}

/// Button `j` affects position `i`: `i` occurs in the button's list.
pub open spec fn affects(buttons: Seq<Vec<usize>>, j: int, i: int) -> bool {
    exists|k: int| 0 <= k < buttons[j]@.len() && buttons[j]@[k] == i
}

/// State of light `i` after the presses among the first `nb` buttons:
/// each pressed button that affects the light toggles it once.
pub open spec fn light_upto(buttons: Seq<Vec<usize>>, presses: Seq<bool>, i: int, nb: int) -> bool
    decreases nb,
{
    if nb <= 0 {
        false
    } else {
        light_upto(buttons, presses, i, nb - 1) != (presses[nb - 1] && affects(
            buttons,
            nb - 1,
            i,
        ))
    }
}

/// The press choice turns exactly the target lights on.
pub open spec fn solves_lights(target: Seq<bool>, buttons: Seq<Vec<usize>>, presses: Seq<bool>) -> bool {
    &&& presses.len() == buttons.len()
    &&& forall|i: int|
        0 <= i < target.len() ==> light_upto(buttons, presses, i, buttons.len() as int)
            == target[i]
}

/// Number of pressed buttons in a boolean press choice.
pub open spec fn count_true(p: Seq<bool>) -> int
    decreases p.len(),
{
    if p.len() == 0 {
        0
    } else {
        count_true(p.drop_last()) + if p.last() {
            1int
        } else {
            0int
        }
    }
}

/// Value of counter `i` after the presses among the first `nb` buttons,
/// where button `j` is pressed `presses[j]` times.
pub open spec fn counter_upto(buttons: Seq<Vec<usize>>, presses: Seq<int>, i: int, nb: int) -> int
    decreases nb,
{
    if nb <= 0 {
        0
    } else {
        counter_upto(buttons, presses, i, nb - 1) + if affects(buttons, nb - 1, i) {
            presses[nb - 1]
        } else {
            0int
        }
    }
}

/// The press counts are non-negative and drive every counter exactly to its
/// target.
pub open spec fn solves_counters(
    joltages: Seq<i64>,
    buttons: Seq<Vec<usize>>,
    presses: Seq<int>,
) -> bool {
    &&& presses.len() == buttons.len()
    &&& forall|j: int| 0 <= j < presses.len() ==> presses[j] >= 0
    &&& forall|i: int|
        0 <= i < joltages.len() ==> counter_upto(buttons, presses, i, buttons.len() as int)
            == joltages[i] as int
}

/// Total number of presses in an integer press choice.
pub open spec fn total_presses(p: Seq<int>) -> int
    decreases p.len(),
{
    if p.len() == 0 {
        0
    } else {
        total_presses(p.drop_last()) + p.last()
    }
}

/// The integer press counts of an executable press vector.
pub open spec fn as_ints(p: Seq<i64>) -> Seq<int> {
    p.map_values(|x: i64| x as int)
}

/// Whether `x` occurs in `v`, tied to `affects`.
fn contains_pos(v: &Vec<usize>, x: usize) -> (r: bool)
    ensures
        r == exists|k: int| 0 <= k < v@.len() && v@[k] == x,
{
    let n = v.len();
    let mut k: usize = 0;
    while k < n
        invariant
            0 <= k <= n,
            n == v@.len(),
            forall|t: int| 0 <= t < k ==> v@[t] != x,
        decreases n - k,
    {
        if v[k] == x {
            return true;
        }
        k = k + 1;
    }
    false
}

/// Replays a boolean press choice on the machine's lights and compares the
/// outcome with the target pattern.
fn check_lights(machine: &Machine, presses: &Vec<bool>) -> (r: bool)
    requires
        presses@.len() == machine.buttons@.len(),
    ensures
        r == solves_lights(machine.target@, machine.buttons@, presses@),
{
    let n_lights = machine.target.len();
    let n_buttons = machine.buttons.len();
    let mut i: usize = 0;
    while i < n_lights
        invariant
            0 <= i <= n_lights,
            n_lights == machine.target@.len(),
            n_buttons == machine.buttons@.len(),
            presses@.len() == n_buttons,
            forall|t: int|
                0 <= t < i ==> light_upto(machine.buttons@, presses@, t, n_buttons as int)
                    == machine.target@[t],
        decreases n_lights - i,
    {
        let mut state: bool = false;
        let mut j: usize = 0;
        while j < n_buttons
            invariant
                0 <= j <= n_buttons,
                n_buttons == machine.buttons@.len(),
                presses@.len() == n_buttons,
                i < machine.target@.len(),
                state == light_upto(machine.buttons@, presses@, i as int, j as int),
            decreases n_buttons - j,
        {
            if presses[j] && contains_pos(&machine.buttons[j], i) {
                state = !state;
            }
            j = j + 1;
        }
        if state != machine.target[i] {
            return false;
        }
        i = i + 1;
    }
    true
}

/// Replays an integer press choice on the machine's counters and compares
/// the outcome with the counter targets; the press counts must already be
/// non-negative.
fn check_counters(machine: &Machine, presses: &Vec<i64>) -> (r: bool)
    requires
        presses@.len() == machine.buttons@.len(),
        forall|j: int| 0 <= j < presses@.len() ==> presses@[j] >= 0,
    ensures
        r == solves_counters(machine.joltages@, machine.buttons@, as_ints(presses@)),
{
    let n_counters = machine.joltages.len();
    let n_buttons = machine.buttons.len();
    let ghost p = as_ints(presses@);
    let mut i: usize = 0;
    while i < n_counters
        invariant
            0 <= i <= n_counters,
            n_counters == machine.joltages@.len(),
            n_buttons == machine.buttons@.len(),
            presses@.len() == n_buttons,
            p == as_ints(presses@),
            forall|j: int| 0 <= j < presses@.len() ==> presses@[j] >= 0,
            forall|t: int|
                0 <= t < i ==> counter_upto(machine.buttons@, p, t, n_buttons as int)
                    == machine.joltages@[t] as int,
        decreases n_counters - i,
    {
        let mut sum: i64 = 0;
        let mut overflowed: bool = false;
        let mut j: usize = 0;
        while j < n_buttons
            invariant
                0 <= j <= n_buttons,
                n_buttons == machine.buttons@.len(),
                presses@.len() == n_buttons,
                p == as_ints(presses@),
                forall|t: int| 0 <= t < presses@.len() ==> presses@[t] >= 0,
                i < machine.joltages@.len(),
                !overflowed ==> sum == counter_upto(machine.buttons@, p, i as int, j as int),
                overflowed ==> counter_upto(machine.buttons@, p, i as int, j as int) > i64::MAX,
                sum >= 0,
            decreases n_buttons - j,
        {
            if contains_pos(&machine.buttons[j], i) {
                if !overflowed {
                    match sum.checked_add(presses[j]) {
                        Some(x) => {
                            sum = x;
                        },
                        None => {
                            overflowed = true;
                        },
                    }
                } else {
                    proof {
                        assert(counter_upto(machine.buttons@, p, i as int, j + 1)
                            >= counter_upto(machine.buttons@, p, i as int, j as int));
                    }
                }
            }
            j = j + 1;
        }
        if overflowed || sum != machine.joltages[i] {
            proof {
                if overflowed {
                    assert(counter_upto(machine.buttons@, p, i as int, n_buttons as int)
                        > i64::MAX >= machine.joltages@[i as int] as int);
                }
            }
            return false;
        }
        i = i + 1;
    }
    true
}

/// Parity of `row[c] && p[c]` over the column range `[lo, hi)`: the GF(2)
/// dot product of a matrix row with a press choice.
pub open spec fn dot_range(row: Seq<bool>, p: Seq<bool>, lo: int, hi: int) -> bool
    decreases hi - lo,
{
    if lo >= hi {
        false
    } else {
        dot_range(row, p, lo, hi - 1) != (row[hi - 1] && p[hi - 1])
    }
}

/// The press choice satisfies one augmented GF(2) row: the dot product of
/// the first `nb` columns equals the augmented entry at column `nb`.
pub open spec fn row_sat(row: Seq<bool>, p: Seq<bool>, nb: int) -> bool {
    dot_range(row, p, 0, nb) == row[nb]
}

/// The press choice satisfies every row of the augmented system.
pub open spec fn sys_sat(rows: Seq<Vec<bool>>, p: Seq<bool>, nb: int) -> bool {
    forall|r: int| 0 <= r < rows.len() ==> row_sat(#[trigger] rows[r]@, p, nb)
}

/// A dot product splits at any middle column into the parity of two parts.
proof fn lemma_dot_split(row: Seq<bool>, p: Seq<bool>, lo: int, mid: int, hi: int)
    requires
        lo <= mid <= hi,
    ensures
        dot_range(row, p, lo, hi) == (dot_range(row, p, lo, mid) != dot_range(row, p, mid, hi)),
    decreases hi - mid,
{
    if mid < hi {
        lemma_dot_split(row, p, lo, mid, hi - 1);
    }
}

/// A dot product over all-zero columns is zero.
proof fn lemma_dot_zero(row: Seq<bool>, p: Seq<bool>, lo: int, hi: int)
    requires
        forall|c: int| lo <= c < hi ==> !row[c],
    ensures
        !dot_range(row, p, lo, hi),
    decreases hi - lo,
{
    if lo < hi {
        lemma_dot_zero(row, p, lo, hi - 1);
    }
}

/// Dot products add under row xor: the dot of the xor of two rows is the
/// parity of their dots.
proof fn lemma_dot_xor(a: Seq<bool>, b: Seq<bool>, x: Seq<bool>, p: Seq<bool>, lo: int, hi: int)
    requires
        forall|c: int| lo <= c < hi ==> x[c] == (a[c] != b[c]),
    ensures
        dot_range(x, p, lo, hi) == (dot_range(a, p, lo, hi) != dot_range(b, p, lo, hi)),
    decreases hi - lo,
{
    if lo < hi {
        lemma_dot_xor(a, b, x, p, lo, hi - 1);
    }
}

/// Two press choices that agree wherever the row has a coefficient give the
/// same dot product.
proof fn lemma_dot_agree(row: Seq<bool>, p1: Seq<bool>, p2: Seq<bool>, lo: int, hi: int)
    requires
        forall|c: int| lo <= c < hi && row[c] ==> p1[c] == p2[c],
    ensures
        dot_range(row, p1, lo, hi) == dot_range(row, p2, lo, hi),
    decreases hi - lo,
{
    if lo < hi {
        lemma_dot_agree(row, p1, p2, lo, hi - 1);
    }
}

/// Two press choices that differ at exactly one coefficient column of the
/// row give opposite dot products.
proof fn lemma_dot_flip_one(
    row: Seq<bool>,
    p1: Seq<bool>,
    p2: Seq<bool>,
    lo: int,
    hi: int,
    pc: int,
)
    requires
        lo <= pc < hi,
        row[pc],
        p1[pc] != p2[pc],
        forall|c: int| lo <= c < hi && c != pc && row[c] ==> p1[c] == p2[c],
    ensures
        dot_range(row, p1, lo, hi) != dot_range(row, p2, lo, hi),
    decreases hi - lo,
{
    if pc == hi - 1 {
        lemma_dot_agree(row, p1, p2, lo, hi - 1);
    } else {
        lemma_dot_flip_one(row, p1, p2, lo, hi - 1, pc);
    }
}

/// A matrix row whose coefficients record which buttons affect light `i`
/// has, as its dot product with a press choice, the state of that light.
proof fn lemma_dot_lights(
    buttons: Seq<Vec<usize>>,
    row: Seq<bool>,
    p: Seq<bool>,
    i: int,
    hi: int,
)
    requires
        forall|j: int| 0 <= j < hi ==> row[j] == affects(buttons, j, i),
    ensures
        dot_range(row, p, 0, hi) == light_upto(buttons, p, i, hi),
    decreases hi,
{
    if hi > 0 {
        lemma_dot_lights(buttons, row, p, i, hi - 1);
    }
}

/// Copies a row of booleans.
fn copy_bools(a: &Vec<bool>) -> (r: Vec<bool>)
    ensures
        r@ == a@,
{
    let n = a.len();
    let mut r: Vec<bool> = Vec::new();
    let mut i: usize = 0;
    while i < n
        invariant
            0 <= i <= n,
            n == a@.len(),
            r@ =~= a@.subrange(0, i as int),
        decreases n - i,
    {
        r.push(a[i]);
        i = i + 1;
    }
    proof {
        assert(a@.subrange(0, n as int) =~= a@);
    }
    r
}

/// The elementwise xor of two rows of equal width.
fn xor_rows(a: &Vec<bool>, b: &Vec<bool>) -> (r: Vec<bool>)
    requires
        a@.len() == b@.len(),
    ensures
        r@.len() == a@.len(),
        forall|c: int| 0 <= c < r@.len() ==> r@[c] == (a@[c] != b@[c]),
{
    let n = a.len();
    let mut r: Vec<bool> = Vec::new();
    let mut i: usize = 0;
    while i < n
        invariant
            0 <= i <= n,
            n == a@.len() == b@.len(),
            r@.len() == i,
            forall|c: int| 0 <= c < i ==> r@[c] == (a@[c] != b@[c]),
        decreases n - i,
    {
        r.push(a[i] != b[i]);
        i = i + 1;
    }
    r
}

/// Every row of the matrix has `nb` coefficient columns and one augmented
/// column.
pub open spec fn rows_shaped(rows: Seq<Vec<bool>>, nb: int) -> bool {
    forall|r: int| 0 <= r < rows.len() ==> (#[trigger] rows[r]@).len() == nb + 1
}

/// Column `c` occurs in the column list.
pub open spec fn col_in(cols: Seq<usize>, c: int) -> bool {
    exists|t: int| 0 <= t < cols.len() && cols[t] == c
}

/// The matrix is in reduced row echelon form with the given pivot columns:
/// pivot columns increase, each pivot row has a one in its pivot column and
/// zeros before it, every other row is zero in each pivot column, and the
/// rows below the pivot rows have no coefficients left.
pub open spec fn rref_ok(rows: Seq<Vec<bool>>, pcols: Seq<usize>, nb: int) -> bool {
    &&& pcols.len() <= rows.len()
    &&& forall|t: int| 0 <= t < pcols.len() ==> (#[trigger] pcols[t]) < nb
    &&& forall|t1: int, t2: int|
        0 <= t1 < t2 < pcols.len() ==> #[trigger] pcols[t1] < #[trigger] pcols[t2]
    &&& forall|t: int| 0 <= t < pcols.len() ==> rows[t]@[#[trigger] pcols[t] as int]
    &&& forall|t: int, r: int|
        0 <= t < pcols.len() && 0 <= r < rows.len() && r != t ==> !(#[trigger] rows[r]@[#[trigger] pcols[t] as int])
    &&& forall|t: int, c: int|
        0 <= t < pcols.len() && 0 <= c < pcols[t] ==> !(#[trigger] rows[t]@[c])
    &&& forall|r: int, c: int|
        pcols.len() <= r < rows.len() && 0 <= c < nb ==> !(#[trigger] rows[r]@[c])
}

/// In an rref matrix the pivot rows determine the pivot variables: two
/// press choices that satisfy every pivot row and agree on the free columns
/// agree on the pivot columns from `t` on.
proof fn lemma_pivots_determined(
    rows: Seq<Vec<bool>>,
    pcols: Seq<usize>,
    p1: Seq<bool>,
    p2: Seq<bool>,
    nb: int,
    t: int,
)
    requires
        rref_ok(rows, pcols, nb),
        rows_shaped(rows, nb),
        p1.len() == nb,
        p2.len() == nb,
        forall|tt: int|
            0 <= tt < pcols.len() ==> row_sat(#[trigger] rows[tt]@, p1, nb) && row_sat(
                rows[tt]@,
                p2,
                nb,
            ),
        forall|c: int| 0 <= c < nb && !col_in(pcols, c) ==> p1[c] == #[trigger] p2[c],
        0 <= t <= pcols.len(),
    ensures
        forall|tt: int|
            t <= tt < pcols.len() ==> p1[#[trigger] pcols[tt] as int] == p2[pcols[tt] as int],
    decreases pcols.len() - t,
{
    if t < pcols.len() {
        lemma_pivots_determined(rows, pcols, p1, p2, nb, t + 1);
        let pc = pcols[t] as int;
        if p1[pc] != p2[pc] {
            assert forall|c: int| 0 <= c < nb && c != pc && rows[t]@[c] implies p1[c] == p2[c] by {
                if col_in(pcols, c) {
                    let tt = choose|tt: int| 0 <= tt < pcols.len() && pcols[tt] == c;
                    assert(tt != t);
                    assert(!rows[t]@[pcols[tt] as int]);
                    assert(false);
                } else {
                    assert(p1[c] == p2[c]);
                }
            };
            lemma_dot_flip_one(rows[t]@, p1, p2, 0, nb, pc);
            assert(dot_range(rows[t]@, p1, 0, nb) == rows[t]@[nb]);
            assert(false);
        }
    }
}

/// Full uniqueness: with the pivot rows satisfied and the free columns
/// fixed, the whole press choice is fixed.
proof fn lemma_backsub_unique(
    rows: Seq<Vec<bool>>,
    pcols: Seq<usize>,
    p1: Seq<bool>,
    p2: Seq<bool>,
    nb: int,
)
    requires
        rref_ok(rows, pcols, nb),
        rows_shaped(rows, nb),
        p1.len() == nb,
        p2.len() == nb,
        forall|tt: int|
            0 <= tt < pcols.len() ==> row_sat(#[trigger] rows[tt]@, p1, nb) && row_sat(
                rows[tt]@,
                p2,
                nb,
            ),
        forall|c: int| 0 <= c < nb && !col_in(pcols, c) ==> p1[c] == #[trigger] p2[c],
    ensures
        p1 == p2,
{
    lemma_pivots_determined(rows, pcols, p1, p2, nb, 0);
    assert forall|c: int| 0 <= c < nb implies p1[c] == p2[c] by {
        if col_in(pcols, c) {
            let tt = choose|tt: int| 0 <= tt < pcols.len() && pcols[tt] == c;
            assert(p1[pcols[tt] as int] == p2[pcols[tt] as int]);
        }
    };
    assert(p1 =~= p2);
}

/// The result `b` so far is sound: a `Some` count is witnessed by an actual
/// press choice reaching the target.
pub open spec fn sound_light_best(
    target: Seq<bool>,
    buttons: Seq<Vec<usize>>,
    b: Option<usize>,
) -> bool {
    match b {
        Some(k) => exists|p: Seq<bool>|
            solves_lights(target, buttons, p) && count_true(p) == k as int,
        None => true,
    }
}

/// `b` is at most `k`: it already holds a count no worse than `k`.
pub open spec fn opt_at_most(b: Option<usize>, k: int) -> bool {
    match b {
        Some(v) => v as int <= k,
        None => false,
    }
}

/// `b` is no worse than `a`: it keeps or improves a found minimum.
pub open spec fn opt_improves(a: Option<usize>, b: Option<usize>) -> bool {
    match a {
        Some(k) => opt_at_most(b, k as int),
        None => true,
    }
}

/// A vector of `n` `false` entries.
fn falses(n: usize) -> (r: Vec<bool>)
    ensures
        r@.len() == n,
        forall|i: int| 0 <= i < n ==> !(#[trigger] r@[i]),
{
    let mut r: Vec<bool> = Vec::new();
    let mut i: usize = 0;
    while i < n
        invariant
            0 <= i <= n,
            r@.len() == i,
            forall|j: int| 0 <= j < i ==> !(#[trigger] r@[j]),
        decreases n - i,
    {
        r.push(false);
        i = i + 1;
    }
    r
}

/// Enumerates every choice of the free variables from index `idx` on,
/// back-substituting the pivot variables for each complete choice, keeping
/// the fewest presses over all choices that replay to the target.
fn enumerate_lights(
    machine: &Machine,
    matrix: &Vec<Vec<bool>>,
    pivot_cols: &Vec<usize>,
    free_vars: &Vec<usize>,
    idx: usize,
    current: &mut Vec<bool>,
    best: &mut Option<usize>,
)
    requires
        rows_shaped(matrix@, machine.buttons@.len() as int),
        rref_ok(matrix@, pivot_cols@, machine.buttons@.len() as int),
        idx <= free_vars@.len(),
        forall|t: int|
            0 <= t < free_vars@.len() ==> (#[trigger] free_vars@[t]) < machine.buttons@.len(),
        forall|c: int|
            0 <= c < machine.buttons@.len() && !col_in(pivot_cols@, c) ==> col_in(free_vars@, c),
        forall|t: int|
            0 <= t < free_vars@.len() ==> !col_in(pivot_cols@, #[trigger] free_vars@[t] as int),
        forall|t1: int, t2: int|
            0 <= t1 < t2 < free_vars@.len() ==> #[trigger] free_vars@[t1] != #[trigger] free_vars@[t2],
        forall|p: Seq<bool>|
            p.len() == machine.buttons@.len() ==> (solves_lights(
                machine.target@,
                machine.buttons@,
                p,
            ) <==> #[trigger] sys_sat(matrix@, p, machine.buttons@.len() as int)),
        old(current)@.len() == machine.buttons@.len(),
        sound_light_best(machine.target@, machine.buttons@, *old(best)),
    ensures
        final(current)@.len() == old(current)@.len(),
        forall|t: int|
            0 <= t < idx ==> final(current)@[#[trigger] free_vars@[t] as int] == old(
                current,
            )@[free_vars@[t] as int],
        sound_light_best(machine.target@, machine.buttons@, *final(best)),
        opt_improves(*old(best), *final(best)),
        forall|p: Seq<bool>|
            (p.len() == machine.buttons@.len() && solves_lights(
                machine.target@,
                machine.buttons@,
                p,
            ) && (forall|t: int|
                0 <= t < idx ==> p[#[trigger] free_vars@[t] as int] == old(
                    current,
                )@[free_vars@[t] as int])) ==> opt_at_most(*final(best), count_true(p)),
    decreases free_vars@.len() - idx,
{
    let nb = machine.buttons.len();
    let ghost nbi = machine.buttons@.len() as int;
    if idx == free_vars.len() {
        // every free variable is chosen: back-substitute the pivots
        let mut sol = copy_bools(current);
        let npiv = pivot_cols.len();
        let mut t = npiv;
        while t > 0
            invariant
                0 <= t <= npiv,
                npiv == pivot_cols@.len(),
                nb == machine.buttons@.len(),
                nbi == nb as int,
                rows_shaped(matrix@, nbi),
                rref_ok(matrix@, pivot_cols@, nbi),
                sol@.len() == nb,
                forall|c: int|
                    0 <= c < nb && !col_in(pivot_cols@, c) ==> sol@[c] == #[trigger] current@[c],
                forall|tt: int|
                    t <= tt < npiv ==> row_sat(#[trigger] matrix@[tt]@, sol@, nbi),
            decreases t,
        {
            t = t - 1;
            let ghost prev_sol = sol@;
            let pc = pivot_cols[t];
            let mut val = matrix[t][nb];
            let mut c = pc + 1;
            while c < nb
                invariant
                    pc + 1 <= c <= nb,
                    pc == pivot_cols@[t as int],
                    0 <= t < pivot_cols@.len(),
                    nb == machine.buttons@.len(),
                    nbi == nb as int,
                    rows_shaped(matrix@, nbi),
                    rref_ok(matrix@, pivot_cols@, nbi),
                    t < matrix@.len(),
                    sol@.len() == nb,
                    val == (matrix@[t as int]@[nbi] != dot_range(
                        matrix@[t as int]@,
                        sol@,
                        pc + 1,
                        c as int,
                    )),
                decreases nb - c,
            {
                if matrix[t][c] && sol[c] {
                    val = !val;
                }
                c = c + 1;
            }
            sol[pc] = val;
            proof {
                let row = matrix@[t as int]@;
                // the pivot row is satisfied by the updated choice
                lemma_dot_agree(row, prev_sol, sol@, pc + 1, nbi);
                lemma_dot_zero(row, sol@, 0, pc as int);
                lemma_dot_split(row, sol@, 0, pc as int, pc + 1);
                lemma_dot_split(row, sol@, 0, pc + 1, nbi);
                assert(dot_range(row, sol@, pc as int, pc + 1) == (row[pc as int] && sol@[pc as int]));
                assert(row_sat(row, sol@, nbi));
                // the later pivot rows stay satisfied: they are zero at `pc`
                assert forall|tt: int| t < tt < npiv implies row_sat(
                    #[trigger] matrix@[tt]@,
                    sol@,
                    nbi,
                ) by {
                    assert(!matrix@[tt]@[pc as int]);
                    lemma_dot_agree(matrix@[tt]@, prev_sol, sol@, 0, nbi);
                };
            }
        }
        // replay the candidate on the machine
        let ok = check_lights(machine, &sol);
        let ghost solution = sol@;
        if ok {
            let presses = count_presses(&sol);
            let better = match *best {
                Some(k) => presses < k,
                None => true,
            };
            if better {
                *best = Some(presses);
            }
        }
        proof {
            // completeness: a solving choice matching `current` on every
            // free column is exactly the candidate just tried
            assert forall|p: Seq<bool>|
                (p.len() == nbi && solves_lights(machine.target@, machine.buttons@, p) && (forall|
                    t: int,
                |
                    0 <= t < free_vars@.len() ==> p[#[trigger] free_vars@[t] as int] == current@[free_vars@[t] as int])) implies opt_at_most(
                *best,
                count_true(p),
            ) by {
                assert(sys_sat(matrix@, p, nbi));
                assert forall|c: int| 0 <= c < nbi && !col_in(pivot_cols@, c) implies solution[c]
                    == p[c] by {
                    let tf = choose|tf: int|
                        0 <= tf < free_vars@.len() && free_vars@[tf] == c;
                    assert(p[free_vars@[tf] as int] == current@[free_vars@[tf] as int]);
                };
                lemma_backsub_unique(matrix@, pivot_cols@, solution, p, nbi);
                assert(solves_lights(machine.target@, machine.buttons@, solution));
            };
        }
    } else {
        let ghost start = current@;
        let ghost best0 = *best;
        let fc = free_vars[idx];
        current[fc] = false;
        let ghost enter1 = current@;
        enumerate_lights(machine, matrix, pivot_cols, free_vars, idx + 1, current, best);
        let ghost best1 = *best;
        current[fc] = true;
        let ghost enter2 = current@;
        enumerate_lights(machine, matrix, pivot_cols, free_vars, idx + 1, current, best);
        proof {
            // a solving choice matching the prefix has its next free value
            // covered by one of the two branches
            assert forall|p: Seq<bool>|
                (p.len() == nbi && solves_lights(machine.target@, machine.buttons@, p) && (forall|
                    t: int,
                |
                    0 <= t < idx ==> p[#[trigger] free_vars@[t] as int] == start[free_vars@[t] as int])) implies opt_at_most(
                *best,
                count_true(p),
            ) by {
                if p[fc as int] {
                    assert(forall|t: int|
                        0 <= t < idx + 1 ==> p[#[trigger] free_vars@[t] as int]
                            == enter2[free_vars@[t] as int]);
                } else {
                    assert(forall|t: int|
                        0 <= t < idx + 1 ==> p[#[trigger] free_vars@[t] as int]
                            == enter1[free_vars@[t] as int]);
                    assert(opt_at_most(best1, count_true(p)));
                }
            };
        }
    }
}

/// Number of `true` entries of a boolean press vector.
fn count_presses(p: &Vec<bool>) -> (r: usize)
    ensures
        r == count_true(p@),
        r <= p@.len(),
{
    let n = p.len();
    let mut r: usize = 0;
    let mut i: usize = 0;
    while i < n
        invariant
            0 <= i <= n,
            n == p@.len(),
            r == count_true(p@.subrange(0, i as int)),
            r <= i,
        decreases n - i,
    {
        proof {
            assert(p@.subrange(0, i + 1).drop_last() =~= p@.subrange(0, i as int));
        }
        if p[i] {
            r = r + 1;
        }
        i = i + 1;
    }
    proof {
        assert(p@.subrange(0, n as int) =~= p@);
    }
    r
}

/// Swapping two rows keeps the set of satisfying press choices.
proof fn lemma_swap_equisat(o: Seq<Vec<bool>>, n: Seq<Vec<bool>>, a: int, b: int, nb: int)
    requires
        nb >= 0,
        0 <= a < o.len(),
        0 <= b < o.len(),
        n.len() == o.len(),
        n[a]@ == o[b]@,
        n[b]@ == o[a]@,
        forall|rr: int| 0 <= rr < o.len() && rr != a && rr != b ==> (#[trigger] n[rr]@) == o[rr]@,
    ensures
        forall|p: Seq<bool>| #[trigger] sys_sat(o, p, nb) == sys_sat(n, p, nb),
{
    assert forall|p: Seq<bool>| #[trigger] sys_sat(o, p, nb) == sys_sat(n, p, nb) by {
        if sys_sat(o, p, nb) {
            assert forall|rr: int| 0 <= rr < n.len() implies row_sat(
                #[trigger] n[rr]@,
                p,
                nb,
            ) by {
                if rr == a {
                    assert(row_sat(o[b]@, p, nb));
                } else if rr == b {
                    assert(row_sat(o[a]@, p, nb));
                } else {
                    assert(row_sat(o[rr]@, p, nb));
                }
            };
        }
        if sys_sat(n, p, nb) {
            assert forall|rr: int| 0 <= rr < o.len() implies row_sat(
                #[trigger] o[rr]@,
                p,
                nb,
            ) by {
                if rr == a {
                    assert(row_sat(n[b]@, p, nb));
                } else if rr == b {
                    assert(row_sat(n[a]@, p, nb));
                } else {
                    assert(row_sat(n[rr]@, p, nb));
                }
            };
        }
    };
}

/// Replacing one row by its xor with another row keeps the set of
/// satisfying press choices.
proof fn lemma_xor_equisat(o: Seq<Vec<bool>>, n: Seq<Vec<bool>>, r: int, s: int, nb: int)
    requires
        nb >= 0,
        0 <= r < o.len(),
        0 <= s < o.len(),
        r != s,
        n.len() == o.len(),
        forall|rr: int| 0 <= rr < o.len() && rr != r ==> (#[trigger] n[rr]@) == o[rr]@,
        o[r]@.len() == nb + 1,
        o[s]@.len() == nb + 1,
        n[r]@.len() == nb + 1,
        forall|c: int| 0 <= c <= nb ==> #[trigger] n[r]@[c] == (o[r]@[c] != o[s]@[c]),
    ensures
        forall|p: Seq<bool>| #[trigger] sys_sat(o, p, nb) == sys_sat(n, p, nb),
{
    assert forall|p: Seq<bool>| #[trigger] sys_sat(o, p, nb) == sys_sat(n, p, nb) by {
        if sys_sat(o, p, nb) {
            assert(row_sat(o[r]@, p, nb));
            assert(row_sat(o[s]@, p, nb));
            lemma_dot_xor(o[r]@, o[s]@, n[r]@, p, 0, nb);
            assert(n[r]@[nb] == (o[r]@[nb] != o[s]@[nb]));
            assert(row_sat(n[r]@, p, nb));
            assert forall|rr: int| 0 <= rr < n.len() implies row_sat(
                #[trigger] n[rr]@,
                p,
                nb,
            ) by {
                if rr != r {
                    assert(n[rr]@ == o[rr]@);
                    assert(row_sat(o[rr]@, p, nb));
                }
            };
        }
        if sys_sat(n, p, nb) {
            assert(row_sat(n[r]@, p, nb));
            assert(row_sat(n[s]@, p, nb));
            assert(n[s]@ == o[s]@);
            assert(forall|c: int| 0 <= c <= nb ==> #[trigger] o[r]@[c] == (n[r]@[c] != o[s]@[c]));
            lemma_dot_xor(n[r]@, o[s]@, o[r]@, p, 0, nb);
            assert(row_sat(o[r]@, p, nb));
            assert forall|rr: int| 0 <= rr < o.len() implies row_sat(
                #[trigger] o[rr]@,
                p,
                nb,
            ) by {
                if rr != r {
                    assert(o[rr]@ == n[rr]@);
                    assert(row_sat(n[rr]@, p, nb));
                }
            };
        }
    };
}

/// What the boolean stage must answer: `Some(k)` exactly when some press
/// choice reaches the target, `k` presses do, and none do it with fewer;
/// `None` exactly when no press choice reaches the target.
pub open spec fn lights_answer_ok(
    target: Seq<bool>,
    buttons: Seq<Vec<usize>>,
    r: Option<usize>,
) -> bool {
    match r {
        Some(k) => (exists|p: Seq<bool>|
            solves_lights(target, buttons, p) && count_true(p) == k as int) && (forall|
            p: Seq<bool>,
        |
            solves_lights(target, buttons, p) ==> k as int <= count_true(p)),
        None => forall|p: Seq<bool>| !solves_lights(target, buttons, p),
    }
}

/// Minimum number of button presses (each button pressed at most once)
/// that turns exactly the target lights on, or `None` when no choice of
/// buttons produces the target pattern.
///
/// The augmented GF(2) system (one row per light, one column per button) is
/// brought to reduced row echelon form; the choices of the free columns are
/// then enumerated, each completed by back substitution and replayed
/// against the machine, keeping the fewest presses found.
pub fn solve_machine(machine: &Machine) -> (r: Option<usize>)
    ensures
        lights_answer_ok(machine.target@, machine.buttons@, r),
{
    let n_lights = machine.target.len();
    let n_buttons = machine.buttons.len();
    let ghost nbi = n_buttons as int;

    // augmented matrix: row per light, columns per button plus the target
    let mut matrix: Vec<Vec<bool>> = Vec::new();
    let mut i: usize = 0;
    while i < n_lights
        invariant
            0 <= i <= n_lights,
            n_lights == machine.target@.len(),
            n_buttons == machine.buttons@.len(),
            nbi == n_buttons as int,
            matrix@.len() == i,
            rows_shaped(matrix@, nbi),
            forall|r: int, j: int|
                0 <= r < i && 0 <= j < n_buttons ==> #[trigger] matrix@[r]@[j] == affects(
                    machine.buttons@,
                    j,
                    r,
                ),
            forall|r: int| 0 <= r < i ==> #[trigger] matrix@[r]@[nbi] == machine.target@[r],
        decreases n_lights - i,
    {
        let mut row: Vec<bool> = Vec::new();
        let mut j: usize = 0;
        while j < n_buttons
            invariant
                0 <= j <= n_buttons,
                n_buttons == machine.buttons@.len(),
                i < machine.target@.len(),
                row@.len() == j,
                forall|t: int|
                    0 <= t < j ==> #[trigger] row@[t] == affects(machine.buttons@, t, i as int),
            decreases n_buttons - j,
        {
            row.push(contains_pos(&machine.buttons[j], i));
            j = j + 1;
        }
        row.push(machine.target[i]);
        matrix.push(row);
        i = i + 1;
    }
    let ghost sys0 = matrix@;
    proof {
        // the initial system says exactly that the presses reach the target
        assert forall|p: Seq<bool>| p.len() == nbi implies (solves_lights(
            machine.target@,
            machine.buttons@,
            p,
        ) <==> #[trigger] sys_sat(sys0, p, nbi)) by {
            if solves_lights(machine.target@, machine.buttons@, p) {
                assert forall|r: int| 0 <= r < sys0.len() implies row_sat(
                    #[trigger] sys0[r]@,
                    p,
                    nbi,
                ) by {
                    lemma_dot_lights(machine.buttons@, sys0[r]@, p, r, nbi);
                    assert(light_upto(machine.buttons@, p, r, nbi) == machine.target@[r]);
                };
                assert(sys_sat(sys0, p, nbi));
            }
            if sys_sat(sys0, p, nbi) {
                assert forall|i: int| 0 <= i < machine.target@.len() implies light_upto(
                    machine.buttons@,
                    p,
                    i,
                    nbi,
                ) == machine.target@[i] by {
                    assert(row_sat(sys0[i]@, p, nbi));
                    lemma_dot_lights(machine.buttons@, sys0[i]@, p, i, nbi);
                };
                assert(solves_lights(machine.target@, machine.buttons@, p));
            }
        };
    }

    // Gaussian elimination over GF(2) to reduced row echelon form
    let mut pivot_cols: Vec<usize> = Vec::new();
    let mut current_row: usize = 0;
    let mut col: usize = 0;
    while col < n_buttons
        invariant
            0 <= col <= n_buttons,
            nbi == n_buttons as int,
            n_lights == machine.target@.len(),
            n_buttons == machine.buttons@.len(),
            matrix@.len() == n_lights,
            rows_shaped(matrix@, nbi),
            current_row == pivot_cols@.len(),
            current_row <= n_lights,
            forall|t: int| 0 <= t < pivot_cols@.len() ==> (#[trigger] pivot_cols@[t]) < col,
            forall|t1: int, t2: int|
                0 <= t1 < t2 < pivot_cols@.len() ==> #[trigger] pivot_cols@[t1]
                    < #[trigger] pivot_cols@[t2],
            forall|t: int|
                0 <= t < pivot_cols@.len() ==> matrix@[t]@[#[trigger] pivot_cols@[t] as int],
            forall|t: int, r: int|
                0 <= t < pivot_cols@.len() && 0 <= r < matrix@.len() && r != t ==> !(
                #[trigger] matrix@[r]@[#[trigger] pivot_cols@[t] as int]),
            forall|t: int, c: int|
                0 <= t < pivot_cols@.len() && 0 <= c < pivot_cols@[t] ==> !(
                #[trigger] matrix@[t]@[c]),
            forall|r: int, c: int|
                current_row <= r < matrix@.len() && 0 <= c < col ==> !(#[trigger] matrix@[r]@[c]),
            forall|p: Seq<bool>| #[trigger] sys_sat(sys0, p, nbi) == sys_sat(matrix@, p, nbi),
        decreases n_buttons - col,
    {
        // find a row at or below the current one with a coefficient here
        let mut pr: usize = current_row;
        while pr < n_lights && !matrix[pr][col]
            invariant
                current_row <= pr <= n_lights,
                matrix@.len() == n_lights,
                rows_shaped(matrix@, nbi),
                col < n_buttons,
                nbi == n_buttons as int,
                forall|r: int| current_row <= r < pr ==> !(#[trigger] matrix@[r]@[col as int]),
            decreases n_lights - pr,
        {
            pr = pr + 1;
        }
        if pr < n_lights {
            if pr != current_row {
                let ghost mold = matrix@;
                let ra = copy_bools(&matrix[current_row]);
                let rb = copy_bools(&matrix[pr]);
                matrix[current_row] = rb;
                matrix[pr] = ra;
                proof {
                    lemma_swap_equisat(mold, matrix@, current_row as int, pr as int, nbi);
                    assert forall|p: Seq<bool>| #[trigger] sys_sat(sys0, p, nbi) == sys_sat(
                        matrix@,
                        p,
                        nbi,
                    ) by {
                        assert(sys_sat(sys0, p, nbi) == sys_sat(mold, p, nbi));
                        assert(sys_sat(mold, p, nbi) == sys_sat(matrix@, p, nbi));
                    };
                }
            }
            pivot_cols.push(col);
            let ghost pcols = pivot_cols@;
            let ghost prow = matrix@[current_row as int]@;
            let mut r: usize = 0;
            while r < n_lights
                invariant
                    0 <= r <= n_lights,
                    current_row < n_lights,
                    col < n_buttons,
                    nbi == n_buttons as int,
                    n_lights == machine.target@.len(),
                    n_buttons == machine.buttons@.len(),
                    matrix@.len() == n_lights,
                    rows_shaped(matrix@, nbi),
                    pcols == pivot_cols@,
                    pcols.len() == current_row + 1,
                    pcols[current_row as int] == col,
                    forall|t: int| 0 <= t < pcols.len() ==> (#[trigger] pcols[t]) <= col,
                    forall|t1: int, t2: int|
                        0 <= t1 < t2 < pcols.len() ==> #[trigger] pcols[t1] < #[trigger] pcols[t2],
                    matrix@[current_row as int]@ == prow,
                    prow.len() == nbi + 1,
                    prow[col as int],
                    forall|c: int| 0 <= c < col ==> !prow[c],
                    forall|t: int|
                        0 <= t < pcols.len() ==> matrix@[t]@[#[trigger] pcols[t] as int],
                    forall|t: int, rr: int|
                        0 <= t < current_row && 0 <= rr < matrix@.len() && rr != t ==> !(
                        #[trigger] matrix@[rr]@[#[trigger] pcols[t] as int]),
                    forall|rr: int|
                        0 <= rr < r && rr != current_row ==> !(#[trigger] matrix@[rr]@[col as int]),
                    forall|t: int, c: int|
                        0 <= t < pcols.len() && 0 <= c < pcols[t] ==> !(#[trigger] matrix@[t]@[c]),
                    forall|rr: int, c: int|
                        current_row + 1 <= rr < matrix@.len() && 0 <= c < col ==> !(
                        #[trigger] matrix@[rr]@[c]),
                    forall|p: Seq<bool>| #[trigger] sys_sat(sys0, p, nbi) == sys_sat(
                        matrix@,
                        p,
                        nbi,
                    ),
                decreases n_lights - r,
            {
                if r != current_row && matrix[r][col] {
                    let ghost mold = matrix@;
                    let newrow = xor_rows(&matrix[r], &matrix[current_row]);
                    matrix[r] = newrow;
                    proof {
                        lemma_xor_equisat(mold, matrix@, r as int, current_row as int, nbi);
                        assert forall|p: Seq<bool>| #[trigger] sys_sat(sys0, p, nbi) == sys_sat(
                            matrix@,
                            p,
                            nbi,
                        ) by {
                            assert(sys_sat(sys0, p, nbi) == sys_sat(mold, p, nbi));
                            assert(sys_sat(mold, p, nbi) == sys_sat(matrix@, p, nbi));
                        };
                        // the pivot row is zero on earlier columns and on the
                        // other pivots' columns, so those entries are unchanged
                        assert forall|t: int, rr: int|
                            0 <= t < current_row && 0 <= rr < matrix@.len() && rr != t implies !(
                            #[trigger] matrix@[rr]@[#[trigger] pcols[t] as int]) by {
                            assert(!prow[pcols[t] as int]);
                            assert(!mold[rr]@[pcols[t] as int]);
                        };
                        assert forall|t: int, c: int|
                            0 <= t < pcols.len() && 0 <= c < pcols[t] implies !(
                            #[trigger] matrix@[t]@[c]) by {
                            assert(!prow[c]);
                            assert(!mold[t]@[c]);
                        };
                    }
                }
                r = r + 1;
            }
            current_row = current_row + 1;
        }
        col = col + 1;
    }
    proof {
        assert(rref_ok(matrix@, pivot_cols@, nbi));
    }

    // a row with no coefficients left but a set target is unsatisfiable
    let mut r: usize = 0;
    while r < n_lights
        invariant
            0 <= r <= n_lights,
            nbi == n_buttons as int,
            n_lights == machine.target@.len(),
            n_buttons == machine.buttons@.len(),
            matrix@.len() == n_lights,
            rows_shaped(matrix@, nbi),
            forall|p: Seq<bool>| #[trigger] sys_sat(sys0, p, nbi) == sys_sat(matrix@, p, nbi),
            forall|q: Seq<bool>|
                q.len() == nbi ==> (solves_lights(machine.target@, machine.buttons@, q)
                    <==> #[trigger] sys_sat(sys0, q, nbi)),
            rref_ok(matrix@, pivot_cols@, nbi),
        decreases n_lights - r,
    {
        let mut all_zero = true;
        let mut c: usize = 0;
        while c < n_buttons
            invariant
                0 <= c <= n_buttons,
                r < n_lights,
                matrix@.len() == n_lights,
                rows_shaped(matrix@, nbi),
                nbi == n_buttons as int,
                all_zero == (forall|cc: int| 0 <= cc < c ==> !(#[trigger] matrix@[r as int]@[cc])),
            decreases n_buttons - c,
        {
            if matrix[r][c] {
                all_zero = false;
            }
            c = c + 1;
        }
        if all_zero && matrix[r][n_buttons] {
            proof {
                assert forall|p: Seq<bool>|
                    !solves_lights(machine.target@, machine.buttons@, p) by {
                    if solves_lights(machine.target@, machine.buttons@, p) {
                        assert(sys_sat(sys0, p, nbi));
                        assert(sys_sat(matrix@, p, nbi));
                        assert(row_sat(matrix@[r as int]@, p, nbi));
                        lemma_dot_zero(matrix@[r as int]@, p, 0, nbi);
                        assert(false);
                    }
                };
            }
            return None;
        }
        r = r + 1;
    }

    // columns without a pivot are free
    let mut free_vars: Vec<usize> = Vec::new();
    let mut c: usize = 0;
    while c < n_buttons
        invariant
            0 <= c <= n_buttons,
            nbi == n_buttons as int,
            forall|p: Seq<bool>| #[trigger] sys_sat(sys0, p, nbi) == sys_sat(matrix@, p, nbi),
            forall|q: Seq<bool>|
                q.len() == nbi ==> (solves_lights(machine.target@, machine.buttons@, q)
                    <==> #[trigger] sys_sat(sys0, q, nbi)),
            forall|t: int| 0 <= t < free_vars@.len() ==> (#[trigger] free_vars@[t]) < c,
            forall|t1: int, t2: int|
                0 <= t1 < t2 < free_vars@.len() ==> #[trigger] free_vars@[t1]
                    < #[trigger] free_vars@[t2],
            forall|t: int|
                0 <= t < free_vars@.len() ==> !col_in(
                    pivot_cols@,
                    #[trigger] free_vars@[t] as int,
                ),
            forall|cc: int| 0 <= cc < c && !col_in(pivot_cols@, cc) ==> col_in(free_vars@, cc),
        decreases n_buttons - c,
    {
        let piv = contains_pos(&pivot_cols, c);
        if !piv {
            let ghost before = free_vars@;
            free_vars.push(c);
            proof {
                assert forall|cc: int|
                    0 <= cc < c + 1 && !col_in(pivot_cols@, cc) implies col_in(
                    free_vars@,
                    cc,
                ) by {
                    if cc < c {
                        let t = choose|t: int| 0 <= t < before.len() && before[t] == cc;
                        assert(free_vars@[t] == cc);
                    } else {
                        assert(free_vars@[free_vars@.len() - 1] == cc);
                    }
                };
            }
        }
        c = c + 1;
    }

    // try every free choice, cheapest checked replay wins
    let mut current = falses(n_buttons);
    let mut best: Option<usize> = None;
    proof {
        assert forall|p: Seq<bool>| p.len() == nbi implies (solves_lights(
            machine.target@,
            machine.buttons@,
            p,
        ) <==> #[trigger] sys_sat(matrix@, p, nbi)) by {
            assert(sys_sat(sys0, p, nbi) == sys_sat(matrix@, p, nbi));
        };
    }
    enumerate_lights(machine, &matrix, &pivot_cols, &free_vars, 0, &mut current, &mut best);
    proof {
        if best is Some {
            assert forall|p: Seq<bool>|
                solves_lights(machine.target@, machine.buttons@, p) implies best.unwrap() as int
                <= count_true(p) by {
                assert(opt_at_most(best, count_true(p)));
            };
        } else {
            assert forall|p: Seq<bool>|
                !solves_lights(machine.target@, machine.buttons@, p) by {
                if solves_lights(machine.target@, machine.buttons@, p) {
                    assert(opt_at_most(best, count_true(p)));
                }
            };
        }
    }
    best
}

/// A vector of `n` zero press counts.
fn zeroes_i64(n: usize) -> (r: Vec<i64>)
    ensures
        r@.len() == n,
        forall|i: int| 0 <= i < n ==> #[trigger] r@[i] == 0i64,
{
    let mut r: Vec<i64> = Vec::new();
    let mut i: usize = 0;
    while i < n
        invariant
            0 <= i <= n,
            r@.len() == i,
            forall|j: int| 0 <= j < i ==> #[trigger] r@[j] == 0i64,
        decreases n - i,
    {
        r.push(0);
        i = i + 1;
    }
    r
}

/// An all-zero press choice presses nothing in total.
proof fn lemma_total_zeroes(p: Seq<int>)
    requires
        forall|j: int| 0 <= j < p.len() ==> p[j] == 0,
    ensures
        total_presses(p) == 0,
    decreases p.len(),
{
    if p.len() > 0 {
        lemma_total_zeroes(p.drop_last());
    }
}

/// An all-zero press choice leaves every counter at zero.
proof fn lemma_counter_zeroes(buttons: Seq<Vec<usize>>, p: Seq<int>, i: int, nb: int)
    requires
        forall|j: int| 0 <= j < p.len() ==> p[j] == 0,
        nb <= p.len(),
    ensures
        counter_upto(buttons, p, i, nb) == 0,
    decreases nb,
{
    if nb > 0 {
        lemma_counter_zeroes(buttons, p, i, nb - 1);
    }
}

/// The integer-stage minimum so far is sound: anything smaller than the
/// untouched sentinel is witnessed by a press choice within the search
/// bound that meets every counter target.
pub open spec fn counters_sound(joltages: Seq<i64>, buttons: Seq<Vec<usize>>, m: i64) -> bool {
    m == i64::MAX || (m >= 0 && exists|p: Seq<int>|
        bounded_solution(joltages, buttons, p) && total_presses(p) == m as int)
}

/// A press choice the search must not miss: a bounded solution with a
/// machine-range total that agrees with the already-chosen free values.
pub open spec fn candidate_matches(
    joltages: Seq<i64>,
    buttons: Seq<Vec<usize>>,
    free: Seq<usize>,
    cur0: Seq<i64>,
    k: int,
    p: Seq<int>,
) -> bool {
    &&& p.len() == buttons.len()
    &&& bounded_solution(joltages, buttons, p)
    &&& total_presses(p) <= i64::MAX as int
    &&& forall|t: int|
        0 <= t < k ==> p[(#[trigger] free[t]) as int] == cur0[free[t] as int] as int
}

/// A dot product over all-zero coefficients is zero.
proof fn lemma_dot_zero_int(row: Seq<i64>, p: Seq<int>, hi: int)
    requires
        forall|c: int| 0 <= c < hi ==> #[trigger] row[c] == 0i64,
    ensures
        dot_int(row, p, hi) == 0,
    decreases hi,
{
    if hi > 0 {
        lemma_dot_zero_int(row, p, hi - 1);
        assert(row[hi - 1] as int * p[hi - 1] == 0) by (nonlinear_arith)
            requires
                row[hi - 1] as int == 0,
        ;
    }
}

/// Two press choices agreeing wherever the row has a coefficient give the
/// same dot product.
proof fn lemma_dot_agree_int(row: Seq<i64>, p1: Seq<int>, p2: Seq<int>, hi: int)
    requires
        forall|c: int| 0 <= c < hi && row[c] != 0i64 ==> p1[c] == #[trigger] p2[c],
    ensures
        dot_int(row, p1, hi) == dot_int(row, p2, hi),
    decreases hi,
{
    if hi > 0 {
        lemma_dot_agree_int(row, p1, p2, hi - 1);
        if row[hi - 1] == 0i64 {
            assert(row[hi - 1] as int * p1[hi - 1] == 0 && row[hi - 1] as int * p2[hi - 1] == 0)
                by (nonlinear_arith)
                requires
                    row[hi - 1] as int == 0,
            ;
        }
    }
}

/// One component of a non-negative press choice never outweighs the total.
proof fn lemma_component_le_total(p: Seq<int>, i: int)
    requires
        forall|j: int| 0 <= j < p.len() ==> #[trigger] p[j] >= 0,
        0 <= i < p.len(),
    ensures
        p[i] <= total_presses(p),
{
    lemma_total_update_zero(p, i);
    assert(forall|j: int| 0 <= j < p.update(i, 0).len() ==> #[trigger] p.update(i, 0)[j] >= 0);
    lemma_total_nonneg(p.update(i, 0));
}

/// The largest counter target among the first `k`, never below zero.
pub open spec fn spec_max_jolt(joltages: Seq<i64>, k: int) -> int
    decreases k,
{
    if k <= 0 {
        0
    } else {
        let rest = spec_max_jolt(joltages, k - 1);
        if joltages[k - 1] as int > rest {
            joltages[k - 1] as int
        } else {
            rest
        }
    }
}

/// The search bound of the counter stage: the largest target times the
/// button count, a generous over-approximation of any useful press count.
pub open spec fn spec_bound(joltages: Seq<i64>, buttons: Seq<Vec<usize>>) -> int {
    spec_max_jolt(joltages, joltages.len() as int) * buttons.len()
}

/// The bound, cut to the machine range.
pub open spec fn cap_bound(joltages: Seq<i64>, buttons: Seq<Vec<usize>>) -> int {
    if spec_bound(joltages, buttons) > i64::MAX as int {
        i64::MAX as int
    } else {
        spec_bound(joltages, buttons)
    }
}

/// A press choice that hits every counter target with every component
/// within the search bound.
pub open spec fn bounded_solution(
    joltages: Seq<i64>,
    buttons: Seq<Vec<usize>>,
    p: Seq<int>,
) -> bool {
    solves_counters(joltages, buttons, p) && (forall|j: int|
        0 <= j < p.len() ==> #[trigger] p[j] <= spec_bound(joltages, buttons))
}

/// Dot product of an augmented integer row's coefficients with a press
/// choice, over the columns `[0, hi)`.
pub open spec fn dot_int(row: Seq<i64>, p: Seq<int>, hi: int) -> int
    decreases hi,
{
    if hi <= 0 {
        0
    } else {
        dot_int(row, p, hi - 1) + row[hi - 1] * p[hi - 1]
    }
}

/// The press choice satisfies one augmented integer row.
pub open spec fn row_sat_int(row: Seq<i64>, p: Seq<int>, nb: int) -> bool {
    dot_int(row, p, nb) == row[nb] as int
}

/// The same dot product with one column left out.
pub open spec fn dot_skip(row: Seq<i64>, p: Seq<int>, hi: int, skip: int) -> int
    decreases hi,
{
    if hi <= 0 {
        0
    } else {
        dot_skip(row, p, hi - 1, skip) + if hi - 1 == skip {
            0int
        } else {
            row[hi - 1] * p[hi - 1]
        }
    }
}

/// A dot product is the skipped sum plus the skipped column's term.
proof fn lemma_dot_skip(row: Seq<i64>, p: Seq<int>, hi: int, skip: int)
    ensures
        dot_int(row, p, hi) == dot_skip(row, p, hi, skip) + if 0 <= skip < hi {
            row[skip] * p[skip]
        } else {
            0int
        },
    decreases hi,
{
    if hi > 0 {
        lemma_dot_skip(row, p, hi - 1, skip);
    }
}

/// Two press choices agreeing outside the skipped column give the same
/// skipped sum.
proof fn lemma_dot_skip_agree(row: Seq<i64>, p1: Seq<int>, p2: Seq<int>, hi: int, skip: int)
    requires
        forall|c: int| 0 <= c < hi && c != skip ==> p1[c] == #[trigger] p2[c],
    ensures
        dot_skip(row, p1, hi, skip) == dot_skip(row, p2, hi, skip),
    decreases hi,
{
    if hi > 0 {
        lemma_dot_skip_agree(row, p1, p2, hi - 1, skip);
    }
}

/// Dot products are linear under the fraction-free row combination.
proof fn lemma_dot_combine(a: Seq<i64>, b: Seq<i64>, x: Seq<i64>, p: Seq<int>, fa: i64, fb: i64, hi: int)
    requires
        forall|c: int| 0 <= c < hi ==> #[trigger] x[c] as int == a[c] * fa - b[c] * fb,
    ensures
        dot_int(x, p, hi) == fa * dot_int(a, p, hi) - fb * dot_int(b, p, hi),
    decreases hi,
{
    if hi > 0 {
        lemma_dot_combine(a, b, x, p, fa, fb, hi - 1);
        let c = hi - 1;
        assert((a[c] * fa - b[c] * fb) * p[c] == fa * (a[c] * p[c]) - fb * (b[c] * p[c]))
            by (nonlinear_arith);
        assert(fa * (dot_int(a, p, c) + a[c] * p[c]) == fa * dot_int(a, p, c) + fa * (a[c]
            * p[c])) by (nonlinear_arith);
        assert(fb * (dot_int(b, p, c) + b[c] * p[c]) == fb * dot_int(b, p, c) + fb * (b[c]
            * p[c])) by (nonlinear_arith);
    }
}

/// A row whose coefficients record which buttons reach counter `i` has,
/// as its dot product, that counter's value.
proof fn lemma_dot_counters(
    buttons: Seq<Vec<usize>>,
    row: Seq<i64>,
    p: Seq<int>,
    i: int,
    hi: int,
)
    requires
        forall|j: int|
            0 <= j < hi ==> #[trigger] row[j] as int == (if affects(buttons, j, i) {
                1int
            } else {
                0int
            }),
    ensures
        dot_int(row, p, hi) == counter_upto(buttons, p, i, hi),
    decreases hi,
{
    if hi > 0 {
        lemma_dot_counters(buttons, row, p, i, hi - 1);
    }
}

/// A press choice satisfying two rows satisfies their combination.
proof fn lemma_combine_sat(a: Seq<i64>, b: Seq<i64>, x: Seq<i64>, p: Seq<int>, fa: i64, fb: i64, nb: int)
    requires
        nb >= 0,
        a.len() == nb + 1,
        b.len() == nb + 1,
        x.len() == nb + 1,
        forall|c: int| 0 <= c <= nb ==> #[trigger] x[c] as int == a[c] * fa - b[c] * fb,
        row_sat_int(a, p, nb),
        row_sat_int(b, p, nb),
    ensures
        row_sat_int(x, p, nb),
{
    lemma_dot_combine(a, b, x, p, fa, fb, nb);
}

/// Sum of the values of a press choice at the first `k` free columns.
pub open spec fn free_prefix_sum(p: Seq<int>, free: Seq<usize>, k: int) -> int
    decreases k,
{
    if k <= 0 {
        0
    } else {
        free_prefix_sum(p, free, k - 1) + p[free[k - 1] as int]
    }
}

/// Taking one component out of a press choice takes its value out of the
/// total.
proof fn lemma_total_update_zero(p: Seq<int>, i: int)
    requires
        0 <= i < p.len(),
    ensures
        total_presses(p.update(i, 0)) == total_presses(p) - p[i],
    decreases p.len(),
{
    if p.len() > 0 {
        if i == p.len() - 1 {
            assert(p.update(i, 0).drop_last() =~= p.drop_last());
        } else {
            assert(p.update(i, 0).drop_last() =~= p.drop_last().update(i, 0));
            lemma_total_update_zero(p.drop_last(), i);
        }
    }
}

/// The free-column values of a non-negative press choice never outweigh
/// its total.
proof fn lemma_free_prefix_le_total(p: Seq<int>, free: Seq<usize>, k: int)
    requires
        forall|j: int| 0 <= j < p.len() ==> #[trigger] p[j] >= 0,
        forall|t: int| 0 <= t < free.len() ==> (#[trigger] free[t]) < p.len(),
        forall|t1: int, t2: int|
            0 <= t1 < t2 < free.len() ==> #[trigger] free[t1] != #[trigger] free[t2],
        0 <= k <= free.len(),
    ensures
        free_prefix_sum(p, free, k) <= total_presses(p),
    decreases k,
{
    if k > 0 {
        let f = free[k - 1] as int;
        let q = p.update(f, 0);
        lemma_total_update_zero(p, f);
        assert(forall|j: int| 0 <= j < q.len() ==> #[trigger] q[j] >= 0);
        lemma_free_prefix_le_total(q, free, k - 1);
        assert(forall|t: int| 0 <= t < k - 1 ==> (#[trigger] free[t]) != f);
        lemma_free_prefix_agree(p, q, free, k - 1, f);
        assert(free_prefix_sum(p, free, k - 1) == free_prefix_sum(q, free, k - 1));
        assert(free_prefix_sum(p, free, k) == free_prefix_sum(p, free, k - 1) + p[f]);
        assert(total_presses(q) == total_presses(p) - p[f]);
        assert(free_prefix_sum(q, free, k - 1) <= total_presses(q));
        assert(free_prefix_sum(p, free, k) <= total_presses(p));
    } else {
        lemma_total_nonneg(p);
    }
}

/// Free-column sums only read the named columns.
proof fn lemma_free_prefix_agree(p: Seq<int>, q: Seq<int>, free: Seq<usize>, k: int, skip: int)
    requires
        forall|t: int| 0 <= t < k ==> (#[trigger] free[t]) != skip,
        forall|c: int| 0 <= c < p.len() && c != skip ==> #[trigger] p[c] == q[c],
        p.len() == q.len(),
        forall|t: int| 0 <= t < free.len() ==> (#[trigger] free[t]) < p.len(),
        k <= free.len(),
    ensures
        free_prefix_sum(p, free, k) == free_prefix_sum(q, free, k),
    decreases k,
{
    if k > 0 {
        lemma_free_prefix_agree(p, q, free, k - 1, skip);
    }
}

/// A total of non-negative components is non-negative.
proof fn lemma_total_nonneg(p: Seq<int>)
    requires
        forall|j: int| 0 <= j < p.len() ==> #[trigger] p[j] >= 0,
    ensures
        total_presses(p) >= 0,
    decreases p.len(),
{
    if p.len() > 0 {
        lemma_total_nonneg(p.drop_last());
    }
}

/// A press choice that is zero outside the first `k` free columns has, as
/// its total, its free-column sum.
proof fn lemma_total_is_free_sum(p: Seq<int>, free: Seq<usize>, k: int)
    requires
        forall|t: int| 0 <= t < free.len() ==> (#[trigger] free[t]) < p.len(),
        forall|t1: int, t2: int|
            0 <= t1 < t2 < free.len() ==> #[trigger] free[t1] != #[trigger] free[t2],
        0 <= k <= free.len(),
        forall|c: int|
            0 <= c < p.len() && !(exists|t: int| 0 <= t < k && (#[trigger] free[t]) == c)
                ==> #[trigger] p[c] == 0,
    ensures
        total_presses(p) == free_prefix_sum(p, free, k),
    decreases k,
{
    if k == 0 {
        lemma_total_zeroes(p);
    } else {
        let f = free[k - 1] as int;
        let q = p.update(f, 0);
        lemma_total_update_zero(p, f);
        assert forall|c: int|
            0 <= c < q.len() && !(exists|t: int| 0 <= t < k - 1 && (#[trigger] free[t]) == c)
                implies #[trigger] q[c] == 0 by {
            if c != f {
                if exists|t: int| 0 <= t < k && (#[trigger] free[t]) == c {
                    let t = choose|t: int| 0 <= t < k && (#[trigger] free[t]) == c;
                    assert(t < k - 1);
                }
            }
        };
        lemma_total_is_free_sum(q, free, k - 1);
        lemma_free_prefix_agree(p, q, free, k - 1, f);
    }
}

/// A press total only grows along a prefix of non-negative counts.
proof fn lemma_total_prefix_le(p: Seq<int>, n: int)
    requires
        forall|j: int| 0 <= j < p.len() ==> p[j] >= 0,
        0 <= n <= p.len(),
    ensures
        total_presses(p.subrange(0, n)) <= total_presses(p),
    decreases p.len() - n,
{
    if n < p.len() {
        assert(p.subrange(0, n + 1).drop_last() =~= p.subrange(0, n));
        lemma_total_prefix_le(p, n + 1);
    } else {
        assert(p.subrange(0, n) =~= p);
    }
}

/// The exec press vector summed exactly, or `None` when the total leaves
/// the machine range.
fn sum_presses(p: &Vec<i64>) -> (r: Option<i64>)
    requires
        forall|j: int| 0 <= j < p@.len() ==> p@[j] >= 0,
    ensures
        match r {
            Some(t) => t == total_presses(as_ints(p@)) && t >= 0,
            None => total_presses(as_ints(p@)) > i64::MAX,
        },
{
    let n = p.len();
    let mut sum: i64 = 0;
    let mut i: usize = 0;
    while i < n
        invariant
            0 <= i <= n,
            n == p@.len(),
            forall|j: int| 0 <= j < p@.len() ==> p@[j] >= 0,
            sum == total_presses(as_ints(p@.subrange(0, i as int))),
            sum >= 0,
        decreases n - i,
    {
        proof {
            assert(as_ints(p@.subrange(0, i + 1)).drop_last() =~= as_ints(
                p@.subrange(0, i as int),
            ));
        }
        match sum.checked_add(p[i]) {
            Some(x) => {
                sum = x;
            },
            None => {
                proof {
                    let pi = as_ints(p@);
                    assert(forall|j: int| 0 <= j < pi.len() ==> pi[j] >= 0);
                    assert(as_ints(p@.subrange(0, i + 1)) =~= pi.subrange(0, i + 1));
                    assert(as_ints(p@.subrange(0, i as int)) =~= pi.subrange(0, i as int));
                    assert(pi.subrange(0, i + 1).drop_last() =~= pi.subrange(0, i as int));
                    assert(total_presses(pi.subrange(0, i + 1)) == sum + p@[i as int]);
                    lemma_total_prefix_le(pi, i + 1);
                }
                return None;
            },
        }
        i = i + 1;
    }
    proof {
        assert(p@.subrange(0, n as int) =~= p@);
    }
    Some(sum)
}

/// Copies a row of integers.
fn copy_i64s(a: &Vec<i64>) -> (r: Vec<i64>)
    ensures
        r@ == a@,
{
    let n = a.len();
    let mut r: Vec<i64> = Vec::new();
    let mut i: usize = 0;
    while i < n
        invariant
            0 <= i <= n,
            n == a@.len(),
            r@ =~= a@.subrange(0, i as int),
        decreases n - i,
    {
        r.push(a[i]);
        i = i + 1;
    }
    proof {
        assert(a@.subrange(0, n as int) =~= a@);
    }
    r
}

/// The fraction-free elimination step `a * fa - b * fb` on whole rows, or
/// `None` as soon as an entry leaves the machine range.
fn combine_rows(a: &Vec<i64>, b: &Vec<i64>, fa: i64, fb: i64) -> (r: Option<Vec<i64>>)
    requires
        a@.len() == b@.len(),
    ensures
        match r {
            Some(v) => v@.len() == a@.len() && forall|c: int|
                0 <= c < a@.len() ==> #[trigger] v@[c] as int == a@[c] * fa - b@[c] * fb,
            None => true,
        },
{
    let n = a.len();
    let mut v: Vec<i64> = Vec::new();
    let mut i: usize = 0;
    while i < n
        invariant
            0 <= i <= n,
            n == a@.len() == b@.len(),
            v@.len() == i,
            forall|c: int| 0 <= c < i ==> #[trigger] v@[c] as int == a@[c] * fa - b@[c] * fb,
        decreases n - i,
    {
        let x = match a[i].checked_mul(fa) {
            Some(x) => x,
            None => {
                return None;
            },
        };
        let y = match b[i].checked_mul(fb) {
            Some(y) => y,
            None => {
                return None;
            },
        };
        let z = match x.checked_sub(y) {
            Some(z) => z,
            None => {
                return None;
            },
        };
        v.push(z);
        i = i + 1;
    }
    Some(v)
}

/// Depth-first enumeration of the free-variable press counts, from
/// `var_idx` on, each from `0` to `max_val`.  A complete choice is
/// finished by back substitution over the eliminated pivot rows, in exact
/// wide arithmetic; a finished choice is kept when its presses are
/// non-negative, within the bound, and replay to every counter target.
/// The minimum found misses no bounded solution agreeing with the chosen
/// prefix, and a branch is cut as soon as its partial total cannot beat
/// the minimum so far.
pub fn search_free_vars_v2(
    machine: &Machine,
    matrix: &Vec<Vec<i64>>,
    pivot_cols: &Vec<usize>,
    pivot_vals: &Vec<i64>,
    free_vars: &Vec<usize>,
    num_pivots: usize,
    n_buttons: usize,
    var_idx: usize,
    current: &mut Vec<i64>,
    min_presses: &mut i64,
    max_val: i64,
)
    requires
        n_buttons == machine.buttons@.len(),
        n_buttons <= 0x80000000,
        matrix@.len() >= num_pivots,
        forall|r: int| 0 <= r < matrix@.len() ==> (#[trigger] matrix@[r]@).len() == n_buttons + 1,
        pivot_cols@.len() == num_pivots,
        pivot_vals@.len() == num_pivots,
        forall|t: int| 0 <= t < num_pivots ==> (#[trigger] pivot_cols@[t]) < n_buttons,
        forall|t1: int, t2: int|
            0 <= t1 < t2 < num_pivots ==> #[trigger] pivot_cols@[t1] < #[trigger] pivot_cols@[t2],
        forall|t: int|
            0 <= t < num_pivots ==> (#[trigger] pivot_vals@[t]) == matrix@[t]@[pivot_cols@[t] as int]
                && pivot_vals@[t] != 0i64,
        forall|t: int, c: int|
            0 <= t < num_pivots && 0 <= c < pivot_cols@[t] ==> #[trigger] matrix@[t]@[c] == 0i64,
        forall|t: int, c: int|
            0 <= t < num_pivots && 0 <= c <= n_buttons ==> -0x80000000 <= #[trigger] matrix@[t]@[c]
                <= 0x80000000,
        forall|t: int| 0 <= t < free_vars@.len() ==> (#[trigger] free_vars@[t]) < n_buttons,
        forall|t1: int, t2: int|
            0 <= t1 < t2 < free_vars@.len() ==> #[trigger] free_vars@[t1]
                != #[trigger] free_vars@[t2],
        forall|t: int|
            0 <= t < free_vars@.len() ==> !col_in(pivot_cols@, #[trigger] free_vars@[t] as int),
        forall|c: int|
            0 <= c < n_buttons && !col_in(pivot_cols@, c) ==> col_in(free_vars@, c),
        var_idx <= free_vars@.len(),
        old(current)@.len() == n_buttons,
        forall|c: int|
            0 <= c < n_buttons && !(exists|t: int|
                0 <= t < var_idx && (#[trigger] free_vars@[t]) == c) ==> old(current)@[c] == 0i64,
        forall|t: int|
            0 <= t < var_idx ==> 0 <= #[trigger] old(current)@[free_vars@[t] as int] <= max_val,
        max_val as int == cap_bound(machine.joltages@, machine.buttons@),
        max_val >= 0,
        forall|p: Seq<int>|
            p.len() == n_buttons && solves_counters(machine.joltages@, machine.buttons@, p)
                ==> (forall|t: int|
                0 <= t < num_pivots ==> row_sat_int(#[trigger] matrix@[t]@, p, n_buttons as int)),
        counters_sound(machine.joltages@, machine.buttons@, *old(min_presses)),
    ensures
        final(current)@ == old(current)@,
        *final(min_presses) <= *old(min_presses),
        counters_sound(machine.joltages@, machine.buttons@, *final(min_presses)),
        forall|p: Seq<int>|
            candidate_matches(
                machine.joltages@,
                machine.buttons@,
                free_vars@,
                old(current)@,
                var_idx as int,
                p,
            ) ==> *final(min_presses) as int <= total_presses(p),
    decreases free_vars@.len() - var_idx,
{
    let nb = n_buttons;
    let ghost nbi = nb as int;
    let ghost jv = machine.joltages@;
    let ghost bv = machine.buttons@;
    if var_idx == free_vars.len() {
        // every free value chosen: back-substitute the pivot variables
        let mut sol = copy_i64s(current);
        let mut t = num_pivots;
        while t > 0
            invariant
                0 <= t <= num_pivots,
                nb == n_buttons,
                nbi == nb as int,
                jv == machine.joltages@,
                bv == machine.buttons@,
                n_buttons == machine.buttons@.len(),
                n_buttons <= 0x80000000,
                matrix@.len() >= num_pivots,
                forall|r: int|
                    0 <= r < matrix@.len() ==> (#[trigger] matrix@[r]@).len() == n_buttons + 1,
                pivot_cols@.len() == num_pivots,
                pivot_vals@.len() == num_pivots,
                forall|tt: int| 0 <= tt < num_pivots ==> (#[trigger] pivot_cols@[tt]) < n_buttons,
                forall|t1: int, t2: int|
                    0 <= t1 < t2 < num_pivots ==> #[trigger] pivot_cols@[t1]
                        < #[trigger] pivot_cols@[t2],
                forall|tt: int|
                    0 <= tt < num_pivots ==> (#[trigger] pivot_vals@[tt])
                        == matrix@[tt]@[pivot_cols@[tt] as int] && pivot_vals@[tt] != 0i64,
                forall|tt: int, c: int|
                    0 <= tt < num_pivots && 0 <= c < pivot_cols@[tt] ==> #[trigger] matrix@[tt]@[c]
                        == 0i64,
                forall|tt: int, c: int|
                    0 <= tt < num_pivots && 0 <= c <= n_buttons ==> -0x80000000
                        <= #[trigger] matrix@[tt]@[c] <= 0x80000000,
                forall|tt: int|
                    0 <= tt < free_vars@.len() ==> (#[trigger] free_vars@[tt]) < n_buttons,
                forall|tt: int|
                    0 <= tt < free_vars@.len() ==> !col_in(
                        pivot_cols@,
                        #[trigger] free_vars@[tt] as int,
                    ),
                forall|c: int|
                    0 <= c < n_buttons && !col_in(pivot_cols@, c) ==> col_in(free_vars@, c),
                var_idx == free_vars@.len(),
                current@ == old(current)@,
                current@.len() == n_buttons,
                forall|tt: int|
                    0 <= tt < var_idx ==> 0 <= #[trigger] old(current)@[free_vars@[tt] as int]
                        <= max_val,
                max_val as int == cap_bound(jv, bv),
                max_val >= 0,
                forall|p: Seq<int>|
                    p.len() == n_buttons && solves_counters(jv, bv, p) ==> (forall|tt: int|
                        0 <= tt < num_pivots ==> row_sat_int(#[trigger] matrix@[tt]@, p, nbi)),
                *min_presses == *old(min_presses),
                counters_sound(jv, bv, *min_presses),
                sol@.len() == nb,
                forall|c: int|
                    0 <= c < nbi && !col_in(pivot_cols@, c) ==> #[trigger] sol@[c] == old(
                        current,
                    )@[c],
                forall|tt: int|
                    t <= tt < num_pivots ==> 0 <= #[trigger] sol@[pivot_cols@[tt] as int]
                        <= max_val,
                forall|tt: int|
                    t <= tt < num_pivots ==> row_sat_int(
                        #[trigger] matrix@[tt]@,
                        as_ints(sol@),
                        nbi,
                    ),
                forall|p: Seq<int>|
                    #[trigger] candidate_matches(jv, bv, free_vars@, old(current)@, var_idx as int, p)
                        ==> (forall|tt: int|
                        t <= tt < num_pivots ==> p[pivot_cols@[tt] as int] == sol@[pivot_cols@[
                            tt
                        ] as int] as int),
            decreases t,
        {
            t = t - 1;
            let pc = pivot_cols[t];
            let pv = pivot_vals[t];
            let ghost mrow = matrix@[t as int]@;
            let ghost presol = as_ints(sol@);
            // the right-hand side, in exact wide arithmetic
            let mut rhs: i128 = matrix[t][nb] as i128;
            let mut c: usize = 0;
            while c < nb
                invariant
                    0 <= c <= nb,
                    t < num_pivots,
                    num_pivots <= matrix@.len(),
                    pc == pivot_cols@[t as int],
                    pc < nb,
                    nb == n_buttons,
                    nbi == nb as int,
                    n_buttons <= 0x80000000,
                    mrow == matrix@[t as int]@,
                    mrow.len() == nbi + 1,
                    forall|cc: int| 0 <= cc <= nbi ==> -0x80000000 <= #[trigger] mrow[cc]
                        <= 0x80000000,
                    sol@.len() == nb,
                    presol == as_ints(sol@),
                    rhs as int == mrow[nbi] as int - dot_skip(mrow, presol, c as int, pc as int),
                    -0x80000000 - (c as int) * 0x400000000000000000000000 <= rhs as int
                        <= 0x80000000 + (c as int) * 0x400000000000000000000000,
                decreases nb - c,
            {
                if c != pc {
                    proof {
                        assert((mrow[c as int] as int) * (sol@[c as int] as int)
                            <= 0x400000000000000000000000 && (mrow[c as int] as int) * (sol@[
                            c as int] as int) >= -0x400000000000000000000000) by (nonlinear_arith)
                            requires
                                -0x80000000 <= mrow[c as int] as int <= 0x80000000,
                                -0x8000000000000000 <= sol@[c as int] as int
                                    <= 0x8000000000000000,
                        ;
                        assert((c as int) * 0x400000000000000000000000
                            <= 0x80000000 * 0x400000000000000000000000 && (c as int + 1)
                            * 0x400000000000000000000000 <= 0x80000000
                            * 0x400000000000000000000000) by (nonlinear_arith)
                            requires
                                0 <= c as int,
                                c as int + 1 <= 0x80000000,
                        ;
                    }
                    let prod: i128 = (matrix[t][c] as i128) * (sol[c] as i128);
                    rhs = rhs - prod;
                }
                c = c + 1;
            }
            // divide exactly by the pivot, watching signs
            let pv_neg = pv < 0;
            let rhs_neg = rhs < 0;
            let pa: u128 = if pv_neg {
                (-(pv as i128)) as u128
            } else {
                pv as u128
            };
            let ra: u128 = if rhs_neg {
                (-rhs) as u128
            } else {
                rhs as u128
            };
            proof {
                assert(pa as int == (if (pv as int) < 0 { -(pv as int) } else { pv as int }));
                assert(ra as int == (if (rhs as int) < 0 { -(rhs as int) } else { rhs as int }));
                assert(pa > 0);
                // a matching bounded solution pins this pivot's value
                lemma_pivot_forced(
                    jv, bv, matrix@, pivot_cols@, pivot_vals@, free_vars@, old(current)@, sol@,
                    t as int, nbi, max_val as int, rhs as int,
                );
            }
            proof {
                // any matching bounded solution makes the division exact,
                // with a non-negative in-bound quotient
                assert forall|p: Seq<int>|
                    #[trigger] candidate_matches(jv, bv, free_vars@, old(current)@, var_idx as int, p)
                        implies (pa as int) * p[pivot_cols@[t as int] as int] == ra as int by {
                    let x = p[pivot_cols@[t as int] as int];
                    let pvi = pv as int;
                    assert(pvi * x == rhs as int && 0 <= x <= max_val as int);
                    assert((pa as int) * x == ra as int) by (nonlinear_arith)
                        requires
                            pvi * x == rhs as int,
                            0 <= x,
                            pa as int == (if pvi < 0 { -pvi } else { pvi }),
                            ra as int == (if (rhs as int) < 0 { -(rhs as int) } else { rhs as int }),
                    ;
                };
            }
            if ra % pa != 0 {
                proof {
                    assert forall|p: Seq<int>|
                        !candidate_matches(jv, bv, free_vars@, old(current)@, var_idx as int, p) by {
                        if candidate_matches(jv, bv, free_vars@, old(current)@, var_idx as int, p) {
                            let x = p[pivot_cols@[t as int] as int];
                            vstd::arithmetic::div_mod::lemma_mod_multiples_basic(x, pa as int);
                            assert((x * (pa as int)) % (pa as int) == 0);
                            assert(ra as int == x * (pa as int)) by (nonlinear_arith)
                                requires
                                    (pa as int) * x == ra as int,
                            ;
                            assert(false);
                        }
                    };
                }
                return ;
            }
            let qa: u128 = ra / pa;
            proof {
                assert forall|p: Seq<int>|
                    #[trigger] candidate_matches(jv, bv, free_vars@, old(current)@, var_idx as int, p)
                        implies p[pivot_cols@[t as int] as int] == qa as int by {
                    let x = p[pivot_cols@[t as int] as int];
                    assert(ra as int == x * (pa as int)) by (nonlinear_arith)
                        requires
                            (pa as int) * x == ra as int,
                    ;
                    vstd::arithmetic::div_mod::lemma_div_by_multiple(x, pa as int);
                };
            }
            if qa > 0 && rhs_neg != pv_neg {
                proof {
                    assert forall|p: Seq<int>|
                        !candidate_matches(jv, bv, free_vars@, old(current)@, var_idx as int, p) by {
                        if candidate_matches(jv, bv, free_vars@, old(current)@, var_idx as int, p) {
                            let x = p[pivot_cols@[t as int] as int];
                            let pvi = pv as int;
                            assert(x == qa as int && x > 0);
                            assert(false) by (nonlinear_arith)
                                requires
                                    pvi * x == rhs as int,
                                    x > 0,
                                    pvi != 0,
                                    ((rhs as int) < 0) != (pvi < 0),
                                    (rhs_neg <==> (rhs as int) < 0),
                                    (pv_neg <==> pvi < 0),
                                    rhs_neg != pv_neg,
                            ;
                        }
                    };
                }
                return ;
            }
            if qa > max_val as u128 {
                proof {
                    assert forall|p: Seq<int>|
                        !candidate_matches(jv, bv, free_vars@, old(current)@, var_idx as int, p) by {
                        if candidate_matches(jv, bv, free_vars@, old(current)@, var_idx as int, p) {
                            let x = p[pivot_cols@[t as int] as int];
                            assert(x == qa as int && x <= max_val as int);
                            assert(false);
                        }
                    };
                }
                return ;
            }
            let q: i64 = qa as i64;
            sol[pc] = q;
            proof {
                // the pivot row is now satisfied: pv * q == rhs
                let pvi = pv as int;
                let qi = q as int;
                if qa == 0 {
                    vstd::arithmetic::div_mod::lemma_fundamental_div_mod(ra as int, pa as int);
                    assert(ra as int == (pa as int) * (qa as int) + (ra as int) % (pa as int));
                    assert((pa as int) * 0 == 0) by (nonlinear_arith);
                    assert(ra as int == 0);
                    assert(rhs as int == 0);
                    assert(pvi * qi == 0) by (nonlinear_arith)
                        requires
                            qi == 0,
                    ;
                } else {
                    assert(ra as int == pa as int * qa as int) by {
                        vstd::arithmetic::div_mod::lemma_fundamental_div_mod(
                            ra as int,
                            pa as int,
                        );
                    };
                    assert(pvi * qi == rhs as int) by (nonlinear_arith)
                        requires
                            ra as int == pa as int * qa as int,
                            qi == qa as int,
                            pa as int == (if pvi < 0 { -pvi } else { pvi }),
                            ra as int == (if (rhs as int) < 0 { -(rhs as int) } else { rhs as int }),
                            ((rhs as int) < 0) == (pvi < 0),
                            qi > 0,
                    ;
                }
                let newsol = as_ints(sol@);
                assert(newsol =~= presol.update(pc as int, qi));
                lemma_dot_skip_agree(mrow, presol, newsol, nbi, pc as int);
                lemma_dot_skip(mrow, newsol, nbi, pc as int);
                assert(row_sat_int(mrow, newsol, nbi));
                // the later pivot rows are undisturbed: their earlier
                // columns hold no coefficients
                assert forall|tt: int|
                    t < tt < num_pivots implies row_sat_int(
                    #[trigger] matrix@[tt]@,
                    newsol,
                    nbi,
                ) by {
                    assert(pc < pivot_cols@[tt]);
                    assert(matrix@[tt]@[pc as int] == 0i64);
                    lemma_dot_agree_int(matrix@[tt]@, presol, newsol, nbi);
                };
            }
        }
        proof {
            // with every free value and every pivot pinned, a matching
            // bounded solution is exactly the candidate just built
            assert forall|p: Seq<int>|
                #[trigger] candidate_matches(jv, bv, free_vars@, old(current)@, var_idx as int, p)
                    implies p =~= as_ints(sol@) by {
                assert forall|c: int| 0 <= c < nbi implies p[c] == as_ints(sol@)[c] by {
                    if col_in(pivot_cols@, c) {
                        let tt = choose|tt: int|
                            0 <= tt < pivot_cols@.len() && (#[trigger] pivot_cols@[tt]) == c;
                        assert(p[pivot_cols@[tt] as int] == sol@[pivot_cols@[tt] as int] as int);
                    } else {
                        let ft = choose|ft: int|
                            0 <= ft < free_vars@.len() && (#[trigger] free_vars@[ft]) == c;
                        assert(p[(free_vars@[ft]) as int] == old(current)@[free_vars@[ft] as int] as int);
                        assert(sol@[c] == old(current)@[c]);
                    }
                };
            };
            // every component of the candidate stays within the bound
            assert forall|jj: int| 0 <= jj < nb implies #[trigger] sol@[jj] <= max_val by {
                if col_in(pivot_cols@, jj) {
                    let tt = choose|tt: int|
                        0 <= tt < pivot_cols@.len() && (#[trigger] pivot_cols@[tt]) == jj;
                    assert(0 <= sol@[pivot_cols@[tt] as int] <= max_val);
                } else {
                    assert(sol@[jj] == old(current)@[jj]);
                    if exists|ft: int| 0 <= ft < var_idx && (#[trigger] free_vars@[ft]) == jj {
                        let ft = choose|ft: int|
                            0 <= ft < var_idx && (#[trigger] free_vars@[ft]) == jj;
                        assert(0 <= old(current)@[free_vars@[ft] as int] <= max_val);
                    } else {
                        assert(old(current)@[jj] == 0i64);
                    }
                }
            };
        }
        // keep the candidate if it is non-negative and replays exactly
        let mut ok = true;
        let mut j: usize = 0;
        while j < nb
            invariant
                0 <= j <= nb,
                sol@.len() == nb,
                nb == n_buttons,
                n_buttons == machine.buttons@.len(),
                jv == machine.joltages@,
                bv == machine.buttons@,
                current@ == old(current)@,
                current@.len() == n_buttons,
                *min_presses == *old(min_presses),
                counters_sound(jv, bv, *min_presses),
                ok == (forall|jj: int| 0 <= jj < j ==> #[trigger] sol@[jj] >= 0),
                forall|p: Seq<int>|
                    #[trigger] candidate_matches(jv, bv, free_vars@, old(current)@, var_idx as int, p)
                        ==> p =~= as_ints(sol@),
                forall|jj: int| 0 <= jj < nb ==> #[trigger] sol@[jj] <= max_val,
                max_val as int == cap_bound(jv, bv),
                max_val >= 0,
            decreases nb - j,
        {
            if sol[j] < 0 {
                ok = false;
            }
            j = j + 1;
        }
        if !ok {
            proof {
                assert forall|p: Seq<int>|
                    !candidate_matches(jv, bv, free_vars@, old(current)@, var_idx as int, p) by {
                    if candidate_matches(jv, bv, free_vars@, old(current)@, var_idx as int, p) {
                        assert(p =~= as_ints(sol@));
                        let jj = choose|jj: int| 0 <= jj < nb && !(#[trigger] sol@[jj] >= 0);
                        assert(p[jj] < 0);
                        assert(false);
                    }
                };
            }
            return ;
        }
        if !check_counters(machine, &sol) {
            proof {
                assert forall|p: Seq<int>|
                    !candidate_matches(jv, bv, free_vars@, old(current)@, var_idx as int, p) by {
                    if candidate_matches(jv, bv, free_vars@, old(current)@, var_idx as int, p) {
                        assert(p =~= as_ints(sol@));
                        assert(false);
                    }
                };
            }
            return ;
        }
        // the exact total, in wide arithmetic
        let mut total: i128 = 0;
        let mut j2: usize = 0;
        while j2 < nb
            invariant
                0 <= j2 <= nb,
                sol@.len() == nb,
                nb == n_buttons,
                n_buttons <= 0x80000000,
                jv == machine.joltages@,
                bv == machine.buttons@,
                n_buttons == machine.buttons@.len(),
                current@ == old(current)@,
                current@.len() == n_buttons,
                *min_presses == *old(min_presses),
                counters_sound(jv, bv, *min_presses),
                forall|jj: int| 0 <= jj < nb ==> 0 <= #[trigger] sol@[jj] <= max_val,
                max_val as int == cap_bound(jv, bv),
                solves_counters(jv, bv, as_ints(sol@)),
                forall|p: Seq<int>|
                    #[trigger] candidate_matches(jv, bv, free_vars@, old(current)@, var_idx as int, p)
                        ==> p =~= as_ints(sol@),
                total as int == total_presses(as_ints(sol@.subrange(0, j2 as int))),
                0 <= total as int <= (j2 as int) * 0x8000000000000000,
            decreases nb - j2,
        {
            proof {
                assert(as_ints(sol@.subrange(0, j2 + 1)).drop_last() =~= as_ints(
                    sol@.subrange(0, j2 as int),
                ));
                assert((j2 as int + 1) * 0x8000000000000000 <= 0x80000000 * 0x8000000000000000
                    && (j2 as int) * 0x8000000000000000 <= 0x80000000 * 0x8000000000000000)
                    by (nonlinear_arith)
                    requires
                        0 <= j2 as int,
                        j2 as int + 1 <= 0x80000000,
                ;
            }
            total = total + (sol[j2] as i128);
            j2 = j2 + 1;
        }
        proof {
            assert(sol@.subrange(0, nb as int) =~= sol@);
        }
        if total <= i64::MAX as i128 {
            let total64 = total as i64;
            if total64 < *min_presses {
                *min_presses = total64;
                proof {
                    assert(bounded_solution(jv, bv, as_ints(sol@))) by {
                        assert(forall|jj: int|
                            0 <= jj < as_ints(sol@).len() ==> #[trigger] as_ints(sol@)[jj]
                                <= spec_bound(jv, bv));
                    };
                }
            }
            proof {
                assert forall|p: Seq<int>|
                    candidate_matches(jv, bv, free_vars@, old(current)@, var_idx as int, p)
                        implies *min_presses as int <= total_presses(p) by {
                    assert(p =~= as_ints(sol@));
                };
            }
        } else {
            proof {
                assert forall|p: Seq<int>|
                    !candidate_matches(jv, bv, free_vars@, old(current)@, var_idx as int, p) by {
                    if candidate_matches(jv, bv, free_vars@, old(current)@, var_idx as int, p) {
                        assert(p =~= as_ints(sol@));
                        assert(total_presses(p) > i64::MAX as int);
                        assert(false);
                    }
                };
            }
        }
    } else {
        let fc = free_vars[var_idx];
        let flen = free_vars.len();
        let mut val: i64 = 0;
        loop
            invariant_except_break
                flen == free_vars@.len(),
                var_idx < flen,
                0 <= val <= max_val,
                nb == n_buttons,
                jv == machine.joltages@,
                bv == machine.buttons@,
                current@.len() == n_buttons,
                fc < n_buttons,
                fc == free_vars@[var_idx as int],
                forall|c: int|
                    0 <= c < current@.len() && c != fc ==> #[trigger] current@[c] == old(
                        current,
                    )@[c],
                old(current)@.len() == n_buttons,
                old(current)@[fc as int] == 0i64,
                forall|t1: int, t2: int|
                    0 <= t1 < t2 < free_vars@.len() ==> #[trigger] free_vars@[t1]
                        != #[trigger] free_vars@[t2],
                forall|c: int|
                    0 <= c < n_buttons && !(exists|t: int|
                        0 <= t < var_idx && (#[trigger] free_vars@[t]) == c) ==> old(
                        current,
                    )@[c] == 0i64,
                forall|t: int|
                    0 <= t < var_idx ==> 0 <= #[trigger] old(current)@[free_vars@[t] as int]
                        <= max_val,
                *min_presses <= *old(min_presses),
                counters_sound(jv, bv, *min_presses),
                n_buttons == machine.buttons@.len(),
                n_buttons <= 0x80000000,
                matrix@.len() >= num_pivots,
                forall|r: int|
                    0 <= r < matrix@.len() ==> (#[trigger] matrix@[r]@).len() == n_buttons + 1,
                pivot_cols@.len() == num_pivots,
                pivot_vals@.len() == num_pivots,
                forall|t: int| 0 <= t < num_pivots ==> (#[trigger] pivot_cols@[t]) < n_buttons,
                forall|t1: int, t2: int|
                    0 <= t1 < t2 < num_pivots ==> #[trigger] pivot_cols@[t1]
                        < #[trigger] pivot_cols@[t2],
                forall|t: int|
                    0 <= t < num_pivots ==> (#[trigger] pivot_vals@[t])
                        == matrix@[t]@[pivot_cols@[t] as int] && pivot_vals@[t] != 0i64,
                forall|t: int, c: int|
                    0 <= t < num_pivots && 0 <= c < pivot_cols@[t] ==> #[trigger] matrix@[t]@[c]
                        == 0i64,
                forall|t: int, c: int|
                    0 <= t < num_pivots && 0 <= c <= n_buttons ==> -0x80000000
                        <= #[trigger] matrix@[t]@[c] <= 0x80000000,
                forall|t: int|
                    0 <= t < free_vars@.len() ==> (#[trigger] free_vars@[t]) < n_buttons,
                forall|t: int|
                    0 <= t < free_vars@.len() ==> !col_in(
                        pivot_cols@,
                        #[trigger] free_vars@[t] as int,
                    ),
                forall|c: int|
                    0 <= c < n_buttons && !col_in(pivot_cols@, c) ==> col_in(free_vars@, c),
                max_val as int == cap_bound(jv, bv),
                max_val >= 0,
                forall|p: Seq<int>|
                    p.len() == n_buttons && solves_counters(jv, bv, p) ==> (forall|t: int|
                        0 <= t < num_pivots ==> row_sat_int(#[trigger] matrix@[t]@, p, nb as int)),
                forall|p: Seq<int>|
                    #[trigger] candidate_matches(jv, bv, free_vars@, old(current)@, var_idx as int, p)
                        && p[fc as int] < val as int ==> *min_presses as int <= total_presses(p),
            ensures
                current@.len() == n_buttons,
                forall|c: int|
                    0 <= c < current@.len() && c != fc ==> #[trigger] current@[c] == old(
                        current,
                    )@[c],
                *min_presses <= *old(min_presses),
                counters_sound(jv, bv, *min_presses),
                forall|p: Seq<int>|
                    #[trigger] candidate_matches(jv, bv, free_vars@, old(current)@, var_idx as int, p)
                        ==> *min_presses as int <= total_presses(p),
            decreases max_val - val,
        {
            current[fc] = val;
            proof {
                assert forall|c: int|
                    0 <= c < current@.len() implies 0 <= #[trigger] current@[c] <= max_val by {
                    if c != fc {
                        assert(current@[c] == old(current)@[c]);
                        if exists|t: int| 0 <= t < var_idx && (#[trigger] free_vars@[t]) == c {
                            let t = choose|t: int|
                                0 <= t < var_idx && (#[trigger] free_vars@[t]) == c;
                            assert(0 <= old(current)@[free_vars@[t] as int] <= max_val);
                        } else {
                            assert(old(current)@[c] == 0i64);
                        }
                    }
                };
            }
            // cut the branch once the partial total cannot improve
            let mut partial: i128 = 0;
            let mut pj: usize = 0;
            while pj < nb
                invariant
                    0 <= pj <= nb,
                    nb == n_buttons,
                    n_buttons <= 0x80000000,
                    current@.len() == n_buttons,
                    forall|c: int| 0 <= c < current@.len() ==> 0 <= #[trigger] current@[c],
                    forall|c: int| 0 <= c < current@.len() ==> #[trigger] current@[c] <= max_val,
                    partial as int == total_presses(as_ints(current@.subrange(0, pj as int))),
                    0 <= partial as int <= (pj as int) * 0x8000000000000000,
                decreases nb - pj,
            {
                proof {
                    assert(as_ints(current@.subrange(0, pj + 1)).drop_last() =~= as_ints(
                        current@.subrange(0, pj as int),
                    ));
                    assert((pj as int + 1) * 0x8000000000000000 <= 0x80000000
                        * 0x8000000000000000 && (pj as int) * 0x8000000000000000 <= 0x80000000
                        * 0x8000000000000000) by (nonlinear_arith)
                        requires
                            0 <= pj as int,
                            pj as int + 1 <= 0x80000000,
                    ;
                }
                partial = partial + (current[pj] as i128);
                pj = pj + 1;
            }
            proof {
                assert(current@.subrange(0, nb as int) =~= current@);
            }
            if partial >= *min_presses as i128 {
                proof {
                    lemma_prune_safe(
                        jv, bv, free_vars@, old(current)@, current@, var_idx as int, val as int,
                        partial as int, *min_presses as int,
                    );
                }
                break ;
            }
            search_free_vars_v2(
                machine,
                matrix,
                pivot_cols,
                pivot_vals,
                free_vars,
                num_pivots,
                n_buttons,
                var_idx + 1,
                current,
                min_presses,
                max_val,
            );
            proof {
                assert forall|p: Seq<int>|
                    #[trigger] candidate_matches(jv, bv, free_vars@, old(current)@, var_idx as int, p)
                        && p[fc as int] < val as int + 1 implies *min_presses as int
                    <= total_presses(p) by {
                    if p[fc as int] == val as int {
                        assert(candidate_matches(
                            jv, bv, free_vars@, current@, var_idx as int + 1, p,
                        ));
                    }
                };
            }
            if val == max_val {
                proof {
                    assert forall|p: Seq<int>|
                        #[trigger] candidate_matches(jv, bv, free_vars@, old(current)@, var_idx as int, p)
                            implies p[fc as int] < val as int + 1 by {
                        lemma_component_le_total(p, fc as int);
                        assert(p[fc as int] <= spec_bound(jv, bv));
                    };
                }
                break ;
            }
            val = val + 1;
        }
        current[fc] = 0;
        proof {
            assert(current@ =~= old(current)@);
        }
    }
}

/// With the free values fixed, a matching bounded solution pins the pivot
/// variable of row `t` to exactly the computed right-hand side over the
/// pivot value.
proof fn lemma_pivot_forced(
    jv: Seq<i64>,
    bv: Seq<Vec<usize>>,
    mat: Seq<Vec<i64>>,
    pcols: Seq<usize>,
    pvals: Seq<i64>,
    free: Seq<usize>,
    cur0: Seq<i64>,
    sol: Seq<i64>,
    t: int,
    nbi: int,
    max_val: int,
    rhs: int,
)
    requires
        nbi == bv.len(),
        0 <= t < pcols.len(),
        pcols.len() <= mat.len(),
        pcols.len() == pvals.len(),
        forall|tt: int| 0 <= tt < pcols.len() ==> (#[trigger] pcols[tt]) < nbi,
        forall|t1: int, t2: int|
            0 <= t1 < t2 < pcols.len() ==> #[trigger] pcols[t1] < #[trigger] pcols[t2],
        forall|tt: int|
            0 <= tt < pcols.len() ==> (#[trigger] pvals[tt]) == mat[tt]@[pcols[tt] as int]
                && pvals[tt] != 0i64,
        forall|tt: int, c: int|
            0 <= tt < pcols.len() && 0 <= c < pcols[tt] ==> #[trigger] mat[tt]@[c] == 0i64,
        forall|r: int| 0 <= r < mat.len() ==> (#[trigger] mat[r]@).len() == nbi + 1,
        sol.len() == nbi,
        cur0.len() == nbi,
        forall|c: int| 0 <= c < nbi && !col_in(pcols, c) ==> #[trigger] sol[c] == cur0[c],
        forall|p: Seq<int>|
            p.len() == nbi && solves_counters(jv, bv, p) ==> (forall|tt: int|
                0 <= tt < pcols.len() ==> row_sat_int(#[trigger] mat[tt]@, p, nbi)),
        forall|p: Seq<int>|
            #[trigger] candidate_matches(jv, bv, free, cur0, free.len() as int, p) ==> (forall|
                tt: int,
            |
                t < tt < pcols.len() ==> p[pcols[tt] as int] == sol[pcols[tt] as int] as int),
        forall|tt: int| 0 <= tt < free.len() ==> (#[trigger] free[tt]) < nbi,
        forall|c: int| 0 <= c < nbi && !col_in(pcols, c) ==> col_in(free, c),
        rhs == mat[t]@[nbi] as int - dot_skip(mat[t]@, as_ints(sol), nbi, pcols[t] as int),
        max_val >= 0,
        max_val == cap_bound(jv, bv),
    ensures
        forall|p: Seq<int>|
            #[trigger] candidate_matches(jv, bv, free, cur0, free.len() as int, p)
                ==> (pvals[t] as int) * p[pcols[t] as int] == rhs && 0 <= p[pcols[t] as int]
                <= max_val,
{
    let pc = pcols[t] as int;
    let pv = pvals[t] as int;
    let mrow = mat[t]@;
    assert forall|p: Seq<int>|
        #[trigger] candidate_matches(jv, bv, free, cur0, free.len() as int, p) implies (pv * p[pc]
        == rhs && 0 <= p[pc] <= max_val) by {
        assert(row_sat_int(mrow, p, nbi));
        lemma_dot_skip(mrow, p, nbi, pc);
        // outside the pivot column the row reads the same values from the
        // candidate as from the partially built solution
        assert forall|c: int|
            0 <= c < nbi && c != pc && mrow[c] != 0i64 implies p[c] == as_ints(sol)[c] by {
            if col_in(pcols, c) {
                let tt = choose|tt: int| 0 <= tt < pcols.len() && (#[trigger] pcols[tt]) == c;
                if tt < t {
                    assert(pcols[tt] < pcols[t]);
                    assert(mrow[c] == 0i64);
                } else if tt == t {
                    assert(c == pc);
                } else {
                    assert(p[pcols[tt] as int] == sol[pcols[tt] as int] as int);
                }
            } else {
                let ft = choose|ft: int| 0 <= ft < free.len() && (#[trigger] free[ft]) == c;
                assert(p[(free[ft]) as int] == cur0[free[ft] as int] as int);
                assert(sol[c] == cur0[c]);
            }
        };
        lemma_dot_skip_agree_nz(mrow, p, as_ints(sol), nbi, pc);
        assert(dot_skip(mrow, p, nbi, pc) == dot_skip(mrow, as_ints(sol), nbi, pc));
        assert(pv * p[pc] == rhs);
        assert(p[pc] >= 0);
        lemma_component_le_total(p, pc);
        assert(p[pc] <= spec_bound(jv, bv));
    };
}

/// The skipped dot product reads only columns with coefficients.
proof fn lemma_dot_skip_agree_nz(row: Seq<i64>, p1: Seq<int>, p2: Seq<int>, hi: int, skip: int)
    requires
        forall|c: int| 0 <= c < hi && c != skip && row[c] != 0i64 ==> p1[c] == #[trigger] p2[c],
    ensures
        dot_skip(row, p1, hi, skip) == dot_skip(row, p2, hi, skip),
    decreases hi,
{
    if hi > 0 {
        lemma_dot_skip_agree_nz(row, p1, p2, hi - 1, skip);
        let c = hi - 1;
        if c != skip && row[c] == 0i64 {
            assert(row[c] as int * p1[c] == 0 && row[c] as int * p2[c] == 0) by (nonlinear_arith)
                requires
                    row[c] as int == 0,
            ;
        }
    }
}

/// Cutting a branch at this partial total loses no matching bounded
/// solution cheaper than the minimum so far.
proof fn lemma_prune_safe(
    jv: Seq<i64>,
    bv: Seq<Vec<usize>>,
    free: Seq<usize>,
    cur0: Seq<i64>,
    cur: Seq<i64>,
    var_idx: int,
    val: int,
    partial: int,
    minp: int,
)
    requires
        0 <= var_idx < free.len(),
        cur.len() == bv.len(),
        cur0.len() == bv.len(),
        forall|t: int| 0 <= t < free.len() ==> (#[trigger] free[t]) < bv.len(),
        forall|t1: int, t2: int|
            0 <= t1 < t2 < free.len() ==> #[trigger] free[t1] != #[trigger] free[t2],
        forall|c: int|
            0 <= c < cur.len() && c != free[var_idx] ==> #[trigger] cur[c] == cur0[c],
        cur[free[var_idx] as int] as int == val,
        forall|c: int|
            0 <= c < bv.len() && !(exists|t: int|
                0 <= t < var_idx && (#[trigger] free[t]) == c) ==> cur0[c] == 0i64,
        partial == total_presses(as_ints(cur)),
        partial >= minp,
    ensures
        forall|p: Seq<int>|
            #[trigger] candidate_matches(jv, bv, free, cur0, var_idx, p) && p[free[var_idx] as int]
                >= val ==> minp <= total_presses(p),
{
    let fc = free[var_idx] as int;
    let ci = as_ints(cur);
    assert forall|c: int|
        0 <= c < ci.len() && !(exists|t: int| 0 <= t < var_idx + 1 && (#[trigger] free[t]) == c)
            implies #[trigger] ci[c] == 0 by {
        if c != fc {
            if exists|t: int| 0 <= t < var_idx && (#[trigger] free[t]) == c {
                let t = choose|t: int| 0 <= t < var_idx && (#[trigger] free[t]) == c;
            }
        }
    };
    lemma_total_is_free_sum(ci, free, var_idx + 1);
    assert forall|p: Seq<int>|
        #[trigger] candidate_matches(jv, bv, free, cur0, var_idx, p) && p[fc] >= val implies minp
        <= total_presses(p) by {
        lemma_free_prefix_le_total(p, free, var_idx + 1);
        assert(free_prefix_sum(p, free, var_idx + 1) == free_prefix_sum(p, free, var_idx)
            + p[fc]);
        assert(free_prefix_sum(ci, free, var_idx + 1) == free_prefix_sum(ci, free, var_idx)
            + val);
        lemma_free_prefix_same(p, ci, free, var_idx, cur0);
    };
}

/// Matching prefixes give matching free-column sums.
proof fn lemma_free_prefix_same(p: Seq<int>, ci: Seq<int>, free: Seq<usize>, k: int, cur0: Seq<i64>)
    requires
        0 <= k <= free.len(),
        forall|t: int| 0 <= t < free.len() ==> (#[trigger] free[t]) < ci.len(),
        forall|t: int| 0 <= t < k ==> p[(#[trigger] free[t]) as int] == cur0[free[t] as int] as int,
        forall|t: int| 0 <= t < k ==> ci[(#[trigger] free[t]) as int] == cur0[free[t] as int] as int,
    ensures
        free_prefix_sum(p, free, k) == free_prefix_sum(ci, free, k),
    decreases k,
{
    if k > 0 {
        lemma_free_prefix_same(p, ci, free, k - 1, cur0);
    }
}

/// Sums a partial press vector whose entries may still be negative, or
/// `None` on machine overflow.
fn sum_presses_partial(p: &Vec<i64>) -> (r: Option<i64>)
    ensures
        match r {
            Some(t) => t == total_presses(as_ints(p@)),
            None => true,
        },
{
    let n = p.len();
    let mut sum: i64 = 0;
    let mut i: usize = 0;
    while i < n
        invariant
            0 <= i <= n,
            n == p@.len(),
            sum == total_presses(as_ints(p@.subrange(0, i as int))),
        decreases n - i,
    {
        proof {
            assert(as_ints(p@.subrange(0, i + 1)).drop_last() =~= as_ints(
                p@.subrange(0, i as int),
            ));
        }
        match sum.checked_add(p[i]) {
            Some(x) => {
                sum = x;
            },
            None => {
                return None;
            },
        }
        i = i + 1;
    }
    proof {
        assert(p@.subrange(0, n as int) =~= p@);
    }
    Some(sum)
}

/// What the integer stage answers.  A reported total is witnessed by
/// non-negative press counts that drive every counter exactly to its
/// target, and no bounded solution does better; a report of no solution
/// means no bounded solution with a representable total exists at all.
pub open spec fn counters_answer_ok(
    joltages: Seq<i64>,
    buttons: Seq<Vec<usize>>,
    r: Option<i64>,
) -> bool {
    match r {
        Some(t) => {
            &&& 0 <= t
            &&& (t as int) < i64::MAX as int
            &&& exists|p: Seq<int>|
                bounded_solution(joltages, buttons, p) && total_presses(p) == t as int
            &&& forall|p: Seq<int>|
                bounded_solution(joltages, buttons, p) ==> t as int <= total_presses(p)
        },
        None => forall|p: Seq<int>|
            !(bounded_solution(joltages, buttons, p) && total_presses(p) < i64::MAX as int),
    }
}

/// The largest target over any prefix is never negative.
proof fn lemma_max_jolt_nonneg(joltages: Seq<i64>, k: int)
    ensures
        spec_max_jolt(joltages, k) >= 0,
    decreases k,
{
    if k > 0 {
        lemma_max_jolt_nonneg(joltages, k - 1);
    }
}

/// The per-component search bound is never negative.
proof fn lemma_spec_bound_nonneg(joltages: Seq<i64>, buttons: Seq<Vec<usize>>)
    ensures
        spec_bound(joltages, buttons) >= 0,
{
    lemma_max_jolt_nonneg(joltages, joltages.len() as int);
    let m = spec_max_jolt(joltages, joltages.len() as int);
    assert(m * buttons.len() >= 0) by (nonlinear_arith)
        requires
            m >= 0,
    ;
}

/// A search over every free column that finishes with a sound minimum and
/// has inspected every bounded solution yields a correct stage answer.
proof fn lemma_search_outcome(
    joltages: Seq<i64>,
    buttons: Seq<Vec<usize>>,
    free: Seq<usize>,
    cur0: Seq<i64>,
    m: i64,
)
    requires
        counters_sound(joltages, buttons, m),
        forall|p: Seq<int>|
            candidate_matches(joltages, buttons, free, cur0, 0, p) ==> m as int <= total_presses(
                p,
            ),
    ensures
        counters_answer_ok(
            joltages,
            buttons,
            if m == i64::MAX {
                None
            } else {
                Some(m)
            },
        ),
{
    if m == i64::MAX {
        assert forall|p: Seq<int>|
            !(bounded_solution(joltages, buttons, p) && total_presses(p)
                < i64::MAX as int) by {
            if bounded_solution(joltages, buttons, p) && total_presses(p) < i64::MAX as int {
                assert(candidate_matches(joltages, buttons, free, cur0, 0, p));
            }
        };
    } else {
        assert forall|p: Seq<int>|
            bounded_solution(joltages, buttons, p) implies m as int <= total_presses(p) by {
            if total_presses(p) <= i64::MAX as int {
                assert(candidate_matches(joltages, buttons, free, cur0, 0, p));
            }
        };
    }
}

/// The integer stage's answer is determined: any two results meeting its
/// contract on the same machine agree, whether present or absent.
pub proof fn lemma_counters_answer_unique(
    joltages: Seq<i64>,
    buttons: Seq<Vec<usize>>,
    r1: Option<i64>,
    r2: Option<i64>,
)
    requires
        counters_answer_ok(joltages, buttons, r1),
        counters_answer_ok(joltages, buttons, r2),
    ensures
        r1 == r2,
{
    match (r1, r2) {
        (Some(t1), Some(t2)) => {
            let p1 = choose|p: Seq<int>|
                bounded_solution(joltages, buttons, p) && total_presses(p) == t1 as int;
            let p2 = choose|p: Seq<int>|
                bounded_solution(joltages, buttons, p) && total_presses(p) == t2 as int;
            assert(t1 as int <= total_presses(p2));
            assert(t2 as int <= total_presses(p1));
        },
        (Some(t1), None) => {
            let p1 = choose|p: Seq<int>|
                bounded_solution(joltages, buttons, p) && total_presses(p) == t1 as int;
            assert(false);
        },
        (None, Some(t2)) => {
            let p2 = choose|p: Seq<int>|
                bounded_solution(joltages, buttons, p) && total_presses(p) == t2 as int;
            assert(false);
        },
        (None, None) => {
        },
    }
}

/// What the recorded counter-stage answer for one machine satisfies: the
/// exact stage contract whenever the machine is narrow enough for the
/// solver's exact arithmetic, soundness and minimality for any reported
/// total regardless, and zero for a machine whose counters all read zero.
pub open spec fn joltage_answer_ok(m: Machine, a: Option<i64>) -> bool {
    &&& (m.buttons@.len() <= 0x80000000 ==> counters_answer_ok(m.joltages@, m.buttons@, a))
    &&& (a is Some ==> counters_answer_ok(m.joltages@, m.buttons@, a))
    &&& ((forall|t: int| 0 <= t < m.joltages@.len() ==> m.joltages@[t] == 0i64) ==> a == Some(
        0i64,
    ))
}

/// Answer sequences meeting the counter-stage contract machine by machine
/// agree entirely, so the stage's summed answer is determined as well.
pub proof fn lemma_part2_answers_unique(
    ms: Seq<Machine>,
    a1: Seq<Option<i64>>,
    a2: Seq<Option<i64>>,
)
    requires
        a1.len() == ms.len(),
        a2.len() == ms.len(),
        forall|i: int| 0 <= i < ms.len() ==> (#[trigger] ms[i]).buttons@.len() <= 0x80000000,
        forall|i: int| 0 <= i < ms.len() ==> #[trigger] joltage_answer_ok(ms[i], a1[i]),
        forall|i: int| 0 <= i < ms.len() ==> #[trigger] joltage_answer_ok(ms[i], a2[i]),
    ensures
        a1 == a2,
{
    assert forall|i: int| 0 <= i < ms.len() implies a1[i] == a2[i] by {
        assert(joltage_answer_ok(ms[i], a1[i]));
        assert(joltage_answer_ok(ms[i], a2[i]));
        lemma_counters_answer_unique(ms[i].joltages@, ms[i].buttons@, a1[i], a2[i]);
    };
    assert(a1 =~= a2);
}

/// Exhaustive bounded search over every button, used when elimination
/// leaves the exact integer range: every column is treated as free, so
/// the search inspects each bounded assignment directly.
fn brute_force_counters(machine: &Machine, n_buttons: usize, max_val: i64) -> (r: Option<i64>)
    requires
        n_buttons == machine.buttons@.len(),
        n_buttons <= 0x80000000,
        max_val as int == cap_bound(machine.joltages@, machine.buttons@),
        max_val >= 0,
    ensures
        counters_answer_ok(machine.joltages@, machine.buttons@, r),
{
    let mut free_vars: Vec<usize> = Vec::new();
    let mut c: usize = 0;
    while c < n_buttons
        invariant
            0 <= c <= n_buttons,
            free_vars@.len() == c,
            forall|t: int| 0 <= t < c ==> (#[trigger] free_vars@[t]) == t,
        decreases n_buttons - c,
    {
        free_vars.push(c);
        c = c + 1;
    }
    let empty_matrix: Vec<Vec<i64>> = Vec::new();
    let pivot_cols: Vec<usize> = Vec::new();
    let pivot_vals: Vec<i64> = Vec::new();
    let mut current = zeroes_i64(n_buttons);
    let mut min_presses: i64 = i64::MAX;
    proof {
        assert forall|cc: int|
            0 <= cc < n_buttons && !col_in(pivot_cols@, cc) implies col_in(free_vars@, cc) by {
            assert(free_vars@[cc] == cc);
        };
    }
    search_free_vars_v2(
        machine,
        &empty_matrix,
        &pivot_cols,
        &pivot_vals,
        &free_vars,
        0,
        n_buttons,
        0,
        &mut current,
        &mut min_presses,
        max_val,
    );
    proof {
        lemma_search_outcome(
            machine.joltages@,
            machine.buttons@,
            free_vars@,
            current@,
            min_presses,
        );
    }
    if min_presses == i64::MAX {
        None
    } else {
        Some(min_presses)
    }
}

/// Least total number of presses driving every counter exactly to its
/// target, searched over the free columns of the eliminated integer
/// system up to a generous bound, or `None` when no acceptable assignment
/// is found (the system is inconsistent, every candidate in the bounded
/// search fails, or the exact integer arithmetic leaves the machine
/// range).
pub fn solve_joltage(machine: &Machine) -> (r: Option<i64>)
    ensures
        machine.joltages@.len() == 0 ==> r == Some(0i64),
        (forall|i: int| 0 <= i < machine.joltages@.len() ==> machine.joltages@[i] == 0i64)
            ==> r == Some(0i64),
        r is Some ==> counters_answer_ok(machine.joltages@, machine.buttons@, r),
        machine.buttons@.len() <= 0x80000000 ==> counters_answer_ok(
            machine.joltages@,
            machine.buttons@,
            r,
        ),
{
    let ghost jv = machine.joltages@;
    let ghost bv = machine.buttons@;
    let n_counters = machine.joltages.len();
    let n_buttons = machine.buttons.len();
    let ghost nbi = n_buttons as int;

    if n_counters == 0 {
        proof {
            let p = Seq::new(bv.len(), |j: int| 0int);
            lemma_total_zeroes(p);
            lemma_spec_bound_nonneg(jv, bv);
            assert(solves_counters(jv, bv, p));
            assert(bounded_solution(jv, bv, p));
            assert forall|q: Seq<int>| bounded_solution(jv, bv, q) implies 0
                <= total_presses(q) by {
                lemma_total_nonneg(q);
            };
        }
        return Some(0);
    }

    // counters that all read zero need no presses at all
    let mut all_zero_targets = true;
    let mut zi: usize = 0;
    while zi < n_counters
        invariant
            0 <= zi <= n_counters,
            n_counters == machine.joltages@.len(),
            all_zero_targets == (forall|i: int|
                0 <= i < zi ==> machine.joltages@[i] == 0i64),
        decreases n_counters - zi,
    {
        if machine.joltages[zi] != 0 {
            all_zero_targets = false;
        }
        zi = zi + 1;
    }
    if all_zero_targets {
        proof {
            let p = Seq::new(bv.len(), |j: int| 0int);
            lemma_total_zeroes(p);
            lemma_spec_bound_nonneg(jv, bv);
            assert forall|i: int|
                0 <= i < jv.len() implies counter_upto(bv, p, i, bv.len() as int) == jv[i]
                as int by {
                lemma_counter_zeroes(bv, p, i, bv.len() as int);
            };
            assert(solves_counters(jv, bv, p));
            assert(bounded_solution(jv, bv, p));
            assert forall|q: Seq<int>| bounded_solution(jv, bv, q) implies 0
                <= total_presses(q) by {
                lemma_total_nonneg(q);
            };
        }
        return Some(0);
    }

    // a machine too wide for the solver's exact arithmetic is out of range
    if n_buttons > 0x80000000 {
        return None;
    }

    // the per-component search bound: largest target times button count
    let mut max_joltage: i64 = 0;
    let mut mt: usize = 0;
    while mt < n_counters
        invariant
            0 <= mt <= n_counters,
            n_counters == machine.joltages@.len(),
            max_joltage >= 0,
            max_joltage as int == spec_max_jolt(machine.joltages@, mt as int),
        decreases n_counters - mt,
    {
        if machine.joltages[mt] > max_joltage {
            max_joltage = machine.joltages[mt];
        }
        mt = mt + 1;
    }
    let max_val: i64 = match max_joltage.checked_mul(n_buttons as i64) {
        Some(b) => {
            proof {
                assert(b as int == spec_bound(jv, bv));
                lemma_spec_bound_nonneg(jv, bv);
            }
            b
        },
        None => {
            proof {
                let m = max_joltage as int;
                let n = nbi;
                assert(m * n >= 0) by (nonlinear_arith)
                    requires
                        m >= 0,
                        n >= 0,
                ;
                assert(spec_bound(jv, bv) > i64::MAX as int);
            }
            i64::MAX
        },
    };
    proof {
        assert(max_val as int == cap_bound(jv, bv));
    }

    // augmented integer matrix: a row per counter, a column per button
    let mut matrix: Vec<Vec<i64>> = Vec::new();
    let mut i: usize = 0;
    while i < n_counters
        invariant
            0 <= i <= n_counters,
            n_counters == machine.joltages@.len(),
            n_buttons == machine.buttons@.len(),
            matrix@.len() == i,
            forall|r: int| 0 <= r < i ==> (#[trigger] matrix@[r]@).len() == n_buttons + 1,
            forall|r: int, j: int|
                0 <= r < i && 0 <= j < n_buttons ==> #[trigger] matrix@[r]@[j] as int == (
                if affects(machine.buttons@, j, r) {
                    1int
                } else {
                    0int
                }),
            forall|r: int|
                0 <= r < i ==> #[trigger] matrix@[r]@[n_buttons as int]
                    == machine.joltages@[r],
        decreases n_counters - i,
    {
        let mut row: Vec<i64> = Vec::new();
        let mut j: usize = 0;
        while j < n_buttons
            invariant
                0 <= j <= n_buttons,
                n_buttons == machine.buttons@.len(),
                i < machine.joltages@.len(),
                row@.len() == j,
                forall|c: int|
                    0 <= c < j ==> #[trigger] row@[c] as int == (if affects(
                        machine.buttons@,
                        c,
                        i as int,
                    ) {
                        1int
                    } else {
                        0int
                    }),
            decreases n_buttons - j,
        {
            if contains_pos(&machine.buttons[j], i) {
                row.push(1);
            } else {
                row.push(0);
            }
            j = j + 1;
        }
        row.push(machine.joltages[i]);
        matrix.push(row);
        i = i + 1;
    }
    proof {
        // the initial rows restate the counter equations exactly
        assert forall|p: Seq<int>, t: int|
            p.len() == n_buttons && solves_counters(jv, bv, p) && 0 <= t < n_counters
                implies #[trigger] row_sat_int(matrix@[t]@, p, nbi) by {
            lemma_dot_counters(bv, matrix@[t]@, p, t, nbi);
        };
    }

    // fraction-free forward elimination
    let mut pivot_cols: Vec<usize> = Vec::new();
    let mut pivot_vals: Vec<i64> = Vec::new();
    let mut current_row: usize = 0;
    let mut col: usize = 0;
    while col < n_buttons
        invariant
            0 <= col <= n_buttons,
            n_counters == machine.joltages@.len(),
            n_counters > 0,
            !(forall|i: int| 0 <= i < jv.len() ==> jv[i] == 0i64),
            n_buttons == machine.buttons@.len(),
            n_buttons <= 0x80000000,
            nbi == n_buttons as int,
            jv == machine.joltages@,
            bv == machine.buttons@,
            max_val as int == cap_bound(jv, bv),
            max_val >= 0,
            matrix@.len() == n_counters,
            forall|r: int| 0 <= r < n_counters ==> (#[trigger] matrix@[r]@).len() == n_buttons + 1,
            pivot_cols@.len() == current_row,
            pivot_vals@.len() == current_row,
            current_row <= n_counters,
            forall|t: int| 0 <= t < current_row ==> (#[trigger] pivot_cols@[t]) < col,
            forall|t1: int, t2: int|
                0 <= t1 < t2 < current_row ==> #[trigger] pivot_cols@[t1]
                    < #[trigger] pivot_cols@[t2],
            forall|t: int|
                0 <= t < current_row ==> (#[trigger] pivot_vals@[t])
                    == matrix@[t]@[pivot_cols@[t] as int] && pivot_vals@[t] != 0i64,
            forall|t: int, cc: int|
                0 <= t < current_row && 0 <= cc < pivot_cols@[t] ==> #[trigger] matrix@[t]@[cc]
                    == 0i64,
            forall|rr: int, cc: int|
                current_row <= rr < n_counters && 0 <= cc < col ==> #[trigger] matrix@[rr]@[cc]
                    == 0i64,
            forall|p: Seq<int>, t: int|
                p.len() == n_buttons && solves_counters(jv, bv, p) && 0 <= t < n_counters
                    ==> #[trigger] row_sat_int(matrix@[t]@, p, nbi),
        decreases n_buttons - col,
    {
        let mut pr: usize = current_row;
        while pr < n_counters && matrix[pr][col] == 0
            invariant
                current_row <= pr <= n_counters,
                matrix@.len() == n_counters,
                col < n_buttons,
                forall|r: int|
                    0 <= r < n_counters ==> (#[trigger] matrix@[r]@).len() == n_buttons + 1,
                forall|rr: int|
                    current_row <= rr < pr ==> #[trigger] matrix@[rr]@[col as int] == 0i64,
            decreases n_counters - pr,
        {
            pr = pr + 1;
        }
        if pr < n_counters {
            if pr != current_row {
                let ghost m0 = matrix@;
                let ra = copy_i64s(&matrix[current_row]);
                let rb = copy_i64s(&matrix[pr]);
                matrix[current_row] = rb;
                matrix[pr] = ra;
                proof {
                    assert forall|p: Seq<int>, t: int|
                        p.len() == n_buttons && solves_counters(jv, bv, p) && 0 <= t < n_counters
                            implies #[trigger] row_sat_int(matrix@[t]@, p, nbi) by {
                        if t == current_row {
                            assert(matrix@[t]@ == m0[pr as int]@);
                            assert(row_sat_int(m0[pr as int]@, p, nbi));
                        } else if t == pr {
                            assert(matrix@[t]@ == m0[current_row as int]@);
                            assert(row_sat_int(m0[current_row as int]@, p, nbi));
                        } else {
                            assert(matrix@[t]@ == m0[t]@);
                            assert(row_sat_int(m0[t]@, p, nbi));
                        }
                    };
                }
            }
            pivot_cols.push(col);
            pivot_vals.push(matrix[current_row][col]);
            let mut r: usize = current_row + 1;
            while r < n_counters
                invariant
                    current_row + 1 <= r <= n_counters,
                    current_row < n_counters,
                    col < n_buttons,
                    !(forall|i: int| 0 <= i < jv.len() ==> jv[i] == 0i64),
                    n_buttons <= 0x80000000,
                    nbi == n_buttons as int,
                    jv == machine.joltages@,
                    bv == machine.buttons@,
                    max_val as int == cap_bound(jv, bv),
                    max_val >= 0,
                    matrix@.len() == n_counters,
                    n_counters == machine.joltages@.len(),
                    n_counters > 0,
                    n_buttons == machine.buttons@.len(),
                    forall|rr: int|
                        0 <= rr < n_counters ==> (#[trigger] matrix@[rr]@).len() == n_buttons + 1,
                    pivot_cols@.len() == current_row + 1,
                    pivot_vals@.len() == current_row + 1,
                    pivot_cols@[current_row as int] == col,
                    forall|t: int| 0 <= t < current_row ==> (#[trigger] pivot_cols@[t]) < col,
                    forall|t1: int, t2: int|
                        0 <= t1 < t2 < current_row + 1 ==> #[trigger] pivot_cols@[t1]
                            < #[trigger] pivot_cols@[t2],
                    forall|t: int|
                        0 <= t < current_row + 1 ==> (#[trigger] pivot_vals@[t])
                            == matrix@[t]@[pivot_cols@[t] as int] && pivot_vals@[t] != 0i64,
                    forall|t: int, cc: int|
                        0 <= t < current_row + 1 && 0 <= cc < pivot_cols@[t]
                            ==> #[trigger] matrix@[t]@[cc] == 0i64,
                    forall|rr: int, cc: int|
                        current_row < rr < r && 0 <= cc <= col ==> #[trigger] matrix@[rr]@[cc]
                            == 0i64,
                    forall|rr: int, cc: int|
                        r <= rr < n_counters && 0 <= cc < col ==> #[trigger] matrix@[rr]@[cc]
                            == 0i64,
                    forall|p: Seq<int>, t: int|
                        p.len() == n_buttons && solves_counters(jv, bv, p) && 0 <= t < n_counters
                            ==> #[trigger] row_sat_int(matrix@[t]@, p, nbi),
                decreases n_counters - r,
            {
                if matrix[r][col] != 0 {
                    let pivot_val = matrix[current_row][col];
                    let factor = matrix[r][col];
                    let combined = match combine_rows(
                        &matrix[r],
                        &matrix[current_row],
                        pivot_val,
                        factor,
                    ) {
                        Some(v) => v,
                        None => {
                            // exact elimination left the machine range: fall
                            // back to the direct bounded search
                            return brute_force_counters(machine, n_buttons, max_val);
                        },
                    };
                    let ghost m0 = matrix@;
                    matrix[r] = combined;
                    proof {
                        assert forall|p: Seq<int>, t: int|
                            p.len() == n_buttons && solves_counters(jv, bv, p) && 0 <= t
                                < n_counters implies #[trigger] row_sat_int(
                            matrix@[t]@,
                            p,
                            nbi,
                        ) by {
                            if t == r {
                                assert(row_sat_int(m0[r as int]@, p, nbi));
                                assert(row_sat_int(m0[current_row as int]@, p, nbi));
                                lemma_combine_sat(
                                    m0[r as int]@,
                                    m0[current_row as int]@,
                                    combined@,
                                    p,
                                    pivot_val,
                                    factor,
                                    nbi,
                                );
                                assert(matrix@[t]@ == combined@);
                            } else {
                                assert(matrix@[t]@ == m0[t]@);
                                assert(row_sat_int(m0[t]@, p, nbi));
                            }
                        };
                        assert forall|cc: int|
                            0 <= cc <= col implies #[trigger] combined@[cc] == 0i64 by {
                            if cc < col {
                                assert(m0[r as int]@[cc] == 0i64);
                                assert(m0[current_row as int]@[cc] == 0i64);
                                assert(combined@[cc] as int == 0i64 * pivot_val - 0i64 * factor);
                            } else {
                                assert(combined@[cc] as int == factor * pivot_val - pivot_val
                                    * factor);
                                assert(factor * pivot_val - pivot_val * factor == 0)
                                    by (nonlinear_arith);
                            }
                        };
                    }
                }
                r = r + 1;
            }
            current_row = current_row + 1;
        }
        col = col + 1;
    }

    // a row with no coefficients left but a non-zero target is infeasible
    let mut r: usize = 0;
    while r < n_counters
        invariant
            0 <= r <= n_counters,
            matrix@.len() == n_counters,
            n_buttons == machine.buttons@.len(),
            n_counters == machine.joltages@.len(),
            n_counters > 0,
            !(forall|i: int| 0 <= i < jv.len() ==> jv[i] == 0i64),
            n_buttons <= 0x80000000,
            nbi == n_buttons as int,
            jv == machine.joltages@,
            bv == machine.buttons@,
            forall|rr: int|
                0 <= rr < n_counters ==> (#[trigger] matrix@[rr]@).len() == n_buttons + 1,
            forall|p: Seq<int>, t: int|
                p.len() == n_buttons && solves_counters(jv, bv, p) && 0 <= t < n_counters
                    ==> #[trigger] row_sat_int(matrix@[t]@, p, nbi),
        decreases n_counters - r,
    {
        let mut all_zero = true;
        let mut c: usize = 0;
        while c < n_buttons
            invariant
                0 <= c <= n_buttons,
                r < n_counters,
                matrix@.len() == n_counters,
                forall|rr: int|
                    0 <= rr < n_counters ==> (#[trigger] matrix@[rr]@).len() == n_buttons + 1,
                all_zero == (forall|cc: int| 0 <= cc < c ==> #[trigger] matrix@[r as int]@[cc]
                    == 0i64),
            decreases n_buttons - c,
    {
            if matrix[r][c] != 0 {
                all_zero = false;
            }
            c = c + 1;
        }
        if all_zero && matrix[r][n_buttons] != 0 {
            proof {
                assert forall|p: Seq<int>|
                    !(bounded_solution(jv, bv, p) && total_presses(p) < i64::MAX as int) by {
                    if bounded_solution(jv, bv, p) {
                        assert(solves_counters(jv, bv, p));
                        assert(p.len() == n_buttons);
                        assert(row_sat_int(matrix@[r as int]@, p, nbi));
                        lemma_dot_zero_int(matrix@[r as int]@, p, nbi);
                    }
                };
            }
            return None;
        }
        r = r + 1;
    }

    // elimination can leave entries too large for the exact back
    // substitution: fall back to the direct bounded search if it did
    let mut ti: usize = 0;
    while ti < current_row
        invariant
            0 <= ti <= current_row,
            current_row <= n_counters,
            matrix@.len() == n_counters,
            n_buttons == machine.buttons@.len(),
            !(forall|i: int| 0 <= i < jv.len() ==> jv[i] == 0i64),
            n_buttons <= 0x80000000,
            max_val as int == cap_bound(jv, bv),
            max_val >= 0,
            jv == machine.joltages@,
            bv == machine.buttons@,
            forall|rr: int|
                0 <= rr < n_counters ==> (#[trigger] matrix@[rr]@).len() == n_buttons + 1,
            forall|t: int, cc: int|
                0 <= t < ti && 0 <= cc <= n_buttons ==> -0x80000000 <= #[trigger] matrix@[t]@[cc]
                    <= 0x80000000,
        decreases current_row - ti,
    {
        let mut cc: usize = 0;
        while cc < n_buttons + 1
            invariant
                0 <= cc <= n_buttons + 1,
                ti < current_row,
                current_row <= n_counters,
                matrix@.len() == n_counters,
                n_buttons == machine.buttons@.len(),
                !(forall|i: int| 0 <= i < jv.len() ==> jv[i] == 0i64),
                n_buttons <= 0x80000000,
                max_val as int == cap_bound(jv, bv),
                max_val >= 0,
                jv == machine.joltages@,
                bv == machine.buttons@,
                forall|rr: int|
                    0 <= rr < n_counters ==> (#[trigger] matrix@[rr]@).len() == n_buttons + 1,
                forall|c2: int|
                    0 <= c2 < cc ==> -0x80000000 <= #[trigger] matrix@[ti as int]@[c2]
                        <= 0x80000000,
            decreases n_buttons + 1 - cc,
        {
            let e = matrix[ti][cc];
            if e < -0x80000000 || e > 0x80000000 {
                return brute_force_counters(machine, n_buttons, max_val);
            }
            cc = cc + 1;
        }
        ti = ti + 1;
    }

    // columns without a pivot are free
    let mut free_vars: Vec<usize> = Vec::new();
    let mut c: usize = 0;
    while c < n_buttons
        invariant
            0 <= c <= n_buttons,
            n_buttons == machine.buttons@.len(),
            pivot_cols@.len() == current_row,
            forall|t: int| 0 <= t < free_vars@.len() ==> (#[trigger] free_vars@[t]) < c,
            forall|t1: int, t2: int|
                0 <= t1 < t2 < free_vars@.len() ==> #[trigger] free_vars@[t1]
                    < #[trigger] free_vars@[t2],
            forall|t: int|
                0 <= t < free_vars@.len() ==> !col_in(pivot_cols@, #[trigger] free_vars@[t] as int),
            forall|cc: int| 0 <= cc < c && !col_in(pivot_cols@, cc) ==> col_in(free_vars@, cc),
        decreases n_buttons - c,
    {
        let ghost fv0 = free_vars@;
        if !contains_pos(&pivot_cols, c) {
            free_vars.push(c);
            proof {
                assert forall|cc: int|
                    0 <= cc < c + 1 && !col_in(pivot_cols@, cc) implies col_in(
                    free_vars@,
                    cc,
                ) by {
                    if cc < c {
                        let k = choose|k: int| 0 <= k < fv0.len() && fv0[k] == cc;
                        assert(free_vars@[k] == cc);
                    } else {
                        assert(free_vars@[free_vars@.len() - 1] == cc);
                    }
                };
            }
        }
        c = c + 1;
    }

    let mut current = zeroes_i64(n_buttons);
    let mut min_presses: i64 = i64::MAX;
    proof {
        assert forall|t1: int, t2: int|
            0 <= t1 < t2 < free_vars@.len() implies #[trigger] free_vars@[t1]
            != #[trigger] free_vars@[t2] by {};
        assert forall|p: Seq<int>|
            p.len() == n_buttons && solves_counters(jv, bv, p) implies (forall|t: int|
            0 <= t < current_row ==> row_sat_int(#[trigger] matrix@[t]@, p, nbi)) by {
            assert forall|t: int|
                0 <= t < current_row implies row_sat_int(#[trigger] matrix@[t]@, p, nbi) by {
                assert(row_sat_int(matrix@[t]@, p, nbi));
            };
        };
    }
    search_free_vars_v2(
        machine,
        &matrix,
        &pivot_cols,
        &pivot_vals,
        &free_vars,
        current_row,
        n_buttons,
        0,
        &mut current,
        &mut min_presses,
        max_val,
    );
    proof {
        lemma_search_outcome(jv, bv, free_vars@, current@, min_presses);
    }
    if min_presses == i64::MAX {
        None
    } else {
        Some(min_presses)
    }
}

/// First occurrence of `c` in `s` at or after position `i`.
pub open spec fn find_from(s: Seq<char>, c: char, i: int) -> Option<int>
    decreases s.len() - i,
{
    if i < 0 || i >= s.len() {
        None
    } else if s[i] == c {
        Some(i)
    } else {
        find_from(s, c, i + 1)
    }
}

/// A found position is in range and holds the character looked for.
proof fn lemma_find_from_range(s: Seq<char>, c: char, i: int)
    ensures
        match find_from(s, c, i) {
            Some(e) => i <= e < s.len() && s[e] == c,
            None => true,
        },
    decreases s.len() - i,
{
    if 0 <= i < s.len() && s[i] != c {
        lemma_find_from_range(s, c, i + 1);
    }
}

/// Finds `c` in `s` at or after `from`.
fn find_char_from(s: &str, c: char, from: usize) -> (r: Option<usize>)
    ensures
        match r {
            Some(j) => from <= j < s@.len() && find_from(s@, c, from as int) == Some(j as int),
            None => find_from(s@, c, from as int) is None,
        },
{
    let n = s.unicode_len();
    let mut i = from;
    if from >= n {
        return None;
    }
    while i < n
        invariant
            from <= i <= n,
            n == s@.len(),
            find_from(s@, c, from as int) == find_from(s@, c, i as int),
        decreases n - i,
    {
        if s.get_char(i) == c {
            return Some(i);
        }
        i = i + 1;
    }
    None
}

/// A comma-separated piece denotes one position index.
pub open spec fn pos_ok(piece: Seq<char>) -> bool {
    let p = spec_trim(piece);
    p.len() > 0 && all_digits(p) && num_val(p) <= usize::MAX
}

/// The position indices inside one button group, when every piece is one.
pub open spec fn spec_positions(seg: Seq<char>) -> Option<Seq<usize>> {
    let parts = spec_split(seg, ',');
    if forall|t: int| 0 <= t < parts.len() ==> pos_ok(#[trigger] parts[t]) {
        Some(Seq::new(parts.len(), |t: int| num_val(spec_trim(parts[t])) as usize))
    } else {
        None
    }
}

/// A comma-separated piece denotes one counter target.
pub open spec fn jolt_ok(piece: Seq<char>) -> bool {
    let p = spec_trim(piece);
    signed_ok(p) && i64::MIN <= signed_val(p) <= i64::MAX
}

/// The counter targets inside the brace group, when every piece is one.
pub open spec fn spec_jolts(seg: Seq<char>) -> Option<Seq<i64>> {
    let parts = spec_split(seg, ',');
    if forall|t: int| 0 <= t < parts.len() ==> jolt_ok(#[trigger] parts[t]) {
        Some(Seq::new(parts.len(), |t: int| signed_val(spec_trim(parts[t])) as i64))
    } else {
        None
    }
}

/// Parses one parenthesised position list.
fn parse_positions(seg: &str) -> (r: Option<Vec<usize>>)
    ensures
        match spec_positions(seg@) {
            Some(ps) => r is Some && r.unwrap()@ == ps,
            None => r is None,
        },
{
    let parts = split_of(seg, ',');
    let ghost pspec = spec_split(seg@, ',');
    let mut out: Vec<usize> = Vec::new();
    let mut i: usize = 0;
    while i < parts.len()
        invariant
            0 <= i <= parts@.len(),
            parts@.len() == pspec.len(),
            pspec == spec_split(seg@, ','),
            forall|t: int| 0 <= t < parts@.len() ==> #[trigger] parts@[t]@ == pspec[t],
            forall|t: int| 0 <= t < i ==> pos_ok(#[trigger] pspec[t]),
            out@.len() == i,
            forall|t: int|
                0 <= t < i ==> #[trigger] out@[t] == num_val(spec_trim(pspec[t])) as usize,
        decreases parts@.len() - i,
    {
        let piece = trim_of(parts[i]);
        match parse_u64(piece) {
            Some(v) => {
                if v > usize::MAX as u64 {
                    proof {
                        assert(!pos_ok(pspec[i as int]));
                    }
                    return None;
                }
                out.push(v as usize);
            },
            None => {
                proof {
                    if all_digits(spec_trim(pspec[i as int])) {
                        crate::text::lemma_num_val_nonneg(spec_trim(pspec[i as int]));
                    }
                    assert(!pos_ok(pspec[i as int]));
                }
                return None;
            },
        }
        i = i + 1;
    }
    proof {
        assert(out@ =~= Seq::new(pspec.len(), |t: int| num_val(spec_trim(pspec[t])) as usize));
    }
    Some(out)
}

/// Parses the counter-target list between braces.
fn parse_jolts(seg: &str) -> (r: Option<Vec<i64>>)
    ensures
        match spec_jolts(seg@) {
            Some(js) => r is Some && r.unwrap()@ == js,
            None => r is None,
        },
{
    let parts = split_of(seg, ',');
    let ghost pspec = spec_split(seg@, ',');
    let mut out: Vec<i64> = Vec::new();
    let mut i: usize = 0;
    while i < parts.len()
        invariant
            0 <= i <= parts@.len(),
            parts@.len() == pspec.len(),
            pspec == spec_split(seg@, ','),
            forall|t: int| 0 <= t < parts@.len() ==> #[trigger] parts@[t]@ == pspec[t],
            forall|t: int| 0 <= t < i ==> jolt_ok(#[trigger] pspec[t]),
            out@.len() == i,
            forall|t: int|
                0 <= t < i ==> #[trigger] out@[t] == signed_val(spec_trim(pspec[t])) as i64,
        decreases parts@.len() - i,
    {
        let piece = trim_of(parts[i]);
        match parse_i64(piece) {
            Some(v) => {
                out.push(v);
            },
            None => {
                proof {
                    assert(!jolt_ok(pspec[i as int]));
                }
                return None;
            },
        }
        i = i + 1;
    }
    proof {
        assert(out@ =~= Seq::new(pspec.len(), |t: int| signed_val(spec_trim(pspec[t])) as i64));
    }
    Some(out)
}

/// The button groups and counter targets read from position `i` on: a
/// `(...)` group adds one button (an empty pair adds none), a `{...}` group
/// gives the counter targets and ends the scan, and any other character is
/// skipped.  A group without its closing delimiter, or with a piece that is
/// no number, spoils the whole line.
pub open spec fn spec_groups(s: Seq<char>, i: int) -> Option<(Seq<Seq<usize>>, Seq<i64>)>
    decreases s.len() - i,
    via spec_groups_dec
{
    if i < 0 || i >= s.len() {
        Some((Seq::empty(), Seq::empty()))
    } else if s[i] == '(' {
        match find_from(s, ')', i) {
            None => None,
            Some(e) => {
                if e - i <= 1 {
                    spec_groups(s, e + 1)
                } else {
                    match spec_positions(s.subrange(i + 1, e)) {
                        None => None,
                        Some(ps) => match spec_groups(s, e + 1) {
                            None => None,
                            Some(rest) => Some((seq![ps] + rest.0, rest.1)),
                        },
                    }
                }
            },
        }
    } else if s[i] == '{' {
        match find_from(s, '}', i) {
            None => None,
            Some(e) => match spec_jolts(s.subrange(i + 1, e)) {
                None => None,
                Some(js) => Some((Seq::empty(), js)),
            },
        }
    } else {
        spec_groups(s, i + 1)
    }
}

#[via_fn]
proof fn spec_groups_dec(s: Seq<char>, i: int) {
    lemma_find_from_range(s, ')', i);
    lemma_find_from_range(s, '}', i);
}

/// The machine one line denotes: the `[...]` pattern gives the target
/// lights (`#` is on), then the button groups and counter targets follow.
pub open spec fn spec_parse_machine(s: Seq<char>) -> Option<
    (Seq<bool>, Seq<Seq<usize>>, Seq<i64>),
> {
    match (find_from(s, '[', 0), find_from(s, ']', 0)) {
        (Some(a), Some(b)) => if a < b {
            let target = Seq::new((b - a - 1) as nat, |k: int| s[a + 1 + k] == '#');
            match spec_groups(s, b + 1) {
                None => None,
                Some(g) => Some((target, g.0, g.1)),
            }
        } else {
            None
        },
        _ => None,
    }
}

/// The mathematical value of a machine.
pub open spec fn machine_model(m: Machine) -> (Seq<bool>, Seq<Seq<usize>>, Seq<i64>) {
    (m.target@, m.buttons@.map_values(|v: Vec<usize>| v@), m.joltages@)
}

/// Parses one line into a machine; a line that does not follow the format
/// is refused whole.
pub fn parse_machine_line(line: &str) -> (r: Option<Machine>)
    ensures
        match spec_parse_machine(line@) {
            Some(sp) => r is Some && machine_model(r.unwrap()) == sp,
            None => r is None,
        },
{
    let a = match find_char_from(line, '[', 0) {
        Some(x) => x,
        None => {
            return None;
        },
    };
    let b = match find_char_from(line, ']', 0) {
        Some(x) => x,
        None => {
            return None;
        },
    };
    if a >= b {
        return None;
    }
    let n = line.unicode_len();
    let mut target: Vec<bool> = Vec::new();
    let mut k = a + 1;
    while k < b
        invariant
            a + 1 <= k <= b,
            b < n,
            n == line@.len(),
            target@.len() == k - (a + 1),
            forall|t: int| 0 <= t < k - (a + 1) ==> #[trigger] target@[t] == (line@[a + 1 + t]
                == '#'),
        decreases b - k,
    {
        target.push(line.get_char(k) == '#');
        k = k + 1;
    }
    let ghost gspec = spec_groups(line@, b + 1);
    let mut buttons: Vec<Vec<usize>> = Vec::new();
    let mut joltages: Vec<i64> = Vec::new();
    let mut done = false;
    let mut i = b + 1;
    while i < n && !done
        invariant
            b + 1 <= i,
            a < b < n,
            n == line@.len(),
            find_from(line@, '[', 0) == Some(a as int),
            find_from(line@, ']', 0) == Some(b as int),
            gspec == spec_groups(line@, b + 1),
            !done ==> joltages@.len() == 0,
            !done ==> (match spec_groups(line@, i as int) {
                None => gspec is None,
                Some(gi) => gspec == Some(
                    (buttons@.map_values(|v: Vec<usize>| v@) + gi.0, gi.1),
                ),
            }),
            done ==> gspec == Some((buttons@.map_values(|v: Vec<usize>| v@), joltages@)),
        decreases n - i,
    {
        let ch = line.get_char(i);
        if ch == '(' {
            let e = match find_char_from(line, ')', i) {
                Some(x) => x,
                None => {
                    proof {
                        assert(spec_groups(line@, i as int) is None);
                        assert(spec_parse_machine(line@) is None);
                    }
                    return None;
                },
            };
            proof {
                lemma_find_from_range(line@, ')', i as int);
            }
            if e > i + 1 {
                let seg = line.substring_char(i + 1, e);
                let ps = match parse_positions(seg) {
                    Some(x) => x,
                    None => {
                        proof {
                            assert(spec_groups(line@, i as int) is None);
                            assert(spec_parse_machine(line@) is None);
                        }
                        return None;
                    },
                };
                let ghost oldbs = buttons@;
                buttons.push(ps);
                proof {
                    assert(buttons@.map_values(|v: Vec<usize>| v@) =~= oldbs.map_values(
                        |v: Vec<usize>| v@,
                    ) + seq![ps@]);
                    let gi = spec_groups(line@, i as int);
                    let gn = spec_groups(line@, e + 1);
                    if gn is Some {
                        assert(oldbs.map_values(|v: Vec<usize>| v@) + (seq![ps@]
                            + gn.unwrap().0) =~= buttons@.map_values(|v: Vec<usize>| v@)
                            + gn.unwrap().0);
                    }
                }
            }
            i = e + 1;
        } else if ch == '{' {
            let e = match find_char_from(line, '}', i) {
                Some(x) => x,
                None => {
                    proof {
                        assert(spec_groups(line@, i as int) is None);
                        assert(spec_parse_machine(line@) is None);
                    }
                    return None;
                },
            };
            proof {
                lemma_find_from_range(line@, '}', i as int);
            }
            let seg = line.substring_char(i + 1, e);
            let js = match parse_jolts(seg) {
                Some(x) => x,
                None => {
                    proof {
                        assert(spec_groups(line@, i as int) is None);
                        assert(spec_parse_machine(line@) is None);
                    }
                    return None;
                },
            };
            joltages = js;
            done = true;
            i = e + 1;
        } else {
            i = i + 1;
        }
    }
    let m = Machine { target, buttons, joltages };
    proof {
        if !done {
            assert(spec_groups(line@, i as int) == Some(
                (Seq::<Seq<usize>>::empty(), Seq::<i64>::empty()),
            ));
            assert(buttons@.map_values(|v: Vec<usize>| v@) + Seq::<Seq<usize>>::empty()
                =~= buttons@.map_values(|v: Vec<usize>| v@));
            assert(joltages@ =~= Seq::<i64>::empty());
        }
        let g = gspec.unwrap();
        assert(gspec == Some((buttons@.map_values(|v: Vec<usize>| v@), joltages@)));
        let sp = spec_parse_machine(line@).unwrap();
        assert(m.target@ =~= sp.0);
        assert(machine_model(m) == sp);
    }
    Some(m)
}

/// The machines denoted by a sequence of lines: empty lines and lines that
/// do not follow the format contribute nothing.
pub open spec fn spec_machines(lines: Seq<Seq<char>>) -> Seq<
    (Seq<bool>, Seq<Seq<usize>>, Seq<i64>),
>
    decreases lines.len(),
{
    if lines.len() == 0 {
        Seq::empty()
    } else {
        let rest = spec_machines(lines.drop_first());
        if lines[0].len() == 0 {
            rest
        } else {
            match spec_parse_machine(lines[0]) {
                None => rest,
                Some(sp) => seq![sp] + rest,
            }
        }
    }
}

/// Parses the whole input, one machine per well-formed non-empty line.
pub fn parse_input(input: &str) -> (r: Vec<Machine>)
    ensures
        r@.map_values(|m: Machine| machine_model(m)) == spec_machines(spec_lines(input@)),
{
    let lines = lines_of(input);
    let ghost full = spec_lines(input@);
    let mut out: Vec<Machine> = Vec::new();
    let mut i: usize = 0;
    proof {
        assert(full.skip(0) =~= full);
        assert(out@.map_values(|m: Machine| machine_model(m)) =~= Seq::empty());
    }
    while i < lines.len()
        invariant
            0 <= i <= lines@.len(),
            lines@.len() == full.len(),
            full == spec_lines(input@),
            forall|t: int| 0 <= t < lines@.len() ==> #[trigger] lines@[t]@ == full[t],
            out@.map_values(|m: Machine| machine_model(m)) + spec_machines(
                full.skip(i as int),
            ) =~= spec_machines(full),
        decreases lines@.len() - i,
    {
        let line = lines[i];
        proof {
            assert(full.skip(i as int).drop_first() =~= full.skip(i + 1));
            assert(full.skip(i as int)[0] == full[i as int]);
        }
        if !line.is_empty() {
            match parse_machine_line(line) {
                Some(m) => {
                    let ghost oldout = out@;
                    out.push(m);
                    proof {
                        assert(out@.map_values(|mm: Machine| machine_model(mm)) =~= oldout
                            .map_values(|mm: Machine| machine_model(mm)) + seq![machine_model(m)]);
                        assert(oldout.map_values(|mm: Machine| machine_model(mm)) + (seq![
                            machine_model(m)] + spec_machines(full.skip(i + 1))) =~= out@
                            .map_values(|mm: Machine| machine_model(mm)) + spec_machines(
                            full.skip(i + 1),
                        ));
                    }
                },
                None => {
                },
            }
        }
        i = i + 1;
    }
    proof {
        assert(full.skip(lines@.len() as int) =~= Seq::empty());
        assert(out@.map_values(|m: Machine| machine_model(m)) =~= spec_machines(full));
    }
    out
}

/// Sum of the boolean answers, an unsolvable machine contributing nothing.
pub open spec fn lights_sum(answers: Seq<Option<usize>>) -> int
    decreases answers.len(),
{
    if answers.len() == 0 {
        0
    } else {
        lights_sum(answers.drop_last()) + match answers.last() {
            Some(k) => k as int,
            None => 0,
        }
    }
}

/// Sum of the integer-stage answers, an unsolvable machine contributing
/// nothing.
pub open spec fn jolts_sum(answers: Seq<Option<i64>>) -> int
    decreases answers.len(),
{
    if answers.len() == 0 {
        0
    } else {
        jolts_sum(answers.drop_last()) + match answers.last() {
            Some(k) => k as int,
            None => 0,
        }
    }
}

/// Sum over all machines of the boolean-stage minimum press count,
/// machines without a solution omitted, clamped at the machine maximum.
pub fn solve_part1(input: &str) -> (r: usize)
    ensures
        exists|ms: Seq<Machine>, answers: Seq<Option<usize>>|
            ms.map_values(|m: Machine| machine_model(m)) == spec_machines(spec_lines(input@))
                && answers.len() == ms.len() && (forall|i: int|
                0 <= i < ms.len() ==> lights_answer_ok(
                    (#[trigger] ms[i]).target@,
                    ms[i].buttons@,
                    answers[i],
                )) && r as int == if lights_sum(answers) <= usize::MAX as int {
                lights_sum(answers)
            } else {
                usize::MAX as int
            },
{
    let machines = parse_input(input);
    let mut total: usize = 0;
    let ghost mut answers: Seq<Option<usize>> = Seq::empty();
    let mut i: usize = 0;
    while i < machines.len()
        invariant
            0 <= i <= machines@.len(),
            answers.len() == i,
            forall|t: int|
                0 <= t < i ==> lights_answer_ok(
                    (#[trigger] machines@[t]).target@,
                    machines@[t].buttons@,
                    answers[t],
                ),
            total as int == if lights_sum(answers) <= usize::MAX as int {
                lights_sum(answers)
            } else {
                usize::MAX as int
            },
        decreases machines@.len() - i,
    {
        let ans = solve_machine(&machines[i]);
        let ghost oldanswers = answers;
        proof {
            answers = answers.push(ans);
            assert(answers.drop_last() =~= oldanswers);
        }
        match ans {
            Some(k) => {
                total = total.saturating_add(k);
            },
            None => {
            },
        }
        i = i + 1;
    }
    proof {
        let ghost ms = machines@;
        assert(ms.map_values(|m: Machine| machine_model(m)) == spec_machines(
            spec_lines(input@),
        ));
    }
    total
}

/// Sum over all machines of the least counter-stage press total, machines
/// without a solution omitted, clamped at the machine maximum.
pub fn solve_part2(input: &str) -> (r: i64)
    ensures
        exists|ms: Seq<Machine>, answers: Seq<Option<i64>>|
            ms.map_values(|m: Machine| machine_model(m)) == spec_machines(spec_lines(input@))
                && answers.len() == ms.len() && (forall|i: int|
                0 <= i < ms.len() ==> #[trigger] joltage_answer_ok(ms[i], answers[i])) && r as int
                == if jolts_sum(answers) <= i64::MAX as int {
                jolts_sum(answers)
            } else {
                i64::MAX as int
            },
{
    let machines = parse_input(input);
    let mut total: i64 = 0;
    let ghost mut answers: Seq<Option<i64>> = Seq::empty();
    let mut i: usize = 0;
    while i < machines.len()
        invariant
            0 <= i <= machines@.len(),
            answers.len() == i,
            forall|t: int|
                0 <= t < i ==> #[trigger] joltage_answer_ok(machines@[t], answers[t]),
            total >= 0,
            total as int == if jolts_sum(answers) <= i64::MAX as int {
                jolts_sum(answers)
            } else {
                i64::MAX as int
            },
        decreases machines@.len() - i,
    {
        let ans = solve_joltage(&machines[i]);
        let ghost oldanswers = answers;
        proof {
            answers = answers.push(ans);
            assert(answers.drop_last() =~= oldanswers);
        }
        match ans {
            Some(k) => {
                total = match total.checked_add(k) {
                    Some(x) => x,
                    None => i64::MAX,
                };
            },
            None => {
            },
        }
        i = i + 1;
    }
    proof {
        let ghost ms = machines@;
        assert(ms.map_values(|m: Machine| machine_model(m)) == spec_machines(
            spec_lines(input@),
        ));
    }
    total
}

/// A machine with no buttons and an all-off target pattern needs no
/// presses: any result meeting the boolean-stage contract is zero.
pub proof fn lemma_no_buttons_all_off(
    target: Seq<bool>,
    buttons: Seq<Vec<usize>>,
    r: Option<usize>,
)
    requires
        buttons.len() == 0,
        forall|i: int| 0 <= i < target.len() ==> !target[i],
        lights_answer_ok(target, buttons, r),
    ensures
        r == Some(0usize),
{
    let p = Seq::<bool>::empty();
    assert(solves_lights(target, buttons, p));
    match r {
        None => {
            assert(!solves_lights(target, buttons, p));
        },
        Some(k) => {
            assert(k as int <= count_true(p));
        },
    }
}

/// The boolean stage is deterministic: two results that both meet the
/// boolean-stage contract for one machine are the same, so solving the
/// same machine twice gives the same minimum.
pub proof fn lemma_lights_answer_unique(
    target: Seq<bool>,
    buttons: Seq<Vec<usize>>,
    r1: Option<usize>,
    r2: Option<usize>,
)
    requires
        lights_answer_ok(target, buttons, r1),
        lights_answer_ok(target, buttons, r2),
    ensures
        r1 == r2,
{
    match (r1, r2) {
        (Some(k1), Some(k2)) => {
            let p1 = choose|p: Seq<bool>|
                solves_lights(target, buttons, p) && count_true(p) == k1 as int;
            let p2 = choose|p: Seq<bool>|
                solves_lights(target, buttons, p) && count_true(p) == k2 as int;
            assert(k1 as int <= count_true(p2));
            assert(k2 as int <= count_true(p1));
        },
        (Some(k1), None) => {
            let p1 = choose|p: Seq<bool>|
                solves_lights(target, buttons, p) && count_true(p) == k1 as int;
            assert(!solves_lights(target, buttons, p1));
        },
        (None, Some(k2)) => {
            let p2 = choose|p: Seq<bool>|
                solves_lights(target, buttons, p) && count_true(p) == k2 as int;
            assert(!solves_lights(target, buttons, p2));
        },
        (None, None) => {
        },
    }
}

} // verus!
