use vstd::prelude::*;
use crate::double::{
    equal, equal_to, has_sign_change, is_nan, is_within, is_zero, less_than, nan,
    opposite_signs, rank, within, zero,
};

verus! {

/// A function of one double that returns the same double for the same
/// argument on every call.
pub open spec fn pure_fn<F: Fn(u64) -> u64>(f: F) -> bool {
    &&& forall|x: u64| #[trigger] f.requires((x,))
    &&& forall|x: u64, y1: u64, y2: u64|
        #[trigger] f.ensures((x,), y1) && #[trigger] f.ensures((x,), y2) ==> y1 == y2
}

/// A function of two doubles that returns the same double for the same
/// arguments on every call.
pub open spec fn pure_fn2<M: Fn(u64, u64) -> u64>(m: M) -> bool {
    &&& forall|a: u64, b: u64| #[trigger] m.requires((a, b))
    &&& forall|a: u64, b: u64, y1: u64, y2: u64|
        #[trigger] m.ensures((a, b), y1) && #[trigger] m.ensures((a, b), y2) ==> y1 == y2
}

/// The value that `f` returns at `x`.
pub open spec fn value<F: Fn(u64) -> u64>(f: F, x: u64) -> u64 {
    choose|y: u64| f.ensures((x,), y)
}

/// The value that `m` returns at `(a, b)`.
pub open spec fn value2<M: Fn(u64, u64) -> u64>(m: M, a: u64, b: u64) -> u64 {
    choose|y: u64| m.ensures((a, b), y)
}

proof fn lemma_value<F: Fn(u64) -> u64>(f: F, x: u64, y: u64)
    requires
        pure_fn(f),
        f.ensures((x,), y),
    ensures
        value(f, x) == y,
{
}

proof fn lemma_value2<M: Fn(u64, u64) -> u64>(m: M, a: u64, b: u64, y: u64)
    requires
        pure_fn2(m),
        m.ensures((a, b), y),
    ensures
        value2(m, a, b) == y,
{
}

/// Halvings that a bisection allows before it gives up. Each halving halves
/// the width of the bracket, and about 2100 of them take any bracket of finite
/// doubles down to two neighbouring doubles.
pub const MAX_BISECTIONS: usize = 4096;

/// Updates that Newton's method is allowed before it gives up.
pub const MAX_NEWTON_STEPS: usize = 1000;

/// What a bisection search ends with.
#[derive(Clone, Copy, Debug, PartialEq, Eq, Structural)]
pub enum Bracketing {
    /// A point where the function is zero or within the precision.
    Root(u64),
    /// The function does not change sign over the interval.
    NoSignChange,
    /// The step budget ran out, or neither half kept the sign change.
    NotConverged,
}

/// Bisection from the bracket `[lo, hi]` with `fuel` narrowings left.
pub open spec fn bisect_steps<F: Fn(u64) -> u64, M: Fn(u64, u64) -> u64>(
    f: F,
    mid: M,
    lo: u64,
    hi: u64,
    precision: u64,
    fuel: nat,
) -> Bracketing
    decreases fuel,
{
    let x = value2(mid, lo, hi);
    let y = value(f, x);
    if within(y, precision) {
        Bracketing::Root(x)
    } else if fuel == 0 {
        Bracketing::NotConverged
    } else if opposite_signs(value(f, lo), y) {
        bisect_steps(f, mid, lo, x, precision, (fuel - 1) as nat)
    } else if opposite_signs(y, value(f, hi)) {
        bisect_steps(f, mid, x, hi, precision, (fuel - 1) as nat)
    } else {
        Bracketing::NotConverged
    }
}

/// The outcome of bisecting `f` on `[xmin, xmax]` with at most `max_steps`
/// narrowings.
pub open spec fn bisect_outcome<F: Fn(u64) -> u64, M: Fn(u64, u64) -> u64>(
    f: F,
    mid: M,
    xmin: u64,
    xmax: u64,
    precision: u64,
    max_steps: nat,
) -> Bracketing {
    let ya = value(f, xmin);
    let yb = value(f, xmax);
    if is_zero(ya) {
        Bracketing::Root(xmin)
    } else if is_zero(yb) {
        Bracketing::Root(xmax)
    } else if !opposite_signs(ya, yb) {
        Bracketing::NoSignChange
    } else {
        bisect_steps(f, mid, xmin, xmax, precision, max_steps)
    }
}

proof fn lemma_bisect_steps_root<F: Fn(u64) -> u64, M: Fn(u64, u64) -> u64>(
    f: F,
    mid: M,
    lo: u64,
    hi: u64,
    precision: u64,
    fuel: nat,
)
    ensures
        bisect_steps(f, mid, lo, hi, precision, fuel) != Bracketing::NoSignChange,
        bisect_steps(f, mid, lo, hi, precision, fuel) matches Bracketing::Root(r) ==> within(
            value(f, r),
            precision,
        ),
    decreases fuel,
{
    let x = value2(mid, lo, hi);
    if fuel > 0 {
        lemma_bisect_steps_root(f, mid, lo, x, precision, (fuel - 1) as nat);
        lemma_bisect_steps_root(f, mid, x, hi, precision, (fuel - 1) as nat);
    }
}

/// A root reported by bisection is a point where the function is zero, or
/// where its absolute value is at most the precision.
pub proof fn lemma_bisect_root_within<F: Fn(u64) -> u64, M: Fn(u64, u64) -> u64>(
    f: F,
    mid: M,
    xmin: u64,
    xmax: u64,
    precision: u64,
    max_steps: nat,
    r: u64,
)
    requires
        bisect_outcome(f, mid, xmin, xmax, precision, max_steps) == Bracketing::Root(r),
    ensures
        is_zero(value(f, r)) || within(value(f, r), precision),
{
    lemma_bisect_steps_root(f, mid, xmin, xmax, precision, max_steps);
}

/// Bisection reports no root exactly when the function is nonzero at both
/// ends and has no sign change between them.
pub proof fn lemma_bisect_absent<F: Fn(u64) -> u64, M: Fn(u64, u64) -> u64>(
    f: F,
    mid: M,
    xmin: u64,
    xmax: u64,
    precision: u64,
    max_steps: nat,
)
    ensures
        (bisect_outcome(f, mid, xmin, xmax, precision, max_steps) == Bracketing::NoSignChange)
            <==> (!is_zero(value(f, xmin)) && !is_zero(value(f, xmax)) && !opposite_signs(
            value(f, xmin),
            value(f, xmax),
        )),
{
    lemma_bisect_steps_root(f, mid, xmin, xmax, precision, max_steps);
}

/// Two bisections of the same function over the same interval, with the same
/// precision and budget, end alike.
pub proof fn lemma_bisect_repeatable<F: Fn(u64) -> u64, M: Fn(u64, u64) -> u64>(
    f: F,
    mid: M,
    xmin: u64,
    xmax: u64,
    precision: u64,
    max_steps: nat,
    first: Bracketing,
    second: Bracketing,
)
    requires
        first == bisect_outcome(f, mid, xmin, xmax, precision, max_steps),
        second == bisect_outcome(f, mid, xmin, xmax, precision, max_steps),
    ensures
        first == second,
{
}

/// Finds a root of `f` on `[xmin, xmax]` by bisection. `mid` gives the
/// midpoint of two doubles. A zero of `f` at `xmin`, then at `xmax`, is
/// returned at once; without a sign change over the interval there is no
/// root; otherwise the bracket is halved towards the half that keeps the sign
/// change until `|f|` at the midpoint is at most `precision`, for at most
/// `max_steps` halvings.
pub fn bissec_root<F: Fn(u64) -> u64, M: Fn(u64, u64) -> u64>(
    f: &F,
    mid: &M,
    xmin: u64,
    xmax: u64,
    precision: u64,
    max_steps: usize,
) -> (r: Bracketing)
    requires
        pure_fn(*f),
        pure_fn2(*mid),
    ensures
        r == bisect_outcome(*f, *mid, xmin, xmax, precision, max_steps as nat),
        r matches Bracketing::Root(x) ==> is_zero(value(*f, x)) || within(value(*f, x), precision),
        (r == Bracketing::NoSignChange) <==> (!is_zero(value(*f, xmin)) && !is_zero(
            value(*f, xmax),
        ) && !opposite_signs(value(*f, xmin), value(*f, xmax))),
{
    proof {
        lemma_bisect_absent(*f, *mid, xmin, xmax, precision, max_steps as nat);
    }
    let fa = f(xmin);
    let fb = f(xmax);
    proof {
        lemma_value(*f, xmin, fa);
        lemma_value(*f, xmax, fb);
    }
    if zero(fa) {
        return Bracketing::Root(xmin);
    }
    if zero(fb) {
        return Bracketing::Root(xmax);
    }
    if !has_sign_change(fa, fb) {
        return Bracketing::NoSignChange;
    }
    let mut lo = xmin;
    let mut hi = xmax;
    let mut fa = fa;
    let mut fb = fb;
    let mut steps: usize = 0;
    loop
        invariant
            pure_fn(*f),
            pure_fn2(*mid),
            steps <= max_steps,
            fa == value(*f, lo),
            fb == value(*f, hi),
            bisect_outcome(*f, *mid, xmin, xmax, precision, max_steps as nat) == bisect_steps(
                *f,
                *mid,
                lo,
                hi,
                precision,
                (max_steps - steps) as nat,
            ),
        decreases max_steps - steps,
    {
        let x = mid(lo, hi);
        let y = f(x);
        proof {
            lemma_value2(*mid, lo, hi, x);
            lemma_value(*f, x, y);
        }
        if is_within(y, precision) {
            return Bracketing::Root(x);
        }
        if steps == max_steps {
            return Bracketing::NotConverged;
        }
        if has_sign_change(fa, y) {
            hi = x;
            fb = y;
        } else if has_sign_change(y, fb) {
            lo = x;
            fa = y;
        } else {
            return Bracketing::NotConverged;
        }
        steps = steps + 1;
    }
}

/// Newton iteration from `x` with `fuel` further steps allowed: stops at the
/// first iterate where `|f|` is at most `precision`.
pub open spec fn newton_steps<F: Fn(u64) -> u64, S: Fn(u64) -> u64>(
    f: F,
    step: S,
    x: u64,
    precision: u64,
    fuel: nat,
) -> Option<u64>
    decreases fuel,
{
    if within(value(f, x), precision) {
        Some(x)
    } else if fuel == 0 {
        None
    } else {
        newton_steps(f, step, value(step, x), precision, (fuel - 1) as nat)
    }
}

proof fn lemma_newton_within<F: Fn(u64) -> u64, S: Fn(u64) -> u64>(
    f: F,
    step: S,
    x: u64,
    precision: u64,
    fuel: nat,
)
    ensures
        newton_steps(f, step, x, precision, fuel) matches Some(r) ==> within(
            value(f, r),
            precision,
        ),
    decreases fuel,
{
    if fuel > 0 {
        lemma_newton_within(f, step, value(step, x), precision, (fuel - 1) as nat);
    }
}

/// Finds a root of `f` by Newton's method from `x0`. `step` maps an iterate
/// `x` to `x - f(x) / f'(x)`. Returns the first iterate where `|f|` is at
/// most `precision`, or `None` when `max_steps` updates did not reach one.
pub fn newton_root<F: Fn(u64) -> u64, S: Fn(u64) -> u64>(
    f: &F,
    step: &S,
    x0: u64,
    precision: u64,
    max_steps: usize,
) -> (r: Option<u64>)
    requires
        pure_fn(*f),
        pure_fn(*step),
    ensures
        r == newton_steps(*f, *step, x0, precision, max_steps as nat),
        r matches Some(x) ==> within(value(*f, x), precision),
{
    proof {
        lemma_newton_within(*f, *step, x0, precision, max_steps as nat);
    }
    let mut x = x0;
    let mut steps: usize = 0;
    loop
        invariant
            pure_fn(*f),
            pure_fn(*step),
            steps <= max_steps,
            newton_steps(*f, *step, x0, precision, max_steps as nat) == newton_steps(
                *f,
                *step,
                x,
                precision,
                (max_steps - steps) as nat,
            ),
        decreases max_steps - steps,
    {
        let y = f(x);
        proof {
            lemma_value(*f, x, y);
        }
        if is_within(y, precision) {
            return Some(x);
        }
        if steps == max_steps {
            return None;
        }
        let next = step(x);
        proof {
            lemma_value(*step, x, next);
        }
        x = next;
        steps = steps + 1;
    }
}

/// Strictly ascending as the doubles compare, with no NaN.
pub open spec fn strictly_ascending(s: Seq<u64>) -> bool {
    &&& forall|i: int| 0 <= i < s.len() ==> !is_nan(#[trigger] s[i])
    &&& forall|i: int, j: int| 0 <= i < j < s.len() ==> rank(#[trigger] s[i]) < rank(#[trigger] s[j])
}

/// `v` is among the first `n` values of `found`, and no earlier value is
/// equal to it.
pub open spec fn first_of_its_value(v: u64, found: Seq<u64>, n: int) -> bool {
    exists|j: int|
        0 <= j < n && found[j] == v && forall|j2: int| 0 <= j2 < j ==> !equal(#[trigger] found[j2], v)
}

/// `out` is the root set of the values in `found`: ascending without
/// duplicates; each of its values is the first of its run of equal values in
/// `found`; and each value of `found` but a NaN is equal to one of its values.
pub open spec fn root_set_of(out: Seq<u64>, found: Seq<u64>) -> bool {
    &&& strictly_ascending(out)
    &&& out.len() <= found.len()
    &&& forall|i: int| 0 <= i < out.len() ==> first_of_its_value(#[trigger] out[i], found, found.len() as int)
    &&& forall|k: int|
        0 <= k < found.len() && !is_nan(#[trigger] found[k]) ==> exists|i: int|
            0 <= i < out.len() && equal(#[trigger] out[i], found[k])
}

/// Puts the double `x` into the ascending `out` at its place, unless a value
/// equal to it is already there; tells whether it was put in.
fn insert_root(out: &mut Vec<u64>, x: u64) -> (added: bool)
    requires
        strictly_ascending(old(out)@),
        !is_nan(x),
    ensures
        strictly_ascending(final(out)@),
        added == !exists|a: int| 0 <= a < old(out)@.len() && equal(#[trigger] old(out)@[a], x),
        !added ==> final(out)@ == old(out)@,
        added ==> final(out)@.len() == old(out)@.len() + 1,
        forall|a: int|
            0 <= a < final(out)@.len() ==> #[trigger] final(out)@[a] == x || old(out)@.contains(
                final(out)@[a],
            ),
        exists|a: int| 0 <= a < final(out)@.len() && equal(#[trigger] final(out)@[a], x),
        forall|j: int|
            0 <= j < old(out)@.len() ==> final(out)@.contains(#[trigger] old(out)@[j]),
{
    let mut i: usize = 0;
    while i < out.len() && less_than(out[i], x)
        invariant
            i <= out.len(),
            !is_nan(x),
            strictly_ascending(out@),
            forall|j: int| 0 <= j < i ==> rank(#[trigger] out@[j]) < rank(x),
        decreases out.len() - i,
    {
        i = i + 1;
    }
    if i < out.len() && equal_to(out[i], x) {
        assert(equal(out@[i as int], x));
        assert forall|j: int| 0 <= j < out@.len() implies out@.contains(#[trigger] out@[j]) by {}
        return false;
    }
    let ghost before = out@;
    proof {
        if i < before.len() {
            assert(rank(before[i as int]) > rank(x));
        }
        assert forall|a: int| 0 <= a < before.len() implies !equal(#[trigger] before[a], x) by {
            if a > i {
                assert(rank(before[i as int]) < rank(before[a]));
            }
        }
    }
    out.insert(i, x);
    assert(out@ == before.insert(i as int, x));
    assert(equal(out@[i as int], x));
    assert forall|a: int, b: int| 0 <= a < b < out.len() implies rank(#[trigger] out@[a]) < rank(
        #[trigger] out@[b],
    ) by {
        if b < i {
        } else if b == i {
        } else if a < i {
            assert(out@[b] == before[b - 1]);
        } else if a == i {
            assert(out@[b] == before[b - 1]);
            if b - 1 > i {
                assert(rank(before[i as int]) < rank(before[b - 1]));
            }
        } else {
            assert(out@[a] == before[a - 1]);
            assert(out@[b] == before[b - 1]);
        }
    }
    assert forall|a: int| 0 <= a < out@.len() implies #[trigger] out@[a] == x || before.contains(
        out@[a],
    ) by {
        if a < i {
            assert(out@[a] == before[a]);
        } else if a > i {
            assert(out@[a] == before[a - 1]);
        }
    }
    assert forall|j: int| 0 <= j < before.len() implies out@.contains(#[trigger] before[j]) by {
        if j < i {
            assert(out@[j] == before[j]);
        } else {
            assert(out@[j + 1] == before[j]);
        }
    }
    true
}

/// One value of `found` taken into the merge keeps what the merge states of
/// the values before it.
proof fn lemma_merge_step(found: Seq<u64>, before: Seq<u64>, after: Seq<u64>, k: int, added: bool)
    requires
        0 <= k < found.len(),
        forall|i: int| 0 <= i < before.len() ==> first_of_its_value(#[trigger] before[i], found, k),
        forall|j: int|
            0 <= j < k && !is_nan(#[trigger] found[j]) ==> exists|i: int|
                0 <= i < before.len() && equal(#[trigger] before[i], found[j]),
        is_nan(found[k]) ==> !added && after == before,
        !is_nan(found[k]) ==> {
            &&& added == !exists|a: int| 0 <= a < before.len() && equal(#[trigger] before[a], found[k])
            &&& forall|a: int|
                0 <= a < after.len() ==> #[trigger] after[a] == found[k] || before.contains(after[a])
            &&& exists|a: int| 0 <= a < after.len() && equal(#[trigger] after[a], found[k])
            &&& forall|j: int| 0 <= j < before.len() ==> after.contains(#[trigger] before[j])
        },
        !added ==> after == before,
    ensures
        forall|i: int| 0 <= i < after.len() ==> first_of_its_value(#[trigger] after[i], found, k + 1),
        forall|j: int|
            0 <= j < k + 1 && !is_nan(#[trigger] found[j]) ==> exists|i: int|
                0 <= i < after.len() && equal(#[trigger] after[i], found[j]),
{
    let x = found[k];
    assert forall|i: int| 0 <= i < after.len() implies first_of_its_value(#[trigger] after[i], found, k + 1) by {
        if added && after[i] == x {
            assert forall|j2: int| 0 <= j2 < k implies !equal(#[trigger] found[j2], x) by {
                if equal(found[j2], x) {
                    let b = choose|b: int| 0 <= b < before.len() && equal(#[trigger] before[b], found[j2]);
                    assert(equal(before[b], x));
                }
            }
        } else {
            let t = choose|t: int| 0 <= t < before.len() && before[t] == after[i];
            assert(first_of_its_value(before[t], found, k));
            let j = choose|j: int|
                0 <= j < k && found[j] == before[t] && forall|j2: int| 0 <= j2 < j ==> !equal(#[trigger] found[j2], before[t]);
            assert(0 <= j < k + 1);
        }
    }
    assert forall|j: int|
        0 <= j < k + 1 && !is_nan(#[trigger] found[j]) implies exists|i: int|
        0 <= i < after.len() && equal(#[trigger] after[i], found[j]) by {
        if j < k {
            let a = choose|a: int| 0 <= a < before.len() && equal(#[trigger] before[a], found[j]);
            assert(after.contains(before[a]));
            let b = choose|b: int| 0 <= b < after.len() && after[b] == before[a];
            assert(equal(after[b], found[j]));
        }
    }
}

/// Sorts the roots found over several sub-intervals in ascending order and
/// keeps the first of each run of equal values, as a stable sort followed by
/// the removal of repeats does. A NaN has no place in that order and is left
/// out.
pub fn merge_roots(found: &Vec<u64>) -> (out: Vec<u64>)
    ensures
        root_set_of(out@, found@),
{
    let mut out: Vec<u64> = Vec::new();
    let mut k: usize = 0;
    while k < found.len()
        invariant
            k <= found.len(),
            strictly_ascending(out@),
            out.len() <= k,
            forall|i: int| 0 <= i < out.len() ==> first_of_its_value(#[trigger] out@[i], found@, k as int),
            forall|j: int|
                0 <= j < k && !is_nan(#[trigger] found@[j]) ==> exists|i: int|
                    0 <= i < out.len() && equal(#[trigger] out@[i], found@[j]),
        decreases found.len() - k,
    {
        let x = found[k];
        let ghost before = out@;
        let mut added = false;
        if !nan(x) {
            added = insert_root(&mut out, x);
        }
        proof {
            lemma_merge_step(found@, before, out@, k as int, added);
        }
        k = k + 1;
    }
    out
}

/// The outcome of bisection on the `i`-th sub-interval `[grid(i), grid(i + 1)]`.
pub open spec fn sub_interval_outcome<F: Fn(u64) -> u64, M: Fn(u64, u64) -> u64, G: Fn(u64) -> u64>(
    f: F,
    mid: M,
    grid: G,
    i: nat,
    precision: u64,
    max_steps: nat,
) -> Bracketing {
    bisect_outcome(f, mid, value(grid, i as u64), value(grid, (i + 1) as u64), precision, max_steps)
}

/// The roots that bisection reports on the first `n` sub-intervals, in the
/// order of the sub-intervals.
pub open spec fn roots_found<F: Fn(u64) -> u64, M: Fn(u64, u64) -> u64, G: Fn(u64) -> u64>(
    f: F,
    mid: M,
    grid: G,
    n: nat,
    precision: u64,
    max_steps: nat,
) -> Seq<u64>
    decreases n,
{
    if n == 0 {
        Seq::empty()
    } else {
        let before = roots_found(f, mid, grid, (n - 1) as nat, precision, max_steps);
        match sub_interval_outcome(f, mid, grid, (n - 1) as nat, precision, max_steps) {
            Bracketing::Root(r) => before.push(r),
            _ => before,
        }
    }
}

/// Each sub-interval gives at most one root, and each root found is a point
/// where the function is zero or within the precision.
proof fn lemma_roots_found<F: Fn(u64) -> u64, M: Fn(u64, u64) -> u64, G: Fn(u64) -> u64>(
    f: F,
    mid: M,
    grid: G,
    n: nat,
    precision: u64,
    max_steps: nat,
)
    ensures
        roots_found(f, mid, grid, n, precision, max_steps).len() <= n,
        forall|k: int|
            0 <= k < roots_found(f, mid, grid, n, precision, max_steps).len() ==> is_zero(
                value(f, #[trigger] roots_found(f, mid, grid, n, precision, max_steps)[k]),
            ) || within(value(f, roots_found(f, mid, grid, n, precision, max_steps)[k]), precision),
    decreases n,
{
    if n > 0 {
        let m = (n - 1) as nat;
        lemma_roots_found(f, mid, grid, m, precision, max_steps);
        if let Bracketing::Root(r) = sub_interval_outcome(f, mid, grid, m, precision, max_steps) {
            lemma_bisect_root_within(
                f,
                mid,
                value(grid, m as u64),
                value(grid, (m + 1) as u64),
                precision,
                max_steps,
                r,
            );
        }
    }
}

/// Finds the roots of `f` over `num_intervals` sub-intervals: the `i`-th runs
/// from `grid(i)` to `grid(i + 1)`, where `grid` gives the points that split
/// the domain in equal parts. Each sub-interval is searched by `bissec_root`,
/// and the roots found come back ascending, with no two equal. When the
/// search of any sub-interval does not converge, there is no partial answer:
/// the result is `None`.
pub fn bissec_root_many<F: Fn(u64) -> u64, M: Fn(u64, u64) -> u64, G: Fn(u64) -> u64>(
    f: &F,
    mid: &M,
    grid: &G,
    num_intervals: u64,
    precision: u64,
    max_steps: usize,
) -> (r: Option<Vec<u64>>)
    requires
        pure_fn(*f),
        pure_fn2(*mid),
        pure_fn(*grid),
        num_intervals < u64::MAX,
    ensures
        r is None <==> exists|i: nat|
            i < num_intervals && #[trigger] sub_interval_outcome(
                *f,
                *mid,
                *grid,
                i,
                precision,
                max_steps as nat,
            ) == Bracketing::NotConverged,
        r matches Some(v) ==> {
            &&& root_set_of(
                v@,
                roots_found(*f, *mid, *grid, num_intervals as nat, precision, max_steps as nat),
            )
            &&& strictly_ascending(v@)
            &&& v@.len() <= num_intervals
            &&& forall|k: int|
                0 <= k < v@.len() ==> is_zero(value(*f, #[trigger] v@[k])) || within(
                    value(*f, v@[k]),
                    precision,
                )
        },
{
    let mut found: Vec<u64> = Vec::new();
    let mut lo = grid(0);
    proof {
        lemma_value(*grid, 0, lo);
    }
    let mut i: u64 = 0;
    while i < num_intervals
        invariant
            pure_fn(*f),
            pure_fn2(*mid),
            pure_fn(*grid),
            i <= num_intervals < u64::MAX,
            lo == value(*grid, i),
            found@ == roots_found(*f, *mid, *grid, i as nat, precision, max_steps as nat),
            forall|j: nat|
                j < i ==> #[trigger] sub_interval_outcome(
                    *f,
                    *mid,
                    *grid,
                    j,
                    precision,
                    max_steps as nat,
                ) != Bracketing::NotConverged,
        decreases num_intervals - i,
    {
        let hi = grid(i + 1);
        proof {
            lemma_value(*grid, (i + 1) as u64, hi);
        }
        let outcome = bissec_root(f, mid, lo, hi, precision, max_steps);
        assert(outcome == sub_interval_outcome(*f, *mid, *grid, i as nat, precision, max_steps as nat));
        match outcome {
            Bracketing::Root(x) => found.push(x),
            Bracketing::NoSignChange => {},
            Bracketing::NotConverged => {
                return None;
            },
        }
        lo = hi;
        i = i + 1;
    }
    let roots = merge_roots(&found);
    proof {
        lemma_roots_found(*f, *mid, *grid, num_intervals as nat, precision, max_steps as nat);
        assert forall|k: int| 0 <= k < roots@.len() implies is_zero(value(*f, #[trigger] roots@[k]))
            || within(value(*f, roots@[k]), precision) by {
            assert(first_of_its_value(roots@[k], found@, found@.len() as int));
            let j = choose|j: int|
                0 <= j < found@.len() && found@[j] == roots@[k] && forall|j2: int|
                    0 <= j2 < j ==> !equal(#[trigger] found@[j2], roots@[k]);
            assert(found@[j] == roots@[k]);
        }
    }
    Some(roots)
}

} // verus!
