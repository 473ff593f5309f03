//! Escape-time evaluation of a single point.

use vstd::prelude::*;
use crate::ops::{single_valued_binary, single_valued_unary};
use crate::point::ComplexPoint;

verus! {

/// One round of the recurrence `z <- z^e + c`: `next` is what `plus` returned
/// for `c` and some value that `power` returned for `z` and `e`.
pub open spec fn julia_step<T, P, A>(
    power: P,
    plus: A,
    z: ComplexPoint<T>,
    c: ComplexPoint<T>,
    e: T,
    next: ComplexPoint<T>,
) -> bool where
    P: Fn(ComplexPoint<T>, T) -> ComplexPoint<T>,
    A: Fn(ComplexPoint<T>, ComplexPoint<T>) -> ComplexPoint<T>,
 {
    exists|raised: ComplexPoint<T>|
        call_ensures(power, (z, e), raised) && call_ensures(plus, (raised, c), next)
}

/// The value that round `k` of an orbit starts from: the point under test for
/// the first round, the previous round's value after that.
pub open spec fn round_input<T>(z: ComplexPoint<T>, orbit: Seq<ComplexPoint<T>>, k: int)
    -> ComplexPoint<T> {
    if k == 0 {
        z
    } else {
        orbit[k - 1]
    }
}

/// `orbit` lists the values that successive rounds of the recurrence produce
/// from `z`: `orbit[k]` is the value after round `k`, rounds counted from 0.
pub open spec fn is_orbit<T, P, A>(
    power: P,
    plus: A,
    z: ComplexPoint<T>,
    c: ComplexPoint<T>,
    e: T,
    orbit: Seq<ComplexPoint<T>>,
) -> bool where
    P: Fn(ComplexPoint<T>, T) -> ComplexPoint<T>,
    A: Fn(ComplexPoint<T>, ComplexPoint<T>) -> ComplexPoint<T>,
 {
    forall|k: int|
        0 <= k < orbit.len() ==> julia_step(
            power,
            plus,
            round_input(z, orbit, k),
            c,
            e,
            #[trigger] orbit[k],
        )
}

/// How many rounds an evaluation capped at `n` runs when it answers `r`:
/// all `n` of them when nothing escaped, and rounds `0` to `r` otherwise.
pub open spec fn rounds_run(n: int, r: int) -> int {
    if r == -1 {
        if n > 0 {
            n
        } else {
            0
        }
    } else {
        r + 1
    }
}

/// `r` is an escape time of `z` under cap `n`.
///
/// Either `r` is `-1` or it is a round index below `n`. There is an orbit of
/// `z` of exactly the rounds that were run, and on the value after round `k`
/// the escape test answered whether `k` is `r`: it answered no on every round
/// before `r`, yes on round `r`, and no on all `n` rounds when `r` is `-1`.
pub open spec fn is_escape_time<T, P, A, E>(
    power: P,
    plus: A,
    escaped: E,
    z: ComplexPoint<T>,
    c: ComplexPoint<T>,
    n: int,
    e: T,
    r: int,
) -> bool where
    P: Fn(ComplexPoint<T>, T) -> ComplexPoint<T>,
    A: Fn(ComplexPoint<T>, ComplexPoint<T>) -> ComplexPoint<T>,
    E: Fn(ComplexPoint<T>) -> bool,
 {
    &&& r == -1 || 0 <= r < n
    &&& exists|orbit: Seq<ComplexPoint<T>>| #[trigger]
        is_orbit(power, plus, z, c, e, orbit) && orbit.len() == rounds_run(n, r) && forall|k: int|
            0 <= k < orbit.len() ==> call_ensures(escaped, (#[trigger] orbit[k],), k == r)
}

/// Counts the rounds of `z <- z^e + c` that `z` survives.
///
/// Round `x`, for `x` from `0` up to `n - 1`, first replaces `z` by
/// `plus(power(z, e), c)` and then asks `escaped` about the new value. The
/// first round on which `escaped` says yes ends the evaluation, and its index
/// is returned; later rounds are not run. If all `n` rounds pass, or `n` is
/// not positive, the answer is `-1`.
///
/// `power` raises a point to a coordinate-valued exponent, `plus` adds two
/// points, and `escaped` tells whether a point lies outside the escape disk.
/// All three must accept every operand.
pub fn in_jset<T: Copy, P, A, E>(
    z: ComplexPoint<T>,
    c: ComplexPoint<T>,
    n: i64,
    e: T,
    power: P,
    plus: A,
    escaped: E,
) -> (r: i64) where
    P: Fn(ComplexPoint<T>, T) -> ComplexPoint<T>,
    A: Fn(ComplexPoint<T>, ComplexPoint<T>) -> ComplexPoint<T>,
    E: Fn(ComplexPoint<T>) -> bool,

    requires
        forall|p: ComplexPoint<T>, t: T| call_requires(power, (p, t)),
        forall|p: ComplexPoint<T>, q: ComplexPoint<T>| call_requires(plus, (p, q)),
        forall|p: ComplexPoint<T>| call_requires(escaped, (p,)),
    ensures
        r == -1 || 0 <= r < n,
        is_escape_time(power, plus, escaped, z, c, n as int, e, r as int),
{
    let mut current = z;
    let ghost mut orbit: Seq<ComplexPoint<T>> = Seq::empty();
    let mut x: i64 = 0;
    while x < n
        invariant
            forall|p: ComplexPoint<T>, t: T| call_requires(power, (p, t)),
            forall|p: ComplexPoint<T>, q: ComplexPoint<T>| call_requires(plus, (p, q)),
            forall|p: ComplexPoint<T>| call_requires(escaped, (p,)),
            0 <= x,
            n > 0 ==> x <= n,
            n <= 0 ==> x == 0,
            orbit.len() == x,
            is_orbit(power, plus, z, c, e, orbit),
            current == round_input(z, orbit, x as int),
            forall|k: int| 0 <= k < orbit.len() ==> call_ensures(escaped, (#[trigger] orbit[k],), false),
        decreases n - x,
    {
        let raised = power(current, e);
        let next = plus(raised, c);
        proof {
            let ghost longer = orbit.push(next);
            assert(julia_step(power, plus, current, c, e, next));
            assert forall|k: int| 0 <= k < longer.len() implies julia_step(
                power,
                plus,
                round_input(z, longer, k),
                c,
                e,
                #[trigger] longer[k],
            ) by {
                if k < orbit.len() {
                    assert(longer[k] == orbit[k]);
                    assert(round_input(z, longer, k) == round_input(z, orbit, k));
                }
            }
            orbit = longer;
        }
        current = next;
        if escaped(current) {
            proof {
                // The orbit built so far is the witness: it ends on the first
                // value that tested as escaped.
                assert(is_orbit(power, plus, z, c, e, orbit));
            }
            return x;
        }
        x += 1;
    }
    -1
}

/// Two orbits of the same point under single-valued arithmetic hold the same
/// value after every round that both of them cover.
pub proof fn lemma_orbits_agree<T, P, A>(
    power: P,
    plus: A,
    z: ComplexPoint<T>,
    c: ComplexPoint<T>,
    e: T,
    first: Seq<ComplexPoint<T>>,
    second: Seq<ComplexPoint<T>>,
    k: int,
) where
    P: Fn(ComplexPoint<T>, T) -> ComplexPoint<T>,
    A: Fn(ComplexPoint<T>, ComplexPoint<T>) -> ComplexPoint<T>,

    requires
        single_valued_binary(power),
        single_valued_binary(plus),
        is_orbit(power, plus, z, c, e, first),
        is_orbit(power, plus, z, c, e, second),
        0 <= k < first.len(),
        k < second.len(),
    ensures
        first[k] == second[k],
    decreases k,
{
    if k > 0 {
        lemma_orbits_agree(power, plus, z, c, e, first, second, k - 1);
    }
    let input = round_input(z, first, k);
    assert(input == round_input(z, second, k));
    assert(julia_step(power, plus, input, c, e, first[k]));
    assert(julia_step(power, plus, input, c, e, second[k]));
    let raised_first = choose|raised: ComplexPoint<T>|
        call_ensures(power, (input, e), raised) && call_ensures(plus, (raised, c), first[k]);
    let raised_second = choose|raised: ComplexPoint<T>|
        call_ensures(power, (input, e), raised) && call_ensures(plus, (raised, c), second[k]);
    assert(raised_first == raised_second);
}

/// Evaluation is deterministic: under single-valued arithmetic and a
/// single-valued escape test, a point has exactly one escape time for a given
/// offset, cap and exponent. Two evaluations of the same inputs therefore
/// return the same answer.
pub proof fn lemma_escape_time_unique<T, P, A, E>(
    power: P,
    plus: A,
    escaped: E,
    z: ComplexPoint<T>,
    c: ComplexPoint<T>,
    n: int,
    e: T,
    r1: int,
    r2: int,
) where
    P: Fn(ComplexPoint<T>, T) -> ComplexPoint<T>,
    A: Fn(ComplexPoint<T>, ComplexPoint<T>) -> ComplexPoint<T>,
    E: Fn(ComplexPoint<T>) -> bool,

    requires
        single_valued_binary(power),
        single_valued_binary(plus),
        single_valued_unary(escaped),
        is_escape_time(power, plus, escaped, z, c, n, e, r1),
        is_escape_time(power, plus, escaped, z, c, n, e, r2),
    ensures
        r1 == r2,
{
    let first = choose|orbit: Seq<ComplexPoint<T>>| #[trigger]
        is_orbit(power, plus, z, c, e, orbit) && orbit.len() == rounds_run(n, r1) && forall|k: int|
            0 <= k < orbit.len() ==> call_ensures(escaped, (#[trigger] orbit[k],), k == r1);
    let second = choose|orbit: Seq<ComplexPoint<T>>| #[trigger]
        is_orbit(power, plus, z, c, e, orbit) && orbit.len() == rounds_run(n, r2) && forall|k: int|
            0 <= k < orbit.len() ==> call_ensures(escaped, (#[trigger] orbit[k],), k == r2);
    if r1 != r2 {
        // The earlier of the two escapes is a round that both orbits cover;
        // the test said yes there on one orbit and no on the other.
        let k = if r1 == -1 {
            r2
        } else if r2 == -1 {
            r1
        } else if r1 < r2 {
            r1
        } else {
            r2
        };
        lemma_orbits_agree(power, plus, z, c, e, first, second, k);
        assert(call_ensures(escaped, (first[k],), k == r1));
        assert(call_ensures(escaped, (second[k],), k == r2));
    }
}

} // verus!
