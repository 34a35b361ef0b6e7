//! The escape-time iteration: how many steps an orbit takes to leave.

use vstd::prelude::*;

verus! {

/// `step` may lead from `points[k]` to `points[k + 1]`.
pub open spec fn steps<Z, S: Fn(Z) -> Z>(points: Seq<Z>, step: S, k: int) -> bool {
    call_ensures(step, (points[k],), points[k + 1])
}

/// `points` is an orbit of `start` under `step`: it begins at `start`, and
/// each further point is a step from the one before it.
pub open spec fn is_orbit<Z, S: Fn(Z) -> Z>(points: Seq<Z>, start: Z, step: S) -> bool {
    &&& points.len() > 0
    &&& points[0] == start
    &&& forall|k: int| 0 <= k < points.len() - 1 ==> #[trigger] steps(points, step, k)
}

/// `escaped` may answer `out` for the point `points[k]`.
pub open spec fn judged<Z, E: Fn(&Z) -> bool>(
    points: Seq<Z>,
    escaped: E,
    k: int,
    out: bool,
) -> bool {
    call_ensures(escaped, (&points[k],), out)
}

/// `orbit` shows that `time` is an escape time of `start` within `limit`
/// steps: for `Some(i)` it has escaped after step `i` and not after an
/// earlier one; for `None` it has not escaped after any of `limit` steps.
/// The start itself is never judged, only the points that steps lead to.
pub open spec fn shows<Z, S: Fn(Z) -> Z, E: Fn(&Z) -> bool>(
    orbit: Seq<Z>,
    start: Z,
    limit: u32,
    step: S,
    escaped: E,
    time: Option<u32>,
) -> bool {
    &&& is_orbit(orbit, start, step)
    &&& match time {
        Some(i) => {
            &&& i < limit
            &&& orbit.len() == i + 2
            &&& forall|k: int| 1 <= k <= i ==> #[trigger] judged(orbit, escaped, k, false)
            &&& judged(orbit, escaped, i + 1, true)
        },
        None => {
            &&& orbit.len() == limit + 1
            &&& forall|k: int| 1 <= k <= limit ==> #[trigger] judged(orbit, escaped, k, false)
        },
    }
}

/// `time` is an escape time of `start` within `limit` steps: some orbit of
/// `start` shows it.
pub open spec fn escape_time<Z, S: Fn(Z) -> Z, E: Fn(&Z) -> bool>(
    start: Z,
    limit: u32,
    step: S,
    escaped: E,
    time: Option<u32>,
) -> bool {
    exists|orbit: Seq<Z>| shows(orbit, start, limit, step, escaped, time)
}

/// Iterates `step` from `start`, at most `limit` times, and tells after
/// which step the orbit had escaped: `Some(i)` for the first step `i`,
/// counted from 0, that leads to a point which `escaped` accepts; `None`
/// where none of `limit` steps does.
pub fn escapes<Z, S, E>(start: Z, limit: u32, step: S, escaped: E) -> (time: Option<u32>) where
    S: Fn(Z) -> Z,
    E: Fn(&Z) -> bool,

    requires
        forall|points: Seq<Z>| #[trigger]
            is_orbit(points, start, step) ==> {
                &&& points.len() <= limit ==> call_requires(step, (points.last(),))
                &&& 1 < points.len() <= limit + 1 ==> call_requires(escaped, (&points.last(),))
            },
    ensures
        escape_time(start, limit, step, escaped, time),
{
    let ghost mut orbit = seq![start];
    let mut z = start;
    let mut i: u32 = 0;
    while i < limit
        invariant
            i <= limit,
            is_orbit(orbit, start, step),
            orbit.len() == i + 1,
            orbit.last() == z,
            forall|k: int| 1 <= k <= i ==> #[trigger] judged(orbit, escaped, k, false),
            forall|points: Seq<Z>| #[trigger]
                is_orbit(points, start, step) ==> {
                    &&& points.len() <= limit ==> call_requires(step, (points.last(),))
                    &&& 1 < points.len() <= limit + 1 ==> call_requires(
                        escaped,
                        (&points.last(),),
                    )
                },
        decreases limit - i,
    {
        let ghost before = orbit;
        z = step(z);
        proof {
            orbit = before.push(z);
            assert forall|k: int| 0 <= k < orbit.len() - 1 implies #[trigger] steps(
                orbit,
                step,
                k,
            ) by {
                if k < before.len() - 1 {
                    assert(steps(before, step, k));
                }
            }
            assert(is_orbit(orbit, start, step));
            assert forall|k: int| 1 <= k <= i implies #[trigger] judged(
                orbit,
                escaped,
                k,
                false,
            ) by {
                assert(judged(before, escaped, k, false));
            }
        }
        if escaped(&z) {
            assert(judged(orbit, escaped, i + 1, true));
            assert(shows(orbit, start, limit, step, escaped, Some(i)));
            return Some(i);
        }
        assert(judged(orbit, escaped, i + 1, false));
        i += 1;
    }
    assert(shows(orbit, start, limit, step, escaped, None));
    None
}

/// The point that `k` steps lead to from `start`, each step being `next`.
pub open spec fn iterate<Z>(next: spec_fn(Z) -> Z, start: Z, k: nat) -> Z
    decreases k,
{
    if k == 0 {
        start
    } else {
        next(iterate(next, start, (k - 1) as nat))
    }
}

/// Where every step is `next`, the orbit of a start is the sequence of its
/// iterates.
pub proof fn lemma_orbit_iterates<Z, S: Fn(Z) -> Z>(
    orbit: Seq<Z>,
    start: Z,
    step: S,
    next: spec_fn(Z) -> Z,
    k: int,
)
    requires
        is_orbit(orbit, start, step),
        forall|z: Z, to: Z| #[trigger] call_ensures(step, (z,), to) ==> to == next(z),
        0 <= k < orbit.len(),
    ensures
        orbit[k] == iterate(next, start, k as nat),
    decreases k,
{
    if k > 0 {
        lemma_orbit_iterates(orbit, start, step, next, k - 1);
        assert(steps(orbit, step, k - 1));
    }
}

/// Where every step is `next` and the test is `out`, the escape time is the
/// number of the first step, counted from 0 and below the limit, that leads
/// to a point for which `out` holds; there is none where `out` holds after
/// none of `limit` steps.
pub proof fn lemma_escape_time_is_first<Z, S: Fn(Z) -> Z, E: Fn(&Z) -> bool>(
    start: Z,
    limit: u32,
    step: S,
    escaped: E,
    time: Option<u32>,
    next: spec_fn(Z) -> Z,
    out: spec_fn(Z) -> bool,
)
    requires
        escape_time(start, limit, step, escaped, time),
        forall|z: Z, to: Z| #[trigger] call_ensures(step, (z,), to) ==> to == next(z),
        forall|z: Z, answer: bool| #[trigger]
            call_ensures(escaped, (&z,), answer) ==> answer == out(z),
    ensures
        match time {
            Some(i) => {
                &&& i < limit
                &&& out(iterate(next, start, (i + 1) as nat))
                &&& forall|k: int| 1 <= k <= i ==> !out(#[trigger] iterate(next, start, k as nat))
            },
            None => forall|k: int|
                1 <= k <= limit ==> !out(#[trigger] iterate(next, start, k as nat)),
        },
{
    let orbit = choose|orbit: Seq<Z>| shows(orbit, start, limit, step, escaped, time);
    assert forall|k: int| 1 <= k < orbit.len() implies (judged(orbit, escaped, k, false) ==> !out(
        #[trigger] iterate(next, start, k as nat),
    )) && (judged(orbit, escaped, k, true) ==> out(iterate(next, start, k as nat))) by {
        lemma_orbit_iterates(orbit, start, step, next, k);
    }
    match time {
        Some(i) => {
            assert(judged(orbit, escaped, i + 1, true));
            assert(out(iterate(next, start, (i + 1) as nat)));
            assert forall|k: int| 1 <= k <= i implies !out(
                #[trigger] iterate(next, start, k as nat),
            ) by {
                assert(judged(orbit, escaped, k, false));
            }
        },
        None => {
            assert forall|k: int| 1 <= k <= limit implies !out(
                #[trigger] iterate(next, start, k as nat),
            ) by {
                assert(judged(orbit, escaped, k, false));
            }
        },
    }
}

/// A start whose first step already leads to an escaped point has escape
/// time 0, whatever the limit, as long as there is one step to take.
pub proof fn lemma_escapes_at_once<Z, S: Fn(Z) -> Z, E: Fn(&Z) -> bool>(
    start: Z,
    limit: u32,
    step: S,
    escaped: E,
    time: Option<u32>,
)
    requires
        limit > 0,
        escape_time(start, limit, step, escaped, time),
        forall|next: Z, out: bool|
            call_ensures(step, (start,), next) && #[trigger] call_ensures(escaped, (&next,), out)
                ==> out,
    ensures
        time == Some(0u32),
{
    let orbit = choose|orbit: Seq<Z>| shows(orbit, start, limit, step, escaped, time);
    assert(steps(orbit, step, 0));
    if time != Some(0u32) {
        assert(judged(orbit, escaped, 1, false));
    }
}

/// A start that every step leaves where it is, and that has not escaped,
/// never escapes, whatever the limit.
pub proof fn lemma_never_escapes<Z, S: Fn(Z) -> Z, E: Fn(&Z) -> bool>(
    start: Z,
    limit: u32,
    step: S,
    escaped: E,
    time: Option<u32>,
)
    requires
        escape_time(start, limit, step, escaped, time),
        forall|next: Z| #[trigger] call_ensures(step, (start,), next) ==> next == start,
        forall|out: bool| #[trigger] call_ensures(escaped, (&start,), out) ==> !out,
    ensures
        time is None,
{
    if let Some(i) = time {
        let orbit = choose|orbit: Seq<Z>| shows(orbit, start, limit, step, escaped, time);
        lemma_orbit_rests(orbit, start, step, i + 1);
    }
}

/// Where every step leaves the start where it is, an orbit never leaves it.
proof fn lemma_orbit_rests<Z, S: Fn(Z) -> Z>(orbit: Seq<Z>, start: Z, step: S, k: int)
    requires
        is_orbit(orbit, start, step),
        forall|next: Z| #[trigger] call_ensures(step, (start,), next) ==> next == start,
        0 <= k < orbit.len(),
    ensures
        orbit[k] == start,
    decreases k,
{
    if k > 0 {
        lemma_orbit_rests(orbit, start, step, k - 1);
        assert(steps(orbit, step, k - 1));
    }
}

} // verus!
