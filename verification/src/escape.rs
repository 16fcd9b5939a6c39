//! Following one orbit until it escapes.
//!
//! An orbit starts in a state `origin` and is moved on by a function `step`,
//! which hands back the next state together with a flag: whether that state
//! lies outside the escape radius. The escape count of a point is the number
//! of the first application of `step` that raises the flag, counted from
//! zero, and the budget `max_iter` where none of the applications numbered
//! `0 ..= max_iter` does.

use vstd::prelude::*;

verus! {

/// The escape count of the orbit that `model` generates from `origin` under
/// the budget `max_iter`: the number of steps that come before the first one
/// to raise the flag, and `max_iter` where none of the first `max_iter` steps
/// raises it.
pub open spec fn escape_count<S>(model: spec_fn(S) -> (S, bool), origin: S, max_iter: nat) -> nat
    decreases max_iter,
{
    let (next, escaped) = model(origin);
    if escaped || max_iter == 0 {
        0
    } else {
        1 + escape_count(model, next, (max_iter - 1) as nat)
    }
}

/// The state that the `i`-th application of `step` starts from: the origin for
/// the first one, and after that the state that the application before it
/// produced.
pub open spec fn state_before<S>(origin: S, trail: Seq<(S, bool)>, i: int) -> S {
    if i == 0 {
        origin
    } else {
        trail[i - 1].0
    }
}

/// `trail` records an orbit of `step` from `origin`: its `i`-th entry is what
/// `step` handed back when it was applied for the `i`-th time.
pub open spec fn orbit_follows<S, F: Fn(S) -> (S, bool)>(
    step: F,
    origin: S,
    trail: Seq<(S, bool)>,
) -> bool {
    forall|i: int|
        0 <= i < trail.len() ==> call_ensures(
            step,
            (state_before(origin, trail, i),),
            #[trigger] trail[i],
        )
}

/// `trail` is the orbit that was followed to find the escape count `count`:
/// it has `count + 1` entries, none before the last raises the flag, and the
/// last one either raises it or uses up the budget.
pub open spec fn is_escape_run<S, F: Fn(S) -> (S, bool)>(
    step: F,
    origin: S,
    max_iter: nat,
    count: nat,
    trail: Seq<(S, bool)>,
) -> bool {
    &&& count <= max_iter
    &&& trail.len() == count + 1
    &&& orbit_follows(step, origin, trail)
    &&& forall|i: int| 0 <= i < count ==> !(#[trigger] trail[i]).1
    &&& (trail[count as int].1 || count == max_iter)
}

/// `count` is an escape count of the orbit of `step` from `origin` under the
/// budget `max_iter`.
pub open spec fn escapes_at<S, F: Fn(S) -> (S, bool)>(
    step: F,
    origin: S,
    max_iter: nat,
    count: nat,
) -> bool {
    exists|trail: Seq<(S, bool)>| is_escape_run(step, origin, max_iter, count, trail)
}

/// `step` can be applied to `origin` and to every state that it produces
/// itself.
pub open spec fn can_follow<S, F: Fn(S) -> (S, bool)>(step: F, origin: S) -> bool {
    &&& call_requires(step, (origin,))
    &&& forall|s: S, next: (S, bool)|
        call_requires(step, (s,)) && #[trigger] call_ensures(step, (s,), next) ==> call_requires(
            step,
            (next.0,),
        )
}

/// `step` hands back the same result whenever it is applied to the same
/// state.
pub open spec fn is_deterministic<S, F: Fn(S) -> (S, bool)>(step: F) -> bool {
    forall|s: S, a: (S, bool), b: (S, bool)|
        #[trigger] call_ensures(step, (s,), a) && #[trigger] call_ensures(step, (s,), b) ==> a == b
}

/// `step` computes `model`: whatever it hands back for a state is what
/// `model` gives for that state.
pub open spec fn step_computes<S, F: Fn(S) -> (S, bool)>(
    step: F,
    model: spec_fn(S) -> (S, bool),
) -> bool {
    forall|s: S, next: (S, bool)| #[trigger] call_ensures(step, (s,), next) ==> next == model(s)
}

/// Counts how many applications of `step` the orbit from `origin` stays
/// inside the escape radius, giving up after `max_iter`.
///
/// `step` is applied to `origin`, then to the state it handed back, and so
/// on. The number of the first application that raises the flag is returned;
/// where the application numbered `max_iter` is reached, its number is
/// returned whether it raises the flag or not.
pub fn iterations_at_point<S, F>(max_iter: usize, origin: S, step: F) -> (count: usize) where
    F: Fn(S) -> (S, bool),

    requires
        can_follow(step, origin),
    ensures
        count <= max_iter,
        escapes_at(step, origin, max_iter as nat, count as nat),
{
    let ghost mut trail: Seq<(S, bool)> = Seq::empty();
    let mut z = origin;
    let mut i: usize = 0;
    loop
        invariant
            i <= max_iter,
            trail.len() == i,
            orbit_follows(step, origin, trail),
            forall|k: int| 0 <= k < i ==> !(#[trigger] trail[k]).1,
            z == state_before(origin, trail, i as int),
            can_follow(step, z),
        decreases max_iter - i,
    {
        let ghost before = trail;
        let (next, escaped) = step(z);
        proof {
            trail = before.push((next, escaped));
            assert forall|k: int| 0 <= k < trail.len() implies call_ensures(
                step,
                (state_before(origin, trail, k),),
                #[trigger] trail[k],
            ) by {
                if k < i {
                    assert(trail[k] == before[k]);
                    assert(state_before(origin, trail, k) == state_before(origin, before, k));
                }
            }
        }
        if escaped || i == max_iter {
            proof {
                assert(is_escape_run(step, origin, max_iter as nat, i as nat, trail));
            }
            return i;
        }
        z = next;
        i = i + 1;
    }
}

/// With a budget of zero the escape count is zero, whatever the orbit does.
pub proof fn lemma_zero_budget<S, F: Fn(S) -> (S, bool)>(step: F, origin: S, count: nat)
    requires
        escapes_at(step, origin, 0, count),
    ensures
        count == 0,
{
}

/// Where the first application of `step` cannot but raise the flag, the
/// escape count is zero under every budget.
pub proof fn lemma_escape_at_once<S, F: Fn(S) -> (S, bool)>(
    step: F,
    origin: S,
    max_iter: nat,
    count: nat,
)
    requires
        escapes_at(step, origin, max_iter, count),
        forall|next: (S, bool)| #[trigger] call_ensures(step, (origin,), next) ==> next.1,
    ensures
        count == 0,
{
    let trail = choose|trail: Seq<(S, bool)>| is_escape_run(step, origin, max_iter, count, trail);
    assert(call_ensures(step, (state_before(origin, trail, 0),), trail[0]));
}

/// In an orbit of `step` that starts inside a set of states which `step`
/// never leaves and in which it never raises the flag, no entry raises the
/// flag and every state lies in the set.
proof fn lemma_trail_confined<S, F: Fn(S) -> (S, bool)>(
    step: F,
    origin: S,
    inside: spec_fn(S) -> bool,
    trail: Seq<(S, bool)>,
    i: int,
)
    requires
        orbit_follows(step, origin, trail),
        inside(origin),
        forall|s: S, next: (S, bool)|
            inside(s) && #[trigger] call_ensures(step, (s,), next) ==> inside(next.0) && !next.1,
        0 <= i < trail.len(),
    ensures
        inside(trail[i].0),
        !trail[i].1,
    decreases i,
{
    if i > 0 {
        lemma_trail_confined(step, origin, inside, trail, i - 1);
    }
    assert(call_ensures(step, (state_before(origin, trail, i),), trail[i]));
}

/// An orbit that cannot leave a set of states in which the flag is never
/// raised uses up its budget: the escape count is `max_iter`.
pub proof fn lemma_confined_orbit<S, F: Fn(S) -> (S, bool)>(
    step: F,
    origin: S,
    max_iter: nat,
    count: nat,
    inside: spec_fn(S) -> bool,
)
    requires
        escapes_at(step, origin, max_iter, count),
        inside(origin),
        forall|s: S, next: (S, bool)|
            inside(s) && #[trigger] call_ensures(step, (s,), next) ==> inside(next.0) && !next.1,
    ensures
        count == max_iter,
{
    let trail = choose|trail: Seq<(S, bool)>| is_escape_run(step, origin, max_iter, count, trail);
    lemma_trail_confined(step, origin, inside, trail, count as int);
}

/// An orbit that rests at its origin without raising the flag uses up its
/// budget: the escape count is `max_iter`.
pub proof fn lemma_resting_orbit<S, F: Fn(S) -> (S, bool)>(
    step: F,
    origin: S,
    max_iter: nat,
    count: nat,
)
    requires
        escapes_at(step, origin, max_iter, count),
        forall|next: (S, bool)|
            #[trigger] call_ensures(step, (origin,), next) ==> next == (origin, false),
    ensures
        count == max_iter,
{
    lemma_confined_orbit(step, origin, max_iter, count, |s: S| s == origin);
}

/// The count that an orbit of `step` was followed to is the escape count of
/// the model that `step` computes.
proof fn lemma_run_of_model<S, F: Fn(S) -> (S, bool)>(
    step: F,
    model: spec_fn(S) -> (S, bool),
    origin: S,
    max_iter: nat,
    count: nat,
    trail: Seq<(S, bool)>,
)
    requires
        step_computes(step, model),
        is_escape_run(step, origin, max_iter, count, trail),
    ensures
        count == escape_count(model, origin, max_iter),
    decreases count,
{
    assert(call_ensures(step, (state_before(origin, trail, 0),), trail[0]));
    if count > 0 {
        let rest = trail.subrange(1, trail.len() as int);
        assert forall|i: int| 0 <= i < rest.len() implies call_ensures(
            step,
            (state_before(trail[0].0, rest, i),),
            #[trigger] rest[i],
        ) by {
            assert(state_before(trail[0].0, rest, i) == state_before(origin, trail, i + 1));
            assert(call_ensures(step, (state_before(origin, trail, i + 1),), trail[i + 1]));
        }
        assert forall|i: int| 0 <= i < count - 1 implies !(#[trigger] rest[i]).1 by {
            assert(rest[i] == trail[i + 1]);
        }
        lemma_run_of_model(
            step,
            model,
            trail[0].0,
            (max_iter - 1) as nat,
            (count - 1) as nat,
            rest,
        );
    }
}

/// Where `step` computes `model`, the escape count that following the orbit
/// finds is `escape_count` of the model.
pub proof fn lemma_count_of_model<S, F: Fn(S) -> (S, bool)>(
    step: F,
    model: spec_fn(S) -> (S, bool),
    origin: S,
    max_iter: nat,
    count: nat,
)
    requires
        step_computes(step, model),
        escapes_at(step, origin, max_iter, count),
    ensures
        count == escape_count(model, origin, max_iter),
{
    let trail = choose|trail: Seq<(S, bool)>| is_escape_run(step, origin, max_iter, count, trail);
    lemma_run_of_model(step, model, origin, max_iter, count, trail);
}

/// A deterministic `step` gives every origin one escape count under a given
/// budget: following the orbit again finds the same count.
pub proof fn lemma_count_unique<S, F: Fn(S) -> (S, bool)>(
    step: F,
    origin: S,
    max_iter: nat,
    count: nat,
    again: nat,
)
    requires
        is_deterministic(step),
        escapes_at(step, origin, max_iter, count),
        escapes_at(step, origin, max_iter, again),
    ensures
        count == again,
{
    let model = |s: S| choose|next: (S, bool)| call_ensures(step, (s,), next);
    assert(step_computes(step, model));
    lemma_count_of_model(step, model, origin, max_iter, count);
    lemma_count_of_model(step, model, origin, max_iter, again);
}

} // verus!
