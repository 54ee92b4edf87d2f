//! What becomes of a pending hold-tap key: a hold when its time is up or,
//! if it is set up so, when another key goes down; a tap when it is
//! released before.

use vstd::prelude::*;
use crate::action::{Action, TieBreak};
use crate::debounce::{Event, EventKind};
use crate::layers::Layers;
use crate::layout::{
    advanced, chorded, fed, fed_all, key_after, keys_after, keys_wf, live_at, live_count, pressed,
    ticked, to_hold, to_tap, KeyState, Pass, Phase,
};
use crate::matrix::Coordinate;

verus! {

/// No key is being shown as tapped.
pub open spec fn no_taps(keys: Seq<KeyState>) -> bool {
    forall|i: int| 0 <= i < keys.len() ==> !((#[trigger] keys[i]).phase is Tapped)
}

/// The keys after `n` ticks during which no event came in.
pub open spec fn idle_ticks<'a>(layers: &'a Layers, keys: Seq<KeyState<'a>>, n: nat) -> Seq<
    KeyState<'a>,
>
    decreases n,
{
    if n == 0 {
        keys
    } else {
        ticked(layers, idle_ticks(layers, keys, (n - 1) as nat), Seq::empty()).0
    }
}

/// For how many ticks a key has been pending (0 if it is not).
pub open spec fn elapsed_of(k: KeyState) -> int {
    match k.phase {
        Phase::Pending { elapsed } => elapsed as int,
        _ => 0,
    }
}

/// The timeout of a key's hold-tap action (0 if it has another action).
pub open spec fn timeout_of(k: KeyState) -> int {
    match k.action {
        Action::HoldTap { timeout, .. } => *timeout as int,
        _ => 0,
    }
}

/// The tie-break policy of a key's hold-tap action.
pub open spec fn policy_of(k: KeyState) -> TieBreak {
    match k.action {
        Action::HoldTap { policy, .. } => *policy,
        _ => TieBreak::TimeoutOnly,
    }
}

/// Key `k` after it has been pending for `elapsed` ticks.
pub open spec fn pending_for<'a>(k: KeyState<'a>, elapsed: int) -> KeyState<'a> {
    KeyState { phase: Phase::Pending { elapsed: elapsed as u32 }, ..k }
}

/// A pass that drops no key works key by key.
pub proof fn lemma_pass_key_by_key(pass: Pass, keys: Seq<KeyState>)
    requires
        forall|i: int| 0 <= i < keys.len() ==> key_after(pass, #[trigger] keys[i]) is Some,
    ensures
        keys_after(pass, keys).len() == keys.len(),
        forall|i: int|
            0 <= i < keys.len() ==> (#[trigger] keys_after(pass, keys)[i]) == key_after(
                pass,
                keys[i],
            ).unwrap(),
    decreases keys.len(),
{
    if keys.len() > 0 {
        let head = keys.drop_last();
        assert forall|i: int| 0 <= i < head.len() implies key_after(pass, #[trigger] head[i])
            is Some by {
            assert(head[i] == keys[i]);
        }
        lemma_pass_key_by_key(pass, head);
        assert forall|i: int| 0 <= i < keys.len() implies (#[trigger] keys_after(pass, keys)[i])
            == key_after(pass, keys[i]).unwrap() by {
            if i < head.len() {
                assert(head[i] == keys[i]);
                assert(keys_after(pass, keys)[i] == keys_after(pass, head)[i]);
            } else {
                assert(keys[i] == keys.last());
            }
        }
    }
}

/// Two sequences of keys that agree, key by key, on which keys are down
/// at `at`, have as many keys down there.
pub proof fn lemma_live_count_key_by_key(a: Seq<KeyState>, b: Seq<KeyState>, at: Coordinate)
    requires
        a.len() == b.len(),
        forall|i: int| 0 <= i < a.len() ==> live_at(#[trigger] a[i], at) == live_at(b[i], at),
    ensures
        live_count(a, at) == live_count(b, at),
    decreases a.len(),
{
    if a.len() > 0 {
        assert forall|i: int| 0 <= i < a.drop_last().len() implies live_at(
            #[trigger] a.drop_last()[i],
            at,
        ) == live_at(b.drop_last()[i], at) by {
            assert(a.drop_last()[i] == a[i]);
            assert(b.drop_last()[i] == b[i]);
        }
        lemma_live_count_key_by_key(a.drop_last(), b.drop_last(), at);
        assert(live_at(a[a.len() - 1], at) == live_at(b[a.len() - 1], at));
    }
}

/// A record of the key at `at` being down counts.
pub proof fn lemma_live_counts(keys: Seq<KeyState>, i: int, at: Coordinate)
    requires
        0 <= i < keys.len(),
        live_at(keys[i], at),
    ensures
        live_count(keys, at) >= 1,
    decreases keys.len(),
{
    if i < keys.len() - 1 {
        assert(keys.drop_last()[i] == keys[i]);
        lemma_live_counts(keys.drop_last(), i, at);
    }
}

/// Two records of the key at `at` being down count twice.
pub proof fn lemma_live_counts_twice(keys: Seq<KeyState>, i: int, j: int, at: Coordinate)
    requires
        0 <= i < j < keys.len(),
        live_at(keys[i], at),
        live_at(keys[j], at),
    ensures
        live_count(keys, at) >= 2,
    decreases keys.len(),
{
    assert(keys.drop_last()[i] == keys[i]);
    if j < keys.len() - 1 {
        assert(keys.drop_last()[j] == keys[j]);
        lemma_live_counts_twice(keys.drop_last(), i, j, at);
    } else {
        lemma_live_counts(keys.drop_last(), i, at);
    }
}

/// A tick without events, on keys of which none is shown as tapped, lets
/// every key grow one tick older and does nothing else.
pub proof fn lemma_idle_tick<'a>(layers: &'a Layers, keys: Seq<KeyState<'a>>)
    requires
        no_taps(keys),
    ensures
        ticked(layers, keys, Seq::empty()).0.len() == keys.len(),
        forall|i: int|
            0 <= i < keys.len() ==> (#[trigger] ticked(layers, keys, Seq::empty()).0[i])
                == advanced(keys[i]),
        no_taps(ticked(layers, keys, Seq::empty()).0),
{
    lemma_aging(keys);
}

/// The first two steps of a tick, on keys of which none is shown as
/// tapped: nothing is swept, and every key grows one tick older.
pub proof fn lemma_aging(keys: Seq<KeyState>)
    requires
        no_taps(keys),
    ensures
        keys_after(Pass::Sweep, keys) == keys,
        keys_after(Pass::Advance, keys).len() == keys.len(),
        forall|i: int|
            0 <= i < keys.len() ==> (#[trigger] keys_after(Pass::Advance, keys)[i]) == advanced(
                keys[i],
            ),
        no_taps(keys_after(Pass::Advance, keys)),
        forall|at: Coordinate|
            live_count(keys_after(Pass::Advance, keys), at) == #[trigger] live_count(keys, at),
{
    lemma_pass_key_by_key(Pass::Sweep, keys);
    assert(keys_after(Pass::Sweep, keys) =~= keys);
    lemma_pass_key_by_key(Pass::Advance, keys);
    let aged = keys_after(Pass::Advance, keys);
    assert forall|at: Coordinate| live_count(aged, at) == #[trigger] live_count(keys, at) by {
        lemma_live_count_key_by_key(aged, keys, at);
    }
}

/// Hold by timeout. A pending key that is left alone, with no key being
/// shown as tapped, stays pending while it has been down for less than
/// its timeout, and becomes a hold in the tick that completes the
/// timeout.
pub proof fn lemma_hold_when_time_is_up<'a>(
    layers: &'a Layers,
    keys: Seq<KeyState<'a>>,
    i: int,
    n: nat,
)
    requires
        no_taps(keys),
        0 <= i < keys.len(),
        keys[i].phase is Pending,
        keys[i].action is HoldTap,
    ensures
        idle_ticks(layers, keys, n).len() == keys.len(),
        no_taps(idle_ticks(layers, keys, n)),
        elapsed_of(keys[i]) + n < timeout_of(keys[i]) ==> idle_ticks(layers, keys, n)[i]
            == pending_for(keys[i], elapsed_of(keys[i]) + n),
        n > 0 && elapsed_of(keys[i]) + n >= timeout_of(keys[i]) && (n == 1 || elapsed_of(keys[i])
            + n - 1 < timeout_of(keys[i])) ==> idle_ticks(layers, keys, n)[i] == to_hold(keys[i]),
    decreases n,
{
    if n > 0 {
        let before = idle_ticks(layers, keys, (n - 1) as nat);
        lemma_hold_when_time_is_up(layers, keys, i, (n - 1) as nat);
        lemma_idle_tick(layers, before);
        if n == 1 {
            assert(before == keys);
        }
    } else {
        assert(pending_for(keys[i], elapsed_of(keys[i])) == keys[i]);
    }
}

/// Tap by early release. A pending key whose release is applied in a
/// tick that does not complete its timeout becomes a tap: its tap action
/// is in effect, and the other keys only grow one tick older.
pub proof fn lemma_tap_when_released_early<'a>(
    layers: &'a Layers,
    keys: Seq<KeyState<'a>>,
    i: int,
)
    requires
        keys_wf(keys),
        no_taps(keys),
        0 <= i < keys.len(),
        keys[i].phase is Pending,
        keys[i].action is HoldTap,
        elapsed_of(keys[i]) + 1 < timeout_of(keys[i]),
    ensures
        ({
            let release = Event { coord: keys[i].coord, kind: EventKind::Release };
            let after = ticked(layers, keys, seq![release]).0;
            &&& after.len() == keys.len()
            &&& after[i] == to_tap(keys[i])
            &&& forall|j: int| 0 <= j < keys.len() && j != i ==> #[trigger] after[j] == advanced(keys[j])
        }),
{
    let at = keys[i].coord;
    let release = Event { coord: at, kind: EventKind::Release };
    lemma_aging(keys);
    let aged = keys_after(Pass::Advance, keys);
    assert(seq![release].drop_last() =~= Seq::<Event>::empty());
    assert(fed_all(layers, aged, seq![release].drop_last()).0 == aged);
    assert(fed_all(layers, aged, seq![release]).0 == fed(layers, aged, release).0);
    assert forall|j: int| 0 <= j < aged.len() implies key_after(
        Pass::Release(at),
        #[trigger] aged[j],
    ) is Some && (j != i ==> key_after(Pass::Release(at), aged[j]) == Some(aged[j])) by {
        if j != i && keys[j].coord == at {
            if i < j {
                lemma_live_counts_twice(keys, i, j, at);
            } else {
                lemma_live_counts_twice(keys, j, i, at);
            }
        }
    }
    lemma_pass_key_by_key(Pass::Release(at), aged);
}

/// Tie-break. When another key goes down while a key is pending, in a
/// tick that does not complete the timeout, the pending key becomes a
/// hold at once if its policy is `HoldOnOtherKeyPress`, and stays
/// pending if its policy is `TimeoutOnly`.
pub proof fn lemma_other_press_decides<'a>(
    layers: &'a Layers,
    keys: Seq<KeyState<'a>>,
    i: int,
    other: Coordinate,
)
    requires
        no_taps(keys),
        0 <= i < keys.len(),
        keys[i].phase is Pending,
        keys[i].action is HoldTap,
        elapsed_of(keys[i]) + 1 < timeout_of(keys[i]),
        !pressed(keys, other),
    ensures
        ({
            let press = Event { coord: other, kind: EventKind::Press };
            let after = ticked(layers, keys, seq![press]).0;
            &&& after.len() >= keys.len()
            &&& policy_of(keys[i]) == TieBreak::HoldOnOtherKeyPress ==> after[i] == to_hold(keys[i])
            &&& policy_of(keys[i]) == TieBreak::TimeoutOnly ==> after[i] == pending_for(
                keys[i],
                elapsed_of(keys[i]) + 1,
            )
        }),
{
    let press = Event { coord: other, kind: EventKind::Press };
    lemma_aging(keys);
    let aged = keys_after(Pass::Advance, keys);
    assert(live_count(aged, other) == live_count(keys, other));
    assert(seq![press].drop_last() =~= Seq::<Event>::empty());
    assert(fed_all(layers, aged, seq![press].drop_last()).0 == aged);
    assert(fed_all(layers, aged, seq![press]).0 == fed(layers, aged, press).0);
    lemma_pass_key_by_key(Pass::Chord, aged);
    assert(keys_after(Pass::Chord, aged)[i] == chorded(aged[i]));
}

} // verus!
