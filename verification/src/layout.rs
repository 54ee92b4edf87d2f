//! The layout engine: from settled events to the key codes held down.
//!
//! The engine keeps one `KeyState` per pressed key, in the order of the
//! presses. Events are queued by `event` and take effect in `tick`, which
//! works in three steps:
//!
//! 1. keys whose tap was shown during the tick before are dropped;
//! 2. every pending hold-tap key grows one tick older, and becomes a hold
//!    once it has been pending for `timeout` ticks;
//! 3. the queued events are applied in the order they came in.
//!
//! Each of the steps walks over the keys in order; such a walk is a `Pass`.
//!
//! Chosen where more than one reading is possible:
//! - the active layers are layer 0 and every layer whose toggle is in
//!   effect; of the active layers the one with the highest index that is
//!   not transparent at a position decides;
//! - a press of a key that is already down is ignored, and so is the
//!   release of a key that is not down;
//! - a key pressed and released within one tick is a tap;
//! - of several custom signals in one tick the first is reported.

use vstd::prelude::*;
use crate::action::{codes_of, lemma_tap_leaf_settled, tap_leaf, Action, CustomSignal, KeyCode, TieBreak};
use crate::debounce::{Event, EventKind};
use crate::layers::Layers;
use crate::matrix::Coordinate;

verus! {

/// Where a pressed key stands.
#[derive(Clone, Copy, Debug, PartialEq, Eq, Structural)]
pub enum Phase {
    /// A hold-tap key that has been down for `elapsed` ticks and is
    /// neither a hold nor a tap yet.
    Pending { elapsed: u32 },
    /// The key's action is in effect until the key is released.
    Held,
    /// The key was released as a tap: its action is in effect until the
    /// next tick begins.
    Tapped,
}

/// The record of one pressed key.
#[derive(Clone, Copy, Debug)]
pub struct KeyState<'a> {
    pub coord: Coordinate,
    /// While pending, the hold-tap action in question; else the action in
    /// effect.
    pub action: &'a Action,
    pub phase: Phase,
}

/// One walk over the keys.
#[derive(Clone, Copy, Debug, PartialEq, Eq, Structural)]
pub enum Pass {
    /// Drops the keys that were tapped.
    Sweep,
    /// Lets one tick go by for the pending keys.
    Advance,
    /// Tells the pending keys that another key was pressed.
    Chord,
    /// Releases the key at the given position.
    Release(Coordinate),
}

/// A key is pending exactly while its action is a hold-tap.
pub open spec fn key_wf(k: KeyState) -> bool {
    (k.phase is Pending) == (*k.action is HoldTap)
}

/// The state of a key that begins to carry out `action`.
pub open spec fn begin<'a>(coord: Coordinate, action: &'a Action) -> KeyState<'a> {
    KeyState {
        coord,
        action,
        phase: if *action is HoldTap {
            Phase::Pending { elapsed: 0 }
        } else {
            Phase::Held
        },
    }
}

/// A pending key resolved as a hold: it begins to carry out the hold
/// action (which may be a hold-tap of its own).
pub open spec fn to_hold<'a>(k: KeyState<'a>) -> KeyState<'a> {
    match k.action {
        Action::HoldTap { hold, .. } => begin(k.coord, &**hold),
        _ => KeyState { phase: Phase::Held, ..k },
    }
}

/// A pending key resolved as a tap: the tap action is in effect, through
/// nested hold-taps down to its tap leaf, until the next tick begins.
pub open spec fn to_tap<'a>(k: KeyState<'a>) -> KeyState<'a> {
    KeyState { coord: k.coord, action: &tap_leaf(*k.action), phase: Phase::Tapped }
}

/// A key one tick later.
pub open spec fn advanced<'a>(k: KeyState<'a>) -> KeyState<'a> {
    match k.phase {
        Phase::Pending { elapsed } => match k.action {
            Action::HoldTap { timeout, .. } => if elapsed + 1 >= *timeout {
                to_hold(k)
            } else {
                KeyState { phase: Phase::Pending { elapsed: (elapsed + 1) as u32 }, ..k }
            },
            _ => to_hold(k),
        },
        _ => k,
    }
}

/// A key after another key was pressed.
pub open spec fn chorded<'a>(k: KeyState<'a>) -> KeyState<'a> {
    match k.phase {
        Phase::Pending { .. } => match k.action {
            Action::HoldTap { policy, .. } => if *policy == TieBreak::HoldOnOtherKeyPress {
                to_hold(k)
            } else {
                k
            },
            _ => k,
        },
        _ => k,
    }
}

/// A key after the release of position `at`: `None` if that ends it.
pub open spec fn released<'a>(k: KeyState<'a>, at: Coordinate) -> Option<KeyState<'a>> {
    if k.coord != at {
        Some(k)
    } else {
        match k.phase {
            Phase::Pending { .. } => Some(to_tap(k)),
            Phase::Held => None,
            Phase::Tapped => Some(k),
        }
    }
}

/// What `pass` makes of one key: `None` if the key is dropped.
pub open spec fn key_after<'a>(pass: Pass, k: KeyState<'a>) -> Option<KeyState<'a>> {
    match pass {
        Pass::Sweep => if k.phase is Tapped {
            None
        } else {
            Some(k)
        },
        Pass::Advance => Some(advanced(k)),
        Pass::Chord => Some(chorded(k)),
        Pass::Release(at) => released(k, at),
    }
}

/// The custom action that a key has in effect, if any.
pub open spec fn custom_of(k: Option<KeyState>) -> Option<u32> {
    match k {
        Some(k) => if k.phase is Pending {
            None
        } else {
            match k.action {
                Action::Custom(id) => Some(*id),
                _ => None,
            }
        },
        None => None,
    }
}

/// The signal for a key whose custom action in effect changes from
/// `before` to `after`.
pub open spec fn signal_between(before: Option<u32>, after: Option<u32>) -> Option<CustomSignal> {
    match (before, after) {
        (None, Some(id)) => Some(CustomSignal::Press(id)),
        (Some(id), None) => Some(CustomSignal::Release(id)),
        _ => None,
    }
}

/// The custom signal that `pass` draws from one key.
pub open spec fn key_signal(pass: Pass, k: KeyState) -> Option<CustomSignal> {
    signal_between(custom_of(Some(k)), custom_of(key_after(pass, k)))
}

/// The earlier of two signals.
pub open spec fn first_some(a: Option<CustomSignal>, b: Option<CustomSignal>) -> Option<
    CustomSignal,
> {
    if a is Some {
        a
    } else {
        b
    }
}

/// The keys after `pass`: each key replaced by what the pass makes of it,
/// the dropped ones left out, the order kept.
pub open spec fn keys_after<'a>(pass: Pass, keys: Seq<KeyState<'a>>) -> Seq<KeyState<'a>>
    decreases keys.len(),
{
    if keys.len() == 0 {
        Seq::empty()
    } else {
        let before = keys_after(pass, keys.drop_last());
        match key_after(pass, keys.last()) {
            Some(k) => before.push(k),
            None => before,
        }
    }
}

/// The first custom signal that `pass` draws from the keys, in key order.
pub open spec fn pass_signal(pass: Pass, keys: Seq<KeyState>) -> Option<CustomSignal>
    decreases keys.len(),
{
    if keys.len() == 0 {
        None
    } else {
        first_some(pass_signal(pass, keys.drop_last()), key_signal(pass, keys.last()))
    }
}

/// Whether `k` is the record of the key at `at` being down.
pub open spec fn live_at(k: KeyState, at: Coordinate) -> bool {
    k.coord == at && !(k.phase is Tapped)
}

/// How many records say that the key at `at` is down.
pub open spec fn live_count(keys: Seq<KeyState>, at: Coordinate) -> nat
    decreases keys.len(),
{
    if keys.len() == 0 {
        0
    } else {
        live_count(keys.drop_last(), at) + if live_at(keys.last(), at) {
            1nat
        } else {
            0nat
        }
    }
}

/// Whether the key at `at` is down.
pub open spec fn pressed(keys: Seq<KeyState>, at: Coordinate) -> bool {
    live_count(keys, at) > 0
}

/// Whether key `k` keeps layer `layer` active.
pub open spec fn toggles(k: KeyState, layer: int) -> bool {
    !(k.phase is Pending) && (k.action matches Action::LayerToggle(l) && l == layer)
}

/// Whether layer `layer` is active: the base layer always is, another
/// one while a toggle for it is in effect.
pub open spec fn layer_active(keys: Seq<KeyState>, layer: int) -> bool {
    layer == 0 || exists|i: int| 0 <= i < keys.len() && toggles(#[trigger] keys[i], layer)
}

/// The active layers below `below`, by rising index.
pub open spec fn active_below(keys: Seq<KeyState>, below: int) -> Seq<usize>
    decreases below,
{
    if below <= 0 {
        Seq::empty()
    } else if layer_active(keys, below - 1) {
        active_below(keys, below - 1).push((below - 1) as usize)
    } else {
        active_below(keys, below - 1)
    }
}

/// The action that a press at `at` maps to, looking at the layers below
/// `below` only: that of the highest active layer that is not transparent
/// there. `None` where every active layer is transparent or `at` lies
/// outside the table.
pub open spec fn resolve(layers: Layers, keys: Seq<KeyState>, at: Coordinate, below: int) -> Option<
    Action,
>
    decreases below,
{
    if below <= 0 {
        None
    } else {
        match layers.spec_get(below - 1, at) {
            Some(a) => if layer_active(keys, below - 1) && !(a is Transparent) {
                Some(a)
            } else {
                resolve(layers, keys, at, below - 1)
            },
            None => resolve(layers, keys, at, below - 1),
        }
    }
}

/// The keys and the signal after a press at `at`.
pub open spec fn after_press<'a>(layers: &'a Layers, keys: Seq<KeyState<'a>>, at: Coordinate) -> (
    Seq<KeyState<'a>>,
    Option<CustomSignal>,
) {
    if pressed(keys, at) {
        (keys, None)
    } else {
        let chord = keys_after(Pass::Chord, keys);
        let signal = pass_signal(Pass::Chord, keys);
        match resolve(*layers, chord, at, layers.count() as int) {
            Some(a) => {
                let k = begin(at, &a);
                (
                    chord.push(k),
                    first_some(signal, signal_between(None, custom_of(Some(k)))),
                )
            },
            None => (chord, signal),
        }
    }
}

/// The keys and the signal after one event.
pub open spec fn fed<'a>(layers: &'a Layers, keys: Seq<KeyState<'a>>, event: Event) -> (
    Seq<KeyState<'a>>,
    Option<CustomSignal>,
) {
    match event.kind {
        EventKind::Press => after_press(layers, keys, event.coord),
        EventKind::Release => (
            keys_after(Pass::Release(event.coord), keys),
            pass_signal(Pass::Release(event.coord), keys),
        ),
    }
}

/// The keys after `events`, applied in order, and the first signal that
/// they drew.
pub open spec fn fed_all<'a>(layers: &'a Layers, keys: Seq<KeyState<'a>>, events: Seq<Event>) -> (
    Seq<KeyState<'a>>,
    Option<CustomSignal>,
)
    decreases events.len(),
{
    if events.len() == 0 {
        (keys, None)
    } else {
        let before = fed_all(layers, keys, events.drop_last());
        let after = fed(layers, before.0, events.last());
        (after.0, first_some(before.1, after.1))
    }
}

/// The keys after one tick with `queue` as the events that came in, and
/// the signal of the tick.
pub open spec fn ticked<'a>(layers: &'a Layers, keys: Seq<KeyState<'a>>, queue: Seq<Event>) -> (
    Seq<KeyState<'a>>,
    Option<CustomSignal>,
) {
    let swept = keys_after(Pass::Sweep, keys);
    let aged = keys_after(Pass::Advance, swept);
    let done = fed_all(layers, aged, queue);
    (
        done.0,
        first_some(
            pass_signal(Pass::Sweep, keys),
            first_some(pass_signal(Pass::Advance, swept), done.1),
        ),
    )
}

/// The key codes that one key holds down.
pub open spec fn key_codes(k: KeyState) -> Seq<KeyCode> {
    if k.phase is Pending {
        Seq::empty()
    } else {
        codes_of(*k.action)
    }
}

/// The key codes held down, key by key in the order of the presses.
pub open spec fn resolved_codes(keys: Seq<KeyState>) -> Seq<KeyCode>
    decreases keys.len(),
{
    if keys.len() == 0 {
        Seq::empty()
    } else {
        resolved_codes(keys.drop_last()) + key_codes(keys.last())
    }
}

/// Every key record is valid.
pub open spec fn each_key_wf(keys: Seq<KeyState>) -> bool {
    forall|i: int| 0 <= i < keys.len() ==> key_wf(#[trigger] keys[i])
}

/// No position has two records that say its key is down.
pub open spec fn one_per_position(keys: Seq<KeyState>) -> bool {
    forall|at: Coordinate| #[trigger] live_count(keys, at) <= 1
}

/// Every key record is valid, and no key is down twice.
pub open spec fn keys_wf(keys: Seq<KeyState>) -> bool {
    each_key_wf(keys) && one_per_position(keys)
}

/// A pass never adds a record of a key being down.
pub proof fn lemma_pass_live_count(pass: Pass, keys: Seq<KeyState>, at: Coordinate)
    ensures
        live_count(keys_after(pass, keys), at) <= live_count(keys, at),
    decreases keys.len(),
{
    if keys.len() > 0 {
        lemma_pass_live_count(pass, keys.drop_last(), at);
        let before = keys_after(pass, keys.drop_last());
        match key_after(pass, keys.last()) {
            Some(k) => {
                assert(before.push(k).drop_last() =~= before);
            },
            None => {},
        }
    }
}

/// A pass keeps the keys valid.
pub proof fn lemma_pass_keeps_one_per_position(pass: Pass, keys: Seq<KeyState>)
    requires
        one_per_position(keys),
    ensures
        one_per_position(keys_after(pass, keys)),
{
    assert forall|at: Coordinate| #[trigger] live_count(keys_after(pass, keys), at) <= 1 by {
        lemma_pass_live_count(pass, keys, at);
    }
}

/// Whether layer `layer` decides what a press at `at` does: it is
/// active and not transparent there.
pub open spec fn decides(layers: Layers, keys: Seq<KeyState>, at: Coordinate, layer: int) -> bool {
    layer_active(keys, layer) && (layers.spec_get(layer, at) matches Some(a) && !(a is Transparent))
}

/// A press maps to the action of the highest layer that decides, and to
/// none if no layer does.
pub proof fn lemma_resolve_highest(
    layers: Layers,
    keys: Seq<KeyState>,
    at: Coordinate,
    below: int,
)
    ensures
        match resolve(layers, keys, at, below) {
            Some(a) => exists|l: int|
                0 <= l < below && #[trigger] decides(layers, keys, at, l) && layers.spec_get(l, at)
                    == Some(a) && forall|h: int|
                    l < h < below ==> !#[trigger] decides(layers, keys, at, h),
            None => forall|l: int| 0 <= l < below ==> !#[trigger] decides(layers, keys, at, l),
        },
    decreases below,
{
    if below > 0 {
        lemma_resolve_highest(layers, keys, at, below - 1);
        if decides(layers, keys, at, below - 1) {
        } else {
            match resolve(layers, keys, at, below - 1) {
                Some(a) => {
                    let l = choose|l: int|
                        0 <= l < below - 1 && #[trigger] decides(layers, keys, at, l)
                            && layers.spec_get(l, at) == Some(a) && forall|h: int|
                            l < h < below - 1 ==> !#[trigger] decides(layers, keys, at, h);
                    assert forall|h: int| l < h < below implies !#[trigger] decides(
                        layers,
                        keys,
                        at,
                        h,
                    ) by {}
                },
                None => {},
            }
        }
    }
}

/// A tap is shown for one tick: after the sweep that begins a tick no
/// key is shown as tapped.
pub proof fn lemma_sweep_clears_taps(keys: Seq<KeyState>)
    ensures
        forall|i: int|
            0 <= i < keys_after(Pass::Sweep, keys).len() ==> !((#[trigger] keys_after(
                Pass::Sweep,
                keys,
            )[i]).phase is Tapped),
    decreases keys.len(),
{
    if keys.len() > 0 {
        lemma_sweep_clears_taps(keys.drop_last());
    }
}

fn begin_key<'a>(coord: Coordinate, action: &'a Action) -> (k: KeyState<'a>)
    ensures
        k == begin(coord, action),
        key_wf(k),
{
    let phase = match action {
        Action::HoldTap { .. } => Phase::Pending { elapsed: 0 },
        _ => Phase::Held,
    };
    KeyState { coord, action, phase }
}

fn hold_key<'a>(k: KeyState<'a>) -> (res: KeyState<'a>)
    ensures
        res == to_hold(k),
        key_wf(res),
{
    match k.action {
        Action::HoldTap { hold, .. } => begin_key(k.coord, &**hold),
        _ => KeyState { coord: k.coord, action: k.action, phase: Phase::Held },
    }
}

fn tap_key<'a>(k: KeyState<'a>) -> (res: KeyState<'a>)
    ensures
        res == to_tap(k),
        key_wf(res),
{
    proof {
        lemma_tap_leaf_settled(*k.action);
    }
    KeyState { coord: k.coord, action: k.action.tap_leaf_of(), phase: Phase::Tapped }
}

fn custom_id(k: &KeyState) -> (id: Option<u32>)
    ensures
        id == custom_of(Some(*k)),
{
    match k.phase {
        Phase::Pending { .. } => None,
        _ => match k.action {
            Action::Custom(id) => Some(*id),
            _ => None,
        },
    }
}

fn signal_for(before: Option<u32>, after: Option<u32>) -> (signal: Option<CustomSignal>)
    ensures
        signal == signal_between(before, after),
{
    match (before, after) {
        (None, Some(id)) => Some(CustomSignal::Press(id)),
        (Some(id), None) => Some(CustomSignal::Release(id)),
        _ => None,
    }
}

fn step_key<'a>(pass: Pass, k: KeyState<'a>) -> (res: Option<KeyState<'a>>)
    requires
        key_wf(k),
    ensures
        res == key_after(pass, k),
        res matches Some(after) ==> key_wf(after),
{
    match pass {
        Pass::Sweep => match k.phase {
            Phase::Tapped => None,
            _ => Some(k),
        },
        Pass::Advance => match k.phase {
            Phase::Pending { elapsed } => match k.action {
                Action::HoldTap { timeout, .. } => {
                    if *timeout == 0 || elapsed >= *timeout - 1 {
                        Some(hold_key(k))
                    } else {
                        Some(
                            KeyState {
                                coord: k.coord,
                                action: k.action,
                                phase: Phase::Pending { elapsed: elapsed + 1 },
                            },
                        )
                    }
                },
                _ => Some(hold_key(k)),
            },
            _ => Some(k),
        },
        Pass::Chord => match k.phase {
            Phase::Pending { .. } => match k.action {
                Action::HoldTap { policy, .. } => match policy {
                    TieBreak::HoldOnOtherKeyPress => Some(hold_key(k)),
                    TieBreak::TimeoutOnly => Some(k),
                },
                _ => Some(k),
            },
            _ => Some(k),
        },
        Pass::Release(at) => {
            if k.coord.row != at.row || k.coord.col != at.col {
                Some(k)
            } else {
                match k.phase {
                    Phase::Pending { .. } => Some(tap_key(k)),
                    Phase::Held => None,
                    Phase::Tapped => Some(k),
                }
            }
        },
    }
}

fn run_pass<'a>(pass: Pass, keys: &Vec<KeyState<'a>>) -> (res: (
    Vec<KeyState<'a>>,
    Option<CustomSignal>,
))
    requires
        keys_wf(keys@),
    ensures
        res.0@ == keys_after(pass, keys@),
        res.1 == pass_signal(pass, keys@),
        keys_wf(res.0@),
{
    let mut out: Vec<KeyState<'a>> = Vec::new();
    let mut signal: Option<CustomSignal> = None;
    let mut i: usize = 0;
    while i < keys.len()
        invariant
            i <= keys.len(),
            each_key_wf(keys@),
            each_key_wf(out@),
            out@ == keys_after(pass, keys@.take(i as int)),
            signal == pass_signal(pass, keys@.take(i as int)),
        decreases keys.len() - i,
    {
        let k = keys[i];
        let after = step_key(pass, k);
        let before_id = custom_id(&k);
        let after_id = match &after {
            Some(k2) => custom_id(k2),
            None => None,
        };
        let here = signal_for(before_id, after_id);
        proof {
            assert(keys@.take(i + 1).drop_last() =~= keys@.take(i as int));
            assert(keys@.take(i + 1).last() == k);
        }
        match after {
            Some(k2) => {
                out.push(k2);
            },
            None => {},
        }
        if signal.is_none() {
            signal = here;
        }
        i += 1;
    }
    proof {
        assert(keys@.take(i as int) =~= keys@);
        lemma_pass_keeps_one_per_position(pass, keys@);
    }
    (out, signal)
}

fn is_pressed(keys: &Vec<KeyState>, at: Coordinate) -> (down: bool)
    ensures
        down == pressed(keys@, at),
{
    let mut found = false;
    let mut i: usize = 0;
    while i < keys.len()
        invariant
            i <= keys.len(),
            found == (live_count(keys@.take(i as int), at) > 0),
        decreases keys.len() - i,
    {
        let k = keys[i];
        proof {
            assert(keys@.take(i + 1).drop_last() =~= keys@.take(i as int));
            assert(keys@.take(i + 1).last() == k);
        }
        if k.coord.row == at.row && k.coord.col == at.col {
            match k.phase {
                Phase::Tapped => {},
                _ => {
                    found = true;
                },
            }
        }
        i += 1;
    }
    proof {
        assert(keys@.take(i as int) =~= keys@);
    }
    found
}

fn is_active(keys: &Vec<KeyState>, layer: usize) -> (active: bool)
    ensures
        active == layer_active(keys@, layer as int),
{
    if layer == 0 {
        return true;
    }
    let mut i: usize = 0;
    while i < keys.len()
        invariant
            i <= keys.len(),
            layer != 0,
            forall|j: int| 0 <= j < i ==> !toggles(#[trigger] keys@[j], layer as int),
        decreases keys.len() - i,
    {
        let k = keys[i];
        match k.phase {
            Phase::Pending { .. } => {},
            _ => match k.action {
                Action::LayerToggle(l) => {
                    if *l == layer {
                        assert(toggles(keys@[i as int], layer as int));
                        return true;
                    }
                },
                _ => {},
            },
        }
        i += 1;
    }
    false
}

fn find_action<'a>(layers: &'a Layers, keys: &Vec<KeyState<'a>>, at: Coordinate) -> (res: Option<
    &'a Action,
>)
    requires
        layers.wf(),
    ensures
        res matches Some(a) ==> resolve(*layers, keys@, at, layers.count() as int) == Some(*a),
        res is None ==> resolve(*layers, keys@, at, layers.count() as int) is None,
{
    let mut below: usize = layers.layer_count();
    while below > 0
        invariant
            layers.wf(),
            below <= layers.count(),
            resolve(*layers, keys@, at, layers.count() as int) == resolve(
                *layers,
                keys@,
                at,
                below as int,
            ),
        decreases below,
    {
        let layer: usize = below - 1;
        match layers.get(layer, at) {
            Some(a) => {
                let opaque = match a {
                    Action::Transparent => false,
                    _ => true,
                };
                if opaque && is_active(keys, layer) {
                    return Some(a);
                }
            },
            None => {},
        }
        below = layer;
    }
    None
}

fn press<'a>(layers: &'a Layers, keys: Vec<KeyState<'a>>, at: Coordinate) -> (res: (
    Vec<KeyState<'a>>,
    Option<CustomSignal>,
))
    requires
        layers.wf(),
        keys_wf(keys@),
    ensures
        (res.0@, res.1) == after_press(layers, keys@, at),
        keys_wf(res.0@),
{
    if is_pressed(&keys, at) {
        return (keys, None);
    }
    let (mut chord, signal) = run_pass(Pass::Chord, &keys);
    match find_action(layers, &chord, at) {
        Some(a) => {
            let k = begin_key(at, a);
            let here = signal_for(None, custom_id(&k));
            let ghost chord_keys = chord@;
            chord.push(k);
            proof {
                assert(chord@.drop_last() =~= chord_keys);
                assert forall|p: Coordinate| #[trigger] live_count(chord@, p) <= 1 by {
                    lemma_pass_live_count(Pass::Chord, keys@, p);
                }
            }
            let first = if signal.is_none() {
                here
            } else {
                signal
            };
            (chord, first)
        },
        None => (chord, signal),
    }
}

fn feed<'a>(layers: &'a Layers, keys: Vec<KeyState<'a>>, event: Event) -> (res: (
    Vec<KeyState<'a>>,
    Option<CustomSignal>,
))
    requires
        layers.wf(),
        keys_wf(keys@),
    ensures
        (res.0@, res.1) == fed(layers, keys@, event),
        keys_wf(res.0@),
{
    match event.kind {
        EventKind::Press => press(layers, keys, event.coord),
        EventKind::Release => run_pass(Pass::Release(event.coord), &keys),
    }
}

/// The layout engine over a layer table.
pub struct Layout<'a> {
    layers: &'a Layers,
    keys: Vec<KeyState<'a>>,
    queue: Vec<Event>,
}

impl<'a> Layout<'a> {
    /// The layer table.
    pub closed spec fn layers(&self) -> &'a Layers {
        self.layers
    }

    /// The records of the pressed keys, in the order of the presses.
    pub closed spec fn keys(&self) -> Seq<KeyState<'a>> {
        self.keys@
    }

    /// The events that came in since the last tick.
    pub closed spec fn queue(&self) -> Seq<Event> {
        self.queue@
    }

    /// The table is sound and every key record valid.
    pub open spec fn wf(&self) -> bool {
        &&& self.layers().wf()
        &&& keys_wf(self.keys())
    }

    /// An engine with no key down and no event waiting.
    pub fn new(layers: &'a Layers) -> (layout: Layout<'a>)
        requires
            layers.wf(),
        ensures
            layout.wf(),
            layout.layers() == layers,
            layout.keys() == Seq::<KeyState<'a>>::empty(),
            layout.queue() == Seq::<Event>::empty(),
    {
        Layout { layers, keys: Vec::new(), queue: Vec::new() }
    }

    /// Takes one settled event in. It takes effect at the next tick.
    pub fn event(&mut self, event: Event)
        requires
            old(self).wf(),
        ensures
            final(self).wf(),
            final(self).layers() == old(self).layers(),
            final(self).keys() == old(self).keys(),
            final(self).queue() == old(self).queue().push(event),
    {
        self.queue.push(event);
    }

    /// Lets one tick go by: tapped keys go, pending keys age and turn into
    /// holds when their time is up, and the waiting events are applied.
    /// Returns the first custom signal of the tick, if there was one.
    pub fn tick(&mut self) -> (signal: Option<CustomSignal>)
        requires
            old(self).wf(),
        ensures
            final(self).wf(),
            final(self).layers() == old(self).layers(),
            final(self).queue() == Seq::<Event>::empty(),
            final(self).keys() == ticked(old(self).layers(), old(self).keys(), old(self).queue()).0,
            signal == ticked(old(self).layers(), old(self).keys(), old(self).queue()).1,
    {
        let layers: &'a Layers = self.layers;
        let (swept, swept_signal) = run_pass(Pass::Sweep, &self.keys);
        let (aged, aged_signal) = run_pass(Pass::Advance, &swept);
        let ghost start = aged@;
        let mut keys = aged;
        let mut fed_signal: Option<CustomSignal> = None;
        let mut i: usize = 0;
        while i < self.queue.len()
            invariant
                i <= self.queue.len(),
                layers.wf(),
                keys_wf(keys@),
                self.queue@ == old(self).queue@,
                (keys@, fed_signal) == fed_all(layers, start, self.queue@.take(i as int)),
            decreases self.queue.len() - i,
        {
            let event = self.queue[i];
            proof {
                assert(self.queue@.take(i + 1).drop_last() =~= self.queue@.take(i as int));
                assert(self.queue@.take(i + 1).last() == event);
            }
            let (next, here) = feed(layers, keys, event);
            keys = next;
            if fed_signal.is_none() {
                fed_signal = here;
            }
            i += 1;
        }
        proof {
            assert(self.queue@.take(i as int) =~= self.queue@);
        }
        self.keys = keys;
        self.queue.clear();
        if swept_signal.is_some() {
            swept_signal
        } else if aged_signal.is_some() {
            aged_signal
        } else {
            fed_signal
        }
    }

    /// The active layers as of the last tick, by rising index: layer 0
    /// and every layer of the table whose toggle is in effect.
    pub fn active_layers(&self) -> (active: Vec<usize>)
        requires
            self.wf(),
        ensures
            active@ == active_below(self.keys(), self.layers().count() as int),
    {
        let count: usize = self.layers.layer_count();
        let mut out: Vec<usize> = Vec::new();
        let mut layer: usize = 0;
        while layer < count
            invariant
                layer <= count,
                out@ == active_below(self.keys@, layer as int),
            decreases count - layer,
        {
            if is_active(&self.keys, layer) {
                out.push(layer);
            }
            layer += 1;
        }
        out
    }

    /// The key codes held down as of the last tick, key by key in the
    /// order of the presses.
    pub fn keycodes(&self) -> (codes: Vec<KeyCode>)
        requires
            self.wf(),
        ensures
            codes@ == resolved_codes(self.keys()),
    {
        let mut out: Vec<KeyCode> = Vec::new();
        let mut i: usize = 0;
        while i < self.keys.len()
            invariant
                i <= self.keys.len(),
                out@ == resolved_codes(self.keys@.take(i as int)),
            decreases self.keys.len() - i,
        {
            let k = self.keys[i];
            proof {
                assert(self.keys@.take(i + 1).drop_last() =~= self.keys@.take(i as int));
                assert(self.keys@.take(i + 1).last() == k);
            }
            let ghost before = out@;
            match k.phase {
                Phase::Pending { .. } => {
                    assert(before + key_codes(k) =~= before);
                },
                _ => match k.action {
                    Action::Plain(code) => {
                        out.push(*code);
                        assert(out@ =~= before + key_codes(k));
                    },
                    Action::Macro(codes) => {
                        let mut j: usize = 0;
                        while j < codes.len()
                            invariant
                                j <= codes.len(),
                                out@ == before + codes@.take(j as int),
                            decreases codes.len() - j,
                        {
                            out.push(codes[j]);
                            assert(codes@.take(j + 1) =~= codes@.take(j as int).push(
                                codes@[j as int],
                            ));
                            assert(out@ =~= before + codes@.take(j + 1));
                            j += 1;
                        }
                        assert(codes@.take(j as int) =~= codes@);
                    },
                    _ => {
                        assert(before + key_codes(k) =~= before);
                    },
                },
            }
            i += 1;
        }
        proof {
            assert(self.keys@.take(i as int) =~= self.keys@);
        }
        out
    }
}

} // verus!
