//! Key codes and the actions a key can be bound to.

use vstd::prelude::*;

verus! {

/// A HID keyboard usage id.
#[derive(Clone, Copy, Debug, PartialEq, Eq, Structural)]
pub struct KeyCode(pub u8);

/// Usage id of the first modifier key (left control).
pub const FIRST_MODIFIER: u8 = 0xE0;

/// Usage id of the last modifier key (right GUI).
pub const LAST_MODIFIER: u8 = 0xE7;

/// How a pending hold-tap key reacts to another key being pressed.
#[derive(Clone, Copy, Debug, PartialEq, Eq, Structural)]
pub enum TieBreak {
    /// Only the timeout turns the key into a hold.
    TimeoutOnly,
    /// Pressing any other key turns the key into a hold at once.
    HoldOnOtherKeyPress,
}

/// What a custom action reports to the caller of the layout engine.
#[derive(Clone, Copy, Debug, PartialEq, Eq, Structural)]
pub enum CustomSignal {
    /// The custom action with this id came into effect.
    Press(u32),
    /// The custom action with this id went out of effect.
    Release(u32),
}

/// What a key position does on one layer.
#[derive(Debug, PartialEq, Eq)]
pub enum Action {
    /// One key code, held as long as the key is.
    Plain(KeyCode),
    /// Nothing on this layer: the next lower active layer decides.
    Transparent,
    /// Keeps the given layer active while the key is held.
    LayerToggle(usize),
    /// Several key codes held together.
    Macro(Vec<KeyCode>),
    /// `hold` if held for `timeout` ticks, `tap` if released before.
    HoldTap { timeout: u32, policy: TieBreak, hold: Box<Action>, tap: Box<Action> },
    /// An opaque signal handed to the caller.
    Custom(u32),
}

/// Deepest nesting of hold-tap actions that a layer table may contain.
pub const MAX_NESTING: usize = 4;

/// How many hold-tap actions are nested along the longest branch of `a`.
pub open spec fn depth(a: Action) -> nat
    decreases a,
{
    match a {
        Action::HoldTap { hold, tap, .. } => {
            let h = depth(*hold);
            let t = depth(*tap);
            if h >= t {
                h + 1
            } else {
                t + 1
            }
        },
        _ => 0,
    }
}

/// True when every layer toggle inside `a` names one of `layers` layers.
pub open spec fn refs_within(a: Action, layers: nat) -> bool
    decreases a,
{
    match a {
        Action::LayerToggle(l) => l < layers,
        Action::HoldTap { hold, tap, .. } => refs_within(*hold, layers) && refs_within(*tap, layers),
        _ => true,
    }
}

/// The action reached from `a` by taking the tap branch of every hold-tap
/// on the way: what a key that is released at once comes to.
pub open spec fn tap_leaf(a: Action) -> Action
    decreases a,
{
    match a {
        Action::HoldTap { tap, .. } => tap_leaf(*tap),
        _ => a,
    }
}

/// The key codes that `a` holds down while in effect.
pub open spec fn codes_of(a: Action) -> Seq<KeyCode> {
    match a {
        Action::Plain(k) => seq![k],
        Action::Macro(ks) => ks@,
        _ => Seq::empty(),
    }
}

/// The tap leaf of an action is never a hold-tap.
pub proof fn lemma_tap_leaf_settled(a: Action)
    ensures
        !(tap_leaf(a) is HoldTap),
    decreases a,
{
    match a {
        Action::HoldTap { tap, .. } => lemma_tap_leaf_settled(*tap),
        _ => {},
    }
}

impl Action {
    /// Whether hold-tap actions nest at most `limit` deep in this action.
    pub fn nesting_within(&self, limit: usize) -> (ok: bool)
        ensures
            ok == (depth(*self) <= limit),
        decreases *self,
    {
        match self {
            Action::HoldTap { hold, tap, .. } => {
                if limit == 0 {
                    false
                } else {
                    hold.nesting_within(limit - 1) && tap.nesting_within(limit - 1)
                }
            },
            _ => true,
        }
    }

    /// Whether every layer toggle in this action names an existing layer.
    pub fn layers_within(&self, layers: usize) -> (ok: bool)
        ensures
            ok == refs_within(*self, layers as nat),
        decreases *self,
    {
        match self {
            Action::LayerToggle(l) => *l < layers,
            Action::HoldTap { hold, tap, .. } => hold.layers_within(layers) && tap.layers_within(
                layers,
            ),
            _ => true,
        }
    }

    /// Follows the tap branches down to the first action that is no hold-tap.
    pub fn tap_leaf_of<'a>(&'a self) -> (leaf: &'a Action)
        ensures
            *leaf == tap_leaf(*self),
    {
        let mut cur: &'a Action = self;
        loop
            invariant
                tap_leaf(*cur) == tap_leaf(*self),
            ensures
                *cur == tap_leaf(*self),
            decreases depth(*cur),
        {
            match cur {
                Action::HoldTap { tap, .. } => {
                    cur = &**tap;
                },
                _ => {
                    break ;
                },
            }
        }
        cur
    }
}

} // verus!
