use m60rs::action::{Action, CustomSignal, KeyCode, TieBreak, MAX_NESTING};
use m60rs::debounce::{Event, EventKind};
use m60rs::layers::{ConfigError, Layers};
use m60rs::layout::Layout;
use m60rs::matrix::Coordinate;

const A: u8 = 0x04;
const B: u8 = 0x05;
const C: u8 = 0x06;
const ONE: u8 = 0x1E;
const ENTER: u8 = 0x28;
const ESCAPE: u8 = 0x29;
const LSHIFT: u8 = 0xE1;

fn k(code: u8) -> Action {
    Action::Plain(KeyCode(code))
}

fn hold_tap(timeout: u32, policy: TieBreak, hold: Action, tap: Action) -> Action {
    Action::HoldTap { timeout, policy, hold: Box::new(hold), tap: Box::new(tap) }
}

fn press(row: usize, col: usize) -> Event {
    Event { coord: Coordinate { row, col }, kind: EventKind::Press }
}

fn release(row: usize, col: usize) -> Event {
    Event { coord: Coordinate { row, col }, kind: EventKind::Release }
}

fn codes(raw: &[u8]) -> Vec<KeyCode> {
    raw.iter().map(|c| KeyCode(*c)).collect()
}

fn one_layer(row: Vec<Action>) -> Layers {
    Layers::new(vec![vec![row]]).unwrap()
}

#[test]
fn plain_key_is_held_until_released() {
    let layers = one_layer(vec![k(A), k(B)]);
    let mut layout = Layout::new(&layers);
    assert_eq!(layout.tick(), None);
    assert_eq!(layout.keycodes(), codes(&[]));
    layout.event(press(0, 1));
    assert_eq!(layout.tick(), None);
    assert_eq!(layout.keycodes(), codes(&[B]));
    for _ in 0..10 {
        layout.tick();
        assert_eq!(layout.keycodes(), codes(&[B]));
    }
    layout.event(release(0, 1));
    layout.tick();
    assert_eq!(layout.keycodes(), codes(&[]));
}

#[test]
fn events_wait_for_the_next_tick() {
    let layers = one_layer(vec![k(A)]);
    let mut layout = Layout::new(&layers);
    layout.event(press(0, 0));
    assert_eq!(layout.keycodes(), codes(&[]));
    layout.tick();
    assert_eq!(layout.keycodes(), codes(&[A]));
    layout.event(release(0, 0));
    assert_eq!(layout.keycodes(), codes(&[A]));
    layout.tick();
    assert_eq!(layout.keycodes(), codes(&[]));
}

#[test]
fn key_codes_come_in_the_order_of_the_presses() {
    let layers = one_layer(vec![k(A), k(B), k(C)]);
    let mut layout = Layout::new(&layers);
    layout.event(press(0, 2));
    layout.event(press(0, 0));
    layout.tick();
    layout.event(press(0, 1));
    layout.tick();
    assert_eq!(layout.keycodes(), codes(&[C, A, B]));
    layout.event(release(0, 0));
    layout.tick();
    assert_eq!(layout.keycodes(), codes(&[C, B]));
}

#[test]
fn hold_tap_is_a_hold_once_the_timeout_is_complete() {
    let layers = one_layer(vec![hold_tap(200, TieBreak::TimeoutOnly, k(LSHIFT), k(ESCAPE))]);
    let mut layout = Layout::new(&layers);
    layout.event(press(0, 0));
    layout.tick();
    for _ in 0..199 {
        layout.tick();
        assert_eq!(layout.keycodes(), codes(&[]));
    }
    layout.tick();
    assert_eq!(layout.keycodes(), codes(&[LSHIFT]));
    for _ in 0..50 {
        layout.tick();
        assert_eq!(layout.keycodes(), codes(&[LSHIFT]));
    }
    layout.event(release(0, 0));
    layout.tick();
    assert_eq!(layout.keycodes(), codes(&[]));
    layout.tick();
    assert_eq!(layout.keycodes(), codes(&[]));
}

#[test]
fn hold_tap_is_a_tap_when_released_before_the_timeout() {
    let layers = one_layer(vec![hold_tap(200, TieBreak::TimeoutOnly, k(LSHIFT), k(ESCAPE))]);
    let mut layout = Layout::new(&layers);
    layout.event(press(0, 0));
    layout.tick();
    for _ in 0..198 {
        layout.tick();
    }
    layout.event(release(0, 0));
    layout.tick();
    assert_eq!(layout.keycodes(), codes(&[ESCAPE]));
    layout.tick();
    assert_eq!(layout.keycodes(), codes(&[]));
}

#[test]
fn release_in_the_tick_that_completes_the_timeout_is_a_hold() {
    let layers = one_layer(vec![hold_tap(3, TieBreak::TimeoutOnly, k(LSHIFT), k(ESCAPE))]);
    let mut layout = Layout::new(&layers);
    layout.event(press(0, 0));
    layout.tick();
    layout.tick();
    layout.tick();
    assert_eq!(layout.keycodes(), codes(&[]));
    layout.event(release(0, 0));
    layout.tick();
    // it became a hold and was released in the same tick: no tap
    assert_eq!(layout.keycodes(), codes(&[]));
    layout.tick();
    assert_eq!(layout.keycodes(), codes(&[]));
}

#[test]
fn press_and_release_within_one_tick_is_a_tap() {
    let layers = one_layer(vec![hold_tap(0, TieBreak::TimeoutOnly, k(LSHIFT), k(ESCAPE))]);
    let mut layout = Layout::new(&layers);
    layout.event(press(0, 0));
    layout.event(release(0, 0));
    layout.tick();
    assert_eq!(layout.keycodes(), codes(&[ESCAPE]));
    layout.tick();
    assert_eq!(layout.keycodes(), codes(&[]));
    // with a timeout of zero the first tick after the press makes it a hold
    layout.event(press(0, 0));
    layout.tick();
    assert_eq!(layout.keycodes(), codes(&[]));
    layout.tick();
    assert_eq!(layout.keycodes(), codes(&[LSHIFT]));
}

fn chord_layers(policy: TieBreak) -> Layers {
    Layers::new(vec![
        vec![vec![hold_tap(200, policy, Action::LayerToggle(1), k(ENTER)), k(A)]],
        vec![vec![Action::Transparent, k(ONE)]],
    ])
    .unwrap()
}

#[test]
fn other_key_press_makes_a_hold_under_that_policy() {
    let layers = chord_layers(TieBreak::HoldOnOtherKeyPress);
    let mut layout = Layout::new(&layers);
    layout.event(press(0, 0));
    layout.tick();
    layout.tick();
    layout.event(press(0, 1));
    layout.tick();
    // the first key holds layer 1, so the second key is `1`, not `a`
    assert_eq!(layout.keycodes(), codes(&[ONE]));
    layout.event(release(0, 0));
    layout.tick();
    // no tap: the key was a hold
    assert_eq!(layout.keycodes(), codes(&[ONE]));
    layout.event(release(0, 1));
    layout.tick();
    assert_eq!(layout.keycodes(), codes(&[]));
}

#[test]
fn other_key_press_changes_nothing_under_timeout_only() {
    let layers = chord_layers(TieBreak::TimeoutOnly);
    let mut layout = Layout::new(&layers);
    layout.event(press(0, 0));
    layout.tick();
    layout.event(press(0, 1));
    layout.tick();
    assert_eq!(layout.keycodes(), codes(&[A]));
    layout.event(release(0, 0));
    layout.tick();
    // still a tap; the hold-tap key was pressed first, so its code comes first
    assert_eq!(layout.keycodes(), codes(&[ENTER, A]));
    layout.tick();
    assert_eq!(layout.keycodes(), codes(&[A]));
}

#[test]
fn highest_active_layer_that_is_not_transparent_decides() {
    let layers = Layers::new(vec![
        vec![vec![Action::LayerToggle(1), Action::LayerToggle(2), k(A), k(B)]],
        vec![vec![Action::Transparent, Action::Transparent, k(ONE), Action::Transparent]],
        vec![vec![Action::Transparent, Action::Transparent, Action::Transparent, k(C)]],
    ])
    .unwrap();
    let mut layout = Layout::new(&layers);
    layout.event(press(0, 0));
    layout.event(press(0, 1));
    layout.tick();
    // layers 0, 1 and 2 are active
    layout.event(press(0, 2));
    layout.event(press(0, 3));
    layout.tick();
    assert_eq!(layout.keycodes(), codes(&[ONE, C]));
    layout.event(release(0, 2));
    layout.event(release(0, 3));
    layout.event(release(0, 0));
    layout.tick();
    // only layers 0 and 2 are active now
    layout.event(press(0, 2));
    layout.event(press(0, 3));
    layout.tick();
    assert_eq!(layout.keycodes(), codes(&[A, C]));
}

#[test]
fn active_layers_are_the_base_layer_and_the_toggled_ones() {
    let layers = Layers::new(vec![
        vec![vec![Action::LayerToggle(2), Action::LayerToggle(1), Action::LayerToggle(2)]],
        vec![vec![Action::Transparent, Action::Transparent, Action::Transparent]],
        vec![vec![Action::Transparent, Action::Transparent, Action::Transparent]],
    ])
    .unwrap();
    let mut layout = Layout::new(&layers);
    assert_eq!(layout.active_layers(), vec![0]);
    layout.event(press(0, 0));
    assert_eq!(layout.active_layers(), vec![0]);
    layout.tick();
    assert_eq!(layout.active_layers(), vec![0, 2]);
    layout.event(press(0, 1));
    layout.event(press(0, 2));
    layout.tick();
    assert_eq!(layout.active_layers(), vec![0, 1, 2]);
    layout.event(release(0, 0));
    layout.tick();
    // the other toggle for layer 2 is still held
    assert_eq!(layout.active_layers(), vec![0, 1, 2]);
    layout.event(release(0, 2));
    layout.tick();
    assert_eq!(layout.active_layers(), vec![0, 1]);
    layout.event(release(0, 1));
    layout.tick();
    assert_eq!(layout.active_layers(), vec![0]);
}

#[test]
fn layer_toggle_is_momentary() {
    let layers = Layers::new(vec![
        vec![vec![Action::LayerToggle(1), k(A)]],
        vec![vec![Action::Transparent, k(ONE)]],
    ])
    .unwrap();
    let mut layout = Layout::new(&layers);
    layout.event(press(0, 0));
    layout.event(press(0, 1));
    layout.tick();
    assert_eq!(layout.keycodes(), codes(&[ONE]));
    layout.event(release(0, 0));
    layout.tick();
    // a key keeps the action it was pressed as
    assert_eq!(layout.keycodes(), codes(&[ONE]));
    layout.event(release(0, 1));
    layout.tick();
    layout.event(press(0, 1));
    layout.tick();
    assert_eq!(layout.keycodes(), codes(&[A]));
}

#[test]
fn transparent_on_every_active_layer_does_nothing() {
    let layers = Layers::new(vec![
        vec![vec![Action::Transparent, k(A)]],
        vec![vec![k(ONE), Action::Transparent]],
    ])
    .unwrap();
    let mut layout = Layout::new(&layers);
    layout.event(press(0, 0));
    layout.tick();
    // layer 1 is not active, and layer 0 is transparent there
    assert_eq!(layout.keycodes(), codes(&[]));
    layout.event(release(0, 0));
    layout.tick();
    assert_eq!(layout.keycodes(), codes(&[]));
}

#[test]
fn macro_holds_all_its_codes() {
    let layers = one_layer(vec![Action::Macro(codes(&[LSHIFT, A, B])), k(C)]);
    let mut layout = Layout::new(&layers);
    layout.event(press(0, 1));
    layout.event(press(0, 0));
    layout.tick();
    assert_eq!(layout.keycodes(), codes(&[C, LSHIFT, A, B]));
    layout.event(release(0, 0));
    layout.tick();
    assert_eq!(layout.keycodes(), codes(&[C]));
}

#[test]
fn custom_action_signals_press_and_release() {
    let layers = one_layer(vec![Action::Custom(7), k(A)]);
    let mut layout = Layout::new(&layers);
    layout.event(press(0, 0));
    assert_eq!(layout.tick(), Some(CustomSignal::Press(7)));
    assert_eq!(layout.keycodes(), codes(&[]));
    assert_eq!(layout.tick(), None);
    layout.event(press(0, 1));
    assert_eq!(layout.tick(), None);
    layout.event(release(0, 0));
    assert_eq!(layout.tick(), Some(CustomSignal::Release(7)));
    assert_eq!(layout.tick(), None);
}

#[test]
fn tapped_custom_action_signals_in_two_ticks() {
    let layers = one_layer(vec![hold_tap(10, TieBreak::TimeoutOnly, k(LSHIFT), Action::Custom(9))]);
    let mut layout = Layout::new(&layers);
    layout.event(press(0, 0));
    assert_eq!(layout.tick(), None);
    layout.event(release(0, 0));
    assert_eq!(layout.tick(), Some(CustomSignal::Press(9)));
    assert_eq!(layout.tick(), Some(CustomSignal::Release(9)));
    assert_eq!(layout.tick(), None);
}

#[test]
fn held_custom_action_signals_when_the_timeout_completes() {
    let layers = one_layer(vec![hold_tap(2, TieBreak::TimeoutOnly, Action::Custom(3), k(A))]);
    let mut layout = Layout::new(&layers);
    layout.event(press(0, 0));
    assert_eq!(layout.tick(), None);
    assert_eq!(layout.tick(), None);
    assert_eq!(layout.tick(), Some(CustomSignal::Press(3)));
    assert_eq!(layout.tick(), None);
    layout.event(release(0, 0));
    assert_eq!(layout.tick(), Some(CustomSignal::Release(3)));
}

#[test]
fn first_custom_signal_of_a_tick_is_reported() {
    let layers = one_layer(vec![Action::Custom(1), Action::Custom(2)]);
    let mut layout = Layout::new(&layers);
    layout.event(press(0, 1));
    layout.event(press(0, 0));
    assert_eq!(layout.tick(), Some(CustomSignal::Press(2)));
    layout.event(release(0, 0));
    layout.event(release(0, 1));
    assert_eq!(layout.tick(), Some(CustomSignal::Release(1)));
    assert_eq!(layout.tick(), None);
}

#[test]
fn second_press_of_a_key_that_is_down_is_ignored() {
    let layers = one_layer(vec![k(A)]);
    let mut layout = Layout::new(&layers);
    layout.event(press(0, 0));
    layout.event(press(0, 0));
    layout.tick();
    assert_eq!(layout.keycodes(), codes(&[A]));
    layout.event(press(0, 0));
    layout.tick();
    assert_eq!(layout.keycodes(), codes(&[A]));
    layout.event(release(0, 0));
    layout.tick();
    assert_eq!(layout.keycodes(), codes(&[]));
}

#[test]
fn release_of_a_key_that_is_not_down_is_ignored() {
    let layers = one_layer(vec![k(A), k(B)]);
    let mut layout = Layout::new(&layers);
    layout.event(press(0, 0));
    layout.event(release(0, 1));
    layout.tick();
    assert_eq!(layout.keycodes(), codes(&[A]));
}

#[test]
fn press_outside_the_table_does_nothing() {
    let layers = one_layer(vec![k(A)]);
    let mut layout = Layout::new(&layers);
    layout.event(press(3, 0));
    layout.event(press(0, 5));
    assert_eq!(layout.tick(), None);
    assert_eq!(layout.keycodes(), codes(&[]));
}

#[test]
fn nested_hold_tap_goes_by_the_same_rules() {
    let inner = hold_tap(3, TieBreak::TimeoutOnly, k(A), k(B));
    let layers = one_layer(vec![hold_tap(2, TieBreak::TimeoutOnly, inner, k(C))]);
    // held all the way
    let mut layout = Layout::new(&layers);
    layout.event(press(0, 0));
    layout.tick();
    layout.tick();
    layout.tick();
    // outer hold reached: the inner hold-tap is pending now
    assert_eq!(layout.keycodes(), codes(&[]));
    layout.tick();
    layout.tick();
    assert_eq!(layout.keycodes(), codes(&[]));
    layout.tick();
    assert_eq!(layout.keycodes(), codes(&[A]));
    layout.event(release(0, 0));
    layout.tick();
    assert_eq!(layout.keycodes(), codes(&[]));
    // released while the inner one is pending
    layout.event(press(0, 0));
    layout.tick();
    layout.tick();
    layout.tick();
    layout.event(release(0, 0));
    layout.tick();
    assert_eq!(layout.keycodes(), codes(&[B]));
    layout.tick();
    assert_eq!(layout.keycodes(), codes(&[]));
    // released while the outer one is pending
    layout.event(press(0, 0));
    layout.tick();
    layout.event(release(0, 0));
    layout.tick();
    assert_eq!(layout.keycodes(), codes(&[C]));
}

#[test]
fn tap_follows_nested_tap_branches_to_the_leaf() {
    let inner = hold_tap(3, TieBreak::TimeoutOnly, k(A), k(B));
    let layers = one_layer(vec![hold_tap(5, TieBreak::TimeoutOnly, k(C), inner)]);
    let mut layout = Layout::new(&layers);
    layout.event(press(0, 0));
    layout.tick();
    layout.event(release(0, 0));
    layout.tick();
    assert_eq!(layout.keycodes(), codes(&[B]));
    layout.tick();
    assert_eq!(layout.keycodes(), codes(&[]));
}

#[test]
fn table_without_layers_is_refused() {
    assert_eq!(Layers::new(vec![]).err(), Some(ConfigError::NoLayers));
}

#[test]
fn ragged_table_is_refused() {
    let rows_differ = vec![vec![vec![k(A)]], vec![vec![k(B)], vec![k(C)]]];
    assert_eq!(Layers::new(rows_differ).err(), Some(ConfigError::Ragged));
    let cols_differ = vec![vec![vec![k(A), k(B)], vec![k(C)]]];
    assert_eq!(Layers::new(cols_differ).err(), Some(ConfigError::Ragged));
}

#[test]
fn layer_toggle_out_of_range_is_refused() {
    let plain = vec![vec![vec![Action::LayerToggle(1)]]];
    assert_eq!(Layers::new(plain).err(), Some(ConfigError::LayerOutOfRange));
    let nested = vec![
        vec![vec![hold_tap(5, TieBreak::TimeoutOnly, k(A), Action::LayerToggle(2))]],
        vec![vec![Action::Transparent]],
    ];
    assert_eq!(Layers::new(nested).err(), Some(ConfigError::LayerOutOfRange));
    let fine = vec![
        vec![vec![hold_tap(5, TieBreak::TimeoutOnly, k(A), Action::LayerToggle(1))]],
        vec![vec![Action::Transparent]],
    ];
    assert!(Layers::new(fine).is_ok());
}

fn nest(levels: usize) -> Action {
    let mut a = k(A);
    for _ in 0..levels {
        a = hold_tap(5, TieBreak::TimeoutOnly, a, k(B));
    }
    a
}

#[test]
fn nesting_beyond_the_limit_is_refused() {
    assert_eq!(MAX_NESTING, 4);
    assert!(Layers::new(vec![vec![vec![nest(4)]]]).is_ok());
    assert_eq!(Layers::new(vec![vec![vec![nest(5)]]]).err(), Some(ConfigError::TooDeep));
    // of two faults the nesting is named first
    let both = vec![vec![vec![nest(5), Action::LayerToggle(9)]]];
    assert_eq!(Layers::new(both).err(), Some(ConfigError::TooDeep));
}

#[test]
fn layers_report_their_size() {
    let layers = Layers::new(vec![
        vec![vec![k(A), k(B), k(C)], vec![k(A), k(B), k(C)]],
        vec![vec![k(A), k(B), k(C)], vec![k(A), k(B), Action::LayerToggle(1)]],
    ])
    .unwrap();
    assert_eq!(layers.layer_count(), 2);
    assert_eq!(layers.rows(), 2);
    assert_eq!(layers.cols(), 3);
    assert_eq!(layers.get(1, Coordinate { row: 1, col: 2 }), Some(&Action::LayerToggle(1)));
    assert_eq!(layers.get(0, Coordinate { row: 0, col: 1 }), Some(&k(B)));
    assert_eq!(layers.get(2, Coordinate { row: 0, col: 0 }), None);
    assert_eq!(layers.get(0, Coordinate { row: 2, col: 0 }), None);
    assert_eq!(layers.get(0, Coordinate { row: 0, col: 3 }), None);
}

#[test]
fn action_helpers() {
    assert!(nest(3).nesting_within(3));
    assert!(!nest(3).nesting_within(2));
    assert!(k(A).nesting_within(0));
    assert!(Action::LayerToggle(2).layers_within(3));
    assert!(!Action::LayerToggle(3).layers_within(3));
    let a = hold_tap(1, TieBreak::TimeoutOnly, k(A), hold_tap(1, TieBreak::TimeoutOnly, k(B), k(C)));
    assert_eq!(a.tap_leaf_of(), &k(C));
    assert_eq!(k(A).tap_leaf_of(), &k(A));
}
