//! End-to-end behavior of the session: registration, matching, the
//! grab/pass-through decision and the synthetic tap.

use ouka::hotmap::Decision;
use ouka::hotmap::Handler;
use ouka::hotmap::HotMap;
use ouka::keystate::KeyCombo;
use ouka::keystate::KeyEvent;
use ouka::keystate::KeyState;
use ouka::keystate::RawEvent;
use ouka::session::tap_batches;
use ouka::session::Binding;
use ouka::session::Phase;
use ouka::session::PollEvent;

fn codes_abc() -> Vec<(String, u16)> {
    vec![
        ("ctrl".to_string(), 29),
        ("shift".to_string(), 42),
        ("a".to_string(), 30),
        ("b".to_string(), 48),
    ]
}

fn key(code: u16, state: KeyState) -> KeyEvent {
    KeyEvent::new(code, state)
}

#[test]
fn combo_order_independence() {
    let c1 = KeyCombo::new(vec![
        key(29, KeyState::Held),
        key(42, KeyState::Held),
        key(30, KeyState::Down),
    ]);
    let c2 = KeyCombo::new(vec![
        key(30, KeyState::Down),
        key(29, KeyState::Held),
        key(42, KeyState::Held),
    ]);
    let c3 = KeyCombo::new(vec![
        key(42, KeyState::Held),
        key(30, KeyState::Down),
        key(29, KeyState::Held),
    ]);
    assert_eq!(c1.keys, c2.keys);
    assert_eq!(c1.keys, c3.keys);
    assert!(c1.eq_combo(&c2));
    assert!(c2.eq_combo(&c3));
}

#[test]
fn combo_canonical_form_is_sorted() {
    let c = KeyCombo::new(vec![key(100, KeyState::Down), key(5, KeyState::Up)]);
    let codes: Vec<u16> = c.codes();
    assert_eq!(codes, vec![5, 100]);
}

#[test]
fn combo_last_state_wins_per_code() {
    let c = KeyCombo::new(vec![key(30, KeyState::Held), key(30, KeyState::Down)]);
    assert_eq!(c.keys, vec![key(30, KeyState::Down)]);
}

#[test]
fn idempotent_insert_keeps_one_entry() {
    let mut map = HotMap::new();
    let c1 = KeyCombo::new(vec![key(29, KeyState::Held), key(30, KeyState::Down)]);
    let c2 = KeyCombo::new(vec![key(30, KeyState::Down), key(29, KeyState::Held)]);
    map.insert(c1, Handler::new(1));
    map.insert(c2, Handler::new(2));
    assert_eq!(map.entries.len(), 1);
    let probe = KeyCombo::new(vec![key(29, KeyState::Held), key(30, KeyState::Down)]);
    assert_eq!(map.lookup(&probe), Some(Handler::new(2)));
}

#[test]
fn compile_match_round_trip() {
    let mut b = Binding::new();
    b.set_keycodes(codes_abc());
    b.map(&"ctrl-shift-a".to_string(), Handler::new(7)).unwrap();
    let observed = KeyCombo::new(vec![
        key(29, KeyState::Held),
        key(42, KeyState::Held),
        key(30, KeyState::Down),
    ]);
    assert_eq!(b.hotmap.lookup(&observed), Some(Handler::new(7)));
}

#[test]
fn round_trip_through_step() {
    let mut b = Binding::new();
    b.set_keycodes(codes_abc());
    b.map(&"ctrl-shift-a".to_string(), Handler::new(7)).unwrap();
    // ctrl and shift already held, `a` goes down in this batch
    let events = vec![RawEvent::new(1, 30, 1)];
    let held = vec![29, 42];
    assert_eq!(b.step(&events, &held), Decision::Dispatch(Handler::new(7)));
}

#[test]
fn state_qualifier_held_matches_only_held() {
    let mut b = Binding::new();
    b.set_keycodes(codes_abc());
    b.map(&"_a".to_string(), Handler::new(3)).unwrap();
    let held_combo = KeyCombo::new(vec![key(30, KeyState::Held)]);
    let down_combo = KeyCombo::new(vec![key(30, KeyState::Down)]);
    assert_eq!(b.hotmap.lookup(&held_combo), Some(Handler::new(3)));
    assert_eq!(b.hotmap.lookup(&down_combo), None);
}

#[test]
fn state_qualifier_up_matches_only_up() {
    let mut b = Binding::new();
    b.set_keycodes(codes_abc());
    b.map(&"^a".to_string(), Handler::new(4)).unwrap();
    let up_combo = KeyCombo::new(vec![key(30, KeyState::Up)]);
    let down_combo = KeyCombo::new(vec![key(30, KeyState::Down)]);
    assert_eq!(b.hotmap.lookup(&up_combo), Some(Handler::new(4)));
    assert_eq!(b.hotmap.lookup(&down_combo), None);
}

#[test]
fn suppression_on_registered_code_set() {
    let mut b = Binding::new();
    b.set_keycodes(codes_abc());
    b.map(&"ctrl-a".to_string(), Handler::new(9)).unwrap();
    b.grab();
    // same code set {ctrl, a}, but ctrl is only going down now: no exact
    // match, so while grabbed the batch must be neither dispatched nor
    // forwarded
    let events = vec![RawEvent::new(1, 29, 1), RawEvent::new(1, 30, 1)];
    let held = vec![];
    assert_eq!(b.step(&events, &held), Decision::Suppress);
}

#[test]
fn forwarding_of_unrelated_keys() {
    let mut b = Binding::new();
    b.set_keycodes(codes_abc());
    b.map(&"ctrl-a".to_string(), Handler::new(9)).unwrap();
    b.grab();
    let events = vec![RawEvent::new(1, 48, 1)];
    let held = vec![];
    assert_eq!(b.step(&events, &held), Decision::Forward);
}

#[test]
fn no_action_when_not_grabbed() {
    let mut b = Binding::new();
    b.set_keycodes(codes_abc());
    b.map(&"ctrl-a".to_string(), Handler::new(9)).unwrap();
    // not grabbed: a miss must not be forwarded (the platform already
    // delivered the input natively)
    let events = vec![RawEvent::new(1, 48, 1)];
    let held = vec![];
    assert_eq!(b.step(&events, &held), Decision::Suppress);
}

#[test]
fn tap_shape_down_batch_then_up_batch() {
    let mut b = Binding::new();
    b.set_keycodes(codes_abc());
    let (down, up) = b.send(&"ctrl-a".to_string()).unwrap();
    assert_eq!(down, vec![RawEvent::new(1, 29, 1), RawEvent::new(1, 30, 1)]);
    assert_eq!(up, vec![RawEvent::new(1, 29, 0), RawEvent::new(1, 30, 0)]);
}

#[test]
fn tap_batches_cover_every_code_once() {
    let combo = KeyCombo::new(vec![key(30, KeyState::Down), key(29, KeyState::Held)]);
    let (down, up) = tap_batches(&combo);
    assert_eq!(down.len(), 2);
    assert_eq!(up.len(), 2);
    assert_eq!(down[0], RawEvent::new(1, 29, 1));
    assert_eq!(down[1], RawEvent::new(1, 30, 1));
    assert_eq!(up[0], RawEvent::new(1, 29, 0));
    assert_eq!(up[1], RawEvent::new(1, 30, 0));
}

#[test]
fn grab_and_ungrab_toggle() {
    let mut b = Binding::new();
    assert!(!b.grabbing);
    b.grab();
    assert!(b.grabbing);
    b.ungrab();
    assert!(!b.grabbing);
}

#[test]
fn timeout_pattern_registers_but_never_matches_observed() {
    let mut b = Binding::new();
    b.set_keycodes(codes_abc());
    b.map(&"(100)a".to_string(), Handler::new(5)).unwrap();
    assert_eq!(b.hotmap.entries.len(), 1);
    let down_combo = KeyCombo::new(vec![key(30, KeyState::Down)]);
    let held_combo = KeyCombo::new(vec![key(30, KeyState::Held)]);
    assert_eq!(b.hotmap.lookup(&down_combo), None);
    assert_eq!(b.hotmap.lookup(&held_combo), None);
}

#[test]
fn later_keycode_declarations_override() {
    let mut b = Binding::new();
    b.set_keycodes(vec![("a".to_string(), 30)]);
    b.set_keycodes(vec![("a".to_string(), 31)]);
    b.map(&"a".to_string(), Handler::new(1)).unwrap();
    let combo = KeyCombo::new(vec![key(31, KeyState::Down)]);
    assert_eq!(b.hotmap.lookup(&combo), Some(Handler::new(1)));
}

#[test]
fn binding_starts_empty() {
    let b = Binding::new();
    assert_eq!(b.hotmap.entries.len(), 0);
    assert_eq!(b.value_table.len(), 0);
    assert!(!b.grabbing);
}

#[test]
fn combo_len_counts_distinct_codes() {
    let c = KeyCombo::new(vec![
        key(29, KeyState::Held),
        key(30, KeyState::Down),
        key(29, KeyState::Down),
    ]);
    assert_eq!(c.len(), 2);
}

#[test]
fn controller_stops_on_read_failure_and_stays_stopped() {
    let mut b = Binding::new();
    b.set_keycodes(codes_abc());
    b.map(&"a".to_string(), Handler::new(1)).unwrap();
    let (phase, decision) = b.controller_step(Phase::Listening, &PollEvent::ReadFailed);
    assert_eq!(phase, Phase::Stopped);
    assert!(decision.is_none());
    let batch = PollEvent::Batch(vec![RawEvent::new(1, 30, 1)], vec![]);
    let (phase, decision) = b.controller_step(Phase::Stopped, &batch);
    assert_eq!(phase, Phase::Stopped);
    assert!(decision.is_none());
}

#[test]
fn controller_classifies_batches_while_live() {
    let mut b = Binding::new();
    b.set_keycodes(codes_abc());
    b.map(&"a".to_string(), Handler::new(1)).unwrap();
    let batch = PollEvent::Batch(vec![RawEvent::new(1, 30, 1)], vec![]);
    let (phase, decision) = b.controller_step(Phase::Idle, &batch);
    assert_eq!(phase, Phase::Listening);
    assert_eq!(decision, Some(Decision::Dispatch(Handler::new(1))));
}
