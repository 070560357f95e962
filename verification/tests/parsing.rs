//! The pattern grammar: splitting, state prefixes, the value-identifier
//! rules (real regular expressions), and the error taxonomy.

use ouka::hotkey::hotkey_to_combo;
use ouka::hotkey::keycode_to_modbits;
use ouka::hotkey::mod_codes;
use ouka::hotkey::parse_hotkey;
use ouka::hotkey::ModMask;
use ouka::hotkey::LCTRL;
use ouka::hotkey::LSHIFT;
use ouka::hotmap::Handler;
use ouka::keystate::ev_value_to_state;
use ouka::keystate::events_to_keycombo;
use ouka::keystate::KeyCombo;
use ouka::keystate::KeyEvent;
use ouka::keystate::KeyState;
use ouka::keystate::RawEvent;
use ouka::pattern::parse_pattern;
use ouka::pattern::split_pattern;
use ouka::pattern::ParseError;
use ouka::pattern::Token;
use ouka::session::Binding;

fn key(code: u16, state: KeyState) -> KeyEvent {
    KeyEvent::new(code, state)
}

#[test]
fn split_pattern_cuts_plus_then_dash() {
    let parts = split_pattern("ctrl-shift-a+b");
    assert_eq!(parts, vec!["ctrl-", "shift-", "a", "b"]);
}

#[test]
fn split_pattern_keeps_dash_pieces_inside_chunks() {
    assert_eq!(split_pattern("a"), vec!["a"]);
    assert_eq!(split_pattern("ctrl-"), vec!["ctrl-"]);
    assert_eq!(split_pattern(""), Vec::<String>::new());
    assert_eq!(split_pattern("a+"), vec!["a"]);
}

#[test]
fn parse_pattern_classifies_modifiers_and_primaries() {
    let tokens = parse_pattern("ctrl-a+b").unwrap();
    assert_eq!(
        tokens,
        vec![
            Token::Modifier("ctrl".to_string()),
            Token::Primary(KeyState::Down, "a".to_string()),
            Token::Primary(KeyState::Down, "b".to_string()),
        ]
    );
}

#[test]
fn parse_pattern_reads_state_prefixes() {
    assert_eq!(
        parse_pattern("_a").unwrap(),
        vec![Token::Primary(KeyState::Held, "a".to_string())]
    );
    assert_eq!(
        parse_pattern("^a").unwrap(),
        vec![Token::Primary(KeyState::Up, "a".to_string())]
    );
    assert_eq!(
        parse_pattern("(250)a").unwrap(),
        vec![Token::Primary(KeyState::Timeout(250), "a".to_string())]
    );
}

#[test]
fn parse_pattern_rejects_empty() {
    assert_eq!(parse_pattern(""), Err(ParseError::EmptyPattern));
    // only a state prefix, no key names
    assert_eq!(parse_pattern("_"), Err(ParseError::EmptyPattern));
}

#[test]
fn parse_pattern_rejects_bad_timeouts() {
    assert_eq!(parse_pattern("(12a"), Err(ParseError::InvalidTimeout));
    assert_eq!(parse_pattern("()a"), Err(ParseError::InvalidTimeout));
    assert_eq!(parse_pattern("(1x2)a"), Err(ParseError::InvalidTimeout));
    // more than a machine word
    assert_eq!(
        parse_pattern("(99999999999999999999)a"),
        Err(ParseError::InvalidTimeout)
    );
}

#[test]
fn unknown_key_is_rejected_and_nothing_registered() {
    let mut b = Binding::new();
    b.set_keycodes(vec![("ctrl".to_string(), 29)]);
    let r = b.map(&"ctrl-xyz".to_string(), Handler::new(1));
    assert_eq!(r, Err(ParseError::UnknownKey("xyz".to_string())));
    assert_eq!(b.hotmap.entries.len(), 0);
}

#[test]
fn ambiguous_rules_are_rejected_and_nothing_registered() {
    let mut b = Binding::new();
    b.set_keycodes(vec![("foo".to_string(), 33)]);
    // both rules match the token "foo"
    b.set_keyvalues(vec![("^f".to_string(), 2), ("^fo".to_string(), 1)]);
    let r = b.map(&"foo".to_string(), Handler::new(1));
    assert_eq!(r, Err(ParseError::AmbiguousMatch("foo".to_string())));
    assert_eq!(b.hotmap.entries.len(), 0);
}

#[test]
fn single_rule_names_the_state() {
    let mut b = Binding::new();
    b.set_keycodes(vec![("f1".to_string(), 59)]);
    // any token starting with f resolves to Held
    b.set_keyvalues(vec![("^f[0-9]+$".to_string(), 2)]);
    b.map(&"f1".to_string(), Handler::new(6)).unwrap();
    let held = KeyCombo::new(vec![key(59, KeyState::Held)]);
    let down = KeyCombo::new(vec![key(59, KeyState::Down)]);
    assert_eq!(b.hotmap.lookup(&held), Some(Handler::new(6)));
    assert_eq!(b.hotmap.lookup(&down), None);
}

#[test]
fn capturing_rule_strips_the_identifier() {
    let mut b = Binding::new();
    b.set_keycodes(vec![("a".to_string(), 30)]);
    // "hold_" is an identifier prefix; the captured payload names the key
    b.set_keyvalues(vec![("^hold_(.*)$".to_string(), 2)]);
    b.map(&"hold_a".to_string(), Handler::new(8)).unwrap();
    let held = KeyCombo::new(vec![key(30, KeyState::Held)]);
    assert_eq!(b.hotmap.lookup(&held), Some(Handler::new(8)));
}

#[test]
fn invalid_rule_matches_nothing() {
    let mut b = Binding::new();
    b.set_keycodes(vec![("a".to_string(), 30)]);
    // an unclosed parenthesis does not compile as a regular expression
    b.set_keyvalues(vec![("(".to_string(), 2)]);
    b.map(&"a".to_string(), Handler::new(2)).unwrap();
    let down = KeyCombo::new(vec![key(30, KeyState::Down)]);
    assert_eq!(b.hotmap.lookup(&down), Some(Handler::new(2)));
}

#[test]
fn later_value_rules_override() {
    let mut b = Binding::new();
    b.set_keycodes(vec![("a".to_string(), 30)]);
    b.set_keyvalues(vec![("^a$".to_string(), 2)]);
    b.set_keyvalues(vec![("^a$".to_string(), 0)]);
    b.map(&"a".to_string(), Handler::new(1)).unwrap();
    let up = KeyCombo::new(vec![key(30, KeyState::Up)]);
    assert_eq!(b.hotmap.lookup(&up), Some(Handler::new(1)));
}

#[test]
fn value_outside_observable_states_is_dropped() {
    let mut b = Binding::new();
    b.set_keycodes(vec![("a".to_string(), 30)]);
    b.set_keyvalues(vec![("^a$".to_string(), 7)]);
    b.map(&"a".to_string(), Handler::new(1)).unwrap();
    // the rule was dropped, so the default Down applies
    let down = KeyCombo::new(vec![key(30, KeyState::Down)]);
    assert_eq!(b.hotmap.lookup(&down), Some(Handler::new(1)));
}

#[test]
fn ev_value_maps_the_three_states() {
    assert_eq!(ev_value_to_state(0), Some(KeyState::Up));
    assert_eq!(ev_value_to_state(1), Some(KeyState::Down));
    assert_eq!(ev_value_to_state(2), Some(KeyState::Held));
    assert_eq!(ev_value_to_state(3), None);
    assert_eq!(ev_value_to_state(-1), None);
}

#[test]
fn observe_excludes_held_codes_with_events() {
    // ctrl was held and goes up in this batch: it must appear as Up, once
    let events = vec![RawEvent::new(1, 29, 0)];
    let held = vec![29, 42];
    let combo = events_to_keycombo(&events, &held);
    assert_eq!(combo.keys, vec![key(29, KeyState::Up), key(42, KeyState::Held)]);
}

#[test]
fn observe_ignores_non_key_events() {
    let events = vec![RawEvent::new(0, 0, 0), RawEvent::new(1, 30, 1)];
    let held = vec![];
    let combo = events_to_keycombo(&events, &held);
    assert_eq!(combo.keys, vec![key(30, KeyState::Down)]);
}

#[test]
fn modbits_cover_the_eight_canonical_modifiers() {
    assert_eq!(keycode_to_modbits(29), Some(0x80));
    assert_eq!(keycode_to_modbits(42), Some(0x40));
    assert_eq!(keycode_to_modbits(56), Some(0x20));
    assert_eq!(keycode_to_modbits(125), Some(0x10));
    assert_eq!(keycode_to_modbits(97), Some(0x08));
    assert_eq!(keycode_to_modbits(54), Some(0x04));
    assert_eq!(keycode_to_modbits(100), Some(0x02));
    assert_eq!(keycode_to_modbits(126), Some(0x01));
    assert_eq!(keycode_to_modbits(30), None);
}

#[test]
fn parse_hotkey_builds_mask_and_primaries() {
    let mut b = Binding::new();
    b.set_keycodes(vec![
        ("ctrl".to_string(), 29),
        ("shift".to_string(), 42),
        ("a".to_string(), 30),
    ]);
    let h = parse_hotkey(&"ctrl-shift-a".to_string(), &b.code_table).unwrap();
    assert_eq!(h.mods.bits, 0xC0);
    assert_eq!(h.key_codes, vec![30]);
    assert_eq!(h.state, KeyState::Down);
    let combo = hotkey_to_combo(&h);
    let expected = KeyCombo::new(vec![
        key(29, KeyState::Held),
        key(42, KeyState::Held),
        key(30, KeyState::Down),
    ]);
    assert_eq!(combo.keys, expected.keys);
}

#[test]
fn parse_hotkey_requires_a_primary() {
    let mut b = Binding::new();
    b.set_keycodes(vec![("ctrl".to_string(), 29)]);
    assert_eq!(
        parse_hotkey(&"ctrl-".to_string(), &b.code_table),
        Err(ParseError::EmptyPattern)
    );
}

#[test]
fn parse_hotkey_rejects_non_modifier_dash_segment() {
    let mut b = Binding::new();
    b.set_keycodes(vec![("a".to_string(), 30), ("b".to_string(), 48)]);
    assert_eq!(
        parse_hotkey(&"a-b".to_string(), &b.code_table),
        Err(ParseError::UnknownKey("a".to_string()))
    );
}

#[test]
fn parse_error_messages_are_nonempty() {
    assert!(!ParseError::EmptyPattern.message().is_empty());
    assert!(!ParseError::UnknownKey("x".to_string()).message().is_empty());
    assert!(!ParseError::AmbiguousMatch("x".to_string()).message().is_empty());
    assert!(!ParseError::InvalidTimeout.message().is_empty());
}

#[test]
fn mod_mask_contains_its_bits() {
    let empty = ModMask::empty();
    assert!(!empty.contains(LCTRL));
    let mask = ModMask { bits: LCTRL | LSHIFT };
    assert!(mask.contains(LCTRL));
    assert!(mask.contains(LSHIFT));
    assert!(!mask.contains(0x01));
    assert_eq!(mod_codes(&mask), vec![29, 42]);
}
