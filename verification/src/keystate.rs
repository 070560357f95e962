//! Canonical key-state model: the state of a single key, a key event, and a
//! combo (the unordered snapshot of all currently relevant key states).
//!
//! A combo is kept in canonical form — its events strictly sorted by key
//! code — so that equality and any function of the representation are
//! independent of the order in which the events were observed or inserted.

use vstd::prelude::*;

verus! {

/// Raw event value reported by the platform for a key that was released.
pub const KEY_UP: i32 = 0;

/// Raw event value reported by the platform for a key that was pressed.
pub const KEY_DOWN: i32 = 1;

/// Raw event value reported by the platform for a key that is being held.
pub const KEY_HELD: i32 = 2;

/// Event type of a key event in an input event triple.
pub const EV_KEY: u16 = 1;

/// State of a single key.
///
/// `Up`, `Down` and `Held` occur both in patterns and in observed events.
/// `Timeout` is a reserved pattern-only qualifier: it is parsed and carried
/// through compilation, but no observed event ever has it, so a combo that
/// contains it never matches an observed combo.
#[derive(Clone, Copy, Debug, PartialEq, Eq, Structural)]
pub enum KeyState {
    Up,
    Down,
    Held,
    Timeout(u64),
}

/// What `ev_value_to_state` returns for a raw event value.
pub open spec fn spec_ev_value_to_state(value: i32) -> Option<KeyState> {
    if value == KEY_UP {
        Some(KeyState::Up)
    } else if value == KEY_DOWN {
        Some(KeyState::Down)
    } else if value == KEY_HELD {
        Some(KeyState::Held)
    } else {
        None
    }
}

/// Maps a raw event value (0, 1 or 2) to the key state it reports; any other
/// value has no state.
pub fn ev_value_to_state(value: i32) -> (r: Option<KeyState>)
    ensures
        r == spec_ev_value_to_state(value),
{
    if value == KEY_UP {
        Some(KeyState::Up)
    } else if value == KEY_DOWN {
        Some(KeyState::Down)
    } else if value == KEY_HELD {
        Some(KeyState::Held)
    } else {
        None
    }
}

/// One key with its state: the unit a combo is made of. Two events with the
/// same code but different states are distinct.
#[derive(Clone, Copy, Debug, PartialEq, Eq, Structural)]
pub struct KeyEvent {
    pub code: u16,
    pub state: KeyState,
}

impl KeyEvent {
    pub fn new(code: u16, state: KeyState) -> (r: Self)
        ensures
            r == (KeyEvent { code, state }),
    {
        KeyEvent { code, state }
    }
}

/// The mathematical content of a sequence of key events: the map from key
/// code to state, where a later event for a code overrides an earlier one.
pub open spec fn combo_map(s: Seq<KeyEvent>) -> Map<u16, KeyState>
    decreases s.len(),
{
    if s.len() == 0 {
        Map::empty()
    } else {
        combo_map(s.drop_last()).insert(s.last().code, s.last().state)
    }
}

/// Some event in `s` carries key code `c`.
pub open spec fn contains_code(s: Seq<KeyEvent>, c: u16) -> bool {
    exists|i: int| 0 <= i < s.len() && s[i].code == c
}

/// No two events in `s` share a key code.
pub open spec fn distinct_codes(s: Seq<KeyEvent>) -> bool {
    forall|i: int, j: int| 0 <= i < j < s.len() ==> s[i].code != s[j].code
}

/// The events are strictly sorted by key code (the canonical order).
pub open spec fn sorted_by_code(s: Seq<KeyEvent>) -> bool {
    forall|i: int, j: int| 0 <= i < j < s.len() ==> s[i].code < s[j].code
}

pub proof fn lemma_sorted_implies_distinct(s: Seq<KeyEvent>)
    requires
        sorted_by_code(s),
    ensures
        distinct_codes(s),
{
}

/// The domain of `combo_map(s)` is exactly the set of codes occurring in `s`.
pub proof fn lemma_combo_map_dom(s: Seq<KeyEvent>)
    ensures
        forall|c: u16| #[trigger] combo_map(s).dom().contains(c) <==> contains_code(s, c),
    decreases s.len(),
{
    if s.len() == 0 {
    } else {
        let d = s.drop_last();
        lemma_combo_map_dom(d);
        assert forall|c: u16| #[trigger] combo_map(s).dom().contains(c) implies contains_code(
            s,
            c,
        ) by {
            if c == s.last().code {
                assert(s[s.len() - 1].code == c);
            } else {
                assert(combo_map(d).dom().contains(c));
                assert(contains_code(d, c));
                let i = choose|i: int| 0 <= i < d.len() && d[i].code == c;
                assert(d[i] == s[i]);
                assert(s[i].code == c);
            }
        }
        assert forall|c: u16| contains_code(s, c) implies #[trigger] combo_map(s).dom().contains(
            c,
        ) by {
            let i = choose|i: int| 0 <= i < s.len() && s[i].code == c;
            if i < s.len() - 1 {
                assert(d[i].code == c);
                assert(contains_code(d, c));
                assert(combo_map(d).dom().contains(c));
            } else {
                assert(c == s.last().code);
            }
        }
    }
}

/// On a sequence with pairwise distinct codes, `combo_map` sends each
/// event's code to that event's state.
pub proof fn lemma_combo_map_distinct(s: Seq<KeyEvent>)
    requires
        distinct_codes(s),
    ensures
        forall|c: u16| #[trigger] combo_map(s).dom().contains(c) <==> contains_code(s, c),
        forall|i: int|
            0 <= i < s.len() ==> combo_map(s)[(#[trigger] s[i]).code] == s[i].state,
    decreases s.len(),
{
    lemma_combo_map_dom(s);
    if s.len() == 0 {
    } else {
        let d = s.drop_last();
        lemma_combo_map_distinct(d);
        assert forall|i: int|
            0 <= i < s.len() implies combo_map(s)[(#[trigger] s[i]).code] == s[i].state by {
            if i < s.len() - 1 {
                assert(s[i].code != s.last().code);
                assert(d[i] == s[i]);
            }
        }
    }
}

/// Two canonically sorted sequences with the same combo map are the same
/// sequence: the canonical form of a combo is unique.
pub proof fn lemma_canonical_unique(a: Seq<KeyEvent>, b: Seq<KeyEvent>)
    requires
        sorted_by_code(a),
        sorted_by_code(b),
        combo_map(a) == combo_map(b),
    ensures
        a == b,
    decreases a.len(),
{
    lemma_sorted_implies_distinct(a);
    lemma_sorted_implies_distinct(b);
    lemma_combo_map_distinct(a);
    lemma_combo_map_distinct(b);
    if a.len() == 0 {
        if b.len() > 0 {
            assert(b[b.len() - 1].code == b.last().code);
            assert(contains_code(b, b.last().code));
            assert(combo_map(a).dom().contains(b.last().code));
            assert(false);
        }
        assert(a =~= b);
    } else {
        assert(a[a.len() - 1].code == a.last().code);
        assert(contains_code(a, a.last().code));
        assert(combo_map(b).dom().contains(a.last().code));
        assert(contains_code(b, a.last().code));
        let j = choose|j: int| 0 <= j < b.len() && b[j].code == a.last().code;
        assert(b[j].code <= b.last().code);
        // and symmetrically the other way round
        assert(contains_code(b, b.last().code));
        assert(combo_map(a).dom().contains(b.last().code));
        let i = choose|i: int| 0 <= i < a.len() && a[i].code == b.last().code;
        assert(a[i].code <= a.last().code);
        let c = a.last().code;
        assert(b.last().code == c);
        assert(combo_map(a)[c] == a.last().state);
        assert(combo_map(b)[c] == b.last().state);
        assert(a.last() == b.last());
        // peel the last element off both sides
        let da = a.drop_last();
        let db = b.drop_last();
        lemma_sorted_implies_distinct(da);
        lemma_sorted_implies_distinct(db);
        lemma_combo_map_dom(da);
        lemma_combo_map_dom(db);
        assert(!contains_code(da, c));
        assert(!contains_code(db, c));
        assert(combo_map(da) =~= combo_map(a).remove(c));
        assert(combo_map(db) =~= combo_map(b).remove(c));
        lemma_canonical_unique(da, db);
        assert(a =~= da.push(a.last()));
        assert(b =~= db.push(b.last()));
    }
}

/// Order independence: two enumerations of one set of key events — with no
/// two events sharing a code — have the same combo map, however they are
/// ordered. (With two states for one code in the set, whichever is inserted
/// last would win, so such sets are excluded.)
pub proof fn lemma_combo_order_independence(s1: Seq<KeyEvent>, s2: Seq<KeyEvent>)
    requires
        s1.to_multiset() == s2.to_multiset(),
        distinct_codes(s1),
        distinct_codes(s2),
    ensures
        combo_map(s1) == combo_map(s2),
{
    broadcast use vstd::seq_lib::group_to_multiset_ensures;

    lemma_combo_map_distinct(s1);
    lemma_combo_map_distinct(s2);
    assert forall|c: u16|
        #[trigger] combo_map(s1).dom().contains(c) implies combo_map(s2).dom().contains(c)
        && combo_map(s2)[c] == combo_map(s1)[c] by {
        let i = choose|i: int| 0 <= i < s1.len() && s1[i].code == c;
        assert(s1.contains(s1[i]));
        assert(s1.to_multiset().count(s1[i]) > 0);
        assert(s2.to_multiset().count(s1[i]) > 0);
        assert(s2.contains(s1[i]));
        let j = choose|j: int| 0 <= j < s2.len() && s2[j] == s1[i];
        assert(s2[j].code == c);
        assert(contains_code(s2, c));
    }
    assert forall|c: u16|
        #[trigger] combo_map(s2).dom().contains(c) implies combo_map(s1).dom().contains(c) by {
        let j = choose|j: int| 0 <= j < s2.len() && s2[j].code == c;
        assert(s2.contains(s2[j]));
        assert(s2.to_multiset().count(s2[j]) > 0);
        assert(s1.to_multiset().count(s2[j]) > 0);
        assert(s1.contains(s2[j]));
        let i = choose|i: int| 0 <= i < s1.len() && s1[i] == s2[j];
        assert(s1[i].code == c);
        assert(contains_code(s1, c));
    }
    assert(combo_map(s1) =~= combo_map(s2));
}

/// An unordered snapshot of all currently relevant key states: at most one
/// event per key code, kept strictly sorted by code. The sorted order is a
/// canonical form, so equality of the representation coincides with equality
/// of the map the combo denotes, however the combo was assembled.
#[derive(Debug)]
pub struct KeyCombo {
    pub keys: Vec<KeyEvent>,
}

impl View for KeyCombo {
    type V = Map<u16, KeyState>;

    open spec fn view(&self) -> Map<u16, KeyState> {
        combo_map(self.keys@)
    }
}

impl KeyCombo {
    /// The canonical-form invariant: events strictly sorted by key code.
    pub open spec fn wf(self) -> bool {
        sorted_by_code(self.keys@)
    }

    /// The combo's key codes, in canonical (ascending) order.
    pub open spec fn spec_codes(self) -> Seq<u16> {
        self.keys@.map_values(|e: KeyEvent| e.code)
    }

    /// The combo with no keys in it.
    pub fn empty() -> (r: Self)
        ensures
            r.wf(),
            r@ == Map::<u16, KeyState>::empty(),
            r.keys@.len() == 0,
    {
        KeyCombo { keys: Vec::new() }
    }

    /// Puts one key event into the combo, replacing whatever state the combo
    /// held for that code: the combo stays canonical and its map gains (or
    /// overwrites) exactly this code.
    pub fn insert_event(&mut self, ev: KeyEvent)
        requires
            old(self).wf(),
        ensures
            final(self).wf(),
            final(self)@ == old(self)@.insert(ev.code, ev.state),
    {
        proof {
            lemma_sorted_implies_distinct(self.keys@);
            lemma_combo_map_distinct(self.keys@);
        }
        let ghost s0 = self.keys@;
        let mut i: usize = 0;
        while i < self.keys.len() && self.keys[i].code < ev.code
            invariant
                0 <= i <= self.keys.len(),
                self.keys@ == s0,
                forall|k: int| 0 <= k < i ==> (#[trigger] s0[k]).code < ev.code,
            decreases self.keys.len() - i,
        {
            i += 1;
        }
        if i < self.keys.len() && self.keys[i].code == ev.code {
            self.keys.set(i, ev);
            proof {
                lemma_replace_keeps_canonical(s0, self.keys@, i as int, ev);
            }
        } else {
            self.keys.insert(i, ev);
            proof {
                lemma_insert_keeps_canonical(s0, self.keys@, i as int, ev);
            }
        }
    }

    /// Builds the canonical combo from any sequence of key events; a later
    /// event for a code overrides an earlier one, as `combo_map` says.
    pub fn new(keys: Vec<KeyEvent>) -> (r: Self)
        ensures
            r.wf(),
            r@ == combo_map(keys@),
    {
        let mut combo = KeyCombo::empty();
        let mut i: usize = 0;
        while i < keys.len()
            invariant
                0 <= i <= keys.len(),
                combo.wf(),
                combo@ == combo_map(keys@.take(i as int)),
            decreases keys.len() - i,
        {
            combo.insert_event(keys[i]);
            proof {
                assert(keys@.take(i + 1 as int).drop_last() =~= keys@.take(i as int));
                assert(keys@.take(i + 1 as int).last() == keys@[i as int]);
            }
            i += 1;
        }
        proof {
            assert(keys@.take(keys@.len() as int) =~= keys@);
        }
        combo
    }

    /// How many keys the combo holds.
    pub fn len(&self) -> (r: usize)
        requires
            self.wf(),
        ensures
            r == self@.dom().len(),
            r == self.keys@.len(),
    {
        proof {
            lemma_sorted_implies_distinct(self.keys@);
            lemma_combo_map_len(self.keys@);
        }
        self.keys.len()
    }

    /// Whether two combos denote the same snapshot. Because the
    /// representation is canonical, this is plain elementwise equality.
    pub fn eq_combo(&self, other: &Self) -> (r: bool)
        requires
            self.wf(),
            other.wf(),
        ensures
            r == (self@ == other@),
    {
        if self.keys.len() != other.keys.len() {
            proof {
                if self@ == other@ {
                    lemma_canonical_unique(self.keys@, other.keys@);
                }
            }
            return false;
        }
        let mut i: usize = 0;
        while i < self.keys.len()
            invariant
                0 <= i <= self.keys.len(),
                self.keys@.len() == other.keys@.len(),
                self.wf(),
                other.wf(),
                forall|k: int| 0 <= k < i ==> self.keys@[k] == other.keys@[k],
            decreases self.keys.len() - i,
        {
            let a = self.keys[i];
            let b = other.keys[i];
            if !(a.code == b.code && a.state == b.state) {
                proof {
                    if self@ == other@ {
                        lemma_canonical_unique(self.keys@, other.keys@);
                    }
                    assert(a != b);
                }
                return false;
            }
            i += 1;
        }
        proof {
            assert(self.keys@ =~= other.keys@);
        }
        true
    }

    /// The combo's distinct key codes, ascending.
    pub fn codes(&self) -> (r: Vec<u16>)
        ensures
            r@ == self.spec_codes(),
    {
        let mut out: Vec<u16> = Vec::new();
        let mut i: usize = 0;
        while i < self.keys.len()
            invariant
                0 <= i <= self.keys.len(),
                out@ =~= self.keys@.take(i as int).map_values(|e: KeyEvent| e.code),
            decreases self.keys.len() - i,
        {
            out.push(self.keys[i].code);
            proof {
                assert(self.keys@.take(i + 1 as int) =~= self.keys@.take(i as int).push(
                    self.keys@[i as int],
                ));
            }
            i += 1;
        }
        proof {
            assert(self.keys@.take(self.keys@.len() as int) =~= self.keys@);
        }
        out
    }
}

/// Replacing the event at the position already holding `ev.code` keeps the
/// sequence canonical and updates the combo map at that one code.
proof fn lemma_replace_keeps_canonical(s0: Seq<KeyEvent>, s1: Seq<KeyEvent>, i: int, ev: KeyEvent)
    requires
        sorted_by_code(s0),
        0 <= i < s0.len(),
        s0[i].code == ev.code,
        s1 == s0.update(i, ev),
    ensures
        sorted_by_code(s1),
        combo_map(s1) == combo_map(s0).insert(ev.code, ev.state),
{
    lemma_sorted_implies_distinct(s0);
    lemma_combo_map_distinct(s0);
    lemma_sorted_implies_distinct(s1);
    lemma_combo_map_distinct(s1);
    assert forall|c: u16| true implies combo_map(s1).dom().contains(c) == combo_map(s0).insert(
        ev.code,
        ev.state,
    ).dom().contains(c) by {
        if contains_code(s1, c) {
            let k = choose|k: int| 0 <= k < s1.len() && s1[k].code == c;
            assert(s0[k].code == c);
        }
        if contains_code(s0, c) {
            let k = choose|k: int| 0 <= k < s0.len() && s0[k].code == c;
            assert(s1[k].code == c);
            assert(contains_code(s1, c));
        }
    }
    assert forall|c: u16| combo_map(s1).dom().contains(c) implies combo_map(s1)[c] == combo_map(
        s0,
    ).insert(ev.code, ev.state)[c] by {
        let k = choose|k: int| 0 <= k < s1.len() && s1[k].code == c;
        assert(combo_map(s1)[s1[k].code] == s1[k].state);
        if k != i {
            assert(s0[k] == s1[k]);
            assert(combo_map(s0)[s0[k].code] == s0[k].state);
            assert(c != ev.code);
        }
    }
    assert(combo_map(s1) =~= combo_map(s0).insert(ev.code, ev.state));
}

/// Inserting an event at the position where its code belongs keeps the
/// sequence canonical and adds exactly that code to the combo map.
proof fn lemma_insert_keeps_canonical(s0: Seq<KeyEvent>, s1: Seq<KeyEvent>, i: int, ev: KeyEvent)
    requires
        sorted_by_code(s0),
        0 <= i <= s0.len(),
        forall|k: int| 0 <= k < i ==> (#[trigger] s0[k]).code < ev.code,
        i < s0.len() ==> s0[i].code > ev.code,
        s1 == s0.insert(i, ev),
    ensures
        sorted_by_code(s1),
        combo_map(s1) == combo_map(s0).insert(ev.code, ev.state),
{
    assert forall|p: int, q: int| 0 <= p < q < s1.len() implies s1[p].code < s1[q].code by {
        if q < i {
            assert(s1[p] == s0[p] && s1[q] == s0[q]);
        } else if q == i {
            assert(s1[p] == s0[p]);
        } else if p < i {
            assert(s1[p] == s0[p] && s1[q] == s0[q - 1]);
            assert(i <= q - 1 < s0.len());
        } else if p == i {
            assert(s1[q] == s0[q - 1]);
            assert(i <= q - 1 < s0.len());
        } else {
            assert(s1[p] == s0[p - 1] && s1[q] == s0[q - 1]);
        }
    }
    lemma_sorted_implies_distinct(s0);
    lemma_combo_map_distinct(s0);
    lemma_sorted_implies_distinct(s1);
    lemma_combo_map_distinct(s1);
    assert forall|c: u16| true implies combo_map(s1).dom().contains(c) == combo_map(s0).insert(
        ev.code,
        ev.state,
    ).dom().contains(c) by {
        if contains_code(s1, c) {
            let k = choose|k: int| 0 <= k < s1.len() && s1[k].code == c;
            if k < i {
                assert(s0[k].code == c);
            } else if k > i {
                assert(s0[k - 1].code == c);
            }
        }
        if contains_code(s0, c) {
            let k = choose|k: int| 0 <= k < s0.len() && s0[k].code == c;
            if k < i {
                assert(s1[k].code == c);
            } else {
                assert(s1[k + 1].code == c);
            }
            assert(contains_code(s1, c));
        }
        if c == ev.code {
            assert(s1[i].code == c);
            assert(contains_code(s1, c));
        }
    }
    assert forall|c: u16| combo_map(s1).dom().contains(c) implies combo_map(s1)[c] == combo_map(
        s0,
    ).insert(ev.code, ev.state)[c] by {
        let k = choose|k: int| 0 <= k < s1.len() && s1[k].code == c;
        assert(combo_map(s1)[s1[k].code] == s1[k].state);
        if k < i {
            assert(s0[k] == s1[k]);
            assert(combo_map(s0)[s0[k].code] == s0[k].state);
            assert(c != ev.code);
        } else if k > i {
            assert(s0[k - 1] == s1[k]);
            assert(combo_map(s0)[s0[k - 1].code] == s0[k - 1].state);
            assert(c != ev.code);
        }
    }
    assert(combo_map(s1) =~= combo_map(s0).insert(ev.code, ev.state));
}

/// One raw input event as the platform reports it: an event type, a code and
/// a value. Only events whose `kind` is `EV_KEY` matter for combo building;
/// other kinds ride along for forwarding.
#[derive(Clone, Copy, Debug, PartialEq, Eq, Structural)]
pub struct RawEvent {
    pub kind: u16,
    pub code: u16,
    pub value: i32,
}

impl RawEvent {
    pub fn new(kind: u16, code: u16, value: i32) -> (r: Self)
        ensures
            r == (RawEvent { kind, code, value }),
    {
        RawEvent { kind, code, value }
    }
}

/// The codes for which the batch carries a key event, whatever its value.
pub open spec fn key_event_codes(events: Seq<RawEvent>) -> Set<u16> {
    Set::new(
        |c: u16|
            exists|i: int| 0 <= i < events.len() && events[i].kind == EV_KEY && events[i].code
                == c,
    )
}

/// The code-to-state map contributed by the key events of a batch, in batch
/// order: a later event for a code overrides an earlier one. Key events whose
/// value reports none of the three states contribute nothing.
pub open spec fn key_event_map(events: Seq<RawEvent>) -> Map<u16, KeyState>
    decreases events.len(),
{
    if events.len() == 0 {
        Map::empty()
    } else {
        let m = key_event_map(events.drop_last());
        let e = events.last();
        if e.kind == EV_KEY && spec_ev_value_to_state(e.value) is Some {
            m.insert(e.code, spec_ev_value_to_state(e.value)->Some_0)
        } else {
            m
        }
    }
}

/// Every held code outside `excluded` mapped to `Held`.
pub open spec fn held_map(held: Seq<u16>, excluded: Set<u16>) -> Map<u16, KeyState>
    decreases held.len(),
{
    if held.len() == 0 {
        Map::empty()
    } else {
        let m = held_map(held.drop_last(), excluded);
        if excluded.contains(held.last()) {
            m
        } else {
            m.insert(held.last(), KeyState::Held)
        }
    }
}

/// The authoritative combo for one polling iteration: the held snapshot,
/// minus every code the batch has a key event for, as `Held`, overridden by
/// the states the batch's key events report.
pub open spec fn observed_map(events: Seq<RawEvent>, held: Seq<u16>) -> Map<u16, KeyState> {
    held_map(held, key_event_codes(events)).union_prefer_right(key_event_map(events))
}

/// Whether the batch carries a key event for `code`.
fn batch_has_key_event_for(events: &Vec<RawEvent>, code: u16) -> (r: bool)
    ensures
        r == key_event_codes(events@).contains(code),
{
    let mut i: usize = 0;
    while i < events.len()
        invariant
            0 <= i <= events.len(),
            forall|k: int|
                0 <= k < i ==> !((#[trigger] events@[k]).kind == EV_KEY && events@[k].code
                    == code),
        decreases events.len() - i,
    {
        if events[i].kind == EV_KEY && events[i].code == code {
            return true;
        }
        i += 1;
    }
    false
}

/// Builds the combo observed in one polling iteration from the raw event
/// batch and the platform's held-key snapshot: held keys
/// appear as `Held` unless the batch has a key event for their code, and each
/// key event contributes its own reported state.
pub fn events_to_keycombo(events: &Vec<RawEvent>, held: &Vec<u16>) -> (r: KeyCombo)
    ensures
        r.wf(),
        r@ == observed_map(events@, held@),
{
    let ghost excl = key_event_codes(events@);
    let mut combo = KeyCombo::empty();
    let mut i: usize = 0;
    while i < held.len()
        invariant
            0 <= i <= held.len(),
            excl == key_event_codes(events@),
            combo.wf(),
            combo@ == held_map(held@.take(i as int), excl),
        decreases held.len() - i,
    {
        let c = held[i];
        let skip = batch_has_key_event_for(events, c);
        if !skip {
            combo.insert_event(KeyEvent { code: c, state: KeyState::Held });
        }
        proof {
            let t0 = held@.take(i as int);
            let t1 = held@.take(i + 1 as int);
            assert(t1.drop_last() =~= t0);
            assert(t1.last() == c);
        }
        i += 1;
    }
    proof {
        assert(held@.take(held@.len() as int) =~= held@);
        assert(combo@ =~= held_map(held@, excl).union_prefer_right(
            key_event_map(events@.take(0)),
        ));
    }
    let mut j: usize = 0;
    while j < events.len()
        invariant
            0 <= j <= events.len(),
            excl == key_event_codes(events@),
            combo.wf(),
            combo@ == held_map(held@, excl).union_prefer_right(
                key_event_map(events@.take(j as int)),
            ),
        decreases events.len() - j,
    {
        let e = events[j];
        proof {
            assert(events@.take(j + 1 as int).drop_last() =~= events@.take(j as int));
            assert(events@.take(j + 1 as int).last() == events@[j as int]);
        }
        if e.kind == EV_KEY {
            if let Some(st) = ev_value_to_state(e.value) {
                combo.insert_event(KeyEvent { code: e.code, state: st });
                proof {
                    assert(held_map(held@, excl).union_prefer_right(
                        key_event_map(events@.take(j as int)),
                    ).insert(e.code, st) =~= held_map(held@, excl).union_prefer_right(
                        key_event_map(events@.take(j + 1 as int)),
                    ));
                }
            }
        }
        j += 1;
    }
    proof {
        assert(events@.take(events@.len() as int) =~= events@);
    }
    combo
}

/// On a sequence with pairwise distinct codes, the combo map has exactly one
/// entry per event.
pub proof fn lemma_combo_map_len(s: Seq<KeyEvent>)
    requires
        distinct_codes(s),
    ensures
        combo_map(s).dom().len() == s.len(),
        combo_map(s).dom().finite(),
    decreases s.len(),
{
    if s.len() == 0 {
        assert(combo_map(s).dom() =~= Set::<u16>::empty());
    } else {
        let d = s.drop_last();
        lemma_combo_map_len(d);
        lemma_combo_map_dom(d);
        assert(!contains_code(d, s.last().code));
        assert(!combo_map(d).dom().contains(s.last().code));
        assert(combo_map(s).dom() =~= combo_map(d).dom().insert(s.last().code));
    }
}

} // verus!
