//! Device-session state: the user-declared tables, the match table and the
//! grab flag, with the per-batch decision step and the synthetic tap.
//!
//! A session owns exactly one of each; the caller owns the physical device
//! and the virtual output device, feeds `step` with raw batches and held
//! snapshots, and acts on the decision: invoke the handler, emit the batch
//! verbatim, or do nothing. `grab`/`ungrab` only record the exclusivity the
//! caller obtained or released on the platform; the caller must not set the
//! flag when the platform denied exclusivity.

use vstd::prelude::*;

use crate::compile::parse_keycombo;
use crate::compile::spec_parse_keycombo;
use crate::hotmap::decide;
use crate::hotmap::spec_decide;
use crate::hotmap::Decision;
use crate::hotmap::Handler;
use crate::hotmap::HotMap;
use crate::keystate::events_to_keycombo;
use crate::keystate::observed_map;
use crate::keystate::spec_ev_value_to_state;
use crate::keystate::ev_value_to_state;
use crate::keystate::KeyCombo;
use crate::keystate::KeyState;
use crate::keystate::RawEvent;
use crate::keystate::EV_KEY;
use crate::keystate::KEY_DOWN;
use crate::keystate::KEY_UP;
use crate::pattern::ParseError;
use crate::tables::distinct_rules;
use crate::tables::rule_views;
use crate::tables::CodeTable;
use crate::tables::ValueTable;

verus! {

/// The views of a list of name-code pairs.
pub open spec fn code_pair_views(s: Seq<(String, u16)>) -> Seq<(Seq<char>, u16)> {
    s.map_values(|p: (String, u16)| (p.0@, p.1))
}

/// A batch of name-code pairs merged into a code map, in order: a later
/// pair overrides an earlier one and everything else stays.
pub open spec fn merged_codes(m: Map<Seq<char>, u16>, pairs: Seq<(Seq<char>, u16)>) -> Map<
    Seq<char>,
    u16,
>
    decreases pairs.len(),
{
    if pairs.len() == 0 {
        m
    } else {
        merged_codes(m, pairs.drop_last()).insert(pairs.last().0, pairs.last().1)
    }
}

/// One rule merged into a rule list: an existing rule with the same pattern
/// text is overwritten in place, a new one is appended.
pub open spec fn rules_merge_one(
    s: Seq<(Seq<char>, KeyState)>,
    p: (Seq<char>, KeyState),
) -> Seq<(Seq<char>, KeyState)> {
    if exists|j: int| 0 <= j < s.len() && (#[trigger] s[j]).0 == p.0 {
        s.update(choose|j: int| 0 <= j < s.len() && (#[trigger] s[j]).0 == p.0, p)
    } else {
        s.push(p)
    }
}

/// A batch of name-value pairs merged into a rule list, in order. A value
/// outside the three observable states (0, 1, 2) names no state and its
/// pair is dropped.
pub open spec fn merged_rules(
    s: Seq<(Seq<char>, KeyState)>,
    pairs: Seq<(Seq<char>, i32)>,
) -> Seq<(Seq<char>, KeyState)>
    decreases pairs.len(),
{
    if pairs.len() == 0 {
        s
    } else {
        let r = merged_rules(s, pairs.drop_last());
        match spec_ev_value_to_state(pairs.last().1) {
            Some(st) => rules_merge_one(r, (pairs.last().0, st)),
            None => r,
        }
    }
}

/// The views of a list of name-value pairs.
pub open spec fn value_pair_views(s: Seq<(String, i32)>) -> Seq<(Seq<char>, i32)> {
    s.map_values(|p: (String, i32)| (p.0@, p.1))
}

/// A `Down` (or `Up`) event for every code, in the order given.
pub open spec fn tap_events(codes: Seq<u16>, value: i32) -> Seq<RawEvent> {
    codes.map_values(|c: u16| RawEvent { kind: EV_KEY, code: c, value })
}

/// One device session's remapping state: the code and value tables the
/// compiler resolves against, the match table, and whether the caller holds
/// the physical device exclusively.
#[derive(Debug)]
pub struct Binding {
    pub code_table: CodeTable,
    pub value_table: ValueTable,
    pub hotmap: HotMap,
    pub grabbing: bool,
}

impl Binding {
    pub open spec fn wf(self) -> bool {
        &&& self.code_table.wf()
        &&& self.value_table.wf()
        &&& self.hotmap.wf()
    }

    /// A fresh session: empty tables, nothing registered, not grabbing.
    pub fn new() -> (r: Self)
        ensures
            r.wf(),
            r.code_table@ == Map::<Seq<char>, u16>::empty(),
            r.value_table.rules@.len() == 0,
            r.hotmap@ == Map::<Map<u16, KeyState>, Handler>::empty(),
            !r.grabbing,
    {
        Binding {
            code_table: CodeTable::new(),
            value_table: ValueTable::new(),
            hotmap: HotMap::new(),
            grabbing: false,
        }
    }

    /// Merges name-to-code declarations into the code table, later pairs
    /// overriding earlier ones; nothing else changes.
    pub fn set_keycodes(&mut self, pairs: Vec<(String, u16)>)
        requires
            old(self).wf(),
        ensures
            final(self).wf(),
            final(self).code_table@ == merged_codes(
                old(self).code_table@,
                code_pair_views(pairs@),
            ),
            final(self).value_table == old(self).value_table,
            final(self).hotmap == old(self).hotmap,
            final(self).grabbing == old(self).grabbing,
    {
        let ghost pv = code_pair_views(pairs@);
        let mut i: usize = 0;
        proof {
            assert(pv.take(0) =~= Seq::<(Seq<char>, u16)>::empty());
        }
        while i < pairs.len()
            invariant
                0 <= i <= pairs.len(),
                pv == code_pair_views(pairs@),
                pv.len() == pairs@.len(),
                self.code_table.wf(),
                self.code_table@ == merged_codes(old(self).code_table@, pv.take(i as int)),
                self.value_table == old(self).value_table,
                self.hotmap == old(self).hotmap,
                self.grabbing == old(self).grabbing,
            decreases pairs.len() - i,
        {
            let name = pairs[i].0.clone();
            let code = pairs[i].1;
            proof {
                assert(pv[i as int] == (pairs@[i as int].0@, pairs@[i as int].1));
                assert(name@ == pv[i as int].0);
                assert(pv.take(i + 1 as int).drop_last() =~= pv.take(i as int));
                assert(pv.take(i + 1 as int).last() == pv[i as int]);
            }
            self.code_table.set(name, code);
            i += 1;
        }
        proof {
            assert(pv.take(pv.len() as int) =~= pv);
        }
    }

    /// Merges name-to-state-identifier declarations into the rule list,
    /// later pairs overriding earlier ones on the same pattern text. A
    /// value outside 0, 1, 2 names no observable state and is dropped.
    pub fn set_keyvalues(&mut self, pairs: Vec<(String, i32)>)
        requires
            old(self).wf(),
        ensures
            final(self).wf(),
            rule_views(final(self).value_table.rules@) == merged_rules(
                rule_views(old(self).value_table.rules@),
                value_pair_views(pairs@),
            ),
            final(self).code_table == old(self).code_table,
            final(self).hotmap == old(self).hotmap,
            final(self).grabbing == old(self).grabbing,
    {
        let ghost pv = value_pair_views(pairs@);
        let ghost base = rule_views(old(self).value_table.rules@);
        let mut i: usize = 0;
        proof {
            assert(pv.take(0) =~= Seq::<(Seq<char>, i32)>::empty());
        }
        while i < pairs.len()
            invariant
                0 <= i <= pairs.len(),
                pv == value_pair_views(pairs@),
                pv.len() == pairs@.len(),
                self.value_table.wf(),
                rule_views(self.value_table.rules@) == merged_rules(base, pv.take(i as int)),
                self.code_table == old(self).code_table,
                self.code_table.wf(),
                self.hotmap == old(self).hotmap,
                self.hotmap.wf(),
                self.grabbing == old(self).grabbing,
            decreases pairs.len() - i,
        {
            let name = pairs[i].0.clone();
            let v = pairs[i].1;
            proof {
                assert(pv[i as int] == (pairs@[i as int].0@, pairs@[i as int].1));
                assert(name@ == pv[i as int].0);
                assert(pv.take(i + 1 as int).drop_last() =~= pv.take(i as int));
                assert(pv.take(i + 1 as int).last() == pv[i as int]);
            }
            match ev_value_to_state(v) {
                Some(st) => {
                    let ghost s0 = self.value_table.rules@;
                    let ghost gname = name;
                    self.value_table.set(name, st);
                    proof {
                        lemma_merge_one_view(s0, self.value_table.rules@, gname, st);
                    }
                },
                None => {},
            }
            i += 1;
        }
        proof {
            assert(pv.take(pv.len() as int) =~= pv);
        }
    }

    /// Compiles `pattern` and registers `handler` for the resulting combo.
    /// A compile error is reported to the caller and registers nothing: the
    /// session is exactly as it was.
    pub fn map(&mut self, pattern: &String, handler: Handler) -> (r: Result<(), ParseError>)
        requires
            old(self).wf(),
        ensures
            final(self).wf(),
            final(self).code_table == old(self).code_table,
            final(self).value_table == old(self).value_table,
            final(self).grabbing == old(self).grabbing,
            match r {
                Ok(_) => ({
                    let res = spec_parse_keycombo(
                        pattern@,
                        old(self).code_table@,
                        rule_views(old(self).value_table.rules@),
                    );
                    &&& res is Ok
                    &&& final(self).hotmap@ == old(self).hotmap@.insert(res->Ok_0, handler)
                }),
                Err(e) => ({
                    let res = spec_parse_keycombo(
                        pattern@,
                        old(self).code_table@,
                        rule_views(old(self).value_table.rules@),
                    );
                    &&& res == Err::<Map<u16, KeyState>, _>(e@)
                    &&& final(self).hotmap == old(self).hotmap
                }),
            },
    {
        match parse_keycombo(pattern, &self.code_table, &self.value_table) {
            Ok(combo) => {
                self.hotmap.insert(combo, handler);
                Ok(())
            },
            Err(e) => Err(e),
        }
    }

    /// Records that the caller now holds the device exclusively. To be
    /// called only after the platform granted the grab; a denied grab must
    /// be surfaced to the caller, never recorded here.
    pub fn grab(&mut self)
        requires
            old(self).wf(),
        ensures
            final(self).wf(),
            final(self).grabbing,
            final(self).code_table == old(self).code_table,
            final(self).value_table == old(self).value_table,
            final(self).hotmap == old(self).hotmap,
    {
        self.grabbing = true;
    }

    /// Records that the caller released exclusive ownership.
    pub fn ungrab(&mut self)
        requires
            old(self).wf(),
        ensures
            final(self).wf(),
            !final(self).grabbing,
            final(self).code_table == old(self).code_table,
            final(self).value_table == old(self).value_table,
            final(self).hotmap == old(self).hotmap,
    {
        self.grabbing = false;
    }

    /// One polling iteration's decision: the observed combo is built from
    /// the raw batch and the held snapshot, then classified against the
    /// match table and the grab flag.
    pub fn step(&self, events: &Vec<RawEvent>, held: &Vec<u16>) -> (d: Decision)
        requires
            self.wf(),
        ensures
            d == spec_decide(self.hotmap@, self.grabbing, observed_map(events@, held@)),
    {
        let combo = events_to_keycombo(events, held);
        decide(&self.hotmap, self.grabbing, &combo)
    }

    /// Compiles `pattern` and synthesizes its tap: one `Down` batch for all
    /// of the combo's codes followed by one `Up` batch for the same codes,
    /// for the caller to emit in that order. The tap is a pulse, not a
    /// sustained press: it does not preserve any hold duration.
    pub fn send(&self, pattern: &String) -> (r: Result<(Vec<RawEvent>, Vec<RawEvent>), ParseError>)
        requires
            self.wf(),
        ensures
            match r {
                Ok(batches) => ({
                    let res = spec_parse_keycombo(
                        pattern@,
                        self.code_table@,
                        rule_views(self.value_table.rules@),
                    );
                    &&& res is Ok
                    &&& exists|c: KeyCombo|
                        c.wf() && c@ == res->Ok_0 && batches.0@ == tap_events(
                            c.spec_codes(),
                            KEY_DOWN,
                        ) && batches.1@ == tap_events(c.spec_codes(), KEY_UP)
                }),
                Err(e) => spec_parse_keycombo(
                    pattern@,
                    self.code_table@,
                    rule_views(self.value_table.rules@),
                ) == Err::<Map<u16, KeyState>, _>(e@),
            },
    {
        match parse_keycombo(pattern, &self.code_table, &self.value_table) {
            Ok(combo) => {
                let batches = tap_batches(&combo);
                proof {
                    assert(combo.wf() && batches.0@ == tap_events(combo.spec_codes(), KEY_DOWN)
                        && batches.1@ == tap_events(combo.spec_codes(), KEY_UP));
                }
                Ok(batches)
            },
            Err(e) => Err(e),
        }
    }
}

/// What one iteration of the poll loop observed: a batch of raw events
/// with the platform's held-key snapshot, or a failed read.
#[derive(Debug)]
pub enum PollEvent {
    Batch(Vec<RawEvent>, Vec<u16>),
    ReadFailed,
}

/// Lifecycle phase of the grab/pass-through controller: idle before the
/// first batch, listening between batches, stopped for good after a fatal
/// read error.
#[derive(Clone, Copy, Debug, PartialEq, Eq, Structural)]
pub enum Phase {
    Idle,
    Listening,
    Stopped,
}

/// One transition of the controller: a batch observed in a live phase is
/// classified and the controller keeps listening; a failed read is fatal
/// and stops the session; a stopped session reacts to nothing.
pub open spec fn spec_controller_step(
    mm: Map<Map<u16, KeyState>, Handler>,
    grabbed: bool,
    phase: Phase,
    ev: PollEvent,
) -> (Phase, Option<Decision>) {
    match ev {
        PollEvent::ReadFailed => (Phase::Stopped, Option::<Decision>::None),
        PollEvent::Batch(events, held) => {
            if phase is Stopped {
                (Phase::Stopped, Option::<Decision>::None)
            } else {
                (Phase::Listening, Some(spec_decide(mm, grabbed, observed_map(events@, held@))))
            }
        },
    }
}

impl Binding {
    /// Drives the controller one iteration: classifies the batch when the
    /// session is live, stops it for good on a read failure, and keeps a
    /// stopped session stopped. The caller performs the returned decision
    /// and feeds the next event.
    pub fn controller_step(&self, phase: Phase, ev: &PollEvent) -> (r: (Phase, Option<Decision>))
        requires
            self.wf(),
        ensures
            r == spec_controller_step(self.hotmap@, self.grabbing, phase, *ev),
    {
        match ev {
            PollEvent::ReadFailed => (Phase::Stopped, None),
            PollEvent::Batch(events, held) => {
                if let Phase::Stopped = phase {
                    (Phase::Stopped, None)
                } else {
                    (Phase::Listening, Some(self.step(events, held)))
                }
            },
        }
    }
}

/// Tap events for one more code extend the batch by one event.
proof fn lemma_tap_push(codes: Seq<u16>, i: int, value: i32)
    requires
        0 <= i < codes.len(),
    ensures
        tap_events(codes.take(i + 1), value) == tap_events(codes.take(i), value).push(
            RawEvent { kind: EV_KEY, code: codes[i], value },
        ),
{
    let a = tap_events(codes.take(i + 1), value);
    let b = tap_events(codes.take(i), value).push(RawEvent { kind: EV_KEY, code: codes[i], value });
    assert(a.len() == i + 1);
    assert(b.len() == i + 1);
    assert forall|k: int| 0 <= k < i + 1 implies a[k] == b[k] by {
        assert(codes.take(i + 1)[k] == codes[k]);
        assert(a[k] == (RawEvent { kind: EV_KEY, code: codes[k], value }));
        if k < i {
            assert(codes.take(i)[k] == codes[k]);
            assert(b[k] == tap_events(codes.take(i), value)[k]);
        }
    }
    assert(a =~= b);
}

/// The synthetic tap for a combo: a `Down` event for every one of its
/// codes as one batch, and an `Up` event for the same codes as a second
/// batch, both in canonical code order.
pub fn tap_batches(combo: &KeyCombo) -> (r: (Vec<RawEvent>, Vec<RawEvent>))
    requires
        combo.wf(),
    ensures
        r.0@ == tap_events(combo.spec_codes(), KEY_DOWN),
        r.1@ == tap_events(combo.spec_codes(), KEY_UP),
{
    let codes = combo.codes();
    let mut down: Vec<RawEvent> = Vec::new();
    let mut up: Vec<RawEvent> = Vec::new();
    let mut i: usize = 0;
    proof {
        assert(codes@.take(0) =~= Seq::<u16>::empty());
        assert(down@ =~= tap_events(codes@.take(0), KEY_DOWN));
        assert(up@ =~= tap_events(codes@.take(0), KEY_UP));
    }
    while i < codes.len()
        invariant
            0 <= i <= codes.len(),
            codes@ == combo.spec_codes(),
            down@ == tap_events(codes@.take(i as int), KEY_DOWN),
            up@ == tap_events(codes@.take(i as int), KEY_UP),
        decreases codes.len() - i,
    {
        down.push(RawEvent { kind: EV_KEY, code: codes[i], value: KEY_DOWN });
        up.push(RawEvent { kind: EV_KEY, code: codes[i], value: KEY_UP });
        proof {
            lemma_tap_push(codes@, i as int, KEY_DOWN);
            lemma_tap_push(codes@, i as int, KEY_UP);
        }
        i += 1;
    }
    proof {
        assert(codes@.take(codes@.len() as int) =~= codes@);
    }
    (down, up)
}

/// A rule merged by `ValueTable::set` is `rules_merge_one` at view level.
proof fn lemma_merge_one_view(
    s0: Seq<(String, KeyState)>,
    s1: Seq<(String, KeyState)>,
    rule: String,
    state: KeyState,
)
    requires
        distinct_rules(s0),
        (if crate::tables::contains_rule(s0, rule@) {
            exists|j: int|
                0 <= j < s0.len() && s0[j].0@ == rule@ && s1 == s0.update(j, (rule, state))
        } else {
            s1 == s0.push((rule, state))
        }),
    ensures
        rule_views(s1) == rules_merge_one(rule_views(s0), (rule@, state)),
{
    let rv0 = rule_views(s0);
    let rv1 = rule_views(s1);
    assert(rv0.len() == s0.len());
    assert(forall|k: int|
        0 <= k < s0.len() ==> rv0[k] == ((#[trigger] s0[k]).0@, s0[k].1));
    if crate::tables::contains_rule(s0, rule@) {
        let j = choose|j: int|
            0 <= j < s0.len() && s0[j].0@ == rule@ && s1 == s0.update(j, (rule, state));
        assert(rv0[j].0 == rule@);
        assert(exists|k: int| 0 <= k < rv0.len() && (#[trigger] rv0[k]).0 == (rule@, state).0);
        let k = choose|k: int| 0 <= k < rv0.len() && (#[trigger] rv0[k]).0 == (rule@, state).0;
        assert(s0[k].0@ == rule@);
        assert(k == j);
        let target = rv0.update(j, (rule@, state));
        assert(rv1.len() == target.len());
        assert forall|p: int| 0 <= p < rv1.len() implies rv1[p] == target[p] by {
            assert(rv1[p] == ((#[trigger] s1[p]).0@, s1[p].1));
            if p != j {
                assert(s1[p] == s0[p]);
            }
        }
        assert(rv1 =~= target);
    } else {
        if exists|k: int| 0 <= k < rv0.len() && (#[trigger] rv0[k]).0 == (rule@, state).0 {
            let k = choose|k: int| 0 <= k < rv0.len() && (#[trigger] rv0[k]).0 == (rule@, state).0;
            assert(s0[k].0@ == rule@);
            assert(crate::tables::contains_rule(s0, rule@));
            assert(false);
        }
        let target = rv0.push((rule@, state));
        assert(rv1.len() == target.len());
        assert forall|p: int| 0 <= p < rv1.len() implies rv1[p] == target[p] by {
            assert(rv1[p] == ((#[trigger] s1[p]).0@, s1[p].1));
            if p < s0.len() {
                assert(s1[p] == s0[p]);
            } else {
                assert(s1[p] == (rule, state));
            }
        }
        assert(rv1 =~= target);
    }
}

} // verus!
