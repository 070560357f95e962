//! Match table: the associative store from canonical combo to handler
//! reference, and the per-batch grab/pass-through decision taken over it.

use vstd::prelude::*;

use crate::keystate::combo_map;
use crate::keystate::contains_code;
use crate::keystate::lemma_canonical_unique;
use crate::keystate::lemma_combo_map_dom;
use crate::keystate::lemma_sorted_implies_distinct;
use crate::keystate::KeyCombo;
use crate::keystate::KeyState;

verus! {

/// Opaque reference to an externally owned callable. The engine never runs a
/// handler itself: it hands the token back to the caller, who knows what the
/// token stands for (a script function, a native closure, a test stub).
#[derive(Clone, Copy, Debug, PartialEq, Eq, Structural)]
pub struct Handler {
    pub id: u64,
}

impl Handler {
    pub fn new(id: u64) -> (r: Self)
        ensures
            r == (Handler { id }),
    {
        Handler { id }
    }
}

/// The mathematical content of the entry list: the map from combo (as a
/// code-to-state map) to handler, where a later entry overrides an earlier
/// one for the same combo.
pub open spec fn hot_map(s: Seq<(KeyCombo, Handler)>) -> Map<Map<u16, KeyState>, Handler>
    decreases s.len(),
{
    if s.len() == 0 {
        Map::empty()
    } else {
        hot_map(s.drop_last()).insert(s.last().0@, s.last().1)
    }
}

/// Some entry's combo denotes `m`.
pub open spec fn contains_combo(s: Seq<(KeyCombo, Handler)>, m: Map<u16, KeyState>) -> bool {
    exists|i: int| 0 <= i < s.len() && s[i].0@ == m
}

/// Every entry's combo is canonical and no two entries share a combo.
pub open spec fn entries_wf(s: Seq<(KeyCombo, Handler)>) -> bool {
    &&& forall|i: int| 0 <= i < s.len() ==> (#[trigger] s[i]).0.wf()
    &&& forall|i: int, j: int| 0 <= i < j < s.len() ==> s[i].0@ != s[j].0@
}

/// On an entry list with pairwise distinct combos, `hot_map` sends each
/// entry's combo to that entry's handler, and holds nothing else.
pub proof fn lemma_hot_map_distinct(s: Seq<(KeyCombo, Handler)>)
    requires
        forall|i: int, j: int| 0 <= i < j < s.len() ==> s[i].0@ != s[j].0@,
    ensures
        forall|m: Map<u16, KeyState>| #[trigger]
            hot_map(s).dom().contains(m) <==> contains_combo(s, m),
        forall|i: int| 0 <= i < s.len() ==> hot_map(s)[(#[trigger] s[i]).0@] == s[i].1,
    decreases s.len(),
{
    if s.len() == 0 {
    } else {
        let d = s.drop_last();
        lemma_hot_map_distinct(d);
        assert forall|m: Map<u16, KeyState>| #[trigger] hot_map(s).dom().contains(m) implies
            contains_combo(s, m) by {
            if m == s.last().0@ {
                assert(s[s.len() - 1].0@ == m);
            } else {
                assert(hot_map(d).dom().contains(m));
                let i = choose|i: int| 0 <= i < d.len() && d[i].0@ == m;
                assert(s[i].0@ == m);
            }
        }
        assert forall|m: Map<u16, KeyState>| contains_combo(s, m) implies #[trigger] hot_map(
            s,
        ).dom().contains(m) by {
            let i = choose|i: int| 0 <= i < s.len() && s[i].0@ == m;
            if i < s.len() - 1 {
                assert(d[i].0@ == m);
                assert(contains_combo(d, m));
                assert(hot_map(d).dom().contains(m));
            } else {
                assert(m == s.last().0@);
            }
        }
        assert forall|i: int|
            0 <= i < s.len() implies hot_map(s)[(#[trigger] s[i]).0@] == s[i].1 by {
            if i < s.len() - 1 {
                assert(s[i].0@ != s.last().0@);
                assert(d[i] == s[i]);
            }
        }
    }
}

/// Match table from canonical combo to handler reference. Keys are unique:
/// inserting an existing combo overwrites the prior handler (last write
/// wins). Exact lookup only; the related-code-set query serves the
/// pass-through decision.
#[derive(Debug)]
pub struct HotMap {
    pub entries: Vec<(KeyCombo, Handler)>,
}

impl View for HotMap {
    type V = Map<Map<u16, KeyState>, Handler>;

    open spec fn view(&self) -> Map<Map<u16, KeyState>, Handler> {
        hot_map(self.entries@)
    }
}

impl HotMap {
    pub open spec fn wf(self) -> bool {
        entries_wf(self.entries@)
    }

    /// The table with nothing registered.
    pub fn new() -> (r: Self)
        ensures
            r.wf(),
            r@ == Map::<Map<u16, KeyState>, Handler>::empty(),
            r.entries@.len() == 0,
    {
        HotMap { entries: Vec::new() }
    }

    /// Unconditional upsert: the combo now maps to `handler`, everything
    /// else is untouched, and the table grows only if the combo was new.
    pub fn insert(&mut self, combo: KeyCombo, handler: Handler)
        requires
            old(self).wf(),
            combo.wf(),
        ensures
            final(self).wf(),
            final(self)@ == old(self)@.insert(combo@, handler),
            final(self).entries@.len() == old(self).entries@.len() + (if old(
                self,
            )@.dom().contains(combo@) {
                0int
            } else {
                1int
            }),
    {
        proof {
            lemma_hot_map_distinct(self.entries@);
        }
        let ghost s0 = self.entries@;
        let mut i: usize = 0;
        while i < self.entries.len()
            invariant
                0 <= i <= self.entries.len(),
                self.entries@ == s0,
                s0 == old(self).entries@,
                entries_wf(s0),
                combo.wf(),
                forall|k: int| 0 <= k < i ==> (#[trigger] s0[k]).0@ != combo@,
            decreases self.entries.len() - i,
        {
            let hit = self.entries[i].0.eq_combo(&combo);
            if hit {
                self.entries.set(i, (combo, handler));
                proof {
                    let s1 = self.entries@;
                    lemma_hot_map_distinct(s0);
                    assert(contains_combo(s0, combo@));
                    assert(hot_map(s0).dom().contains(combo@));
                    assert forall|p: int, q: int| 0 <= p < q < s1.len() implies s1[p].0@
                        != s1[q].0@ by {
                        if p != i && q != i {
                            assert(s1[p] == s0[p] && s1[q] == s0[q]);
                        } else if p == i {
                            assert(s1[q] == s0[q] && s0[i as int].0@ == combo@);
                        } else {
                            assert(s1[p] == s0[p] && s0[i as int].0@ == combo@);
                        }
                    }
                    lemma_hot_map_distinct(s1);
                    assert forall|m: Map<u16, KeyState>| true implies #[trigger] hot_map(
                        s1,
                    ).dom().contains(m) == hot_map(s0).insert(combo@, handler).dom().contains(
                        m,
                    ) by {
                        if contains_combo(s1, m) {
                            let k = choose|k: int| 0 <= k < s1.len() && s1[k].0@ == m;
                            if k != i {
                                assert(s0[k].0@ == m);
                            }
                        }
                        if contains_combo(s0, m) {
                            let k = choose|k: int| 0 <= k < s0.len() && s0[k].0@ == m;
                            if k != i {
                                assert(s1[k].0@ == m);
                            } else {
                                assert(s1[i as int].0@ == combo@ && m == combo@);
                            }
                            assert(contains_combo(s1, m));
                        }
                        if m == combo@ {
                            assert(s1[i as int].0@ == m);
                            assert(contains_combo(s1, m));
                        }
                    }
                    assert forall|m: Map<u16, KeyState>| hot_map(s1).dom().contains(m) implies
                        hot_map(s1)[m] == hot_map(s0).insert(combo@, handler)[m] by {
                        let k = choose|k: int| 0 <= k < s1.len() && s1[k].0@ == m;
                        assert(hot_map(s1)[s1[k].0@] == s1[k].1);
                        if k != i {
                            assert(s0[k] == s1[k]);
                            assert(hot_map(s0)[s0[k].0@] == s0[k].1);
                            assert(m != combo@);
                        }
                    }
                    assert(hot_map(s1) =~= hot_map(s0).insert(combo@, handler));
                }
                return ;
            }
            i += 1;
        }
        self.entries.push((combo, handler));
        proof {
            let s1 = self.entries@;
            assert(s1.drop_last() =~= s0);
            assert(s1.last() == (combo, handler));
            lemma_hot_map_distinct(s0);
            assert(!contains_combo(s0, combo@));
            assert forall|p: int, q: int| 0 <= p < q < s1.len() implies s1[p].0@ != s1[q].0@ by {
                if q == s1.len() - 1 {
                    assert(s1[p] == s0[p]);
                } else {
                    assert(s1[p] == s0[p] && s1[q] == s0[q]);
                }
            }
        }
    }

    /// Exact match only: the handler registered for precisely this combo.
    pub fn lookup(&self, combo: &KeyCombo) -> (r: Option<Handler>)
        requires
            self.wf(),
            combo.wf(),
        ensures
            r == (if self@.dom().contains(combo@) {
                Some(self@[combo@])
            } else {
                Option::<Handler>::None
            }),
    {
        proof {
            lemma_hot_map_distinct(self.entries@);
        }
        let mut i: usize = 0;
        while i < self.entries.len()
            invariant
                0 <= i <= self.entries.len(),
                self.wf(),
                combo.wf(),
                forall|k: int| 0 <= k < i ==> (#[trigger] self.entries@[k]).0@ != combo@,
            decreases self.entries.len() - i,
        {
            let hit = self.entries[i].0.eq_combo(combo);
            if hit {
                proof {
                    lemma_hot_map_distinct(self.entries@);
                    assert(contains_combo(self.entries@, combo@));
                    assert(hot_map(self.entries@)[self.entries@[i as int].0@]
                        == self.entries@[i as int].1);
                }
                return Some(self.entries[i].1);
            }
            i += 1;
        }
        proof {
            lemma_hot_map_distinct(self.entries@);
            if self@.dom().contains(combo@) {
                let k = choose|k: int|
                    0 <= k < self.entries@.len() && self.entries@[k].0@ == combo@;
                assert(false);
            }
        }
        None
    }
}

/// A canonical combo's map has exactly its codes as domain.
pub proof fn lemma_combo_dom_codes(k: KeyCombo)
    requires
        k.wf(),
    ensures
        forall|c: u16| #[trigger] k@.dom().contains(c) <==> k.spec_codes().contains(c),
{
    lemma_combo_map_dom(k.keys@);
    assert forall|c: u16| #[trigger] k@.dom().contains(c) <==> k.spec_codes().contains(c) by {
        if k@.dom().contains(c) {
            let i = choose|i: int| 0 <= i < k.keys@.len() && k.keys@[i].code == c;
            assert(k.spec_codes()[i] == c);
        }
        if k.spec_codes().contains(c) {
            let i = choose|i: int| 0 <= i < k.spec_codes().len() && k.spec_codes()[i] == c;
            assert(k.keys@[i].code == c);
            assert(contains_code(k.keys@, c));
        }
    }
}

/// A canonical combo's code sequence is strictly ascending.
pub proof fn lemma_combo_codes_sorted(k: KeyCombo)
    requires
        k.wf(),
    ensures
        forall|i: int, j: int|
            0 <= i < j < k.spec_codes().len() ==> k.spec_codes()[i] < k.spec_codes()[j],
{
    assert forall|i: int, j: int|
        0 <= i < j < k.spec_codes().len() implies k.spec_codes()[i] < k.spec_codes()[j] by {
        assert(k.spec_codes()[i] == k.keys@[i].code);
        assert(k.spec_codes()[j] == k.keys@[j].code);
    }
}

/// Two strictly ascending code sequences holding the same codes are the same
/// sequence.
pub proof fn lemma_sorted_codes_unique(a: Seq<u16>, b: Seq<u16>)
    requires
        forall|i: int, j: int| 0 <= i < j < a.len() ==> a[i] < a[j],
        forall|i: int, j: int| 0 <= i < j < b.len() ==> b[i] < b[j],
        forall|c: u16| a.contains(c) <==> b.contains(c),
    ensures
        a == b,
    decreases a.len(),
{
    if a.len() == 0 {
        if b.len() > 0 {
            assert(b.contains(b[b.len() - 1]));
            assert(false);
        }
        assert(a =~= b);
    } else {
        assert(a.contains(a[a.len() - 1]));
        assert(b.contains(a[a.len() - 1]));
        let j = choose|j: int| 0 <= j < b.len() && b[j] == a[a.len() - 1];
        assert(b.contains(b[b.len() - 1]));
        assert(a.contains(b[b.len() - 1]));
        let i = choose|i: int| 0 <= i < a.len() && a[i] == b[b.len() - 1];
        assert(a[i] <= a[a.len() - 1]);
        assert(b[j] <= b[b.len() - 1]);
        assert(a[a.len() - 1] == b[b.len() - 1]);
        let da = a.drop_last();
        let db = b.drop_last();
        assert forall|c: u16| da.contains(c) <==> db.contains(c) by {
            if da.contains(c) {
                let p = choose|p: int| 0 <= p < da.len() && da[p] == c;
                assert(a[p] == c);
                assert(c < a[a.len() - 1]);
                assert(b.contains(c));
                let q = choose|q: int| 0 <= q < b.len() && b[q] == c;
                assert(q < b.len() - 1);
                assert(db[q] == c);
            }
            if db.contains(c) {
                let q = choose|q: int| 0 <= q < db.len() && db[q] == c;
                assert(b[q] == c);
                assert(c < b[b.len() - 1]);
                assert(a.contains(c));
                let p = choose|p: int| 0 <= p < a.len() && a[p] == c;
                assert(p < a.len() - 1);
                assert(da[p] == c);
            }
        }
        lemma_sorted_codes_unique(da, db);
        assert(a =~= da.push(a[a.len() - 1]));
        assert(b =~= db.push(b[b.len() - 1]));
    }
}

/// Whether the distinct code set of `obs` equals the code set of at least
/// one combo registered in `mm`, states ignored.
pub open spec fn spec_code_set_registered(
    mm: Map<Map<u16, KeyState>, Handler>,
    obs: Map<u16, KeyState>,
) -> bool {
    exists|k: Map<u16, KeyState>| #[trigger] mm.dom().contains(k) && k.dom() == obs.dom()
}

/// Elementwise equality of two code vectors.
fn codes_equal(a: &Vec<u16>, b: &Vec<u16>) -> (r: bool)
    ensures
        r == (a@ == b@),
{
    if a.len() != b.len() {
        return false;
    }
    let mut i: usize = 0;
    while i < a.len()
        invariant
            0 <= i <= a.len(),
            a@.len() == b@.len(),
            forall|k: int| 0 <= k < i ==> a@[k] == b@[k],
        decreases a.len() - i,
    {
        if a[i] != b[i] {
            return false;
        }
        i += 1;
    }
    proof {
        assert(a@ =~= b@);
    }
    true
}

impl HotMap {
    /// True exactly when the set of distinct codes in `combo` (states
    /// ignored) equals the code set of some registered entry: the physical
    /// keys are part of the hotkey vocabulary even though the specific
    /// states did not match.
    pub fn is_code_set_registered(&self, combo: &KeyCombo) -> (r: bool)
        requires
            self.wf(),
            combo.wf(),
        ensures
            r == spec_code_set_registered(self@, combo@),
    {
        let target = combo.codes();
        let mut i: usize = 0;
        while i < self.entries.len()
            invariant
                0 <= i <= self.entries.len(),
                self.wf(),
                combo.wf(),
                target@ == combo.spec_codes(),
                forall|k: int|
                    0 <= k < i ==> (#[trigger] self.entries@[k]).0@.dom() != combo@.dom(),
            decreases self.entries.len() - i,
        {
            let entry_codes = self.entries[i].0.codes();
            let hit = codes_equal(&entry_codes, &target);
            proof {
                let e = self.entries@[i as int].0;
                lemma_combo_dom_codes(e);
                lemma_combo_dom_codes(*combo);
                lemma_combo_codes_sorted(e);
                lemma_combo_codes_sorted(*combo);
                if hit {
                    assert forall|c: u16| e@.dom().contains(c) <==> combo@.dom().contains(
                        c,
                    ) by {}
                    assert(e@.dom() =~= combo@.dom());
                } else {
                    if e@.dom() == combo@.dom() {
                        assert forall|c: u16| e.spec_codes().contains(c)
                            <==> combo.spec_codes().contains(c) by {
                            assert(e@.dom().contains(c) <==> e.spec_codes().contains(c));
                            assert(combo@.dom().contains(c) <==> combo.spec_codes().contains(
                                c,
                            ));
                        }
                        lemma_sorted_codes_unique(e.spec_codes(), combo.spec_codes());
                        assert(false);
                    }
                }
            }
            if hit {
                proof {
                    lemma_hot_map_distinct(self.entries@);
                    assert(contains_combo(self.entries@, self.entries@[i as int].0@));
                    assert(self@.dom().contains(self.entries@[i as int].0@));
                }
                return true;
            }
            i += 1;
        }
        proof {
            lemma_hot_map_distinct(self.entries@);
            if spec_code_set_registered(self@, combo@) {
                let k = choose|k: Map<u16, KeyState>| #[trigger]
                    self@.dom().contains(k) && k.dom() == combo@.dom();
                let j = choose|j: int|
                    0 <= j < self.entries@.len() && self.entries@[j].0@ == k;
                assert(false);
            }
        }
        false
    }
}

/// What one polling iteration does with an observed combo.
#[derive(Clone, Copy, Debug, PartialEq, Eq, Structural)]
pub enum Decision {
    /// The combo is registered: invoke this handler; nothing is forwarded.
    Dispatch(Handler),
    /// No match, the device is grabbed and the codes are unrelated to every
    /// registration: re-emit the raw batch so the input is not swallowed.
    Forward,
    /// Neither dispatch nor forward: either the device is not grabbed (the
    /// platform already delivered the input natively), or the codes belong
    /// to a registered hotkey caught mid-transition and must not leak.
    Suppress,
}

/// The grab/pass-through decision for one observed combo.
pub open spec fn spec_decide(
    mm: Map<Map<u16, KeyState>, Handler>,
    grabbed: bool,
    obs: Map<u16, KeyState>,
) -> Decision {
    if mm.dom().contains(obs) {
        Decision::Dispatch(mm[obs])
    } else if grabbed && !spec_code_set_registered(mm, obs) {
        Decision::Forward
    } else {
        Decision::Suppress
    }
}

/// Classifies one observed combo against the match table: dispatch on an
/// exact hit; otherwise forward only when the device is grabbed and the
/// combo's code set matches no registration; otherwise do nothing.
pub fn decide(map: &HotMap, grabbed: bool, combo: &KeyCombo) -> (d: Decision)
    requires
        map.wf(),
        combo.wf(),
    ensures
        d == spec_decide(map@, grabbed, combo@),
{
    match map.lookup(combo) {
        Some(h) => Decision::Dispatch(h),
        None => {
            if grabbed && !map.is_code_set_registered(combo) {
                Decision::Forward
            } else {
                Decision::Suppress
            }
        },
    }
}

/// Idempotent insert: registering one combo twice leaves a single entry
/// holding the most recent handler — the second insert fully supersedes the
/// first.
pub proof fn lemma_insert_last_write_wins(
    mm: Map<Map<u16, KeyState>, Handler>,
    c: Map<u16, KeyState>,
    h1: Handler,
    h2: Handler,
)
    ensures
        mm.insert(c, h1).insert(c, h2) == mm.insert(c, h2),
        mm.insert(c, h1).insert(c, h2).dom() == mm.dom().insert(c),
{
    assert(mm.insert(c, h1).insert(c, h2) =~= mm.insert(c, h2));
    assert(mm.insert(c, h1).insert(c, h2).dom() =~= mm.dom().insert(c));
}

/// Compile-and-match round trip: once a compiled combo is registered, an
/// observed combo equal to it dispatches exactly the registered handler,
/// grabbed or not.
pub proof fn lemma_compile_match_round_trip(
    mm: Map<Map<u16, KeyState>, Handler>,
    m: Map<u16, KeyState>,
    h: Handler,
    grabbed: bool,
)
    ensures
        spec_decide(mm.insert(m, h), grabbed, m) == Decision::Dispatch(h),
{
}

/// Pass-through suppression: while grabbed, an observed combo that shares
/// its code set with a registered combo but is not itself registered is
/// neither dispatched nor forwarded.
pub proof fn lemma_suppression(
    mm: Map<Map<u16, KeyState>, Handler>,
    reg: Map<u16, KeyState>,
    obs: Map<u16, KeyState>,
)
    requires
        mm.dom().contains(reg),
        reg.dom() == obs.dom(),
        !mm.dom().contains(obs),
    ensures
        spec_decide(mm, true, obs) == Decision::Suppress,
{
    assert(spec_code_set_registered(mm, obs));
}

/// Forwarding: while grabbed, an observed combo whose code set matches no
/// registration is forwarded verbatim.
pub proof fn lemma_forwarding(mm: Map<Map<u16, KeyState>, Handler>, obs: Map<u16, KeyState>)
    requires
        forall|k: Map<u16, KeyState>| #[trigger] mm.dom().contains(k) ==> k.dom() != obs.dom(),
    ensures
        spec_decide(mm, true, obs) == Decision::Forward,
{
    if mm.dom().contains(obs) {
        assert(obs.dom() != obs.dom());
    }
}

} // verus!
