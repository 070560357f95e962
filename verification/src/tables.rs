//! The user-declared tables the pattern compiler resolves against: a
//! name-to-code table for key names, and an ordered list of value-identifier
//! rules mapping token patterns to key states.
//!
//! Both keep their entries unique by key; setting an existing key overwrites
//! its value (later declarations win), everything else stays.

use vstd::prelude::*;

use crate::keystate::KeyState;

verus! {

/// The mathematical content of the code-table entry list: the map from key
/// name to key code, a later entry overriding an earlier one.
pub open spec fn code_map(s: Seq<(String, u16)>) -> Map<Seq<char>, u16>
    decreases s.len(),
{
    if s.len() == 0 {
        Map::empty()
    } else {
        code_map(s.drop_last()).insert(s.last().0@, s.last().1)
    }
}

/// Some entry is named `n`.
pub open spec fn contains_name(s: Seq<(String, u16)>, n: Seq<char>) -> bool {
    exists|i: int| 0 <= i < s.len() && s[i].0@ == n
}

/// No two entries share a name.
pub open spec fn distinct_names(s: Seq<(String, u16)>) -> bool {
    forall|i: int, j: int| 0 <= i < j < s.len() ==> s[i].0@ != s[j].0@
}

/// On an entry list with pairwise distinct names, `code_map` sends each
/// entry's name to that entry's code, and holds nothing else.
pub proof fn lemma_code_map_distinct(s: Seq<(String, u16)>)
    requires
        distinct_names(s),
    ensures
        forall|n: Seq<char>| #[trigger] code_map(s).dom().contains(n) <==> contains_name(s, n),
        forall|i: int| 0 <= i < s.len() ==> code_map(s)[(#[trigger] s[i]).0@] == s[i].1,
    decreases s.len(),
{
    if s.len() == 0 {
    } else {
        let d = s.drop_last();
        lemma_code_map_distinct(d);
        assert forall|n: Seq<char>| #[trigger] code_map(s).dom().contains(n) implies
            contains_name(s, n) by {
            if n == s.last().0@ {
                assert(s[s.len() - 1].0@ == n);
            } else {
                assert(code_map(d).dom().contains(n));
                let i = choose|i: int| 0 <= i < d.len() && d[i].0@ == n;
                assert(s[i].0@ == n);
            }
        }
        assert forall|n: Seq<char>| contains_name(s, n) implies #[trigger] code_map(
            s,
        ).dom().contains(n) by {
            let i = choose|i: int| 0 <= i < s.len() && s[i].0@ == n;
            if i < s.len() - 1 {
                assert(d[i].0@ == n);
                assert(contains_name(d, n));
                assert(code_map(d).dom().contains(n));
            } else {
                assert(n == s.last().0@);
            }
        }
        assert forall|i: int|
            0 <= i < s.len() implies code_map(s)[(#[trigger] s[i]).0@] == s[i].1 by {
            if i < s.len() - 1 {
                assert(s[i].0@ != s.last().0@);
                assert(d[i] == s[i]);
            }
        }
    }
}

/// The name-to-code table built from the user's key declarations.
#[derive(Debug)]
pub struct CodeTable {
    pub pairs: Vec<(String, u16)>,
}

impl View for CodeTable {
    type V = Map<Seq<char>, u16>;

    open spec fn view(&self) -> Map<Seq<char>, u16> {
        code_map(self.pairs@)
    }
}

impl CodeTable {
    pub open spec fn wf(self) -> bool {
        distinct_names(self.pairs@)
    }

    /// The empty table.
    pub fn new() -> (r: Self)
        ensures
            r.wf(),
            r@ == Map::<Seq<char>, u16>::empty(),
    {
        CodeTable { pairs: Vec::new() }
    }

    /// Declares one name: the table now maps `name` to `code`, overriding
    /// any earlier declaration of the same name.
    pub fn set(&mut self, name: String, code: u16)
        requires
            old(self).wf(),
        ensures
            final(self).wf(),
            final(self)@ == old(self)@.insert(name@, code),
    {
        proof {
            lemma_code_map_distinct(self.pairs@);
        }
        let ghost s0 = self.pairs@;
        let mut i: usize = 0;
        while i < self.pairs.len()
            invariant
                0 <= i <= self.pairs.len(),
                self.pairs@ == s0,
                s0 == old(self).pairs@,
                distinct_names(s0),
                forall|k: int| 0 <= k < i ==> (#[trigger] s0[k]).0@ != name@,
            decreases self.pairs.len() - i,
        {
            if self.pairs[i].0 == name {
                self.pairs.set(i, (name, code));
                proof {
                    let s1 = self.pairs@;
                    lemma_code_map_distinct(s0);
                    assert(contains_name(s0, name@));
                    assert forall|p: int, q: int| 0 <= p < q < s1.len() implies s1[p].0@
                        != s1[q].0@ by {
                        if p != i && q != i {
                            assert(s1[p] == s0[p] && s1[q] == s0[q]);
                        } else if p == i {
                            assert(s1[q] == s0[q] && s0[i as int].0@ == name@);
                        } else {
                            assert(s1[p] == s0[p] && s0[i as int].0@ == name@);
                        }
                    }
                    lemma_code_map_distinct(s1);
                    assert forall|n: Seq<char>| true implies #[trigger] code_map(
                        s1,
                    ).dom().contains(n) == code_map(s0).insert(name@, code).dom().contains(
                        n,
                    ) by {
                        if contains_name(s1, n) {
                            let k = choose|k: int| 0 <= k < s1.len() && s1[k].0@ == n;
                            if k != i {
                                assert(s0[k].0@ == n);
                            }
                        }
                        if contains_name(s0, n) {
                            let k = choose|k: int| 0 <= k < s0.len() && s0[k].0@ == n;
                            if k != i {
                                assert(s1[k].0@ == n);
                            } else {
                                assert(s1[i as int].0@ == name@ && n == name@);
                            }
                            assert(contains_name(s1, n));
                        }
                        if n == name@ {
                            assert(s1[i as int].0@ == n);
                            assert(contains_name(s1, n));
                        }
                    }
                    assert forall|n: Seq<char>| code_map(s1).dom().contains(n) implies code_map(
                        s1,
                    )[n] == code_map(s0).insert(name@, code)[n] by {
                        let k = choose|k: int| 0 <= k < s1.len() && s1[k].0@ == n;
                        assert(code_map(s1)[s1[k].0@] == s1[k].1);
                        if k != i {
                            assert(s0[k] == s1[k]);
                            assert(code_map(s0)[s0[k].0@] == s0[k].1);
                            assert(n != name@);
                        }
                    }
                    assert(code_map(s1) =~= code_map(s0).insert(name@, code));
                }
                return ;
            }
            i += 1;
        }
        self.pairs.push((name, code));
        proof {
            let s1 = self.pairs@;
            assert(s1.drop_last() =~= s0);
            assert(s1.last() == (name, code));
            assert forall|p: int, q: int| 0 <= p < q < s1.len() implies s1[p].0@ != s1[q].0@ by {
                if q == s1.len() - 1 {
                    assert(s1[p] == s0[p]);
                } else {
                    assert(s1[p] == s0[p] && s1[q] == s0[q]);
                }
            }
        }
    }

    /// The code declared for `name`, if any.
    pub fn lookup(&self, name: &String) -> (r: Option<u16>)
        requires
            self.wf(),
        ensures
            r == (if self@.dom().contains(name@) {
                Some(self@[name@])
            } else {
                Option::<u16>::None
            }),
    {
        proof {
            lemma_code_map_distinct(self.pairs@);
        }
        let mut i: usize = 0;
        while i < self.pairs.len()
            invariant
                0 <= i <= self.pairs.len(),
                self.wf(),
                forall|k: int| 0 <= k < i ==> (#[trigger] self.pairs@[k]).0@ != name@,
            decreases self.pairs.len() - i,
        {
            if self.pairs[i].0 == *name {
                proof {
                    lemma_code_map_distinct(self.pairs@);
                    assert(contains_name(self.pairs@, name@));
                    assert(code_map(self.pairs@)[self.pairs@[i as int].0@]
                        == self.pairs@[i as int].1);
                }
                return Some(self.pairs[i].1);
            }
            i += 1;
        }
        proof {
            lemma_code_map_distinct(self.pairs@);
            if self@.dom().contains(name@) {
                let k = choose|k: int| 0 <= k < self.pairs@.len() && self.pairs@[k].0@ == name@;
                assert(false);
            }
        }
        None
    }
}

/// The views of a rule list: each rule's pattern text with its state.
pub open spec fn rule_views(s: Seq<(String, KeyState)>) -> Seq<(Seq<char>, KeyState)> {
    s.map_values(|r: (String, KeyState)| (r.0@, r.1))
}

/// No two rules share a pattern text.
pub open spec fn distinct_rules(s: Seq<(String, KeyState)>) -> bool {
    forall|i: int, j: int| 0 <= i < j < s.len() ==> s[i].0@ != s[j].0@
}

/// The ordered list of value-identifier rules built from the user's
/// declarations: each rule is a pattern text (matched as a regular
/// expression against tokens) with the key state its identifier names.
#[derive(Debug)]
pub struct ValueTable {
    pub rules: Vec<(String, KeyState)>,
}

impl ValueTable {
    pub open spec fn wf(self) -> bool {
        distinct_rules(self.rules@)
    }

    /// The table with no rules, under which every token resolves to itself.
    pub fn new() -> (r: Self)
        ensures
            r.wf(),
            r.rules@.len() == 0,
    {
        ValueTable { rules: Vec::new() }
    }

    /// Declares one rule: an existing rule with the same pattern text is
    /// overwritten in place, a new one is appended, and all other rules
    /// keep their position.
    pub fn set(&mut self, rule: String, state: KeyState)
        requires
            old(self).wf(),
        ensures
            final(self).wf(),
            (if contains_rule(old(self).rules@, rule@) {
                exists|j: int|
                    0 <= j < old(self).rules@.len() && old(self).rules@[j].0@ == rule@
                        && final(self).rules@ == old(self).rules@.update(j, (rule, state))
            } else {
                final(self).rules@ == old(self).rules@.push((rule, state))
            }),
    {
        let ghost s0 = self.rules@;
        let mut i: usize = 0;
        while i < self.rules.len()
            invariant
                0 <= i <= self.rules.len(),
                self.rules@ == s0,
                s0 == old(self).rules@,
                distinct_rules(s0),
                forall|k: int| 0 <= k < i ==> (#[trigger] s0[k]).0@ != rule@,
            decreases self.rules.len() - i,
        {
            if self.rules[i].0 == rule {
                self.rules.set(i, (rule, state));
                proof {
                    let s1 = self.rules@;
                    assert(s0[i as int].0@ == rule@);
                    assert(contains_rule(s0, rule@));
                    assert forall|p: int, q: int| 0 <= p < q < s1.len() implies s1[p].0@
                        != s1[q].0@ by {
                        if p != i && q != i {
                            assert(s1[p] == s0[p] && s1[q] == s0[q]);
                        } else if p == i {
                            assert(s1[q] == s0[q]);
                        } else {
                            assert(s1[p] == s0[p]);
                        }
                    }
                }
                return ;
            }
            i += 1;
        }
        self.rules.push((rule, state));
        proof {
            let s1 = self.rules@;
            if contains_rule(s0, rule@) {
                let k = choose|k: int| 0 <= k < s0.len() && s0[k].0@ == rule@;
                assert(false);
            }
            assert forall|p: int, q: int| 0 <= p < q < s1.len() implies s1[p].0@ != s1[q].0@ by {
                if q == s1.len() - 1 {
                    assert(s1[p] == s0[p]);
                } else {
                    assert(s1[p] == s0[p] && s1[q] == s0[q]);
                }
            }
        }
    }

    /// How many rules are declared.
    pub fn len(&self) -> (r: usize)
        ensures
            r == self.rules@.len(),
    {
        self.rules.len()
    }
}

/// Some rule's pattern text is `p`.
pub open spec fn contains_rule(s: Seq<(String, KeyState)>, p: Seq<char>) -> bool {
    exists|i: int| 0 <= i < s.len() && s[i].0@ == p
}

} // verus!
