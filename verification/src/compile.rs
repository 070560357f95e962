//! Resolution layer of the pattern compiler: each token of a parsed pattern
//! is resolved through the user's value-identifier rules (regular
//! expressions) and the name-to-code table, and the results are assembled
//! into a canonical combo.
//!
//! Rule matching policy: a rule whose pattern text does not compile as a
//! regular expression matches nothing. When no rule matches a token, the
//! token resolves to itself. When exactly one rule matches, that rule names
//! the token's state and — if the rule captured a group — the captured text
//! replaces the token (the rule is read as "identifier plus payload").
//! When more than one rule matches, the token is ambiguous and compilation
//! fails; no tie is silently resolved.

use vstd::prelude::*;

use crate::keystate::KeyCombo;
use crate::keystate::KeyEvent;
use crate::keystate::KeyState;
use crate::pattern::parse_pattern;
use crate::pattern::spec_parse_pattern;
use crate::pattern::token_views;
use crate::pattern::ParseError;
use crate::pattern::SpecParseError;
use crate::pattern::SpecToken;
use crate::pattern::Token;
use crate::tables::rule_views;
use crate::tables::CodeTable;
use crate::tables::ValueTable;

verus! {

/// Whether `rule` compiles as a regular expression. Names the result of
/// `regex::Regex::new`, which depends on the rule text alone.
pub uninterp spec fn regex_valid(rule: Seq<char>) -> bool;

/// Whether the regular expression `rule` matches somewhere in `text`.
/// Names the result of `regex::Regex::is_match`, which depends on the two
/// texts alone.
pub uninterp spec fn regex_match(rule: Seq<char>, text: Seq<char>) -> bool;

/// The text of capture group 1 of the leftmost match of `rule` in `text`,
/// if the rule matches and its group 1 participates. Names the result of
/// `regex::Regex::captures` followed by `regex::Captures::get(1)`, which
/// depends on the two texts alone.
pub uninterp spec fn regex_capture1(rule: Seq<char>, text: Seq<char>) -> Option<Seq<char>>;

/// Relies on `regex::Regex::new` (fails exactly on an invalid pattern) and
/// `regex::Regex::is_match` (true iff the compiled rule matches anywhere in
/// the text); both results depend on the argument texts alone.
#[verifier::external_body]
fn regex_is_match(rule: &str, text: &str) -> (r: Option<bool>)
    ensures
        r is Some <==> regex_valid(rule@),
        regex_valid(rule@) ==> r == Some(regex_match(rule@, text@)),
{
    match regex::Regex::new(rule) {
        Ok(re) => Some(re.is_match(text)),
        Err(_) => None,
    }
}

/// Relies on `regex::Regex::new`, `regex::Regex::captures` (returns a match
/// exactly when `is_match` is true) and `regex::Captures::get` (group 1's
/// text when the group participated in the match); all results depend on
/// the argument texts alone.
#[verifier::external_body]
fn regex_first_capture(rule: &str, text: &str) -> (r: Option<String>)
    ensures
        !regex_valid(rule@) ==> r is None,
        regex_valid(rule@) ==> (match r {
            Some(s) => regex_capture1(rule@, text@) == Some(s@) && regex_match(rule@, text@),
            None => regex_capture1(rule@, text@) is None,
        }),
{
    let re = match regex::Regex::new(rule) {
        Ok(re) => re,
        Err(_) => return None,
    };
    match re.captures(text) {
        Some(caps) => match caps.get(1) {
            Some(m) => Some(m.as_str().to_string()),
            None => None,
        },
        None => None,
    }
}

/// How many rules compile and match `tok`.
pub open spec fn match_count(rules: Seq<(Seq<char>, KeyState)>, tok: Seq<char>) -> nat
    decreases rules.len(),
{
    if rules.len() == 0 {
        0
    } else {
        match_count(rules.drop_last(), tok) + (if regex_valid(rules.last().0) && regex_match(
            rules.last().0,
            tok,
        ) {
            1nat
        } else {
            0nat
        })
    }
}

/// The first rule (in declaration order) that compiles and matches `tok`.
pub open spec fn first_match(rules: Seq<(Seq<char>, KeyState)>, tok: Seq<char>) -> Option<
    (Seq<char>, KeyState),
>
    decreases rules.len(),
{
    if rules.len() == 0 {
        None
    } else {
        match first_match(rules.drop_last(), tok) {
            Some(r) => Some(r),
            None => {
                if regex_valid(rules.last().0) && regex_match(rules.last().0, tok) {
                    Some(rules.last())
                } else {
                    None
                }
            },
        }
    }
}

/// One token name resolved against the rules: with no matching rule the
/// token stays as it is and names no state; with exactly one, that rule
/// names the state and a captured group replaces the token; with more than
/// one the token is ambiguous.
pub open spec fn spec_resolve(rules: Seq<(Seq<char>, KeyState)>, tok: Seq<char>) -> Result<
    (Seq<char>, Option<KeyState>),
    SpecParseError,
> {
    let n = match_count(rules, tok);
    if n == 0 {
        Ok((tok, Option::<KeyState>::None))
    } else if n == 1 {
        let r = first_match(rules, tok)->Some_0;
        let name = match regex_capture1(r.0, tok) {
            Some(c) => c,
            None => tok,
        };
        Ok((name, Some(r.1)))
    } else {
        Err(SpecParseError::AmbiguousMatch(tok))
    }
}

/// Resolves one token name through the value-identifier rules.
fn resolve_token(values: &ValueTable, tok: &String) -> (r: Result<
    (String, Option<KeyState>),
    ParseError,
>)
    requires
        values.wf(),
    ensures
        match r {
            Ok((name, st)) => spec_resolve(rule_views(values.rules@), tok@) == Ok::<
                _,
                SpecParseError,
            >((name@, st)),
            Err(e) => spec_resolve(rule_views(values.rules@), tok@) == Err::<
                (Seq<char>, Option<KeyState>),
                _,
            >(e@),
        },
{
    let ghost rv = rule_views(values.rules@);
    let mut cnt: usize = 0;
    let mut hit: usize = 0;
    let mut found = false;
    let mut i: usize = 0;
    proof {
        assert(rv.take(0) =~= Seq::<(Seq<char>, KeyState)>::empty());
    }
    while i < values.rules.len()
        invariant
            0 <= i <= values.rules.len(),
            rv == rule_views(values.rules@),
            rv.len() == values.rules@.len(),
            cnt <= i,
            cnt == match_count(rv.take(i as int), tok@),
            first_match(rv.take(i as int), tok@) == (if found {
                Some(rv[hit as int])
            } else {
                Option::<(Seq<char>, KeyState)>::None
            }),
            found <==> cnt > 0,
            found ==> 0 <= hit < i && regex_valid(rv[hit as int].0) && regex_match(
                rv[hit as int].0,
                tok@,
            ),
        decreases values.rules.len() - i,
    {
        let m = regex_is_match(values.rules[i].0.as_str(), tok.as_str());
        proof {
            assert(rv[i as int] == (values.rules@[i as int].0@, values.rules@[i as int].1));
            assert(rv.take(i + 1 as int).drop_last() =~= rv.take(i as int));
            assert(rv.take(i + 1 as int).last() == rv[i as int]);
        }
        if let Some(true) = m {
            if !found {
                hit = i;
                found = true;
            }
            cnt += 1;
        }
        i += 1;
    }
    proof {
        assert(rv.take(rv.len() as int) =~= rv);
    }
    if cnt == 0 {
        Ok((tok.clone(), None))
    } else if cnt == 1 {
        let rule = &values.rules[hit];
        let cap = regex_first_capture(rule.0.as_str(), tok.as_str());
        let name = match cap {
            Some(c) => c,
            None => tok.clone(),
        };
        Ok((name, Some(rule.1)))
    } else {
        Err(ParseError::AmbiguousMatch(tok.clone()))
    }
}

/// One token compiled against the tables: its name is resolved through the
/// rules, then looked up in the code table. A modifier token is always
/// `Held`; a primary token carries the state a matching rule named, or
/// otherwise the pattern's qualifier.
pub open spec fn spec_compile_token(
    t: SpecToken,
    codes: Map<Seq<char>, u16>,
    rules: Seq<(Seq<char>, KeyState)>,
) -> Result<(u16, KeyState), SpecParseError> {
    let raw = match t {
        SpecToken::Modifier(n) => n,
        SpecToken::Primary(_, n) => n,
    };
    match spec_resolve(rules, raw) {
        Err(e) => Err(e),
        Ok((name, st)) => {
            if codes.dom().contains(name) {
                let state = match t {
                    SpecToken::Modifier(_) => KeyState::Held,
                    SpecToken::Primary(q, _) => match st {
                        Some(s) => s,
                        None => q,
                    },
                };
                Ok((codes[name], state))
            } else {
                Err(SpecParseError::UnknownKey(name))
            }
        },
    }
}

/// All tokens compiled left to right into a code-to-state map, stopping at
/// the first error; a later token overrides an earlier one for the same
/// code.
pub open spec fn spec_compile_tokens(
    ts: Seq<SpecToken>,
    codes: Map<Seq<char>, u16>,
    rules: Seq<(Seq<char>, KeyState)>,
) -> Result<Map<u16, KeyState>, SpecParseError>
    decreases ts.len(),
{
    if ts.len() == 0 {
        Ok(Map::empty())
    } else {
        match spec_compile_tokens(ts.drop_last(), codes, rules) {
            Err(e) => Err(e),
            Ok(m) => match spec_compile_token(ts.last(), codes, rules) {
                Err(e) => Err(e),
                Ok((c, st)) => Ok(m.insert(c, st)),
            },
        }
    }
}

/// An error among the first `k` tokens decides the whole compilation.
proof fn lemma_compile_error_persists(
    ts: Seq<SpecToken>,
    codes: Map<Seq<char>, u16>,
    rules: Seq<(Seq<char>, KeyState)>,
    k: int,
)
    requires
        0 <= k <= ts.len(),
        spec_compile_tokens(ts.take(k), codes, rules) is Err,
    ensures
        spec_compile_tokens(ts, codes, rules) == spec_compile_tokens(ts.take(k), codes, rules),
    decreases ts.len() - k,
{
    if k == ts.len() {
        assert(ts.take(k) =~= ts);
    } else {
        assert(ts.take(k + 1).drop_last() =~= ts.take(k));
        lemma_compile_error_persists(ts, codes, rules, k + 1);
    }
}

/// One matching rule makes the match count at least one.
proof fn lemma_match_count_at_least_one(
    rules: Seq<(Seq<char>, KeyState)>,
    tok: Seq<char>,
    i: int,
)
    requires
        0 <= i < rules.len(),
        regex_valid(rules[i].0),
        regex_match(rules[i].0, tok),
    ensures
        match_count(rules, tok) >= 1,
    decreases rules.len(),
{
    if i == rules.len() - 1 {
    } else {
        assert(rules.drop_last()[i] == rules[i]);
        lemma_match_count_at_least_one(rules.drop_last(), tok, i);
    }
}

/// Two matching rules make the match count at least two.
proof fn lemma_match_count_at_least_two(
    rules: Seq<(Seq<char>, KeyState)>,
    tok: Seq<char>,
    i: int,
    j: int,
)
    requires
        0 <= i < j < rules.len(),
        regex_valid(rules[i].0),
        regex_match(rules[i].0, tok),
        regex_valid(rules[j].0),
        regex_match(rules[j].0, tok),
    ensures
        match_count(rules, tok) >= 2,
    decreases rules.len(),
{
    if j == rules.len() - 1 {
        assert(rules.drop_last()[i] == rules[i]);
        lemma_match_count_at_least_one(rules.drop_last(), tok, i);
    } else {
        assert(rules.drop_last()[i] == rules[i]);
        assert(rules.drop_last()[j] == rules[j]);
        lemma_match_count_at_least_two(rules.drop_last(), tok, i, j);
    }
}

/// Ambiguity rejection: when two distinct rules both match one token, that
/// token's resolution fails as `AmbiguousMatch` — no tie is silently
/// resolved — and with it the whole compilation, so `Binding::map`
/// registers nothing.
pub proof fn lemma_ambiguous_match_rejection(
    rules: Seq<(Seq<char>, KeyState)>,
    tok: Seq<char>,
    i: int,
    j: int,
)
    requires
        0 <= i < j < rules.len(),
        regex_valid(rules[i].0),
        regex_match(rules[i].0, tok),
        regex_valid(rules[j].0),
        regex_match(rules[j].0, tok),
    ensures
        spec_resolve(rules, tok) == Err::<(Seq<char>, Option<KeyState>), _>(
            SpecParseError::AmbiguousMatch(tok),
        ),
{
    lemma_match_count_at_least_two(rules, tok, i, j);
}

/// Unknown-key rejection: a token whose resolved name is declared in no
/// code-table entry compiles to `UnknownKey` carrying exactly that name,
/// and with it the whole compilation fails, so `Binding::map` registers
/// nothing.
pub proof fn lemma_unknown_key_rejection(
    t: SpecToken,
    codes: Map<Seq<char>, u16>,
    rules: Seq<(Seq<char>, KeyState)>,
)
    requires
        ({
            let raw = match t {
                SpecToken::Modifier(n) => n,
                SpecToken::Primary(_, n) => n,
            };
            &&& spec_resolve(rules, raw) is Ok
            &&& !codes.dom().contains(spec_resolve(rules, raw)->Ok_0.0)
        }),
    ensures
        ({
            let raw = match t {
                SpecToken::Modifier(n) => n,
                SpecToken::Primary(_, n) => n,
            };
            spec_compile_token(t, codes, rules) == Err::<(u16, KeyState), _>(
                SpecParseError::UnknownKey(spec_resolve(rules, raw)->Ok_0.0),
            )
        }),
{
}

/// What `parse_keycombo` computes: the pattern parsed into tokens, each
/// token resolved and compiled, the results assembled into one combo map.
pub open spec fn spec_parse_keycombo(
    s: Seq<char>,
    codes: Map<Seq<char>, u16>,
    rules: Seq<(Seq<char>, KeyState)>,
) -> Result<Map<u16, KeyState>, SpecParseError> {
    match spec_parse_pattern(s) {
        Err(e) => Err(e),
        Ok(ts) => spec_compile_tokens(ts, codes, rules),
    }
}

/// Compiles a pattern string against the session's tables into a canonical
/// combo, or reports the first error: `EmptyPattern`, `InvalidTimeout`,
/// `AmbiguousMatch` or `UnknownKey`, exactly as `spec_parse_keycombo` says.
pub fn parse_keycombo(pattern: &String, codes: &CodeTable, values: &ValueTable) -> (r: Result<
    KeyCombo,
    ParseError,
>)
    requires
        codes.wf(),
        values.wf(),
    ensures
        match r {
            Ok(c) => c.wf() && spec_parse_keycombo(pattern@, codes@, rule_views(values.rules@))
                == Ok::<_, SpecParseError>(c@),
            Err(e) => spec_parse_keycombo(pattern@, codes@, rule_views(values.rules@)) == Err::<
                Map<u16, KeyState>,
                _,
            >(e@),
        },
{
    let tokens = match parse_pattern(pattern.as_str()) {
        Ok(ts) => ts,
        Err(e) => {
            return Err(e);
        },
    };
    let ghost tv = token_views(tokens@);
    let ghost rv = rule_views(values.rules@);
    let mut combo = KeyCombo::empty();
    let mut i: usize = 0;
    proof {
        assert(tv.take(0) =~= Seq::<SpecToken>::empty());
        assert(spec_compile_tokens(tv.take(0), codes@, rv) == Ok::<_, SpecParseError>(
            Map::<u16, KeyState>::empty(),
        ));
    }
    while i < tokens.len()
        invariant
            0 <= i <= tokens.len(),
            tv == token_views(tokens@),
            tv.len() == tokens@.len(),
            rv == rule_views(values.rules@),
            codes.wf(),
            values.wf(),
            combo.wf(),
            spec_compile_tokens(tv.take(i as int), codes@, rv) == Ok::<_, SpecParseError>(
                combo@,
            ),
            spec_parse_keycombo(pattern@, codes@, rv) == spec_compile_tokens(tv, codes@, rv),
        decreases tokens.len() - i,
    {
        proof {
            assert(tv[i as int] == tokens@[i as int]@);
            assert(tv.take(i + 1 as int).drop_last() =~= tv.take(i as int));
            assert(tv.take(i + 1 as int).last() == tv[i as int]);
        }
        let (raw, is_modifier, qualifier): (&String, bool, KeyState) = match &tokens[i] {
            Token::Modifier(n) => (n, true, KeyState::Held),
            Token::Primary(q, n) => (n, false, *q),
        };
        let resolved = match resolve_token(values, raw) {
            Ok(nv) => nv,
            Err(e) => {
                proof {
                    lemma_compile_error_persists(tv, codes@, rv, i + 1);
                }
                return Err(e);
            },
        };
        let (name, rule_state) = resolved;
        let code = match codes.lookup(&name) {
            Some(c) => c,
            None => {
                proof {
                    lemma_compile_error_persists(tv, codes@, rv, i + 1);
                }
                return Err(ParseError::UnknownKey(name));
            },
        };
        let state = if is_modifier {
            KeyState::Held
        } else {
            match rule_state {
                Some(s) => s,
                None => qualifier,
            }
        };
        combo.insert_event(KeyEvent::new(code, state));
        i += 1;
    }
    proof {
        assert(tv.take(tv.len() as int) =~= tv);
    }
    Ok(combo)
}

} // verus!
