//! The compiled hotkey-pattern model: a bitmask over the eight canonical
//! modifier positions (left/right × ctrl/shift/alt/meta), the primary key
//! codes, and the state qualifier the primaries carry.
//!
//! This is the restricted, indexable face of a hotkey; the set-of-events
//! combo is the authoritative model. A hotkey compiles deterministically
//! into a combo: its modifiers become `Held` events, its primaries carry
//! the qualifier. Unlike the full compiler in `compile`, this model does
//! not consult value-identifier rules, and a `-`-segment must name one of
//! the eight canonical modifiers.

use vstd::prelude::*;

use crate::keystate::KeyCombo;
use crate::keystate::KeyEvent;
use crate::keystate::KeyState;
use crate::pattern::parse_pattern;
use crate::pattern::spec_parse_pattern;
use crate::pattern::token_views;
use crate::pattern::ParseError;
use crate::pattern::SpecParseError;
use crate::pattern::SpecToken;
use crate::pattern::Token;
use crate::tables::CodeTable;

verus! {

/// Bit of the left control modifier.
pub const LCTRL: u8 = 0x80;

/// Bit of the left shift modifier.
pub const LSHIFT: u8 = 0x40;

/// Bit of the left alt modifier.
pub const LALT: u8 = 0x20;

/// Bit of the left meta modifier.
pub const LMETA: u8 = 0x10;

/// Bit of the right control modifier.
pub const RCTRL: u8 = 0x08;

/// Bit of the right shift modifier.
pub const RSHIFT: u8 = 0x04;

/// Bit of the right alt modifier.
pub const RALT: u8 = 0x02;

/// Bit of the right meta modifier.
pub const RMETA: u8 = 0x01;

/// Key code of the left control key.
pub const LCTRL_CODE: u16 = 29;

/// Key code of the left shift key.
pub const LSHIFT_CODE: u16 = 42;

/// Key code of the left alt key.
pub const LALT_CODE: u16 = 56;

/// Key code of the left meta key.
pub const LMETA_CODE: u16 = 125;

/// Key code of the right control key.
pub const RCTRL_CODE: u16 = 97;

/// Key code of the right shift key.
pub const RSHIFT_CODE: u16 = 54;

/// Key code of the right alt key.
pub const RALT_CODE: u16 = 100;

/// Key code of the right meta key.
pub const RMETA_CODE: u16 = 126;

/// A set of canonical modifiers, one bit per position.
#[derive(Clone, Copy, Debug, PartialEq, Eq, Structural)]
pub struct ModMask {
    pub bits: u8,
}

impl ModMask {
    /// No modifiers.
    pub fn empty() -> (r: Self)
        ensures
            r.bits == 0,
    {
        ModMask { bits: 0 }
    }

    /// Whether every bit of `bit` is set in the mask.
    pub fn contains(&self, bit: u8) -> (r: bool)
        ensures
            r == (self.bits & bit == bit),
    {
        self.bits & bit == bit
    }
}

/// The modifier bit of a key code, if the code is one of the eight
/// canonical modifiers.
pub open spec fn spec_keycode_to_modbits(code: u16) -> Option<u8> {
    if code == LCTRL_CODE {
        Some(LCTRL)
    } else if code == RCTRL_CODE {
        Some(RCTRL)
    } else if code == LSHIFT_CODE {
        Some(LSHIFT)
    } else if code == RSHIFT_CODE {
        Some(RSHIFT)
    } else if code == LALT_CODE {
        Some(LALT)
    } else if code == RALT_CODE {
        Some(RALT)
    } else if code == LMETA_CODE {
        Some(LMETA)
    } else if code == RMETA_CODE {
        Some(RMETA)
    } else {
        None
    }
}

/// Maps one of the eight canonical modifier key codes to its mask bit; any
/// other code is no modifier.
pub fn keycode_to_modbits(code: u16) -> (r: Option<u8>)
    ensures
        r == spec_keycode_to_modbits(code),
{
    if code == LCTRL_CODE {
        Some(LCTRL)
    } else if code == RCTRL_CODE {
        Some(RCTRL)
    } else if code == LSHIFT_CODE {
        Some(LSHIFT)
    } else if code == RSHIFT_CODE {
        Some(RSHIFT)
    } else if code == LALT_CODE {
        Some(LALT)
    } else if code == RALT_CODE {
        Some(RALT)
    } else if code == LMETA_CODE {
        Some(LMETA)
    } else if code == RMETA_CODE {
        Some(RMETA)
    } else {
        None
    }
}

/// The eight canonical modifiers: each mask bit with its key code, left
/// before right, ctrl-shift-alt-meta order.
pub open spec fn spec_mod_table() -> Seq<(u8, u16)> {
    seq![
        (LCTRL, LCTRL_CODE),
        (LSHIFT, LSHIFT_CODE),
        (LALT, LALT_CODE),
        (LMETA, LMETA_CODE),
        (RCTRL, RCTRL_CODE),
        (RSHIFT, RSHIFT_CODE),
        (RALT, RALT_CODE),
        (RMETA, RMETA_CODE),
    ]
}

/// The key codes of the modifiers of `table` whose bit is set in `bits`,
/// in table order.
pub open spec fn spec_mod_codes_of(bits: u8, table: Seq<(u8, u16)>) -> Seq<u16>
    decreases table.len(),
{
    if table.len() == 0 {
        Seq::<u16>::empty()
    } else {
        spec_mod_codes_of(bits, table.drop_last()) + (if bits & table.last().0 != 0 {
            seq![table.last().1]
        } else {
            Seq::<u16>::empty()
        })
    }
}

/// The key codes of the modifiers set in `bits`, left before right,
/// ctrl-shift-alt-meta order.
pub open spec fn spec_mod_codes(bits: u8) -> Seq<u16> {
    spec_mod_codes_of(bits, spec_mod_table())
}

/// Enumerates the key codes of the modifiers in a mask.
pub fn mod_codes(mask: &ModMask) -> (r: Vec<u16>)
    ensures
        r@ == spec_mod_codes(mask.bits),
{
    let mut table: Vec<(u8, u16)> = Vec::new();
    table.push((LCTRL, LCTRL_CODE));
    table.push((LSHIFT, LSHIFT_CODE));
    table.push((LALT, LALT_CODE));
    table.push((LMETA, LMETA_CODE));
    table.push((RCTRL, RCTRL_CODE));
    table.push((RSHIFT, RSHIFT_CODE));
    table.push((RALT, RALT_CODE));
    table.push((RMETA, RMETA_CODE));
    proof {
        assert(table@ =~= spec_mod_table());
    }
    let mut out: Vec<u16> = Vec::new();
    let mut i: usize = 0;
    proof {
        assert(table@.take(0) =~= Seq::<(u8, u16)>::empty());
    }
    while i < table.len()
        invariant
            0 <= i <= table.len(),
            table@ == spec_mod_table(),
            out@ == spec_mod_codes_of(mask.bits, table@.take(i as int)),
        decreases table.len() - i,
    {
        proof {
            assert(table@.take(i + 1 as int).drop_last() =~= table@.take(i as int));
            assert(table@.take(i + 1 as int).last() == table@[i as int]);
        }
        if mask.bits & table[i].0 != 0 {
            out.push(table[i].1);
            proof {
                assert(out@ =~= spec_mod_codes_of(mask.bits, table@.take(i as int)) + seq![
                    table@[i as int].1,
                ]);
            }
        } else {
            proof {
                assert(out@ =~= spec_mod_codes_of(mask.bits, table@.take(i as int))
                    + Seq::<u16>::empty());
            }
        }
        i += 1;
    }
    proof {
        assert(table@.take(table@.len() as int) =~= table@);
    }
    out
}

/// A compiled hotkey pattern: the qualifier its primary keys carry, those
/// primary key codes in pattern order, and the modifier mask.
#[derive(Debug, PartialEq, Eq)]
pub struct Hotkey {
    pub state: KeyState,
    pub key_codes: Vec<u16>,
    pub mods: ModMask,
}

/// The modifier mask and primary codes accumulated over the tokens, left
/// to right, stopping at the first unresolvable name. A modifier segment
/// must name a declared key that is one of the eight canonical modifiers.
pub open spec fn spec_hotkey_fold(ts: Seq<SpecToken>, codes: Map<Seq<char>, u16>) -> Result<
    (Seq<u16>, u8),
    SpecParseError,
>
    decreases ts.len(),
{
    if ts.len() == 0 {
        Ok((Seq::<u16>::empty(), 0u8))
    } else {
        match spec_hotkey_fold(ts.drop_last(), codes) {
            Err(e) => Err(e),
            Ok((ks, bits)) => match ts.last() {
                SpecToken::Modifier(n) => {
                    if codes.dom().contains(n) {
                        match spec_keycode_to_modbits(codes[n]) {
                            Some(b) => Ok((ks, bits | b)),
                            None => Err(SpecParseError::UnknownKey(n)),
                        }
                    } else {
                        Err(SpecParseError::UnknownKey(n))
                    }
                },
                SpecToken::Primary(_, n) => {
                    if codes.dom().contains(n) {
                        Ok((ks.push(codes[n]), bits))
                    } else {
                        Err(SpecParseError::UnknownKey(n))
                    }
                },
            },
        }
    }
}

/// The qualifier of the first primary token, if any primary exists.
pub open spec fn spec_first_primary_state(ts: Seq<SpecToken>) -> Option<KeyState>
    decreases ts.len(),
{
    if ts.len() == 0 {
        None
    } else {
        match ts[0] {
            SpecToken::Primary(q, _) => Some(q),
            SpecToken::Modifier(_) => spec_first_primary_state(ts.drop_first()),
        }
    }
}

/// What `parse_hotkey` computes: the pattern's tokens folded into a mask
/// and primary codes; a pattern without a primary key is empty.
pub open spec fn spec_parse_hotkey(s: Seq<char>, codes: Map<Seq<char>, u16>) -> Result<
    (KeyState, Seq<u16>, u8),
    SpecParseError,
> {
    match spec_parse_pattern(s) {
        Err(e) => Err(e),
        Ok(ts) => match spec_hotkey_fold(ts, codes) {
            Err(e) => Err(e),
            Ok((ks, bits)) => match spec_first_primary_state(ts) {
                None => Err(SpecParseError::EmptyPattern),
                Some(q) => Ok((q, ks, bits)),
            },
        },
    }
}

/// An error among the first `k` tokens decides the whole fold.
proof fn lemma_hotkey_fold_error_persists(
    ts: Seq<SpecToken>,
    codes: Map<Seq<char>, u16>,
    k: int,
)
    requires
        0 <= k <= ts.len(),
        spec_hotkey_fold(ts.take(k), codes) is Err,
    ensures
        spec_hotkey_fold(ts, codes) == spec_hotkey_fold(ts.take(k), codes),
    decreases ts.len() - k,
{
    if k == ts.len() {
        assert(ts.take(k) =~= ts);
    } else {
        assert(ts.take(k + 1).drop_last() =~= ts.take(k));
        lemma_hotkey_fold_error_persists(ts, codes, k + 1);
    }
}

/// Compiles a pattern into the mask-and-primaries model: modifier segments
/// must name declared canonical modifiers, primary segments must name
/// declared keys, and at least one primary is required. Value-identifier
/// rules play no part here; `parse_keycombo` is the full compiler.
pub fn parse_hotkey(pattern: &String, codes: &CodeTable) -> (r: Result<Hotkey, ParseError>)
    requires
        codes.wf(),
    ensures
        match r {
            Ok(h) => spec_parse_hotkey(pattern@, codes@) == Ok::<_, SpecParseError>(
                (h.state, h.key_codes@, h.mods.bits),
            ),
            Err(e) => spec_parse_hotkey(pattern@, codes@) == Err::<
                (KeyState, Seq<u16>, u8),
                _,
            >(e@),
        },
{
    let tokens = match parse_pattern(pattern.as_str()) {
        Ok(ts) => ts,
        Err(e) => {
            return Err(e);
        },
    };
    let ghost tv = token_views(tokens@);
    let mut key_codes: Vec<u16> = Vec::new();
    let mut bits: u8 = 0;
    let mut state: KeyState = KeyState::Down;
    let mut have_primary = false;
    let mut i: usize = 0;
    proof {
        assert(tv.take(0) =~= Seq::<SpecToken>::empty());
    }
    while i < tokens.len()
        invariant
            0 <= i <= tokens.len(),
            tv == token_views(tokens@),
            tv.len() == tokens@.len(),
            codes.wf(),
            spec_hotkey_fold(tv.take(i as int), codes@) == Ok::<_, SpecParseError>(
                (key_codes@, bits),
            ),
            have_primary <==> spec_first_primary_state(tv.take(i as int)) is Some,
            have_primary ==> spec_first_primary_state(tv.take(i as int)) == Some(state),
            spec_parse_hotkey(pattern@, codes@) == (match spec_hotkey_fold(tv, codes@) {
                Err(e) => Err(e),
                Ok((ks, b)) => match spec_first_primary_state(tv) {
                    None => Err(SpecParseError::EmptyPattern),
                    Some(q) => Ok((q, ks, b)),
                },
            }),
        decreases tokens.len() - i,
    {
        proof {
            assert(tv[i as int] == tokens@[i as int]@);
            assert(tv.take(i + 1 as int).drop_last() =~= tv.take(i as int));
            assert(tv.take(i + 1 as int).last() == tv[i as int]);
        }
        match &tokens[i] {
            Token::Modifier(n) => {
                let code = match codes.lookup(n) {
                    Some(c) => c,
                    None => {
                        proof {
                            lemma_hotkey_fold_error_persists(tv, codes@, i + 1);
                        }
                        return Err(ParseError::UnknownKey(n.clone()));
                    },
                };
                let b = match keycode_to_modbits(code) {
                    Some(b) => b,
                    None => {
                        proof {
                            lemma_hotkey_fold_error_persists(tv, codes@, i + 1);
                        }
                        return Err(ParseError::UnknownKey(n.clone()));
                    },
                };
                bits = bits | b;
            },
            Token::Primary(q, n) => {
                let code = match codes.lookup(n) {
                    Some(c) => c,
                    None => {
                        proof {
                            lemma_hotkey_fold_error_persists(tv, codes@, i + 1);
                        }
                        return Err(ParseError::UnknownKey(n.clone()));
                    },
                };
                key_codes.push(code);
                if !have_primary {
                    state = *q;
                    have_primary = true;
                }
            },
        }
        proof {
            lemma_first_primary_take_step(tv, i as int);
        }
        i += 1;
    }
    proof {
        assert(tv.take(tv.len() as int) =~= tv);
    }
    if !have_primary {
        return Err(ParseError::EmptyPattern);
    }
    Ok(Hotkey { state, key_codes, mods: ModMask { bits } })
}

/// Taking one more token either keeps the first primary state or, when
/// none was found yet and the token is primary, establishes it.
proof fn lemma_first_primary_take_step(ts: Seq<SpecToken>, i: int)
    requires
        0 <= i < ts.len(),
    ensures
        spec_first_primary_state(ts.take(i + 1)) == (match spec_first_primary_state(ts.take(i)) {
            Some(q) => Some(q),
            None => match ts[i] {
                SpecToken::Primary(q, _) => Some(q),
                SpecToken::Modifier(_) => None::<KeyState>,
            },
        }),
    decreases i,
{
    let a = ts.take(i);
    let b = ts.take(i + 1);
    if i == 0 {
        assert(b.len() == 1);
        assert(b[0] == ts[0]);
        if ts[0] is Modifier {
            assert(b.drop_first() =~= Seq::<SpecToken>::empty());
        }
    } else {
        assert(a[0] == ts[0]);
        assert(b[0] == ts[0]);
        match ts[0] {
            SpecToken::Primary(_, _) => {},
            SpecToken::Modifier(_) => {
                let ts1 = ts.drop_first();
                assert(a.drop_first() =~= ts1.take(i - 1));
                assert(b.drop_first() =~= ts1.take(i));
                assert(ts1[i - 1] == ts[i]);
                lemma_first_primary_take_step(ts1, i - 1);
            },
        }
    }
}

/// The combo map a hotkey denotes: every modifier code `Held`, then every
/// primary code with the hotkey's qualifier; a primary that is also a
/// modifier carries the qualifier.
pub open spec fn insert_codes(
    m: Map<u16, KeyState>,
    codes: Seq<u16>,
    st: KeyState,
) -> Map<u16, KeyState>
    decreases codes.len(),
{
    if codes.len() == 0 {
        m
    } else {
        insert_codes(m, codes.drop_last(), st).insert(codes.last(), st)
    }
}

/// The canonical combo a hotkey compiles into.
pub open spec fn spec_hotkey_combo(h: Hotkey) -> Map<u16, KeyState> {
    insert_codes(
        insert_codes(Map::empty(), spec_mod_codes(h.mods.bits), KeyState::Held),
        h.key_codes@,
        h.state,
    )
}

/// Compiles a hotkey into its canonical combo: modifiers become `Held`
/// events, primaries carry the qualifier.
pub fn hotkey_to_combo(h: &Hotkey) -> (r: KeyCombo)
    ensures
        r.wf(),
        r@ == spec_hotkey_combo(*h),
{
    let mut combo = KeyCombo::empty();
    let mods = mod_codes(&h.mods);
    let mut i: usize = 0;
    proof {
        assert(mods@.take(0) =~= Seq::<u16>::empty());
    }
    while i < mods.len()
        invariant
            0 <= i <= mods.len(),
            mods@ == spec_mod_codes(h.mods.bits),
            combo.wf(),
            combo@ == insert_codes(Map::empty(), mods@.take(i as int), KeyState::Held),
        decreases mods.len() - i,
    {
        proof {
            assert(mods@.take(i + 1 as int).drop_last() =~= mods@.take(i as int));
            assert(mods@.take(i + 1 as int).last() == mods@[i as int]);
        }
        combo.insert_event(KeyEvent { code: mods[i], state: KeyState::Held });
        i += 1;
    }
    proof {
        assert(mods@.take(mods@.len() as int) =~= mods@);
    }
    let mut j: usize = 0;
    proof {
        assert(h.key_codes@.take(0) =~= Seq::<u16>::empty());
    }
    while j < h.key_codes.len()
        invariant
            0 <= j <= h.key_codes.len(),
            combo.wf(),
            combo@ == insert_codes(
                insert_codes(Map::empty(), spec_mod_codes(h.mods.bits), KeyState::Held),
                h.key_codes@.take(j as int),
                h.state,
            ),
        decreases h.key_codes.len() - j,
    {
        proof {
            assert(h.key_codes@.take(j + 1 as int).drop_last() =~= h.key_codes@.take(j as int));
            assert(h.key_codes@.take(j + 1 as int).last() == h.key_codes@[j as int]);
        }
        combo.insert_event(KeyEvent { code: h.key_codes[j], state: h.state });
        j += 1;
    }
    proof {
        assert(h.key_codes@.take(h.key_codes@.len() as int) =~= h.key_codes@);
    }
    combo
}

} // verus!
