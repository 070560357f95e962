//! Lexical layer of the pattern compiler: splitting a hotkey pattern string
//! into segments and extracting the state qualifier.
//!
//! The grammar: a pattern is segments joined by `+`; each segment is further
//! cut after every `-`, so that segments ending in `-` name modifiers and
//! bare segments name primary keys. A leading `^`, `_` or `(N)` on the whole
//! pattern sets the state qualifier the primary keys carry (`Up`, `Held`,
//! `Timeout(N)` milliseconds); without a prefix the qualifier is `Down`.

use vstd::prelude::*;

use crate::keystate::KeyState;

verus! {

/// Spec-level mirror of `ParseError`, over character sequences.
pub enum SpecParseError {
    EmptyPattern,
    UnknownKey(Seq<char>),
    AmbiguousMatch(Seq<char>),
    InvalidTimeout,
}

/// Why a pattern was rejected. Compilation reports the first error it meets
/// and registers nothing.
#[derive(Debug, PartialEq, Eq)]
pub enum ParseError {
    /// The pattern, or its key-name part after the state prefix, is empty.
    EmptyPattern,
    /// A token resolved to no entry of the code table.
    UnknownKey(String),
    /// More than one value-identifier rule matched one token.
    AmbiguousMatch(String),
    /// A `(N)` prefix whose `)` is missing or whose `N` is not a
    /// non-negative integer the machine can hold.
    InvalidTimeout,
}

impl View for ParseError {
    type V = SpecParseError;

    open spec fn view(&self) -> SpecParseError {
        match self {
            ParseError::EmptyPattern => SpecParseError::EmptyPattern,
            ParseError::UnknownKey(s) => SpecParseError::UnknownKey(s@),
            ParseError::AmbiguousMatch(s) => SpecParseError::AmbiguousMatch(s@),
            ParseError::InvalidTimeout => SpecParseError::InvalidTimeout,
        }
    }
}

impl ParseError {
    /// A short description of the error, for callers that report it.
    pub fn message(&self) -> (r: &'static str)
        ensures
            r@ == match self {
                ParseError::EmptyPattern => "empty pattern"@,
                ParseError::UnknownKey(_) => "unknown key"@,
                ParseError::AmbiguousMatch(_) => "ambiguous value-identifier match"@,
                ParseError::InvalidTimeout => "invalid timeout"@,
            },
    {
        match self {
            ParseError::EmptyPattern => "empty pattern",
            ParseError::UnknownKey(_) => "unknown key",
            ParseError::AmbiguousMatch(_) => "ambiguous value-identifier match",
            ParseError::InvalidTimeout => "invalid timeout",
        }
    }
}

/// Spec-level mirror of `Token`.
pub enum SpecToken {
    Modifier(Seq<char>),
    Primary(KeyState, Seq<char>),
}

/// One lexical unit of a pattern: a segment that ended in `-` names a key
/// held as a modifier; a bare segment names a primary key and carries the
/// pattern's state qualifier.
#[derive(Debug, PartialEq, Eq)]
pub enum Token {
    Modifier(String),
    Primary(KeyState, String),
}

impl View for Token {
    type V = SpecToken;

    open spec fn view(&self) -> SpecToken {
        match self {
            Token::Modifier(s) => SpecToken::Modifier(s@),
            Token::Primary(q, s) => SpecToken::Primary(*q, s@),
        }
    }
}

/// The views of a vector of strings.
pub open spec fn str_views(s: Seq<String>) -> Seq<Seq<char>> {
    s.map_values(|t: String| t@)
}

/// The views of a vector of tokens.
pub open spec fn token_views(s: Seq<Token>) -> Seq<SpecToken> {
    s.map_values(|t: Token| t@)
}

/// Index of the first occurrence of `ch` in `s`, or -1 when absent.
pub open spec fn find_first(s: Seq<char>, ch: char) -> int
    decreases s.len(),
{
    if s.len() == 0 {
        -1
    } else if s[0] == ch {
        0
    } else {
        let r = find_first(s.drop_first(), ch);
        if r < 0 {
            -1
        } else {
            r + 1
        }
    }
}

pub proof fn lemma_find_first(s: Seq<char>, ch: char)
    ensures
        ({
            let r = find_first(s, ch);
            &&& -1 <= r < s.len()
            &&& r >= 0 ==> s[r] == ch && (forall|k: int| 0 <= k < r ==> s[k] != ch)
            &&& r == -1 ==> forall|k: int| 0 <= k < s.len() ==> s[k] != ch
        }),
    decreases s.len(),
{
    if s.len() == 0 {
    } else if s[0] == ch {
    } else {
        let d = s.drop_first();
        lemma_find_first(d, ch);
        let rd = find_first(d, ch);
        if rd >= 0 {
            assert(d[rd] == s[rd + 1]);
            assert forall|k: int| 0 <= k < rd + 1 implies s[k] != ch by {
                if k >= 1 {
                    assert(d[k - 1] == s[k]);
                    assert(d[k - 1] != ch);
                }
            }
        } else {
            assert forall|k: int| 0 <= k < s.len() implies s[k] != ch by {
                if k >= 1 {
                    assert(d[k - 1] == s[k]);
                    assert(d[k - 1] != ch);
                }
            }
        }
    }
}

/// `s` cut after every `-`: every piece but possibly the last ends in `-`,
/// and an empty input yields no pieces.
pub open spec fn spec_split_inclusive_dash(s: Seq<char>) -> Seq<Seq<char>>
    decreases s.len(),
{
    let r = find_first(s, '-');
    if s.len() == 0 {
        Seq::empty()
    } else if 0 <= r < s.len() {
        seq![s.take(r + 1)] + spec_split_inclusive_dash(s.skip(r + 1))
    } else {
        seq![s]
    }
}

/// `s` cut at every `+`, the separators dropped and empty pieces kept.
pub open spec fn spec_split_plus(s: Seq<char>) -> Seq<Seq<char>>
    decreases s.len(),
{
    let r = find_first(s, '+');
    if 0 <= r < s.len() {
        seq![s.take(r)] + spec_split_plus(s.skip(r + 1))
    } else {
        seq![s]
    }
}

/// Each `+`-chunk cut after its `-`s, in order.
pub open spec fn spec_split_chunks(chunks: Seq<Seq<char>>) -> Seq<Seq<char>>
    decreases chunks.len(),
{
    if chunks.len() == 0 {
        Seq::empty()
    } else {
        spec_split_chunks(chunks.drop_last()) + spec_split_inclusive_dash(chunks.last())
    }
}

/// What `split_pattern` returns: the pattern split on `+`, each chunk then
/// cut after every `-`.
pub open spec fn spec_split_pattern(s: Seq<char>) -> Seq<Seq<char>> {
    spec_split_chunks(spec_split_plus(s))
}

/// Position of the first `ch` in `s`, if there is one.
fn find_char(s: &str, ch: char) -> (r: Option<usize>)
    ensures
        match r {
            Some(i) => i == find_first(s@, ch) && i < s@.len() && s@[i as int] == ch,
            None => find_first(s@, ch) == -1,
        },
{
    proof {
        lemma_find_first(s@, ch);
    }
    let n = s.unicode_len();
    let mut i: usize = 0;
    while i < n
        invariant
            0 <= i <= n,
            n == s@.len(),
            forall|k: int| 0 <= k < i ==> s@[k] != ch,
        decreases n - i,
    {
        if s.get_char(i) == ch {
            proof {
                lemma_find_first(s@, ch);
                let r = find_first(s@, ch);
                if r < i {
                    assert(s@[r] != ch);
                }
            }
            return Some(i);
        }
        i += 1;
    }
    None
}

/// A chunk cut after every `-`, as owned strings.
fn split_inclusive_dash(s: &str) -> (r: Vec<String>)
    ensures
        str_views(r@) == spec_split_inclusive_dash(s@),
    decreases s@.len(),
{
    let n = s.unicode_len();
    if n == 0 {
        let r: Vec<String> = Vec::new();
        proof {
            assert(str_views(r@) =~= spec_split_inclusive_dash(s@));
        }
        return r;
    }
    match find_char(s, '-') {
        Some(i) => {
            let head = s.substring_char(0, i + 1).to_owned();
            let tail = s.substring_char(i + 1, n);
            let mut rest = split_inclusive_dash(tail);
            let mut out: Vec<String> = Vec::new();
            out.push(head);
            out.append(&mut rest);
            proof {
                assert(head@ == s@.take(i + 1));
                assert(tail@ == s@.skip(i + 1));
                assert(str_views(out@) =~= spec_split_inclusive_dash(s@));
            }
            out
        },
        None => {
            let mut out: Vec<String> = Vec::new();
            out.push(s.to_owned());
            proof {
                assert(str_views(out@) =~= spec_split_inclusive_dash(s@));
            }
            out
        },
    }
}

/// The pattern cut at every `+`, as owned strings.
fn split_plus(s: &str) -> (r: Vec<String>)
    ensures
        str_views(r@) == spec_split_plus(s@),
    decreases s@.len(),
{
    let n = s.unicode_len();
    match find_char(s, '+') {
        Some(i) => {
            let head = s.substring_char(0, i).to_owned();
            let tail = s.substring_char(i + 1, n);
            let mut rest = split_plus(tail);
            let mut out: Vec<String> = Vec::new();
            out.push(head);
            out.append(&mut rest);
            proof {
                assert(head@ == s@.take(i as int));
                assert(tail@ == s@.skip(i + 1));
                assert(str_views(out@) =~= spec_split_plus(s@));
            }
            out
        },
        None => {
            let mut out: Vec<String> = Vec::new();
            out.push(s.to_owned());
            proof {
                assert(str_views(out@) =~= spec_split_plus(s@));
            }
            out
        },
    }
}

/// Splits a pattern into its raw segments: cut at every `+`, then after
/// every `-`, so `"ctrl-shift-a+b"` becomes `"ctrl-"`, `"shift-"`, `"a"`,
/// `"b"`.
pub fn split_pattern(pattern: &str) -> (r: Vec<String>)
    ensures
        str_views(r@) == spec_split_pattern(pattern@),
{
    let chunks = split_plus(pattern);
    let mut out: Vec<String> = Vec::new();
    let mut i: usize = 0;
    proof {
        assert(str_views(chunks@).take(0) =~= Seq::<Seq<char>>::empty());
        assert(str_views(out@) =~= spec_split_chunks(
            str_views(chunks@).take(0),
        ));
    }
    while i < chunks.len()
        invariant
            0 <= i <= chunks.len(),
            str_views(chunks@) == spec_split_plus(pattern@),
            str_views(out@) == spec_split_chunks(
                str_views(chunks@).take(i as int),
            ),
        decreases chunks.len() - i,
    {
        let mut piece = split_inclusive_dash(chunks[i].as_str());
        let ghost out0 = out@;
        let ghost piece0 = piece@;
        out.append(&mut piece);
        proof {
            let cv = str_views(chunks@);
            assert(cv.take(i + 1 as int).drop_last() =~= cv.take(i as int));
            assert(cv.take(i + 1 as int).last() == cv[i as int]);
            assert(str_views(out@) =~= str_views(out0)
                + str_views(piece0));
        }
        i += 1;
    }
    proof {
        let cv = str_views(chunks@);
        assert(cv.take(cv.len() as int) =~= cv);
    }
    out
}

/// `c` is a decimal digit.
pub open spec fn is_digit(c: char) -> bool {
    48 <= c as u32 <= 57
}

/// Every character of `s` is a decimal digit.
pub open spec fn all_digits(s: Seq<char>) -> bool {
    forall|i: int| 0 <= i < s.len() ==> is_digit(#[trigger] s[i])
}

/// The decimal value of `s` read as a number, most significant digit first.
pub open spec fn dec_val(s: Seq<char>) -> int
    decreases s.len(),
{
    if s.len() == 0 {
        0
    } else {
        dec_val(s.drop_last()) * 10 + (s.last() as u32 - 48)
    }
}

pub proof fn lemma_dec_val_nonneg(s: Seq<char>)
    requires
        all_digits(s),
    ensures
        dec_val(s) >= 0,
    decreases s.len(),
{
    if s.len() > 0 {
        lemma_dec_val_nonneg(s.drop_last());
        assert(is_digit(s[s.len() - 1]));
    }
}

/// Appending digits never shrinks the value: every prefix reads at most the
/// whole.
pub proof fn lemma_dec_val_prefix_le(s: Seq<char>, m: int)
    requires
        all_digits(s),
        0 <= m <= s.len(),
    ensures
        dec_val(s.take(m)) <= dec_val(s),
    decreases s.len(),
{
    if m == s.len() {
        assert(s.take(m) =~= s);
    } else {
        let d = s.drop_last();
        assert(forall|i: int| 0 <= i < d.len() ==> d[i] == s[i]);
        lemma_dec_val_prefix_le(d, m);
        assert(s.take(m) =~= d.take(m));
        lemma_dec_val_nonneg(d);
        assert(is_digit(s[s.len() - 1]));
        assert(dec_val(s) == dec_val(d) * 10 + (s.last() as u32 - 48));
        assert(dec_val(d) * 10 >= dec_val(d));
    }
}

/// Reads `s[from..to]` as a decimal number, or reports `InvalidTimeout`
/// when the range is empty, holds a non-digit, or overflows the machine
/// word.
fn parse_decimal_range(s: &str, from: usize, to: usize) -> (r: Result<u64, ParseError>)
    requires
        from <= to <= s@.len(),
    ensures
        match r {
            Ok(v) => {
                let digits = s@.subrange(from as int, to as int);
                &&& digits.len() > 0
                &&& all_digits(digits)
                &&& dec_val(digits) == v
            },
            Err(e) => {
                let digits = s@.subrange(from as int, to as int);
                &&& e@ == SpecParseError::InvalidTimeout
                &&& (digits.len() == 0 || !all_digits(digits) || dec_val(digits) > u64::MAX)
            },
        },
{
    let ghost digits = s@.subrange(from as int, to as int);
    if from == to {
        proof {
            assert(digits.len() == 0);
        }
        return Err(ParseError::InvalidTimeout);
    }
    let mut val: u64 = 0;
    let mut i: usize = from;
    while i < to
        invariant
            from <= i <= to <= s@.len(),
            digits == s@.subrange(from as int, to as int),
            all_digits(digits.take(i - from)),
            val == dec_val(digits.take(i - from)),
        decreases to - i,
    {
        let c = s.get_char(i);
        let d = c as u32;
        proof {
            assert(digits[i - from] == s@[i as int]);
        }
        if !(48 <= d && d <= 57) {
            proof {
                assert(!is_digit(digits[i - from]));
                assert(!all_digits(digits));
            }
            return Err(ParseError::InvalidTimeout);
        }
        let dd: u64 = (d - 48) as u64;
        if val > (u64::MAX - dd) / 10 {
            proof {
                let t1 = digits.take(i - from + 1);
                assert(t1.drop_last() =~= digits.take(i - from));
                assert(t1.last() == digits[i - from]);
                assert(dec_val(t1) == val * 10 + dd);
                assert((u64::MAX - dd) / 10 * 10 + (u64::MAX - dd) % 10 == u64::MAX - dd);
                assert(val * 10 + dd > u64::MAX);
                if all_digits(digits) {
                    lemma_dec_val_prefix_le(digits, i - from + 1);
                    assert(dec_val(digits) > u64::MAX);
                }
            }
            return Err(ParseError::InvalidTimeout);
        }
        proof {
            assert((u64::MAX - dd) / 10 * 10 + (u64::MAX - dd) % 10 == u64::MAX - dd);
            assert(val * 10 + dd <= u64::MAX);
            let t1 = digits.take(i - from + 1);
            assert(t1.drop_last() =~= digits.take(i - from));
            assert(t1.last() == digits[i - from]);
        }
        val = val * 10 + dd;
        i += 1;
    }
    proof {
        assert(digits.take(to - from) =~= digits);
    }
    Ok(val)
}

/// The state qualifier announced at the head of a pattern, with the number
/// of characters it occupies: `^` reads `Up`, `_` reads `Held`, `(N)` reads
/// a timeout of `N` milliseconds, anything else reads `Down` and occupies
/// nothing.
pub open spec fn spec_state_prefix(s: Seq<char>) -> Result<(KeyState, int), SpecParseError> {
    if s.len() == 0 {
        Ok((KeyState::Down, 0))
    } else if s[0] == '^' {
        Ok((KeyState::Up, 1))
    } else if s[0] == '_' {
        Ok((KeyState::Held, 1))
    } else if s[0] == '(' {
        let j = find_first(s, ')');
        if j < 0 {
            Err(SpecParseError::InvalidTimeout)
        } else {
            let digits = s.subrange(1, j);
            if digits.len() == 0 || !all_digits(digits) || dec_val(digits) > u64::MAX {
                Err(SpecParseError::InvalidTimeout)
            } else {
                Ok((KeyState::Timeout(dec_val(digits) as u64), j + 1))
            }
        }
    } else {
        Ok((KeyState::Down, 0))
    }
}

/// Each raw segment classified: a segment ending in `-` is a modifier named
/// by what precedes the `-`; any other segment is a primary key carrying
/// the qualifier `q`.
pub open spec fn spec_classify(segs: Seq<Seq<char>>, q: KeyState) -> Seq<SpecToken> {
    segs.map_values(
        |seg: Seq<char>|
            if seg.len() > 0 && seg.last() == '-' {
                SpecToken::Modifier(seg.drop_last())
            } else {
                SpecToken::Primary(q, seg)
            },
    )
}

/// What `parse_pattern` returns: the empty pattern is rejected; otherwise
/// the state qualifier is read off the head, and what remains — which must
/// be non-empty — is split into segments and classified.
pub open spec fn spec_parse_pattern(s: Seq<char>) -> Result<Seq<SpecToken>, SpecParseError> {
    if s.len() == 0 {
        Err(SpecParseError::EmptyPattern)
    } else {
        match spec_state_prefix(s) {
            Err(e) => Err(e),
            Ok((q, k)) => {
                let rest = s.skip(k);
                if rest.len() == 0 {
                    Err(SpecParseError::EmptyPattern)
                } else {
                    Ok(spec_classify(spec_split_pattern(rest), q))
                }
            },
        }
    }
}

/// Parses a pattern into its tokens: rejects the empty pattern, reads the
/// state qualifier off the head (`InvalidTimeout` when a `(N)` prefix is
/// malformed), splits the remainder into segments and classifies each as a
/// modifier or a primary key.
pub fn parse_pattern(pattern: &str) -> (r: Result<Vec<Token>, ParseError>)
    ensures
        match r {
            Ok(v) => spec_parse_pattern(pattern@) == Ok::<Seq<SpecToken>, SpecParseError>(
                token_views(v@),
            ),
            Err(e) => spec_parse_pattern(pattern@) == Err::<Seq<SpecToken>, SpecParseError>(e@),
        },
{
    let n = pattern.unicode_len();
    if n == 0 {
        return Err(ParseError::EmptyPattern);
    }
    let c0 = pattern.get_char(0);
    let qualifier: KeyState;
    let consumed: usize;
    if c0 == '^' {
        qualifier = KeyState::Up;
        consumed = 1;
    } else if c0 == '_' {
        qualifier = KeyState::Held;
        consumed = 1;
    } else if c0 == '(' {
        match find_char(pattern, ')') {
            None => {
                return Err(ParseError::InvalidTimeout);
            },
            Some(j) => {
                proof {
                    assert(pattern@[0] != ')');
                }
                match parse_decimal_range(pattern, 1, j) {
                    Err(e) => {
                        return Err(e);
                    },
                    Ok(ms) => {
                        qualifier = KeyState::Timeout(ms);
                        consumed = j + 1;
                    },
                }
            },
        }
    } else {
        qualifier = KeyState::Down;
        consumed = 0;
    }
    if consumed == n {
        return Err(ParseError::EmptyPattern);
    }
    let rest = pattern.substring_char(consumed, n);
    proof {
        assert(rest@ == pattern@.skip(consumed as int));
    }
    let segs = split_pattern(rest);
    let mut tokens: Vec<Token> = Vec::new();
    let ghost sv = str_views(segs@);
    let mut i: usize = 0;
    proof {
        assert(sv.take(0) =~= Seq::<Seq<char>>::empty());
        assert(token_views(tokens@) =~= spec_classify(sv.take(0), qualifier));
    }
    while i < segs.len()
        invariant
            0 <= i <= segs.len(),
            sv == str_views(segs@),
            token_views(tokens@) == spec_classify(sv.take(i as int), qualifier),
        decreases segs.len() - i,
    {
        let seg = &segs[i];
        let m = seg.as_str().unicode_len();
        let ghost tokens0 = tokens@;
        proof {
            assert(seg@ == sv[i as int]);
        }
        let tok: Token;
        if m > 0 && seg.as_str().get_char(m - 1) == '-' {
            let name = seg.as_str().substring_char(0, m - 1).to_owned();
            proof {
                assert(name@ == sv[i as int].subrange(0, m - 1));
                assert(name@ =~= sv[i as int].drop_last());
            }
            tok = Token::Modifier(name);
        } else {
            tok = Token::Primary(qualifier, seg.clone());
        }
        let ghost gtok = tok;
        tokens.push(tok);
        proof {
            assert(sv.len() == segs@.len());
            lemma_classify_push(tokens0, gtok, sv, i as int, qualifier);
            assert(tokens@ == tokens0.push(gtok));
        }
        i += 1;
    }
    proof {
        assert(sv.take(sv.len() as int) =~= sv);
    }
    Ok(tokens)
}

/// Classifying one more segment appends one more token.
proof fn lemma_classify_push(tokens0: Seq<Token>, gtok: Token, sv: Seq<Seq<char>>, i: int, q: KeyState)
    requires
        0 <= i < sv.len(),
        token_views(tokens0) == spec_classify(sv.take(i), q),
        gtok@ == (if sv[i].len() > 0 && sv[i].last() == '-' {
            SpecToken::Modifier(sv[i].drop_last())
        } else {
            SpecToken::Primary(q, sv[i])
        }),
    ensures
        token_views(tokens0.push(gtok)) == spec_classify(sv.take(i + 1), q),
{
    let tokens1 = tokens0.push(gtok);
    let target = spec_classify(sv.take(i + 1), q);
    assert(spec_classify(sv.take(i), q).len() == sv.take(i).len());
    assert(token_views(tokens0).len() == tokens0.len());
    assert(tokens0.len() == i);
    assert(token_views(tokens1).len() == i + 1);
    assert(target.len() == i + 1);
    assert forall|k: int| 0 <= k < i + 1 implies token_views(tokens1)[k] == target[k] by {
        assert(sv.take(i + 1)[k] == sv[k]);
        assert(token_views(tokens1)[k] == tokens1[k]@);
        assert(target[k] == (if sv[k].len() > 0 && sv[k].last() == '-' {
            SpecToken::Modifier(sv[k].drop_last())
        } else {
            SpecToken::Primary(q, sv[k])
        }));
        if k < i {
            assert(tokens1[k] == tokens0[k]);
            assert(token_views(tokens0)[k] == tokens0[k]@);
            assert(token_views(tokens0)[k] == spec_classify(sv.take(i), q)[k]);
            assert(sv.take(i)[k] == sv[k]);
            assert(spec_classify(sv.take(i), q)[k] == (if sv.take(i)[k].len() > 0
                && sv.take(i)[k].last() == '-' {
                SpecToken::Modifier(sv.take(i)[k].drop_last())
            } else {
                SpecToken::Primary(q, sv.take(i)[k])
            }));
        } else {
            assert(tokens1[k] == gtok);
        }
    }
    assert(token_views(tokens1) =~= target);
}

} // verus!
