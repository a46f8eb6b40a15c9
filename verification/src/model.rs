//! The mathematical model of the parser, over sequences of characters.
//!
//! The model has the same three layers as the executable code: a tokenizer
//! ([`token_end`], and the whitespace-skipping built into [`run_from`]), a
//! token classifier ([`classify`]), and an assembler ([`token_step`]).
//! [`parse_spec`] ties them together; `Log::parse` is proved to return exactly
//! its value.

use vstd::prelude::*;

use crate::chars::alphanumeric;
use crate::chars::is_ws;

verus! {

/// A classified token: either a plain word (the verbatim token text) or a
/// validated attribute, holding the trimmed key and value.
pub enum TokenModel {
    Word(Seq<char>),
    Attribute(Seq<char>, Seq<char>),
}

/// The assembler state carried across tokens: the message built so far, the
/// attribute list, and whether a message override has been applied.
#[verifier::ext_equal]
pub struct AsmState {
    pub message: Seq<char>,
    pub found: bool,
    pub attributes: Seq<(Seq<char>, Seq<char>)>,
}

/// The parse result: the final message and the attribute list.
#[verifier::ext_equal]
pub struct LogModel {
    pub message: Seq<char>,
    pub attributes: Seq<(Seq<char>, Seq<char>)>,
}

/// How many attribute entries a record may hold.
pub const ATTRIBUTE_CAP: usize = 25;

// ---------------------------------------------------------------------------
// Tokenizer
// ---------------------------------------------------------------------------

/// Where the token being scanned ends.
///
/// Scanning starts at position `i` with the in-quote flag `q`; every `"` seen
/// toggles the flag, and the token ends at the first whitespace character
/// found while the flag is off. `None` means the input was exhausted with the
/// flag still on: an unclosed quoted span. `Some(e)` with `e == s.len()` means
/// the token runs to the end of the input; otherwise `s[e]` is the terminating
/// whitespace character (not part of the token).
pub open spec fn token_end(s: Seq<char>, i: int, q: bool) -> Option<int>
    decreases s.len() - i,
{
    if !(0 <= i < s.len()) {
        if q {
            None
        } else {
            Some(s.len() as int)
        }
    } else {
        let q2 = if s[i] == '"' {
            !q
        } else {
            q
        };
        if is_ws(s[i]) && !q2 {
            Some(i)
        } else {
            token_end(s, i + 1, q2)
        }
    }
}

// ---------------------------------------------------------------------------
// Classifier
// ---------------------------------------------------------------------------

/// The position of the first `=` in `t` at or after `i`, or `t.len()` if none.
pub open spec fn first_eq_from(t: Seq<char>, i: int) -> int
    decreases t.len() - i,
{
    if !(0 <= i < t.len()) {
        t.len() as int
    } else if t[i] == '=' {
        i
    } else {
        first_eq_from(t, i + 1)
    }
}

/// The position of the first `=` in `t`, or `t.len()` if none.
pub open spec fn first_eq(t: Seq<char>) -> int {
    first_eq_from(t, 0)
}

/// The position of the first non-whitespace character at or after `i`.
pub open spec fn ltrim_idx(t: Seq<char>, i: int) -> int
    decreases t.len() - i,
{
    if 0 <= i < t.len() && is_ws(t[i]) {
        ltrim_idx(t, i + 1)
    } else {
        i
    }
}

/// The position just after the last non-whitespace character before `j`.
pub open spec fn rtrim_idx(t: Seq<char>, j: int) -> int
    decreases j,
{
    if 0 < j <= t.len() && is_ws(t[j - 1]) {
        rtrim_idx(t, j - 1)
    } else {
        j
    }
}

/// `t` with surrounding whitespace removed, as `str::trim` does.
pub open spec fn trim_seq(t: Seq<char>) -> Seq<char> {
    let a = ltrim_idx(t, 0);
    let b = rtrim_idx(t, t.len() as int);
    if a <= b {
        t.subrange(a, b)
    } else {
        Seq::empty()
    }
}

/// Whether the side starts with a quote character.
pub open spec fn starts_quote(t: Seq<char>) -> bool {
    t.len() > 0 && t[0] == '"'
}

/// Whether the side ends with a quote character.
pub open spec fn ends_quote(t: Seq<char>) -> bool {
    t.len() > 0 && t[t.len() - 1] == '"'
}

/// No quote character strictly inside the side (first and last position
/// excepted).
pub open spec fn no_interior_quote(t: Seq<char>) -> bool {
    forall|i: int| 1 <= i < t.len() - 1 ==> t[i] != '"'
}

/// The characters a key may consist of: alphanumeric or `.`, `_`, `-`, `"`.
pub open spec fn key_char_ok(c: char) -> bool {
    alphanumeric(c) || c == '.' || c == '_' || c == '-' || c == '"'
}

/// A syntactically valid attribute key (already trimmed): at most 50
/// characters, or 52 when wrapped in quotes; quoting balanced at the ends and
/// absent from the interior; every character from the key alphabet.
pub open spec fn valid_key(k: Seq<char>) -> bool {
    &&& !(k.len() > 50 && !starts_quote(k))
    &&& k.len() <= 52
    &&& no_interior_quote(k)
    &&& (starts_quote(k) <==> ends_quote(k))
    &&& forall|i: int| 0 <= i < k.len() ==> key_char_ok(#[trigger] k[i])
}

/// A syntactically valid attribute value (already trimmed): at most 100
/// characters, or 102 when wrapped in quotes; quoting balanced at the ends and
/// absent from the interior.
pub open spec fn valid_value(v: Seq<char>) -> bool {
    &&& !(v.len() > 100 && !starts_quote(v))
    &&& v.len() <= 102
    &&& no_interior_quote(v)
    &&& (starts_quote(v) <==> ends_quote(v))
}

/// Classifies one token: split at the first `=`, trim both sides, and accept
/// the pair if both sides are valid; any violation demotes the whole token to
/// a plain word, verbatim.
pub open spec fn classify(t: Seq<char>) -> TokenModel {
    let j = first_eq(t);
    if j == t.len() {
        TokenModel::Word(t)
    } else {
        let k = trim_seq(t.subrange(0, j));
        let v = trim_seq(t.subrange(j + 1, t.len() as int));
        if valid_key(k) && valid_value(v) {
            TokenModel::Attribute(k, v)
        } else {
            TokenModel::Word(t)
        }
    }
}

// ---------------------------------------------------------------------------
// Assembler
// ---------------------------------------------------------------------------

/// The four literal key forms that replace the message instead of being
/// stored as an attribute.
pub open spec fn is_override_key(k: Seq<char>) -> bool {
    k == "msg"@ || k == "message"@ || k == "\"msg\""@ || k == "\"message\""@
}

/// The first index in `attrs` at or after `i` whose key equals `k`, or
/// `attrs.len()` if none.
pub open spec fn key_index_from(attrs: Seq<(Seq<char>, Seq<char>)>, k: Seq<char>, i: int) -> int
    decreases attrs.len() - i,
{
    if !(0 <= i < attrs.len()) {
        attrs.len() as int
    } else if attrs[i].0 == k {
        i
    } else {
        key_index_from(attrs, k, i + 1)
    }
}

/// The first index in `attrs` whose key equals `k`, or `attrs.len()` if none.
pub open spec fn key_index(attrs: Seq<(Seq<char>, Seq<char>)>, k: Seq<char>) -> int {
    key_index_from(attrs, k, 0)
}

/// Handles a token as message text: appended to the message buffer behind a
/// single separating space, or discarded entirely once an override happened.
pub open spec fn word_step(st: AsmState, w: Seq<char>) -> AsmState {
    if st.found {
        st
    } else if st.message.len() == 0 {
        AsmState { message: w, ..st }
    } else {
        AsmState { message: st.message + seq![' '] + w, ..st }
    }
}

/// Consumes one token: words extend the message; attributes override the
/// message (for the reserved keys), update an existing key in place, or are
/// appended; once the list is at capacity, an attribute-shaped token is
/// handled as a word, using its full verbatim text.
pub open spec fn token_step(st: AsmState, t: Seq<char>) -> AsmState {
    match classify(t) {
        TokenModel::Word(w) => word_step(st, w),
        TokenModel::Attribute(k, v) => {
            if st.attributes.len() < ATTRIBUTE_CAP {
                if is_override_key(k) {
                    AsmState { message: v, found: true, ..st }
                } else {
                    let j = key_index(st.attributes, k);
                    if j < st.attributes.len() {
                        AsmState { attributes: st.attributes.update(j, (k, v)), ..st }
                    } else {
                        AsmState { attributes: st.attributes.push((k, v)), ..st }
                    }
                }
            } else {
                word_step(st, t)
            }
        },
    }
}

/// The state the assembler starts from: empty message, no override, no
/// attributes.
pub open spec fn init_state() -> AsmState {
    AsmState { message: Seq::empty(), found: false, attributes: Seq::empty() }
}

/// Runs tokenizer and assembler from position `i`: whitespace is skipped one
/// character at a time; at a token start the token's extent comes from
/// [`token_end`] — the scan starts on the token's first character with the
/// in-quote flag off, so a leading `"` toggles it like any other — and the
/// token is fed to [`token_step`]. `None` propagates an unclosed quoted span.
///
/// The recursion resumes at the token's end position (its terminating
/// whitespace, if any, is then skipped like any other); the conditional around
/// `end` only keeps the recursion measure decreasing and equals `end` whenever
/// [`token_end`] returns (see `lemma_token_end_bounds`: the token holds at
/// least its first, non-whitespace character).
pub open spec fn run_from(s: Seq<char>, i: int, st: AsmState) -> Option<AsmState>
    decreases s.len() - i,
{
    if !(0 <= i < s.len()) {
        Some(st)
    } else if is_ws(s[i]) {
        run_from(s, i + 1, st)
    } else {
        match token_end(s, i, false) {
            None => None,
            Some(end) => {
                let next = if i + 1 <= end <= s.len() {
                    end
                } else {
                    i + 1
                };
                run_from(s, next, token_step(st, s.subrange(i, end)))
            },
        }
    }
}

/// The whole parse: run the assembler over all tokens; if the message buffer
/// was never written to — no override was applied and the buffer is empty,
/// which coincide with "no words, no override" because every appended word is
/// a non-empty token — the final message is the verbatim input, otherwise the
/// buffer. `None` reports an unclosed quoted span.
pub open spec fn parse_spec(s: Seq<char>) -> Option<LogModel> {
    match run_from(s, 0, init_state()) {
        None => None,
        Some(st) => Some(
            LogModel {
                message: if !st.found && st.message.len() == 0 {
                    s
                } else {
                    st.message
                },
                attributes: st.attributes,
            },
        ),
    }
}

/// The invariant of the attribute list: never beyond capacity, keys unique.
pub open spec fn attrs_ok(attrs: Seq<(Seq<char>, Seq<char>)>) -> bool {
    &&& attrs.len() <= ATTRIBUTE_CAP
    &&& forall|i: int, j: int| 0 <= i < j < attrs.len() ==> attrs[i].0 != attrs[j].0
}

// ---------------------------------------------------------------------------
// Basic facts about the model
// ---------------------------------------------------------------------------

/// Bounds of [`token_end`]: the end lies between the scan start and the end of
/// the input, and a terminating position inside the input holds whitespace.
pub proof fn lemma_token_end_bounds(s: Seq<char>, i: int, q: bool)
    requires
        0 <= i <= s.len(),
    ensures
        match token_end(s, i, q) {
            Some(e) => i <= e <= s.len() && (e < s.len() ==> is_ws(s[e])),
            None => true,
        },
    decreases s.len() - i,
{
    if 0 <= i < s.len() {
        let q2 = if s[i] == '"' {
            !q
        } else {
            q
        };
        if !(is_ws(s[i]) && !q2) {
            lemma_token_end_bounds(s, i + 1, q2);
        }
    }
}

/// The first occurrence returned by [`key_index_from`]: it is in range, it
/// matches, and nothing before it does.
pub proof fn lemma_key_index_from(attrs: Seq<(Seq<char>, Seq<char>)>, k: Seq<char>, i: int)
    requires
        0 <= i <= attrs.len(),
    ensures
        i <= key_index_from(attrs, k, i) <= attrs.len(),
        key_index_from(attrs, k, i) < attrs.len() ==> attrs[key_index_from(attrs, k, i)].0 == k,
        forall|m: int| i <= m < key_index_from(attrs, k, i) ==> attrs[m].0 != k,
    decreases attrs.len() - i,
{
    if 0 <= i < attrs.len() && attrs[i].0 != k {
        lemma_key_index_from(attrs, k, i + 1);
    }
}

} // verus!
