//! General laws of the parser, stated and proved against the model.
//!
//! Each public proof function here states a property of [`parse_spec`] (or of
//! the assembler step it is built from) that holds for every input, not just
//! for the scenarios the tests exercise.

use vstd::prelude::*;

use crate::chars::is_ws;
use crate::model::attrs_ok;
use crate::model::classify;
use crate::model::init_state;
use crate::model::is_override_key;
use crate::model::key_index;
use crate::model::lemma_key_index_from;
use crate::model::lemma_token_end_bounds;
use crate::model::parse_spec;
use crate::model::run_from;
use crate::model::token_end;
use crate::model::token_step;
use crate::model::word_step;
use crate::model::AsmState;
use crate::model::LogModel;
use crate::model::TokenModel;

verus! {

// ---------------------------------------------------------------------------
// Determinism
// ---------------------------------------------------------------------------

/// The parse is a total, deterministic function of its input: the model
/// assigns every input exactly one outcome, and `Log::parse` ensures its
/// result equals that outcome.
pub proof fn lemma_parse_deterministic(s: Seq<char>, r1: LogModel, r2: LogModel)
    requires
        parse_spec(s) == Some(r1),
        parse_spec(s) == Some(r2),
    ensures
        r1 == r2,
{
}

// ---------------------------------------------------------------------------
// Attribute-list invariants: capacity and key uniqueness
// ---------------------------------------------------------------------------

/// One assembler step preserves the attribute-list invariant: the list never
/// grows past capacity and its keys stay pairwise distinct.
pub proof fn lemma_step_preserves_attrs_ok(st: AsmState, t: Seq<char>)
    requires
        attrs_ok(st.attributes),
    ensures
        attrs_ok(token_step(st, t).attributes),
{
    match classify(t) {
        TokenModel::Word(_) => {},
        TokenModel::Attribute(k, v) => {
            if st.attributes.len() < 25 && !is_override_key(k) {
                lemma_key_index_from(st.attributes, k, 0);
                let j = key_index(st.attributes, k);
                if j < st.attributes.len() {
                    let a2 = st.attributes.update(j, (k, v));
                    assert forall|x: int, y: int| 0 <= x < y < a2.len() implies a2[x].0 != a2[y].0 by {
                        assert(st.attributes[x].0 != st.attributes[y].0);
                    }
                } else {
                    let a2 = st.attributes.push((k, v));
                    assert forall|x: int, y: int| 0 <= x < y < a2.len() implies a2[x].0 != a2[y].0 by {
                        if y < a2.len() - 1 {
                            assert(st.attributes[x].0 != st.attributes[y].0);
                        }
                    }
                }
            }
        },
    }
}

/// The assembler keeps the attribute-list invariant along the whole run.
proof fn lemma_run_attrs_ok(s: Seq<char>, i: int, st: AsmState)
    requires
        attrs_ok(st.attributes),
    ensures
        match run_from(s, i, st) {
            Some(st2) => attrs_ok(st2.attributes),
            None => true,
        },
    decreases s.len() - i,
{
    if !(0 <= i < s.len()) {
    } else if is_ws(s[i]) {
        lemma_run_attrs_ok(s, i + 1, st);
    } else {
        match token_end(s, i, false) {
            None => {},
            Some(end) => {
                let next = if i + 1 <= end <= s.len() {
                    end
                } else {
                    i + 1
                };
                lemma_step_preserves_attrs_ok(st, s.subrange(i, end));
                lemma_run_attrs_ok(s, next, token_step(st, s.subrange(i, end)));
            },
        }
    }
}

/// Every successful parse satisfies the data-model invariants: at most 25
/// attribute entries, and all keys pairwise distinct.
pub proof fn lemma_parse_invariants(s: Seq<char>)
    ensures
        match parse_spec(s) {
            Some(m) => attrs_ok(m.attributes),
            None => true,
        },
{
    lemma_run_attrs_ok(s, 0, init_state());
}

// ---------------------------------------------------------------------------
// Deduplication updates in place
// ---------------------------------------------------------------------------

/// An attribute token whose key is already present (below capacity, not a
/// message override) updates that entry's value in place: the list keeps its
/// length, every key keeps its position, every other entry is untouched, and
/// the message is untouched.
pub proof fn lemma_dedup_preserves_position(
    st: AsmState,
    t: Seq<char>,
    k: Seq<char>,
    v: Seq<char>,
    j: int,
)
    requires
        classify(t) == TokenModel::Attribute(k, v),
        st.attributes.len() < 25,
        !is_override_key(k),
        0 <= j < st.attributes.len(),
        st.attributes[j].0 == k,
        forall|m: int| 0 <= m < j ==> st.attributes[m].0 != k,
    ensures
        token_step(st, t).attributes.len() == st.attributes.len(),
        token_step(st, t).attributes[j] == (k, v),
        forall|m: int|
            0 <= m < st.attributes.len() && m != j ==> token_step(st, t).attributes[m]
                == st.attributes[m],
        forall|m: int|
            0 <= m < st.attributes.len() ==> token_step(st, t).attributes[m].0
                == st.attributes[m].0,
        token_step(st, t).message == st.message,
        token_step(st, t).found == st.found,
{
    lemma_key_index_from(st.attributes, k, 0);
    let r = key_index(st.attributes, k);
    if r < j {
        assert(st.attributes[r].0 != k);
    }
    if r > j {
        assert(st.attributes[j].0 != k);
    }
    assert(r == j);
}

/// One assembler step never moves or removes an existing entry: the list is
/// only updated in place or extended at the end.
proof fn lemma_step_keeps_positions(st: AsmState, t: Seq<char>)
    ensures
        token_step(st, t).attributes.len() >= st.attributes.len(),
        forall|j: int|
            0 <= j < st.attributes.len() ==> token_step(st, t).attributes[j].0 == (
            #[trigger] st.attributes[j]).0,
{
    match classify(t) {
        TokenModel::Word(_) => {},
        TokenModel::Attribute(k, v) => {
            if st.attributes.len() < 25 && !is_override_key(k) {
                lemma_key_index_from(st.attributes, k, 0);
            }
        },
    }
}

/// Across a whole run, attribute entries keep their positions: the list only
/// grows at its end, and the key at every already-occupied position never
/// changes — a repeated key can update its entry's value in place, but never
/// reorders the list.
pub proof fn lemma_run_preserves_positions(s: Seq<char>, i: int, st: AsmState)
    ensures
        match run_from(s, i, st) {
            Some(st2) => st2.attributes.len() >= st.attributes.len() && forall|j: int|
                0 <= j < st.attributes.len() ==> st2.attributes[j].0 == (
                #[trigger] st.attributes[j]).0,
            None => true,
        },
    decreases s.len() - i,
{
    if !(0 <= i < s.len()) {
    } else if is_ws(s[i]) {
        lemma_run_preserves_positions(s, i + 1, st);
    } else {
        match token_end(s, i, false) {
            None => {},
            Some(end) => {
                let next = if i + 1 <= end <= s.len() {
                    end
                } else {
                    i + 1
                };
                lemma_step_keeps_positions(st, s.subrange(i, end));
                lemma_run_preserves_positions(s, next, token_step(st, s.subrange(i, end)));
            },
        }
    }
}

// ---------------------------------------------------------------------------
// Capacity cap diverts attributes to the message
// ---------------------------------------------------------------------------

/// Once the list is at capacity, an attribute-shaped token is handled exactly
/// like a plain word carrying its full verbatim text: the attribute list is
/// untouched (even when the key is already present), and the token text goes
/// to the message unless an override happened.
pub proof fn lemma_cap_diverts_attribute(st: AsmState, t: Seq<char>, k: Seq<char>, v: Seq<char>)
    requires
        classify(t) == TokenModel::Attribute(k, v),
        st.attributes.len() >= 25,
    ensures
        token_step(st, t) == word_step(st, t),
        token_step(st, t).attributes == st.attributes,
        token_step(st, t).found == st.found,
        !st.found ==> token_step(st, t).message == if st.message.len() == 0 {
            t
        } else {
            st.message + seq![' '] + t
        },
        st.found ==> token_step(st, t) == st,
{
}

// ---------------------------------------------------------------------------
// Quote balance: when the parse fails
// ---------------------------------------------------------------------------

/// The state of a single left-to-right scan of the whole input: outside any
/// token, or inside the token that began at `start`, with the in-quote flag
/// `open`. Every quote character of the token toggles the flag, a leading one
/// included.
pub enum ScanState {
    Outside,
    Inside { start: int, open: bool },
}

/// One scan step over the character at position `i`.
pub open spec fn scan_step(s: Seq<char>, i: int, st: ScanState) -> ScanState {
    match st {
        ScanState::Outside => if is_ws(s[i]) {
            ScanState::Outside
        } else {
            ScanState::Inside { start: i, open: s[i] == '"' }
        },
        ScanState::Inside { start, open } => {
            let open2 = if s[i] == '"' {
                !open
            } else {
                open
            };
            if is_ws(s[i]) && !open2 {
                ScanState::Outside
            } else {
                ScanState::Inside { start, open: open2 }
            }
        },
    }
}

/// The scan state after reading everything from position `i` on, having
/// arrived at `i` in state `st`.
pub open spec fn scan_from(s: Seq<char>, i: int, st: ScanState) -> ScanState
    decreases s.len() - i,
{
    if !(0 <= i < s.len()) {
        st
    } else {
        scan_from(s, i + 1, scan_step(s, i, st))
    }
}

/// The scan state at the end of the input.
pub open spec fn scan(s: Seq<char>) -> ScanState {
    scan_from(s, 0, ScanState::Outside)
}

/// Whether the scan ended inside a token with a quoted span still open.
pub open spec fn scan_open(st: ScanState) -> bool {
    match st {
        ScanState::Inside { start, open } => open,
        ScanState::Outside => false,
    }
}

/// How many quote characters `t` holds.
pub open spec fn count_quotes(t: Seq<char>) -> nat
    decreases t.len(),
{
    if t.len() == 0 {
        0
    } else {
        (if t[0] == '"' {
            1nat
        } else {
            0nat
        }) + count_quotes(t.drop_first())
    }
}

/// Counting quotes distributes over appending one character.
proof fn lemma_count_quotes_push(t: Seq<char>, c: char)
    ensures
        count_quotes(t.push(c)) == count_quotes(t) + (if c == '"' {
            1nat
        } else {
            0nat
        }),
    decreases t.len(),
{
    assert(t.push(c)[0] == if t.len() == 0 {
        c
    } else {
        t[0]
    });
    if t.len() == 0 {
        assert(t.push(c).drop_first() =~= Seq::<char>::empty());
        assert(count_quotes(t.push(c).drop_first()) == 0);
    } else {
        assert(t.push(c).drop_first() =~= t.drop_first().push(c));
        lemma_count_quotes_push(t.drop_first(), c);
    }
}

/// Scanning one token agrees with [`token_end`]: the scan stays inside the
/// token until its end, and the token has no end exactly when the scan is
/// still open at the end of the input.
proof fn lemma_scan_token(s: Seq<char>, i: int, tstart: int, q: bool)
    requires
        0 <= i <= s.len(),
    ensures
        match token_end(s, i, q) {
            None => scan_from(s, i, ScanState::Inside { start: tstart, open: q })
                == ScanState::Inside { start: tstart, open: true },
            Some(e) => if e == s.len() {
                scan_from(s, i, ScanState::Inside { start: tstart, open: q })
                    == ScanState::Inside { start: tstart, open: false }
            } else {
                scan_from(s, i, ScanState::Inside { start: tstart, open: q }) == scan_from(
                    s,
                    e + 1,
                    ScanState::Outside,
                )
            },
        },
    decreases s.len() - i,
{
    if i < s.len() {
        let q2 = if s[i] == '"' {
            !q
        } else {
            q
        };
        if is_ws(s[i]) && !q2 {
            assert(token_end(s, i, q) == Some(i));
            assert(scan_step(s, i, ScanState::Inside { start: tstart, open: q })
                == ScanState::Outside);
        } else {
            lemma_scan_token(s, i + 1, tstart, q2);
        }
    }
}

/// The assembler run fails exactly when the flat scan ends with an open
/// quoted span.
proof fn lemma_run_scan(s: Seq<char>, i: int, st: AsmState)
    requires
        0 <= i <= s.len(),
    ensures
        (run_from(s, i, st) is None) <==> scan_open(scan_from(s, i, ScanState::Outside)),
    decreases s.len() - i,
{
    if i == s.len() {
    } else if is_ws(s[i]) {
        lemma_run_scan(s, i + 1, st);
    } else {
        let q2 = s[i] == '"';
        lemma_token_end_bounds(s, i + 1, q2);
        lemma_scan_token(s, i + 1, i, q2);
        assert(token_end(s, i, false) == token_end(s, i + 1, q2));
        match token_end(s, i, false) {
            None => {},
            Some(e) => {
                let st2 = token_step(st, s.subrange(i, e));
                if e == s.len() {
                    assert(run_from(s, e, st2) == Some(st2));
                } else {
                    assert(is_ws(s[e]));
                    assert(run_from(s, e, st2) == run_from(s, e + 1, st2));
                    assert(scan_from(s, e, ScanState::Outside) == scan_from(
                        s,
                        e + 1,
                        ScanState::Outside,
                    ));
                    lemma_run_scan(s, e + 1, st2);
                }
            },
        }
    }
}

/// If the scan arrives at `i` inside a token whose flag matches the parity of
/// the quotes seen since the token's start, then whatever token the scan ends
/// in, its flag matches that parity too, measured to the end of the input.
proof fn lemma_scan_parity(s: Seq<char>, i: int, st: ScanState)
    requires
        0 <= i <= s.len(),
        match st {
            ScanState::Outside => true,
            ScanState::Inside { start, open } => 0 <= start < s.len() && start + 1 <= i && !is_ws(
                s[start],
            ) && open == (count_quotes(s.subrange(start, i)) % 2 == 1),
        },
    ensures
        match scan_from(s, i, st) {
            ScanState::Outside => true,
            ScanState::Inside { start, open } => 0 <= start < s.len() && !is_ws(s[start]) && open
                == (count_quotes(s.subrange(start, s.len() as int)) % 2 == 1),
        },
    decreases s.len() - i,
{
    if i == s.len() {
    } else {
        let st2 = scan_step(s, i, st);
        match st {
            ScanState::Outside => {
                if !is_ws(s[i]) {
                    assert(s.subrange(i, i + 1) =~= Seq::<char>::empty().push(s[i]));
                    lemma_count_quotes_push(Seq::<char>::empty(), s[i]);
                }
            },
            ScanState::Inside { start, open } => {
                assert(s.subrange(start, i + 1) =~= s.subrange(start, i).push(s[i]));
                lemma_count_quotes_push(s.subrange(start, i), s[i]);
            },
        }
        lemma_scan_parity(s, i + 1, st2);
    }
}

/// Quote balance: the parse reports an unclosed quoted span exactly when the
/// left-to-right scan of the input ends inside a token whose quoting is still
/// open — equivalently, inside a final token holding an odd number of quote
/// characters, none of them closed before the end of the input.
pub proof fn lemma_unclosed_iff_open_quote(s: Seq<char>)
    ensures
        (parse_spec(s) is None) <==> scan_open(scan(s)),
        match scan(s) {
            ScanState::Inside { start, open } => 0 <= start < s.len() && !is_ws(s[start]) && open
                == (count_quotes(s.subrange(start, s.len() as int)) % 2 == 1),
            ScanState::Outside => true,
        },
{
    lemma_run_scan(s, 0, init_state());
    lemma_scan_parity(s, 0, ScanState::Outside);
}

// ---------------------------------------------------------------------------
// Word round-trip: plain text is whitespace-normalized
// ---------------------------------------------------------------------------

/// Plain text: no attribute separators and no quotes anywhere.
pub open spec fn plain(s: Seq<char>) -> bool {
    forall|i: int| 0 <= i < s.len() ==> #[trigger] s[i] != '=' && s[i] != '"'
}

/// The suffix of `s` from `i` with runs of whitespace collapsed to single
/// spaces: `started` records whether a character was already emitted, and
/// `pending` whether whitespace was seen since then, so a single separating
/// space is emitted exactly between two emitted characters.
pub open spec fn collapse_rec(s: Seq<char>, i: int, started: bool, pending: bool) -> Seq<char>
    decreases s.len() - i,
{
    if !(0 <= i < s.len()) {
        Seq::empty()
    } else if is_ws(s[i]) {
        collapse_rec(s, i + 1, started, true)
    } else {
        let sep: Seq<char> = if started && pending {
            seq![' ']
        } else {
            Seq::empty()
        };
        sep + seq![s[i]] + collapse_rec(s, i + 1, true, false)
    }
}

/// `s` with surrounding whitespace removed and inner runs of whitespace
/// collapsed to single spaces.
pub open spec fn collapse_ws(s: Seq<char>) -> Seq<char> {
    collapse_rec(s, 0, false, false)
}

/// The collapsed suffix from `i`, with no leading separator.
spec fn rest(s: Seq<char>, i: int) -> Seq<char> {
    collapse_rec(s, i, false, false)
}

/// Two message fragments joined by a single space, empty sides dropped.
spec fn joinmsg(m: Seq<char>, c: Seq<char>) -> Seq<char> {
    if m.len() == 0 {
        c
    } else if c.len() == 0 {
        m
    } else {
        m + seq![' '] + c
    }
}

/// Before anything was emitted, a pending whitespace changes nothing.
proof fn lemma_collapse_not_started(s: Seq<char>, i: int)
    ensures
        collapse_rec(s, i, false, true) == collapse_rec(s, i, false, false),
    decreases s.len() - i,
{
    if 0 <= i < s.len() && is_ws(s[i]) {
        lemma_collapse_not_started(s, i + 1);
    }
}

/// Inside a whitespace-free region the collapse emits the characters
/// verbatim.
proof fn lemma_collapse_word(s: Seq<char>, m: int, e: int, started: bool)
    requires
        0 <= m < e <= s.len(),
        forall|x: int| m <= x < e ==> !is_ws(#[trigger] s[x]),
    ensures
        collapse_rec(s, m, started, false) == s.subrange(m, e) + collapse_rec(s, e, true, false),
    decreases e - m,
{
    if m + 1 == e {
        assert(s.subrange(m, e) =~= seq![s[m]]);
        assert(collapse_rec(s, m, started, false) =~= s.subrange(m, e) + collapse_rec(
            s,
            e,
            true,
            false,
        ));
    } else {
        lemma_collapse_word(s, m + 1, e, true);
        assert(s.subrange(m, e) =~= seq![s[m]] + s.subrange(m + 1, e));
        assert(collapse_rec(s, m, started, false) =~= s.subrange(m, e) + collapse_rec(
            s,
            e,
            true,
            false,
        ));
    }
}

/// After something was emitted, a pending whitespace becomes one separating
/// space exactly when another word follows.
proof fn lemma_collapse_pending(s: Seq<char>, i: int)
    ensures
        collapse_rec(s, i, true, true) == if rest(s, i).len() == 0 {
            Seq::<char>::empty()
        } else {
            seq![' '] + rest(s, i)
        },
    decreases s.len() - i,
{
    if !(0 <= i < s.len()) {
    } else if is_ws(s[i]) {
        lemma_collapse_pending(s, i + 1);
        lemma_collapse_not_started(s, i + 1);
    } else {
        assert(rest(s, i) =~= seq![s[i]] + collapse_rec(s, i + 1, true, false));
        assert(collapse_rec(s, i, true, true) =~= seq![' '] + rest(s, i));
    }
}

/// A suffix holding a non-whitespace character collapses to something
/// non-empty.
proof fn lemma_rest_nonempty(s: Seq<char>, i: int, w: int)
    requires
        0 <= i <= w < s.len(),
        !is_ws(s[w]),
    ensures
        rest(s, i).len() > 0,
    decreases s.len() - i,
{
    if is_ws(s[i]) {
        lemma_collapse_not_started(s, i + 1);
        lemma_rest_nonempty(s, i + 1, w);
    }
}

/// In quote-free text a token runs to the first whitespace character.
proof fn lemma_plain_token_end(s: Seq<char>, i: int)
    requires
        plain(s),
        0 <= i <= s.len(),
    ensures
        match token_end(s, i, false) {
            Some(e) => i <= e <= s.len() && (e < s.len() ==> is_ws(s[e])) && forall|x: int|
                i <= x < e ==> !is_ws(#[trigger] s[x]),
            None => false,
        },
    decreases s.len() - i,
{
    if i < s.len() && !is_ws(s[i]) {
        lemma_plain_token_end(s, i + 1);
    }
}

/// A token without `=` characters has no split position.
proof fn lemma_first_eq_from_none(t: Seq<char>, i: int)
    requires
        0 <= i,
        forall|x: int| i <= x < t.len() ==> #[trigger] t[x] != '=',
    ensures
        crate::model::first_eq_from(t, i) == t.len(),
    decreases t.len() - i,
{
    if 0 <= i < t.len() {
        lemma_first_eq_from_none(t, i + 1);
    }
}

/// Running the assembler over plain text appends the collapsed suffix to the
/// message and touches nothing else.
proof fn lemma_plain_run(s: Seq<char>, i: int, st: AsmState)
    requires
        plain(s),
        0 <= i <= s.len(),
        !st.found,
    ensures
        run_from(s, i, st) == Some(
            AsmState { message: joinmsg(st.message, rest(s, i)), found: false, attributes: st.attributes },
        ),
    decreases s.len() - i,
{
    if i == s.len() {
        assert(run_from(s, i, st) == Some(st));
        assert(st =~= AsmState {
            message: joinmsg(st.message, rest(s, i)),
            found: false,
            attributes: st.attributes,
        });
    } else if is_ws(s[i]) {
        lemma_collapse_not_started(s, i + 1);
        lemma_plain_run(s, i + 1, st);
    } else {
        lemma_plain_token_end(s, i);
        let e = token_end(s, i, false)->Some_0;
        assert(e > i);
        let tseq = s.subrange(i, e);
        assert forall|x: int| 0 <= x < tseq.len() implies #[trigger] tseq[x] != '=' by {
            assert(tseq[x] == s[i + x]);
        }
        lemma_first_eq_from_none(tseq, 0);
        assert(classify(tseq) == TokenModel::Word(tseq));
        let st2 = token_step(st, tseq);
        assert(st2 == word_step(st, tseq));
        assert(tseq.len() > 0);
        assert(st2.message == joinmsg(st.message, tseq));
        lemma_plain_run(s, e, st2);
        // The collapsed suffix from i is the token text, then (when more words
        // follow) one space and the collapsed remainder.
        assert forall|x: int| i <= x < e implies !is_ws(#[trigger] s[x]) by {}
        lemma_collapse_word(s, i, e, false);
        assert(rest(s, i) == tseq + collapse_rec(s, e, true, false));
        if e == s.len() {
            assert(collapse_rec(s, e, true, false) =~= Seq::<char>::empty());
            assert(rest(s, i) =~= tseq);
            assert(rest(s, e) =~= Seq::<char>::empty());
            assert(joinmsg(st.message, rest(s, i)) =~= joinmsg(st2.message, rest(s, e)));
        } else {
            assert(is_ws(s[e]));
            assert(collapse_rec(s, e, true, false) == collapse_rec(s, e + 1, true, true));
            lemma_collapse_pending(s, e + 1);
            lemma_collapse_not_started(s, e + 1);
            assert(rest(s, e) == rest(s, e + 1));
            if rest(s, e).len() == 0 {
                assert(rest(s, i) =~= tseq);
                assert(joinmsg(st.message, rest(s, i)) =~= joinmsg(st2.message, rest(s, e)));
            } else {
                assert(rest(s, i) =~= tseq + seq![' '] + rest(s, e));
                assert(joinmsg(st.message, rest(s, i)) =~= joinmsg(st2.message, rest(s, e)));
            }
        }
        assert(run_from(s, i, st) == run_from(s, e, st2));
    }
}

/// Word round-trip: on input holding no `=` and no quote characters (and not
/// entirely whitespace while non-empty, where the verbatim-passthrough rule
/// takes over), the parse succeeds, yields no attributes, and the message is
/// the input with surrounding whitespace trimmed and inner runs of whitespace
/// collapsed to single spaces.
pub proof fn lemma_word_round_trip(s: Seq<char>)
    requires
        plain(s),
        s.len() == 0 || exists|i: int| 0 <= i < s.len() && !is_ws(#[trigger] s[i]),
    ensures
        parse_spec(s) == Some(LogModel { message: collapse_ws(s), attributes: Seq::empty() }),
{
    lemma_plain_run(s, 0, init_state());
    let st = run_from(s, 0, init_state())->Some_0;
    assert(st.message == rest(s, 0));
    if s.len() == 0 {
        assert(collapse_ws(s) =~= Seq::<char>::empty());
        assert(s =~= collapse_ws(s));
    } else {
        let w = choose|i: int| 0 <= i < s.len() && !is_ws(#[trigger] s[i]);
        lemma_rest_nonempty(s, 0, w);
    }
    assert(parse_spec(s) == Some(
        LogModel { message: collapse_ws(s), attributes: Seq::<(Seq<char>, Seq<char>)>::empty() },
    ));
}

} // verus!
