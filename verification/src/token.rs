//! The executable token classifier, proved to agree with [`classify`].

use vstd::prelude::*;
use vstd::string::StrSliceExecFns;

use crate::chars::char_is_alphanumeric;
use crate::chars::is_whitespace_char;
use crate::chars::to_char_vec;
use crate::model::classify;
use crate::model::first_eq;
use crate::model::first_eq_from;
use crate::model::key_char_ok;
use crate::model::ltrim_idx;
use crate::model::no_interior_quote;
use crate::model::rtrim_idx;
use crate::model::starts_quote;
use crate::model::trim_seq;
use crate::model::valid_key;
use crate::model::valid_value;
use crate::model::TokenModel;

verus! {

/// A classified token: a plain word (the verbatim token text, which the
/// caller already holds) or an attribute with its trimmed key and value.
pub(crate) enum Token {
    Word,
    Attribute(String, String),
}

/// The position of the first `=` in `v`, or `v.len()` if there is none.
fn find_eq(v: &Vec<char>) -> (j: usize)
    ensures
        j == first_eq(v@),
        j <= v@.len(),
{
    let mut i: usize = 0;
    while i < v.len() && !(v[i] == '=')
        invariant
            i <= v@.len(),
            first_eq(v@) == first_eq_from(v@, i as int),
        decreases v@.len() - i,
    {
        i = i + 1;
    }
    i
}

/// The bounds of `v[lo..hi]` with surrounding whitespace removed.
fn trim_bounds(v: &Vec<char>, lo: usize, hi: usize) -> (r: (usize, usize))
    requires
        lo <= hi <= v@.len(),
    ensures
        lo <= r.0 <= r.1 <= hi,
        v@.subrange(r.0 as int, r.1 as int) == trim_seq(v@.subrange(lo as int, hi as int)),
{
    let ghost t = v@.subrange(lo as int, hi as int);
    let mut a = lo;
    while a < hi && is_whitespace_char(v[a])
        invariant
            lo <= a <= hi <= v@.len(),
            t == v@.subrange(lo as int, hi as int),
            ltrim_idx(t, 0) == ltrim_idx(t, a - lo),
        decreases hi - a,
    {
        a = a + 1;
    }
    proof {
        assert(ltrim_idx(t, 0) == a - lo);
    }
    let mut b = hi;
    while b > a && is_whitespace_char(v[b - 1])
        invariant
            lo <= a <= b <= hi <= v@.len(),
            t == v@.subrange(lo as int, hi as int),
            ltrim_idx(t, 0) == a - lo,
            rtrim_idx(t, hi - lo) == rtrim_idx(t, b - lo),
        decreases b,
    {
        b = b - 1;
    }
    proof {
        if b > a {
            assert(rtrim_idx(t, b - lo) == b - lo);
            assert(v@.subrange(a as int, b as int) =~= trim_seq(t));
        } else {
            // Everything in [lo, hi) is whitespace: the trimmed side is empty.
            assert(rtrim_idx(t, b - lo) <= b - lo) by {
                lemma_rtrim_le(t, b - lo);
            }
            assert(trim_seq(t) =~= Seq::<char>::empty());
            assert(v@.subrange(a as int, b as int) =~= Seq::<char>::empty());
        }
    }
    (a, b)
}

/// [`rtrim_idx`] never moves right.
proof fn lemma_rtrim_le(t: Seq<char>, j: int)
    ensures
        rtrim_idx(t, j) <= j,
    decreases j,
{
    if 0 < j <= t.len() && is_ws_at(t, j - 1) {
        lemma_rtrim_le(t, j - 1);
    }
}

/// Helper naming `is_ws(t[j])` so the lemma above can branch on it.
spec fn is_ws_at(t: Seq<char>, j: int) -> bool {
    crate::chars::is_ws(t[j])
}

/// Decides [`valid_key`] for `v[lo..hi]`.
fn valid_key_exec(v: &Vec<char>, lo: usize, hi: usize) -> (r: bool)
    requires
        lo <= hi <= v@.len(),
    ensures
        r == valid_key(v@.subrange(lo as int, hi as int)),
{
    let ghost k = v@.subrange(lo as int, hi as int);
    let len = hi - lo;
    let sq = len > 0 && v[lo] == '"';
    let eq = len > 0 && v[hi - 1] == '"';
    proof {
        assert(sq == starts_quote(k));
        assert(eq == crate::model::ends_quote(k));
    }
    if len > 50 && !sq {
        return false;
    }
    if len > 52 {
        return false;
    }
    if sq != eq {
        return false;
    }
    let mut ok = true;
    let mut i = lo;
    while i < hi
        invariant
            lo <= i <= hi <= v@.len(),
            k == v@.subrange(lo as int, hi as int),
            ok == (forall|m: int|
                0 <= m < i - lo ==> (1 <= m < k.len() - 1 ==> #[trigger] k[m] != '"')
                    && key_char_ok(k[m])),
        decreases hi - i,
    {
        let c = v[i];
        proof {
            assert(c == k[i - lo]);
        }
        let interior_bad = i > lo && i + 1 < hi && c == '"';
        let class_ok = char_is_alphanumeric(c) || c == '.' || c == '_' || c == '-' || c == '"';
        ok = ok && !interior_bad && class_ok;
        i = i + 1;
    }
    proof {
        if ok {
            assert(no_interior_quote(k));
            assert(forall|m: int| 0 <= m < k.len() ==> key_char_ok(#[trigger] k[m]));
        } else {
            assert(!(no_interior_quote(k) && forall|m: int|
                0 <= m < k.len() ==> key_char_ok(#[trigger] k[m])));
        }
    }
    ok
}

/// Decides [`valid_value`] for `v[lo..hi]`.
fn valid_value_exec(v: &Vec<char>, lo: usize, hi: usize) -> (r: bool)
    requires
        lo <= hi <= v@.len(),
    ensures
        r == valid_value(v@.subrange(lo as int, hi as int)),
{
    let ghost w = v@.subrange(lo as int, hi as int);
    let len = hi - lo;
    let sq = len > 0 && v[lo] == '"';
    let eq = len > 0 && v[hi - 1] == '"';
    proof {
        assert(sq == starts_quote(w));
        assert(eq == crate::model::ends_quote(w));
    }
    if len > 100 && !sq {
        return false;
    }
    if len > 102 {
        return false;
    }
    if sq != eq {
        return false;
    }
    let mut ok = true;
    let mut i = lo;
    while i < hi
        invariant
            lo <= i <= hi <= v@.len(),
            w == v@.subrange(lo as int, hi as int),
            ok == (forall|m: int|
                0 <= m < i - lo && 1 <= m < w.len() - 1 ==> #[trigger] w[m] != '"'),
        decreases hi - i,
    {
        let c = v[i];
        proof {
            assert(c == w[i - lo]);
        }
        let interior_bad = i > lo && i + 1 < hi && c == '"';
        ok = ok && !interior_bad;
        i = i + 1;
    }
    proof {
        if ok {
            assert(no_interior_quote(w));
        } else {
            assert(!no_interior_quote(w));
        }
    }
    ok
}

impl Token {
    /// Classifies the token text `s`, agreeing with [`classify`] on its
    /// characters: `Word` stands for the verbatim text, an `Attribute` carries
    /// the trimmed key and value.
    pub(crate) fn parse(s: &str) -> (t: Token)
        ensures
            match t {
                Token::Word => classify(s@) == TokenModel::Word(s@),
                Token::Attribute(k, v) => classify(s@) == TokenModel::Attribute(k@, v@),
            },
    {
        let tv = to_char_vec(s);
        let n = tv.len();
        let j = find_eq(&tv);
        if j == n {
            return Token::Word;
        }
        let (ka, kb) = trim_bounds(&tv, 0, j);
        let (va, vb) = trim_bounds(&tv, j + 1, n);
        let key_ok = valid_key_exec(&tv, ka, kb);
        let value_ok = valid_value_exec(&tv, va, vb);
        proof {
            assert(tv@.subrange(ka as int, kb as int) =~= s@.subrange(ka as int, kb as int));
            assert(tv@.subrange(va as int, vb as int) =~= s@.subrange(va as int, vb as int));
        }
        if key_ok && value_ok {
            let key = s.substring_char(ka, kb).to_owned();
            let value = s.substring_char(va, vb).to_owned();
            Token::Attribute(key, value)
        } else {
            Token::Word
        }
    }
}

} // verus!
