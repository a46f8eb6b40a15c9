//! Parser for a single logfmt-style log line: a free-form human message
//! interleaved with `key=value` attributes.
//!
//! [`Log::parse`] splits the line into whitespace-delimited tokens (quoted
//! spans may contain whitespace), classifies each token as a plain word or a
//! `key=value` attribute, and assembles a normalized record: a message string
//! plus an ordered, deduplicated list of attribute pairs. The result is fully
//! specified by the spec-level model in [`model`]; the general laws the parser
//! obeys are stated and proved in [`laws`].

pub mod chars;
pub mod laws;
pub mod model;
mod token;

use vstd::prelude::*;
use vstd::string::StrSliceExecFns;
use vstd::string::StringExecFns;

use crate::chars::is_whitespace_char;
use crate::chars::to_char_vec;
use crate::model::key_index;
use crate::model::key_index_from;
use crate::model::is_override_key;
use crate::model::init_state;
use crate::model::lemma_key_index_from;
use crate::model::lemma_token_end_bounds;
use crate::model::parse_spec;
use crate::model::run_from;
use crate::model::token_end;
use crate::model::token_step;
use crate::model::AsmState;
use crate::model::LogModel;
use crate::token::Token;

verus! {

/// An error returned when a quoted span is still open at the end of the input.
#[derive(Debug)]
pub struct UnclosedString;

/// The spec-level contents of an attribute list: each pair of owned strings as
/// a pair of character sequences.
pub open spec fn attrs_view(a: Seq<(String, String)>) -> Seq<(Seq<char>, Seq<char>)> {
    Seq::new(a.len(), |i: int| (a[i].0@, a[i].1@))
}

/// A parsed log line: the normalized message and the ordered, deduplicated
/// attribute pairs extracted from it.
#[derive(Debug, PartialEq, Eq)]
pub struct Log {
    message: String,
    attributes: Vec<(String, String)>,
}

impl View for Log {
    type V = LogModel;

    closed spec fn view(&self) -> LogModel {
        LogModel { message: self.message@, attributes: attrs_view(self.attributes@) }
    }
}

/// Whether the in-quote flag flips on this character.
fn quote_toggle(q: bool, c: char) -> (r: bool)
    ensures
        r == if c == '"' {
            !q
        } else {
            q
        },
{
    if c == '"' {
        !q
    } else {
        q
    }
}

/// Whether the key selects a message override instead of an attribute entry.
fn is_override_key_exec(k: &String) -> (r: bool)
    ensures
        r == is_override_key(k@),
{
    k.eq(&"msg".to_owned()) || k.eq(&"message".to_owned()) || k.eq(&"\"msg\"".to_owned()) || k.eq(
        &"\"message\"".to_owned(),
    )
}

/// The first index of `attributes` whose key equals `key`, or the length if
/// the key is absent, as [`key_index`] gives it.
fn find_key(attributes: &Vec<(String, String)>, key: &String) -> (j: usize)
    ensures
        j as int == key_index(attrs_view(attributes@), key@),
        j <= attributes@.len(),
{
    let ghost a = attrs_view(attributes@);
    let mut j: usize = 0;
    while j < attributes.len()
        invariant
            j <= a.len(),
            a == attrs_view(attributes@),
            key_index(a, key@) == key_index_from(a, key@, j as int),
        decreases a.len() - j,
    {
        let pair = &attributes[j];
        if pair.0.eq(key) {
            proof {
                assert(a[j as int].0 == key@);
            }
            return j;
        }
        proof {
            assert(a[j as int].0 != key@);
            assert(key_index_from(a, key@, j as int) == key_index_from(a, key@, j as int + 1));
        }
        j = j + 1;
    }
    j
}

impl Log {
    /// Returns the message.
    pub fn message(&self) -> (r: &str)
        ensures
            r@ == self@.message,
    {
        self.message.as_str()
    }

    /// Returns the list of attributes, in insertion order.
    pub fn attributes(&self) -> (r: &Vec<(String, String)>)
        ensures
            attrs_view(r@) == self@.attributes,
    {
        &self.attributes
    }

    /// Parses one log line into a [`Log`]: the returned record is exactly the
    /// one [`parse_spec`] assigns to the input, and the parse fails exactly
    /// when the model reports an unclosed quoted span.
    pub fn parse(s: &str) -> (r: Result<Log, UnclosedString>)
        ensures
            match r {
                Ok(log) => parse_spec(s@) == Some(log@),
                Err(_) => parse_spec(s@) is None,
            },
    {
        let chars = to_char_vec(s);
        let n = chars.len();
        let mut i: usize = 0;
        let mut message = String::new();
        let mut found = false;
        let mut attributes: Vec<(String, String)> = Vec::new();
        proof {
            assert(attrs_view(attributes@) =~= Seq::<(Seq<char>, Seq<char>)>::empty());
            assert(AsmState {
                message: message@,
                found: found,
                attributes: attrs_view(attributes@),
            } =~= init_state());
        }
        loop
            invariant
                chars@ == s@,
                n == s@.len(),
                i <= n,
                run_from(s@, 0, init_state()) == run_from(
                    s@,
                    i as int,
                    AsmState { message: message@, found: found, attributes: attrs_view(attributes@) },
                ),
            decreases n - i,
        {
            let ghost st0 = AsmState {
                message: message@,
                found: found,
                attributes: attrs_view(attributes@),
            };
            let ghost i_entry = i as int;
            // Find the start of the next token.
            while i < n && is_whitespace_char(chars[i])
                invariant
                    chars@ == s@,
                    n == s@.len(),
                    i_entry <= i <= n,
                    run_from(s@, 0, init_state()) == run_from(s@, i as int, st0),
                decreases n - i,
            {
                proof {
                    assert(run_from(s@, i as int, st0) == run_from(s@, i as int + 1, st0));
                }
                i = i + 1;
            }
            if i >= n {
                proof {
                    assert(run_from(s@, i as int, st0) == Some(st0));
                }
                let msg = if !found && message.as_str().is_empty() {
                    s.to_owned()
                } else {
                    message
                };
                let log = Log { message: msg, attributes };
                proof {
                    assert(log@ =~= LogModel {
                        message: if !st0.found && st0.message.len() == 0 {
                            s@
                        } else {
                            st0.message
                        },
                        attributes: st0.attributes,
                    });
                }
                return Ok(log);
            }
            let start = i;
            proof {
                assert(!crate::chars::is_ws(s@[start as int]));
            }
            // Find the end of the token, toggling the in-quote flag on every
            // quote character, the token's first one included.
            let mut q = false;
            while i < n && !(is_whitespace_char(chars[i]) && !quote_toggle(q, chars[i]))
                invariant
                    chars@ == s@,
                    n == s@.len(),
                    start < n,
                    !crate::chars::is_ws(s@[start as int]),
                    start <= i <= n,
                    token_end(s@, start as int, false) == token_end(s@, i as int, q),
                decreases n - i,
            {
                let c = chars[i];
                let q2 = quote_toggle(q, c);
                proof {
                    assert(token_end(s@, i as int, q) == token_end(s@, i as int + 1, q2));
                }
                q = q2;
                i = i + 1;
            }
            if i == n && q {
                proof {
                    assert(token_end(s@, i as int, q) is None);
                    assert(run_from(s@, start as int, st0) is None);
                }
                return Err(UnclosedString);
            }
            let end = i;
            proof {
                // The scan cannot stop on the token's first, non-whitespace
                // character.
                assert(end > start);
                if end < n {
                    // The loop stopped on whitespace with the flag off.
                    assert(!q);
                    assert(token_end(s@, end as int, q) == Some(end as int));
                } else {
                    assert(token_end(s@, end as int, q) == Some(end as int));
                }
                assert(token_end(s@, start as int, false) == Some(end as int));
            }
            let token_str = s.substring_char(start, end);
            let ghost tseq = s@.subrange(start as int, end as int);
            let tok = Token::parse(token_str);
            match tok {
                Token::Word => {
                    if !found {
                        if !message.as_str().is_empty() {
                            message.append(" ");
                        }
                        message.append(token_str);
                    }
                },
                Token::Attribute(key, value) => {
                    if attributes.len() < 25 {
                        if is_override_key_exec(&key) {
                            message = value;
                            found = true;
                        } else {
                            let j = find_key(&attributes, &key);
                            if j < attributes.len() {
                                proof {
                                    lemma_key_index_from(attrs_view(attributes@), key@, 0);
                                }
                                let _replaced = attributes.remove(j);
                                attributes.insert(j, (key, value));
                            } else {
                                attributes.push((key, value));
                            }
                        }
                    } else {
                        if !found {
                            if !message.as_str().is_empty() {
                                message.append(" ");
                            }
                            message.append(token_str);
                        }
                    }
                },
            }
            proof {
                reveal_strlit(" ");
                assert(" "@ =~= seq![' ']);
                let st1 = AsmState {
                    message: message@,
                    found: found,
                    attributes: attrs_view(attributes@),
                };
                assert(st1 =~= token_step(st0, tseq));
                lemma_token_end_bounds(s@, start as int, false);
                assert(run_from(s@, start as int, st0) == run_from(
                    s@,
                    end as int,
                    token_step(st0, tseq),
                ));
            }
        }
    }
}

} // verus!
