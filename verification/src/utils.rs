//! Escape decoding for string literals, and the evaluation entry points
//! that hand a scanned script onward.

use crate::text::{chars_of, string_of};
use crate::tokenizer::{spec_lex_message, spec_tokenize, tokenize, Token};
use vstd::prelude::*;

verus! {

/// One global, non-overlapping, left-to-right replacement of the two-character
/// pattern `p0 p1` by `rep`.
pub open spec fn replace_pair(s: Seq<char>, p0: char, p1: char, rep: char) -> Seq<char>
    decreases s.len(),
{
    if s.len() < 2 {
        s
    } else if s[0] == p0 && s[1] == p1 {
        seq![rep] + replace_pair(s.skip(2), p0, p1, rep)
    } else {
        seq![s[0]] + replace_pair(s.skip(1), p0, p1, rep)
    }
}

/// The decoded content of a string literal: the fixed two-character escape
/// sequences, substituted one rule after the other over the whole text, the
/// backslash rule first so that no later rule reads a backslash it produced.
/// A backslash before any other character stays as it stands.
pub open spec fn unescape(s: Seq<char>) -> Seq<char> {
    let s1 = replace_pair(s, '\\', '\\', '\\');
    let s2 = replace_pair(s1, '\\', '"', '"');
    let s3 = replace_pair(s2, '\\', '\'', '\'');
    let s4 = replace_pair(s3, '\\', 'n', '\n');
    let s5 = replace_pair(s4, '\\', 'r', '\r');
    let s6 = replace_pair(s5, '\\', 't', '\t');
    replace_pair(s6, '\\', '0', '\0')
}

/// Applies one replacement rule over the whole run of characters.
fn replace_pair_chars(v: &Vec<char>, p0: char, p1: char, rep: char) -> (r: Vec<char>)
    ensures
        r@ == replace_pair(v@, p0, p1, rep),
{
    let mut out: Vec<char> = Vec::new();
    let mut i: usize = 0;
    proof {
        assert(v@.skip(0) =~= v@);
        assert(Seq::<char>::empty() + replace_pair(v@, p0, p1, rep) =~= replace_pair(
            v@,
            p0,
            p1,
            rep,
        ));
    }
    while i < v.len()
        invariant
            i <= v@.len(),
            replace_pair(v@, p0, p1, rep) == out@ + replace_pair(v@.skip(i as int), p0, p1, rep),
        decreases v@.len() - i,
    {
        let ghost pre = out@;
        let ghost s = v@.skip(i as int);
        if v[i] == p0 && i + 1 < v.len() && v[i + 1] == p1 {
            out.push(rep);
            proof {
                assert(s[0] == v@[i as int] && s[1] == v@[i + 1]);
                assert(s.skip(2) =~= v@.skip(i + 2));
                assert(replace_pair(s, p0, p1, rep) == seq![rep] + replace_pair(
                    v@.skip(i + 2),
                    p0,
                    p1,
                    rep,
                ));
                assert(pre + (seq![rep] + replace_pair(v@.skip(i + 2), p0, p1, rep)) =~= out@
                    + replace_pair(v@.skip(i + 2), p0, p1, rep));
            }
            i = i + 2;
        } else {
            out.push(v[i]);
            proof {
                assert(s[0] == v@[i as int]);
                if s.len() >= 2 {
                    assert(s[1] == v@[i + 1]);
                }
                assert(s.skip(1) =~= v@.skip(i + 1));
                assert(replace_pair(s, p0, p1, rep) == seq![s[0]] + replace_pair(
                    v@.skip(i + 1),
                    p0,
                    p1,
                    rep,
                ));
                assert(pre + (seq![s[0]] + replace_pair(v@.skip(i + 1), p0, p1, rep)) =~= out@
                    + replace_pair(v@.skip(i + 1), p0, p1, rep));
            }
            i = i + 1;
        }
    }
    proof {
        assert(v@.skip(i as int) =~= Seq::<char>::empty());
        assert(out@ + Seq::<char>::empty() =~= out@);
    }
    out
}

/// Decodes the escape sequences of a string literal's raw content by the
/// fixed substitution rules, applied in their fixed order.
pub fn handle_string_escapes(original: &str) -> (r: String)
    ensures
        r@ == unescape(original@),
{
    let v = chars_of(original);
    let v = replace_pair_chars(&v, '\\', '\\', '\\');
    let v = replace_pair_chars(&v, '\\', '"', '"');
    let v = replace_pair_chars(&v, '\\', '\'', '\'');
    let v = replace_pair_chars(&v, '\\', 'n', '\n');
    let v = replace_pair_chars(&v, '\\', 'r', '\r');
    let v = replace_pair_chars(&v, '\\', 't', '\t');
    let v = replace_pair_chars(&v, '\\', '0', '\0');
    string_of(&v)
}

/// Runs the part of evaluating a script that this crate owns: the lexical
/// phase. The token sequence comes back for the parser and runtime that
/// consume it downstream; a script holding no tokens at all evaluates to
/// nothing, and a lexical error is propagated unchanged.
pub fn eval_untyped(source: &str) -> (r: Result<Option<Vec<Token>>, String>)
    ensures
        match spec_tokenize(source@) {
            Ok(ts) => (match r {
                Ok(Some(v)) => ts.len() > 0 && v.deep_view() == ts,
                Ok(None) => ts.len() == 0,
                Err(_) => false,
            }),
            Err(e) => r matches Err(m) && m@ == spec_lex_message(e),
        },
{
    match tokenize(source) {
        Ok(tokens) => {
            if tokens.len() == 0 {
                Ok(None)
            } else {
                Ok(Some(tokens))
            }
        },
        Err(m) => Err(m),
    }
}

/// Evaluates a script as far as this crate reaches; see [`eval_untyped`].
/// Typed decoding of an evaluated value belongs to the downstream runtime,
/// so both entry points hand back the same token sequence.
pub fn eval(source: &str) -> (r: Result<Option<Vec<Token>>, String>)
    ensures
        match spec_tokenize(source@) {
            Ok(ts) => (match r {
                Ok(Some(v)) => ts.len() > 0 && v.deep_view() == ts,
                Ok(None) => ts.len() == 0,
                Err(_) => false,
            }),
            Err(e) => r matches Err(m) && m@ == spec_lex_message(e),
        },
{
    eval_untyped(source)
}

} // verus!
