//! General laws of the scanner, stated over the scan's model and proved for
//! all inputs at once.

use crate::text::alphanumeric_char;
use crate::tokenizer::{
    fixed_token, is_whitespace_char, lemma_line_comment_rest_len, line_comment_rest, spec_tokenize,
    word_char, word_run_len, LexError, TokenModel,
};
use crate::words::{all_digits, classify, digits_value, is_digit_char, is_u64_text};
use vstd::prelude::*;

verus! {

/// A source made of nothing but whitespace and line comments.
pub open spec fn blank_source(s: Seq<char>) -> bool
    decreases s.len(),
    via blank_source_decreases
{
    if s.len() == 0 {
        true
    } else if is_whitespace_char(s[0]) {
        blank_source(s.skip(1))
    } else if s[0] == '/' && s.len() >= 2 && s[1] == '/' {
        blank_source(line_comment_rest(s.skip(2)))
    } else {
        false
    }
}

#[via_fn]
proof fn blank_source_decreases(s: Seq<char>) {
    if s.len() > 0 {
        lemma_line_comment_rest_len(s.skip(2));
    }
}

/// A source of nothing but whitespace and line comments scans successfully
/// to the empty token sequence.
pub proof fn lemma_blank_source_no_tokens(s: Seq<char>)
    requires
        blank_source(s),
    ensures
        spec_tokenize(s) == Ok::<Seq<TokenModel>, LexError>(Seq::empty()),
    decreases s.len(),
{
    if s.len() == 0 {
    } else if is_whitespace_char(s[0]) {
        lemma_blank_source_no_tokens(s.skip(1));
    } else {
        lemma_line_comment_rest_len(s.skip(2));
        lemma_blank_source_no_tokens(line_comment_rest(s.skip(2)));
    }
}

/// Each fixed-token character in isolation scans to exactly its one token:
/// the whole one-character source is consumed and nothing else comes out.
pub proof fn lemma_fixed_char_single_token(c: char)
    requires
        fixed_token(c) is Some,
    ensures
        spec_tokenize(seq![c]) == Ok::<Seq<TokenModel>, LexError>(seq![fixed_token(c)->Some_0]),
{
    let s = seq![c];
    assert(s.len() == 1 && s[0] == c);
    assert(s.skip(1) =~= Seq::<char>::empty());
    assert(spec_tokenize(s.skip(1)) == Ok::<Seq<TokenModel>, LexError>(Seq::empty()));
    assert(seq![fixed_token(c)->Some_0] + Seq::<TokenModel>::empty() =~= seq![
        fixed_token(c)->Some_0,
    ]);
}

/// A slash with nothing after it is the division token, not a comment.
pub proof fn lemma_single_slash_token()
    ensures
        spec_tokenize(seq!['/']) == Ok::<Seq<TokenModel>, LexError>(seq![TokenModel::Slash]),
{
    let s = seq!['/'];
    assert(s.len() == 1 && s[0] == '/');
    assert(s.skip(1) =~= Seq::<char>::empty());
    assert(spec_tokenize(s.skip(1)) == Ok::<Seq<TokenModel>, LexError>(Seq::empty()));
    assert(seq![TokenModel::Slash] + Seq::<TokenModel>::empty() =~= seq![TokenModel::Slash]);
}

/// A run made wholly of word characters is one maximal run.
proof fn lemma_all_word_run(w: Seq<char>)
    requires
        forall|i: int| 0 <= i < w.len() ==> word_char(#[trigger] w[i]),
    ensures
        word_run_len(w) == w.len(),
    decreases w.len(),
{
    if w.len() > 0 {
        assert(word_char(w[0]));
        assert forall|i: int| 0 <= i < w.skip(1).len() implies word_char(
            #[trigger] w.skip(1)[i],
        ) by {
            assert(w.skip(1)[i] == w[i + 1]);
        }
        lemma_all_word_run(w.skip(1));
    }
}

/// Classification precedence on digit runs: any text of nothing but digits
/// whose value fits the unsigned 64-bit range is the integer token, never a
/// float and never an identifier. A digit run whose value does not fit falls
/// outside this law: integer parsing fails on it and the float rule takes
/// it.
pub proof fn lemma_digit_text_is_number(w: Seq<char>)
    requires
        w.len() >= 1,
        all_digits(w),
        digits_value(w) <= u64::MAX,
    ensures
        classify(w) == TokenModel::Number(digits_value(w) as u64),
        spec_tokenize(w) == Ok::<Seq<TokenModel>, LexError>(
            seq![TokenModel::Number(digits_value(w) as u64)],
        ),
{
    assert(is_u64_text(w));
    assert(is_digit_char(w[0]));
    assert(alphanumeric_char(w[0]));
    assert forall|i: int| 0 <= i < w.len() implies word_char(#[trigger] w[i]) by {
        assert(is_digit_char(w[i]));
        assert(alphanumeric_char(w[i]));
    }
    lemma_all_word_run(w);
    assert(w.take(w.len() as int) =~= w);
    assert(w.skip(w.len() as int) =~= Seq::<char>::empty());
    assert(spec_tokenize(w.skip(w.len() as int)) == Ok::<Seq<TokenModel>, LexError>(Seq::empty()));
    assert(seq![TokenModel::Number(digits_value(w) as u64)] + Seq::<TokenModel>::empty() =~= seq![
        TokenModel::Number(digits_value(w) as u64),
    ]);
}

} // verus!
