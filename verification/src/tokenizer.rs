//! The scanner: a forward-only cursor over the source characters, the
//! dispatch loop, and the two sub-scanners for string literals and words.

use crate::text::{alphanumeric_char, chars_of, is_alphanumeric_char, push_char, string_of};
use crate::utils::{handle_string_escapes, unescape};
use crate::words::{classify, classify_word};
use vstd::prelude::*;
use vstd::string::*;

verus! {

/// One classified lexical unit of the source text.
///
/// A `Float` carries the literal's text: the run of characters that Rust's
/// float grammar accepts. The numeric value is recovered by whoever consumes
/// the token, so nothing of the literal is lost inside the library.
#[derive(Debug, PartialEq)]
pub enum Token {
    // Literals
    String(String),
    Number(u64),
    Float(String),
    Bool(bool),
    // Identifiers
    Identifier(String),
    // Keywords
    Let,
    Import,
    // Operators
    Plus,
    Minus,
    Multiply,
    Slash,
    // Brackets
    LParen,
    RParen,
    LBracket,
    RBracket,
    LBrace,
    RBrace,
    // Misc
    Equals,
}

/// The mathematical shape of a [`Token`]: the same cases over sequences of
/// characters instead of strings.
pub enum TokenModel {
    String(Seq<char>),
    Number(u64),
    Float(Seq<char>),
    Bool(bool),
    Identifier(Seq<char>),
    Let,
    Import,
    Plus,
    Minus,
    Multiply,
    Slash,
    LParen,
    RParen,
    LBracket,
    RBracket,
    LBrace,
    RBrace,
    Equals,
}

impl View for Token {
    type V = TokenModel;

    open spec fn view(&self) -> TokenModel {
        match self {
            Token::String(s) => TokenModel::String(s@),
            Token::Number(n) => TokenModel::Number(*n),
            Token::Float(s) => TokenModel::Float(s@),
            Token::Bool(b) => TokenModel::Bool(*b),
            Token::Identifier(s) => TokenModel::Identifier(s@),
            Token::Let => TokenModel::Let,
            Token::Import => TokenModel::Import,
            Token::Plus => TokenModel::Plus,
            Token::Minus => TokenModel::Minus,
            Token::Multiply => TokenModel::Multiply,
            Token::Slash => TokenModel::Slash,
            Token::LParen => TokenModel::LParen,
            Token::RParen => TokenModel::RParen,
            Token::LBracket => TokenModel::LBracket,
            Token::RBracket => TokenModel::RBracket,
            Token::LBrace => TokenModel::LBrace,
            Token::RBrace => TokenModel::RBrace,
            Token::Equals => TokenModel::Equals,
        }
    }
}

impl DeepView for Token {
    type V = TokenModel;

    open spec fn deep_view(&self) -> TokenModel {
        self.view()
    }
}

/// The two fatal lexical failures: a character no dispatch rule accepts, and
/// a string literal whose closing quote never comes.
#[derive(Debug, PartialEq)]
pub enum LexError {
    UnexpectedCharacter(char),
    UnclosedString,
}

/// The message a lexical error surfaces as at the boundary.
pub open spec fn spec_lex_message(e: LexError) -> Seq<char> {
    match e {
        LexError::UnexpectedCharacter(c) => "Unexpected token: "@.push(c),
        LexError::UnclosedString => "Unclosed string literal"@,
    }
}

/// The whitespace the scanner skips.
pub open spec fn is_whitespace_char(c: char) -> bool {
    c == ' ' || c == '\t' || c == '\n'
}

/// The characters on which the scanner enters the word reader.
pub open spec fn word_start_char(c: char) -> bool {
    alphanumeric_char(c) || c == '_'
}

/// The characters the word reader keeps consuming: dots join a run, though
/// they cannot start one.
pub open spec fn word_char(c: char) -> bool {
    alphanumeric_char(c) || c == '_' || c == '.'
}

/// The length of the maximal word run at the front of `s`.
pub open spec fn word_run_len(s: Seq<char>) -> nat
    decreases s.len(),
{
    if s.len() == 0 || !word_char(s[0]) {
        0
    } else {
        1 + word_run_len(s.skip(1))
    }
}

/// The fixed single-character tokens. Slash stands apart: it may open a
/// comment.
pub open spec fn fixed_token(c: char) -> Option<TokenModel> {
    if c == '(' {
        Some(TokenModel::LParen)
    } else if c == ')' {
        Some(TokenModel::RParen)
    } else if c == '[' {
        Some(TokenModel::LBracket)
    } else if c == ']' {
        Some(TokenModel::RBracket)
    } else if c == '{' {
        Some(TokenModel::LBrace)
    } else if c == '}' {
        Some(TokenModel::RBrace)
    } else if c == '+' {
        Some(TokenModel::Plus)
    } else if c == '-' {
        Some(TokenModel::Minus)
    } else if c == '*' {
        Some(TokenModel::Multiply)
    } else if c == '=' {
        Some(TokenModel::Equals)
    } else {
        None
    }
}

/// What stands after a line comment's body: the first newline onward, or
/// nothing at all.
pub open spec fn line_comment_rest(s: Seq<char>) -> Seq<char>
    decreases s.len(),
{
    if s.len() == 0 {
        s
    } else if s[0] == '\n' {
        s
    } else {
        line_comment_rest(s.skip(1))
    }
}

/// Splits raw string-literal content from what follows it, at the first
/// quote; `None` when no quote ever comes.
pub open spec fn split_at_quote(s: Seq<char>) -> Option<(Seq<char>, Seq<char>)>
    decreases s.len(),
{
    if s.len() == 0 {
        None
    } else if s[0] == '"' {
        Some((Seq::empty(), s.skip(1)))
    } else {
        match split_at_quote(s.skip(1)) {
            Some(p) => Some((seq![s[0]] + p.0, p.1)),
            None => None,
        }
    }
}

pub proof fn lemma_line_comment_rest_len(s: Seq<char>)
    ensures
        line_comment_rest(s).len() <= s.len(),
    decreases s.len(),
{
    if s.len() != 0 && s[0] != '\n' {
        lemma_line_comment_rest_len(s.skip(1));
    }
}

pub proof fn lemma_word_run_len(s: Seq<char>)
    ensures
        word_run_len(s) <= s.len(),
    decreases s.len(),
{
    if s.len() != 0 && word_char(s[0]) {
        lemma_word_run_len(s.skip(1));
    }
}

pub proof fn lemma_split_at_quote_len(s: Seq<char>)
    ensures
        match split_at_quote(s) {
            Some(p) => p.1.len() < s.len(),
            None => true,
        },
    decreases s.len(),
{
    if s.len() != 0 && s[0] != '"' {
        lemma_split_at_quote_len(s.skip(1));
    }
}

/// Puts one token in front of a scan's outcome; an error stands as it is.
pub open spec fn prepend_token(t: TokenModel, r: Result<Seq<TokenModel>, LexError>) -> Result<
    Seq<TokenModel>,
    LexError,
> {
    match r {
        Ok(ts) => Ok(seq![t] + ts),
        Err(e) => Err(e),
    }
}

/// What one forward scan of `s` produces: the token sequence in source
/// order, or the first lexical failure. This is the scanner's dispatch,
/// one rule per character class.
pub open spec fn spec_tokenize(s: Seq<char>) -> Result<Seq<TokenModel>, LexError>
    decreases s.len(),
    via spec_tokenize_decreases
{
    if s.len() == 0 {
        Ok(Seq::empty())
    } else {
        let c = s[0];
        if is_whitespace_char(c) {
            spec_tokenize(s.skip(1))
        } else if c == '/' && s.len() >= 2 && s[1] == '/' {
            spec_tokenize(line_comment_rest(s.skip(2)))
        } else if c == '/' {
            prepend_token(TokenModel::Slash, spec_tokenize(s.skip(1)))
        } else if fixed_token(c) is Some {
            prepend_token(fixed_token(c)->Some_0, spec_tokenize(s.skip(1)))
        } else if c == '"' {
            match split_at_quote(s.skip(1)) {
                Some(p) => prepend_token(TokenModel::String(unescape(p.0)), spec_tokenize(p.1)),
                None => Err(LexError::UnclosedString),
            }
        } else if word_start_char(c) {
            prepend_token(
                classify(s.take(word_run_len(s) as int)),
                spec_tokenize(s.skip(word_run_len(s) as int)),
            )
        } else {
            Err(LexError::UnexpectedCharacter(c))
        }
    }
}

#[via_fn]
proof fn spec_tokenize_decreases(s: Seq<char>) {
    if s.len() > 0 {
        lemma_line_comment_rest_len(s.skip(2));
        lemma_word_run_len(s);
        lemma_split_at_quote_len(s.skip(1));
        if word_start_char(s[0]) {
            assert(word_run_len(s) >= 1);
        }
    }
}

/// The forward-only view over the source characters: everything before
/// `pos` has been consumed, and the cursor never moves backward.
pub struct Cursor {
    text: Vec<char>,
    pos: usize,
}

impl Cursor {
    /// The cursor never stands past the end of the text.
    pub closed spec fn wf(self) -> bool {
        self.pos <= self.text@.len()
    }

    /// The characters not yet consumed.
    pub closed spec fn remaining(self) -> Seq<char> {
        self.text@.skip(self.pos as int)
    }

    /// A fresh cursor standing at the front of `text`.
    pub fn new(text: &str) -> (c: Cursor)
        ensures
            c.wf(),
            c.remaining() == text@,
    {
        let c = Cursor { text: chars_of(text), pos: 0 };
        proof {
            assert(c.remaining() =~= text@);
        }
        c
    }

    /// The next character, if any, without consuming it.
    pub fn peek(&self) -> (r: Option<char>)
        requires
            self.wf(),
        ensures
            match r {
                Some(c) => self.remaining().len() > 0 && c == self.remaining()[0],
                None => self.remaining().len() == 0,
            },
    {
        if self.pos < self.text.len() {
            Some(self.text[self.pos])
        } else {
            None
        }
    }

    /// The character after the next one, for the one-character lookahead
    /// that spots a second slash.
    pub fn peek_second(&self) -> (r: Option<char>)
        requires
            self.wf(),
        ensures
            match r {
                Some(c) => self.remaining().len() >= 2 && c == self.remaining()[1],
                None => self.remaining().len() < 2,
            },
    {
        if self.pos < self.text.len() && self.text.len() - self.pos >= 2 {
            Some(self.text[self.pos + 1])
        } else {
            None
        }
    }

    /// Consumes exactly one character.
    pub fn advance(&mut self)
        requires
            old(self).wf(),
            old(self).remaining().len() > 0,
        ensures
            final(self).wf(),
            final(self).remaining() == old(self).remaining().skip(1),
    {
        proof {
            assert(self.text.len() == self.text@.len());
        }
        self.pos = self.pos + 1;
        proof {
            assert(self.remaining() =~= old(self).remaining().skip(1));
        }
    }
}

/// Whether the word reader keeps consuming at `ch`.
fn is_word_char(ch: char) -> (r: bool)
    ensures
        r == word_char(ch),
{
    is_alphanumeric_char(ch) || ch == '_' || ch == '.'
}

/// Appends one token, tracked at the model level.
fn push_token(tokens: &mut Vec<Token>, t: Token)
    ensures
        final(tokens).deep_view() == old(tokens).deep_view().push(t@),
{
    let ghost pre = tokens.deep_view();
    let ghost tm = t@;
    tokens.push(t);
    proof {
        assert(tokens.deep_view() =~= pre.push(tm));
    }
}

/// Reads a string literal; the cursor stands at the opening quote, which is
/// consumed along with everything through the closing quote. The raw content
/// is decoded and wrapped; a quote that never closes is fatal.
pub fn tokenize_string(cursor: &mut Cursor) -> (r: Result<Token, String>)
    requires
        old(cursor).wf(),
        old(cursor).remaining().len() > 0,
        old(cursor).remaining()[0] == '"',
    ensures
        final(cursor).wf(),
        match split_at_quote(old(cursor).remaining().skip(1)) {
            Some(p) => r matches Ok(t) && t@ == TokenModel::String(unescape(p.0))
                && final(cursor).remaining() == p.1,
            None => r matches Err(m) && m@ == spec_lex_message(LexError::UnclosedString)
                && final(cursor).remaining().len() == 0,
        },
{
    cursor.advance();
    let ghost orig = cursor.remaining();
    let mut value: Vec<char> = Vec::new();
    let mut closed = false;
    let mut done = false;
    proof {
        if split_at_quote(orig) is Some {
            assert(Seq::<char>::empty() + split_at_quote(orig)->Some_0.0 =~= split_at_quote(
                orig,
            )->Some_0.0);
        }
    }
    while !done
        invariant
            cursor.wf(),
            !done ==> !closed,
            !done ==> split_at_quote(orig) == (match split_at_quote(cursor.remaining()) {
                Some(p) => Some((value@ + p.0, p.1)),
                None => None::<(Seq<char>, Seq<char>)>,
            }),
            done ==> (match split_at_quote(orig) {
                Some(p) => closed && value@ == p.0 && cursor.remaining() == p.1,
                None => !closed && cursor.remaining().len() == 0,
            }),
        decreases cursor.remaining().len() + (if done {
            0int
        } else {
            1
        }),
    {
        let ghost rem = cursor.remaining();
        let ghost pre = value@;
        match cursor.peek() {
            None => {
                done = true;
            },
            Some(ch) => {
                cursor.advance();
                if ch == '"' {
                    proof {
                        assert(split_at_quote(rem) == Some((Seq::<char>::empty(), rem.skip(1))));
                        assert(pre + Seq::<char>::empty() =~= pre);
                    }
                    closed = true;
                    done = true;
                } else {
                    value.push(ch);
                    proof {
                        match split_at_quote(rem.skip(1)) {
                            Some(p) => {
                                assert(pre + (seq![ch] + p.0) =~= value@ + p.0);
                            },
                            None => {},
                        }
                    }
                }
            },
        }
    }
    if closed {
        let s = string_of(&value);
        let decoded = handle_string_escapes(s.as_str());
        Ok(Token::String(decoded))
    } else {
        Err(String::from_str("Unclosed string literal"))
    }
}

/// Reads the maximal word run the cursor stands on and classifies it; the
/// run is consumed exactly, and exactly one token comes back.
pub fn tokenize_multi_char(cursor: &mut Cursor) -> (r: Vec<Token>)
    requires
        old(cursor).wf(),
        old(cursor).remaining().len() > 0,
        word_char(old(cursor).remaining()[0]),
    ensures
        final(cursor).wf(),
        final(cursor).remaining() == old(cursor).remaining().skip(
            word_run_len(old(cursor).remaining()) as int,
        ),
        r@.len() == 1,
        r@[0]@ == classify(
            old(cursor).remaining().take(word_run_len(old(cursor).remaining()) as int),
        ),
        r.deep_view() == seq![
            classify(
                old(cursor).remaining().take(word_run_len(old(cursor).remaining()) as int),
            ),
        ],
{
    let ghost orig = cursor.remaining();
    let mut value: Vec<char> = Vec::new();
    let mut going = true;
    proof {
        assert(orig.skip(0) =~= orig);
        assert(orig.take(0) =~= value@);
    }
    while going
        invariant
            cursor.wf(),
            value@.len() <= orig.len(),
            cursor.remaining() == orig.skip(value@.len() as int),
            value@ == orig.take(value@.len() as int),
            going ==> word_run_len(orig) == value@.len() + word_run_len(cursor.remaining()),
            !going ==> word_run_len(orig) == value@.len(),
        decreases cursor.remaining().len() + (if going {
            1int
        } else {
            0
        }),
    {
        let ghost rem = cursor.remaining();
        let ghost n = value@.len() as int;
        match cursor.peek() {
            None => {
                going = false;
            },
            Some(ch) => {
                if is_word_char(ch) {
                    value.push(ch);
                    cursor.advance();
                    proof {
                        assert(rem.skip(1) =~= orig.skip(n + 1));
                        assert(value@ =~= orig.take(n + 1));
                        assert(word_run_len(rem) == 1 + word_run_len(rem.skip(1)));
                    }
                } else {
                    going = false;
                }
            },
        }
    }
    let t = classify_word(&value);
    let ghost tm = t@;
    let mut tokens: Vec<Token> = Vec::new();
    tokens.push(t);
    proof {
        assert(tokens.deep_view() =~= seq![tm]);
    }
    tokens
}

/// A scan's outcome, given tokens already emitted in front of it.
pub open spec fn emitted_then(done: Seq<TokenModel>, r: Result<Seq<TokenModel>, LexError>) -> Result<
    Seq<TokenModel>,
    LexError,
> {
    match r {
        Ok(ts) => Ok(done + ts),
        Err(e) => Err(e),
    }
}

proof fn lemma_emitted_prepend(done: Seq<TokenModel>, t: TokenModel, r: Result<
    Seq<TokenModel>,
    LexError,
>)
    ensures
        emitted_then(done, prepend_token(t, r)) == emitted_then(done.push(t), r),
{
    match r {
        Ok(ts) => {
            assert(done + (seq![t] + ts) =~= done.push(t) + ts);
        },
        Err(_) => {},
    }
}

/// Scans the whole source text in one forward pass: whitespace skipped,
/// comments elided, every other character classified or fatal. On success
/// the tokens stand in source order; on failure the message names the first
/// offense.
pub fn tokenize(input: &str) -> (r: Result<Vec<Token>, String>)
    ensures
        match spec_tokenize(input@) {
            Ok(ts) => r matches Ok(v) && v.deep_view() == ts,
            Err(e) => r matches Err(m) && m@ == spec_lex_message(e),
        },
{
    let mut cursor = Cursor::new(input);
    let mut tokens: Vec<Token> = Vec::new();
    let mut going = true;
    proof {
        assert(tokens.deep_view() =~= Seq::<TokenModel>::empty());
        if spec_tokenize(input@) is Ok {
            assert(Seq::<TokenModel>::empty() + spec_tokenize(input@)->Ok_0 =~= spec_tokenize(
                input@,
            )->Ok_0);
        }
    }
    while going
        invariant
            cursor.wf(),
            spec_tokenize(input@) == emitted_then(
                tokens.deep_view(),
                spec_tokenize(cursor.remaining()),
            ),
            !going ==> cursor.remaining().len() == 0,
        decreases cursor.remaining().len() + (if going {
            1int
        } else {
            0
        }),
    {
        let ghost rem = cursor.remaining();
        let ghost done = tokens.deep_view();
        match cursor.peek() {
            None => {
                going = false;
            },
            Some(c) => {
                if c == ' ' || c == '\t' || c == '\n' {
                    cursor.advance();
                } else if c == '/' {
                    let second_slash = match cursor.peek_second() {
                        Some(c2) => c2 == '/',
                        None => false,
                    };
                    if second_slash {
                        cursor.advance();
                        cursor.advance();
                        proof {
                            assert(cursor.remaining() =~= rem.skip(2));
                            lemma_line_comment_rest_len(rem.skip(2));
                        }
                        let ghost entered = cursor.remaining();
                        let mut in_comment = true;
                        while in_comment
                            invariant
                                cursor.wf(),
                                in_comment ==> line_comment_rest(entered) == line_comment_rest(
                                    cursor.remaining(),
                                ),
                                !in_comment ==> cursor.remaining() == line_comment_rest(entered),
                            decreases cursor.remaining().len() + (if in_comment {
                                1int
                            } else {
                                0
                            }),
                        {
                            match cursor.peek() {
                                None => {
                                    in_comment = false;
                                },
                                Some(cc) => {
                                    if cc == '\n' {
                                        in_comment = false;
                                    } else {
                                        cursor.advance();
                                    }
                                },
                            }
                        }
                        proof {
                            assert(spec_tokenize(rem) == spec_tokenize(
                                line_comment_rest(rem.skip(2)),
                            ));
                        }
                    } else {
                        push_token(&mut tokens, Token::Slash);
                        cursor.advance();
                        proof {
                            assert(spec_tokenize(rem) == prepend_token(
                                TokenModel::Slash,
                                spec_tokenize(rem.skip(1)),
                            ));
                            lemma_emitted_prepend(done, TokenModel::Slash, spec_tokenize(rem.skip(1)));
                        }
                    }
                } else if c == '(' {
                    push_token(&mut tokens, Token::LParen);
                    cursor.advance();
                    proof {
                        lemma_emitted_prepend(done, TokenModel::LParen, spec_tokenize(rem.skip(1)));
                    }
                } else if c == ')' {
                    push_token(&mut tokens, Token::RParen);
                    cursor.advance();
                    proof {
                        lemma_emitted_prepend(done, TokenModel::RParen, spec_tokenize(rem.skip(1)));
                    }
                } else if c == '[' {
                    push_token(&mut tokens, Token::LBracket);
                    cursor.advance();
                    proof {
                        lemma_emitted_prepend(done, TokenModel::LBracket, spec_tokenize(rem.skip(1)));
                    }
                } else if c == ']' {
                    push_token(&mut tokens, Token::RBracket);
                    cursor.advance();
                    proof {
                        lemma_emitted_prepend(done, TokenModel::RBracket, spec_tokenize(rem.skip(1)));
                    }
                } else if c == '{' {
                    push_token(&mut tokens, Token::LBrace);
                    cursor.advance();
                    proof {
                        lemma_emitted_prepend(done, TokenModel::LBrace, spec_tokenize(rem.skip(1)));
                    }
                } else if c == '}' {
                    push_token(&mut tokens, Token::RBrace);
                    cursor.advance();
                    proof {
                        lemma_emitted_prepend(done, TokenModel::RBrace, spec_tokenize(rem.skip(1)));
                    }
                } else if c == '+' {
                    push_token(&mut tokens, Token::Plus);
                    cursor.advance();
                    proof {
                        lemma_emitted_prepend(done, TokenModel::Plus, spec_tokenize(rem.skip(1)));
                    }
                } else if c == '-' {
                    push_token(&mut tokens, Token::Minus);
                    cursor.advance();
                    proof {
                        lemma_emitted_prepend(done, TokenModel::Minus, spec_tokenize(rem.skip(1)));
                    }
                } else if c == '*' {
                    push_token(&mut tokens, Token::Multiply);
                    cursor.advance();
                    proof {
                        lemma_emitted_prepend(done, TokenModel::Multiply, spec_tokenize(rem.skip(1)));
                    }
                } else if c == '=' {
                    push_token(&mut tokens, Token::Equals);
                    cursor.advance();
                    proof {
                        lemma_emitted_prepend(done, TokenModel::Equals, spec_tokenize(rem.skip(1)));
                    }
                } else if c == '"' {
                    proof {
                        lemma_split_at_quote_len(rem.skip(1));
                    }
                    match tokenize_string(&mut cursor) {
                        Ok(t) => {
                            let ghost tm = t@;
                            push_token(&mut tokens, t);
                            proof {
                                lemma_emitted_prepend(done, tm, spec_tokenize(cursor.remaining()));
                            }
                        },
                        Err(m) => {
                            return Err(m);
                        },
                    }
                } else {
                    let alpha = is_alphanumeric_char(c);
                    if alpha || c == '_' {
                        proof {
                            lemma_word_run_len(rem);
                            assert(word_run_len(rem) >= 1);
                        }
                        let ghost n = word_run_len(rem) as int;
                        let ghost t = classify(rem.take(n));
                        let mut ws = tokenize_multi_char(&mut cursor);
                        tokens.append(&mut ws);
                        proof {
                            assert(spec_tokenize(rem) == prepend_token(t, spec_tokenize(rem.skip(n))));
                            lemma_emitted_prepend(done, t, spec_tokenize(rem.skip(n)));
                            assert(tokens.deep_view() =~= done.push(t));
                        }
                    } else {
                        proof {
                            assert(spec_tokenize(rem) == Err::<Seq<TokenModel>, LexError>(
                                LexError::UnexpectedCharacter(c),
                            ));
                        }
                        let mut m = String::from_str("Unexpected token: ");
                        push_char(&mut m, c);
                        return Err(m);
                    }
                }
            },
        }
    }
    proof {
        assert(tokens.deep_view() + Seq::<TokenModel>::empty() =~= tokens.deep_view());
    }
    Ok(tokens)
}

} // verus!
