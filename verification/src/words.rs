//! Classification of a word run: unsigned integer, float literal, boolean,
//! keyword, or identifier, tried in that fixed order so that purely-digit
//! text never reaches the float rule.

use crate::text::string_of;
use crate::tokenizer::{Token, TokenModel};
use vstd::prelude::*;

verus! {

/// An ASCII decimal digit.
pub open spec fn is_digit_char(c: char) -> bool {
    48 <= c as u32 && c as u32 <= 57
}

/// The numeric value of a digit; zero for anything else, which keeps the
/// accumulated value monotone in the length of the text.
pub open spec fn digit_val(c: char) -> nat {
    if is_digit_char(c) {
        (c as u32 - 48) as nat
    } else {
        0
    }
}

pub open spec fn all_digits(w: Seq<char>) -> bool {
    forall|i: int| 0 <= i < w.len() ==> is_digit_char(#[trigger] w[i])
}

/// The value of a digit string read in base ten.
pub open spec fn digits_value(w: Seq<char>) -> nat
    decreases w.len(),
{
    if w.len() == 0 {
        0
    } else {
        digits_value(w.drop_last()) * 10 + digit_val(w.last())
    }
}

/// The texts that parse as an unsigned 64-bit integer: at least one digit,
/// nothing but digits, and a value that fits.
pub open spec fn is_u64_text(w: Seq<char>) -> bool {
    w.len() >= 1 && all_digits(w) && digits_value(w) <= u64::MAX
}

/// How many digits stand at the front of `w`.
pub open spec fn digit_prefix_len(w: Seq<char>) -> nat
    decreases w.len(),
{
    if w.len() == 0 || !is_digit_char(w[0]) {
        0
    } else {
        1 + digit_prefix_len(w.skip(1))
    }
}

/// Whether `c` is the letter `l` (given in lower case) up to ASCII case.
pub open spec fn matches_ci(c: char, l: char) -> bool {
    c == l || c as u32 + 32 == l as u32
}

/// The case-insensitive special float spellings: inf, infinity, nan.
pub open spec fn is_special_float_text(w: Seq<char>) -> bool {
    (w.len() == 3 && matches_ci(w[0], 'i') && matches_ci(w[1], 'n') && matches_ci(w[2], 'f')) || (
    w.len() == 8 && matches_ci(w[0], 'i') && matches_ci(w[1], 'n') && matches_ci(w[2], 'f')
        && matches_ci(w[3], 'i') && matches_ci(w[4], 'n') && matches_ci(w[5], 'i') && matches_ci(
        w[6],
        't',
    ) && matches_ci(w[7], 'y')) || (w.len() == 3 && matches_ci(w[0], 'n') && matches_ci(w[1], 'a')
        && matches_ci(w[2], 'n'))
}

/// An exponent part: `e` or `E` followed by at least one digit, digits to the
/// end.
pub open spec fn is_exponent_text(w: Seq<char>) -> bool {
    w.len() >= 2 && (w[0] == 'e' || w[0] == 'E') && all_digits(w.skip(1))
}

/// A decimal float: digits, or digits with one dot and at least one digit on
/// some side of it, either form optionally closed by an exponent part. This
/// is Rust's float-literal grammar; a word run never holds a sign, so the
/// sign rules are left out.
pub open spec fn is_decimal_float_text(w: Seq<char>) -> bool {
    let a = digit_prefix_len(w) as int;
    if a == w.len() {
        a >= 1
    } else if w[a] == '.' {
        let b = digit_prefix_len(w.skip(a + 1)) as int;
        let m = a + 1 + b;
        a + b >= 1 && (m == w.len() || is_exponent_text(w.skip(m)))
    } else {
        a >= 1 && is_exponent_text(w.skip(a))
    }
}

/// The texts that parse as a 64-bit float.
pub open spec fn is_f64_text(w: Seq<char>) -> bool {
    is_special_float_text(w) || is_decimal_float_text(w)
}

/// What the word reader makes of an accumulated run, first match wins:
/// integer, float, boolean, keyword, identifier.
pub open spec fn classify(w: Seq<char>) -> TokenModel {
    if is_u64_text(w) {
        TokenModel::Number(digits_value(w) as u64)
    } else if is_f64_text(w) {
        TokenModel::Float(w)
    } else if w == "true"@ {
        TokenModel::Bool(true)
    } else if w == "false"@ {
        TokenModel::Bool(false)
    } else if w == "let"@ {
        TokenModel::Let
    } else if w == "import"@ {
        TokenModel::Import
    } else {
        TokenModel::Identifier(w)
    }
}

/// The digit prefix stops at the first non-digit and never passes the end.
pub proof fn lemma_digit_prefix(s: Seq<char>)
    ensures
        digit_prefix_len(s) <= s.len(),
        forall|i: int| 0 <= i < digit_prefix_len(s) ==> is_digit_char(#[trigger] s[i]),
        digit_prefix_len(s) < s.len() ==> !is_digit_char(s[digit_prefix_len(s) as int]),
    decreases s.len(),
{
    if s.len() == 0 || !is_digit_char(s[0]) {
    } else {
        lemma_digit_prefix(s.skip(1));
        assert forall|i: int| 0 <= i < digit_prefix_len(s) implies is_digit_char(
            #[trigger] s[i],
        ) by {
            if i >= 1 {
                assert(s.skip(1)[i - 1] == s[i]);
            }
        }
        if digit_prefix_len(s) < s.len() {
            assert(s.skip(1)[digit_prefix_len(s.skip(1)) as int] == s[digit_prefix_len(s) as int]);
        }
    }
}

/// A text is all digits exactly when its digit prefix reaches the end.
pub proof fn lemma_digit_prefix_all(s: Seq<char>)
    ensures
        all_digits(s) <==> digit_prefix_len(s) == s.len(),
{
    lemma_digit_prefix(s);
    if all_digits(s) && digit_prefix_len(s) < s.len() {
        assert(is_digit_char(s[digit_prefix_len(s) as int]));
    }
}

/// Reading more digits never shrinks the value.
pub proof fn lemma_digits_value_prefix_le(w: Seq<char>, k: int)
    requires
        0 <= k <= w.len(),
    ensures
        digits_value(w.take(k)) <= digits_value(w),
    decreases w.len() - k,
{
    if k == w.len() {
        assert(w.take(k) =~= w);
    } else {
        assert(w.take(k + 1).drop_last() =~= w.take(k));
        assert(digits_value(w.take(k + 1)) == digits_value(w.take(k)) * 10 + digit_val(
            w.take(k + 1).last(),
        ));
        lemma_digits_value_prefix_le(w, k + 1);
    }
}

/// The length of the digit run that starts at `from`.
fn digit_run_len(chars: &Vec<char>, from: usize) -> (n: usize)
    requires
        from <= chars@.len(),
    ensures
        from + n <= chars@.len(),
        n == digit_prefix_len(chars@.skip(from as int)),
{
    let mut i: usize = from;
    while i < chars.len()
        invariant
            from <= i <= chars@.len(),
            digit_prefix_len(chars@.skip(from as int)) == (i - from) + digit_prefix_len(
                chars@.skip(i as int),
            ),
        decreases chars@.len() - i,
    {
        let c = chars[i];
        let u = c as u32;
        if !(48 <= u && u <= 57) {
            proof {
                assert(chars@.skip(i as int)[0] == chars@[i as int]);
            }
            return i - from;
        }
        proof {
            assert(chars@.skip(i as int)[0] == chars@[i as int]);
            assert(chars@.skip(i as int).skip(1) =~= chars@.skip(i + 1));
            assert(digit_prefix_len(chars@.skip(i as int)) == 1 + digit_prefix_len(
                chars@.skip(i + 1),
            ));
        }
        i = i + 1;
    }
    proof {
        assert(chars@.skip(i as int) =~= Seq::<char>::empty());
    }
    i - from
}

/// Reads the run as an unsigned 64-bit integer, `None` when a character is
/// no digit or the value does not fit.
fn parse_u64_digits(chars: &Vec<char>) -> (r: Option<u64>)
    ensures
        match r {
            Some(n) => is_u64_text(chars@) && n == digits_value(chars@),
            None => !is_u64_text(chars@),
        },
{
    if chars.len() == 0 {
        return None;
    }
    let mut acc: u64 = 0;
    let mut i: usize = 0;
    while i < chars.len()
        invariant
            i <= chars@.len(),
            forall|j: int| 0 <= j < i ==> is_digit_char(#[trigger] chars@[j]),
            acc == digits_value(chars@.take(i as int)),
        decreases chars@.len() - i,
    {
        let c = chars[i];
        let u = c as u32;
        if !(48 <= u && u <= 57) {
            proof {
                assert(!is_digit_char(chars@[i as int]));
            }
            return None;
        }
        let d: u64 = (u - 48) as u64;
        proof {
            assert(chars@.take(i + 1).drop_last() =~= chars@.take(i as int));
            assert(chars@.take(i + 1).last() == chars@[i as int]);
            assert(digits_value(chars@.take(i + 1)) == acc * 10 + d);
        }
        if acc > 1844674407370955161 || (acc == 1844674407370955161 && d > 5) {
            proof {
                lemma_digits_value_prefix_le(chars@, i + 1);
                assert(chars@.take(chars@.len() as int) =~= chars@);
                assert(digits_value(chars@) > u64::MAX);
            }
            return None;
        }
        acc = acc * 10 + d;
        i = i + 1;
    }
    proof {
        assert(chars@.take(i as int) =~= chars@);
    }
    Some(acc)
}

/// Whether `c` is the lower-case letter `l` up to ASCII case.
fn char_ci(c: char, l: char) -> (r: bool)
    ensures
        r == matches_ci(c, l),
{
    c == l || (c as u32) + 32 == (l as u32)
}

/// Recognizes the special float spellings inf, infinity and nan, in any
/// case.
fn is_special_float(chars: &Vec<char>) -> (r: bool)
    ensures
        r == is_special_float_text(chars@),
{
    if chars.len() == 3 {
        let inf = char_ci(chars[0], 'i') && char_ci(chars[1], 'n') && char_ci(chars[2], 'f');
        let nan = char_ci(chars[0], 'n') && char_ci(chars[1], 'a') && char_ci(chars[2], 'n');
        inf || nan
    } else if chars.len() == 8 {
        char_ci(chars[0], 'i') && char_ci(chars[1], 'n') && char_ci(chars[2], 'f') && char_ci(
            chars[3],
            'i',
        ) && char_ci(chars[4], 'n') && char_ci(chars[5], 'i') && char_ci(chars[6], 't') && char_ci(
            chars[7],
            'y',
        )
    } else {
        false
    }
}

/// Recognizes an exponent part standing at position `p`.
fn is_exponent_at(chars: &Vec<char>, p: usize) -> (r: bool)
    requires
        p < chars@.len(),
    ensures
        r == is_exponent_text(chars@.skip(p as int)),
{
    let n = chars.len();
    let e = chars[p];
    if !(e == 'e' || e == 'E') {
        proof {
            assert(chars@.skip(p as int)[0] == chars@[p as int]);
        }
        return false;
    }
    let d = digit_run_len(chars, p + 1);
    proof {
        assert(chars@.skip(p as int)[0] == chars@[p as int]);
        assert(chars@.skip(p as int).skip(1) =~= chars@.skip(p + 1));
        lemma_digit_prefix(chars@.skip(p + 1));
        lemma_digit_prefix_all(chars@.skip(p + 1));
    }
    d >= 1 && p + 1 + d == n
}

/// Recognizes the decimal float shapes.
fn is_decimal_float(chars: &Vec<char>) -> (r: bool)
    ensures
        r == is_decimal_float_text(chars@),
{
    proof {
        assert(chars@.skip(0) =~= chars@);
    }
    let a = digit_run_len(chars, 0);
    if a == chars.len() {
        return a >= 1;
    }
    let c = chars[a];
    if c == '.' {
        let b = digit_run_len(chars, a + 1);
        if a == 0 && b == 0 {
            return false;
        }
        let m = a + 1 + b;
        if m == chars.len() {
            return true;
        }
        proof {
            lemma_digit_prefix(chars@.skip(a + 1));
        }
        is_exponent_at(chars, m)
    } else {
        if a == 0 {
            return false;
        }
        is_exponent_at(chars, a)
    }
}

/// Recognizes the texts that parse as a 64-bit float.
fn is_float_text(chars: &Vec<char>) -> (r: bool)
    ensures
        r == is_f64_text(chars@),
{
    is_special_float(chars) || is_decimal_float(chars)
}

/// Classifies an accumulated word run as the token it stands for.
pub fn classify_word(chars: &Vec<char>) -> (t: Token)
    ensures
        t@ == classify(chars@),
{
    match parse_u64_digits(chars) {
        Some(n) => {
            return Token::Number(n);
        },
        None => {},
    }
    if is_float_text(chars) {
        return Token::Float(string_of(chars));
    }
    let s = string_of(chars);
    if s == String::from_str("true") {
        Token::Bool(true)
    } else if s == String::from_str("false") {
        Token::Bool(false)
    } else if s == String::from_str("let") {
        Token::Let
    } else if s == String::from_str("import") {
        Token::Import
    } else {
        Token::Identifier(s)
    }
}

} // verus!
