//! Character classification and the few conversions between `str`, `String`
//! and `Vec<char>` that the scanner needs.

use vstd::prelude::*;
use vstd::string::*;

verus! {

/// Whether a character beyond ASCII counts as alphanumeric. This names the
/// result of `char::is_alphanumeric` on such characters, which depends on the
/// character alone.
pub uninterp spec fn wide_alphanumeric(c: char) -> bool;

/// The scanner's alphanumeric class: within ASCII exactly the letters and
/// digits, beyond ASCII whatever `char::is_alphanumeric` accepts.
pub open spec fn alphanumeric_char(c: char) -> bool {
    if (c as u32) < 128 {
        (48 <= c as u32 && c as u32 <= 57) || (65 <= c as u32 && c as u32 <= 90) || (97
            <= c as u32 && c as u32 <= 122)
    } else {
        wide_alphanumeric(c)
    }
}

/// Relies on `char::is_alphanumeric`: within ASCII it accepts exactly the
/// letters and digits, and beyond ASCII its result depends on the character
/// alone.
#[verifier::external_body]
pub(crate) fn is_alphanumeric_char(c: char) -> (r: bool)
    ensures
        r == alphanumeric_char(c),
        (c as u32) >= 128 ==> r == wide_alphanumeric(c),
{
    c.is_alphanumeric()
}

/// Relies on `String::push`: it appends the given character to the end of the
/// string.
#[verifier::external_body]
pub(crate) fn push_char(s: &mut String, c: char)
    ensures
        final(s)@ == old(s)@.push(c),
{
    s.push(c);
}

/// The characters of `text`, in order.
pub fn chars_of(text: &str) -> (r: Vec<char>)
    ensures
        r@ == text@,
{
    let n = text.unicode_len();
    let mut r: Vec<char> = Vec::new();
    let mut i: usize = 0;
    while i < n
        invariant
            i <= n,
            n == text@.len(),
            r@ == text@.take(i as int),
        decreases n - i,
    {
        let c = text.get_char(i);
        r.push(c);
        i = i + 1;
        proof {
            assert(r@ =~= text@.take(i as int));
        }
    }
    proof {
        assert(r@ =~= text@);
    }
    r
}

/// The string holding exactly the characters of `v`, in order.
pub fn string_of(v: &Vec<char>) -> (r: String)
    ensures
        r@ == v@,
{
    let mut r = String::new();
    let mut i: usize = 0;
    while i < v.len()
        invariant
            i <= v@.len(),
            r@ == v@.take(i as int),
        decreases v@.len() - i,
    {
        push_char(&mut r, v[i]);
        i = i + 1;
        proof {
            assert(r@ =~= v@.take(i as int));
        }
    }
    proof {
        assert(r@ =~= v@);
    }
    r
}

} // verus!
