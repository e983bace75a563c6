//! Small executable helpers over strings and characters that the codec and
//! the prompt builder share.

use vstd::prelude::*;
use vstd::string::StrSliceExecFns;

verus! {

/// Relies on `String::push`: appends one character at the end of the string.
#[verifier::external_body]
pub(crate) fn push_char(s: &mut String, c: char)
    ensures
        final(s)@ == old(s)@.push(c),
{
    s.push(c);
}

/// Relies on `char::from_u32`: returns the character with scalar value `u`.
/// `char::from_u32` returns `Some` exactly on Unicode scalar values (not a
/// surrogate, at most 0x10FFFF), which the precondition guarantees.
#[verifier::external_body]
pub(crate) fn char_from_scalar(u: u32) -> (r: char)
    requires
        u < 0xD800 || (0xE000 <= u && u <= 0x10FFFF),
    ensures
        r == u as char,
{
    char::from_u32(u).unwrap()
}

/// The characters of `s`, one vector element per character.
pub fn str_chars(s: &str) -> (r: Vec<char>)
    ensures
        r@ == s@,
{
    let n = s.unicode_len();
    let mut out: Vec<char> = Vec::new();
    let mut i: usize = 0;
    while i < n
        invariant
            n == s@.len(),
            i <= n,
            out@ == s@.take(i as int),
        decreases n - i,
    {
        out.push(s.get_char(i));
        i = i + 1;
        proof {
            assert(out@ =~= s@.take(i as int));
        }
    }
    proof {
        assert(s@.take(n as int) =~= s@);
    }
    out
}

/// Casting a character to its scalar value and back gives the character.
pub proof fn lemma_char_cast_roundtrip(c: char)
    ensures
        (c as u32) as char == c,
{
}

} // verus!
