use vstd::prelude::*;

verus! {

/// Whether Unicode gives the character the property `Uppercase`.
pub uninterp spec fn unicode_uppercase(c: char) -> bool;

/// The first character of the uppercase mapping that Unicode gives the
/// character. For most characters the mapping has one character; where it
/// has more, as for `ß`, the rest is dropped.
pub uninterp spec fn uppercase_first(c: char) -> char;

/// `char::is_uppercase` of std: decided by the Unicode tables that std
/// carries, so a function of the character alone.
pub assume_specification[ char::is_uppercase ](c: char) -> (b: bool)
    ensures
        b == unicode_uppercase(c),
;

/// `char::to_uppercase` of std, of which the first character is taken. The
/// mapping never is empty, and it depends on the character alone.
#[verifier::external_body]
pub(crate) fn to_uppercase_first(c: char) -> (upper: char)
    ensures
        upper == uppercase_first(c),
{
    c.to_uppercase().next().unwrap()
}

/// `String::push` of std appends one character.
pub assume_specification[ String::push ](s: &mut String, ch: char)
    ensures
        final(s)@ == old(s)@.push(ch),
;

/// Appends the characters to the string, in order.
pub fn push_chars(s: &mut String, chars: &[char])
    ensures
        final(s)@ == old(s)@ + chars@,
{
    let mut i: usize = 0;
    while i < chars.len()
        invariant
            i <= chars.len(),
            s@ == old(s)@ + chars@.take(i as int),
        decreases chars.len() - i,
    {
        s.push(chars[i]);
        i += 1;
        assert(chars@.take(i as int) == chars@.take(i - 1).push(chars@[i - 1]));
    }
    assert(chars@.take(i as int) == chars@);
}

/// A string of the characters, in order.
pub fn string_from_chars(chars: &[char]) -> (s: String)
    ensures
        s@ == chars@,
{
    let mut s = String::new();
    push_chars(&mut s, chars);
    s
}

} // verus!
