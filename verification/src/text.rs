use vstd::prelude::*;

verus! {

/// Whether the non-ASCII character `c` has the Unicode `White_Space` property, as
/// `char::is_whitespace` reports it.
pub uninterp spec fn white_space(c: char) -> bool;

/// Whether the non-ASCII character `c` has the Unicode `XID_Continue` property, as
/// `unicode_ident::is_xid_continue` reports it.
pub uninterp spec fn xid_continue(c: char) -> bool;

/// Whether `c` is one of the ASCII characters that can continue an identifier.
pub open spec fn ascii_ident_char(c: char) -> bool {
    ||| ('0' <= c && c <= '9')
    ||| ('a' <= c && c <= 'z')
    ||| ('A' <= c && c <= 'Z')
    ||| c == '_'
}

/// Whether `c` is an ASCII character.
pub open spec fn ascii_char(c: char) -> bool {
    c < '\u{80}'
}

/// Whether `c` is ASCII whitespace: the space, or tab through carriage return.
pub open spec fn ascii_whitespace(c: char) -> bool {
    c == ' ' || ('\t' <= c && c <= '\r')
}

/// Whether `c` is whitespace in Unicode's sense (`White_Space`).
pub open spec fn whitespace_char(c: char) -> bool {
    if ascii_char(c) {
        ascii_whitespace(c)
    } else {
        white_space(c)
    }
}

/// Whether `c` can continue an identifier (`XID_Continue`). No whitespace character can.
pub open spec fn ident_continue_char(c: char) -> bool {
    if ascii_char(c) {
        ascii_ident_char(c)
    } else {
        !white_space(c) && xid_continue(c)
    }
}

/// Calls `char::is_whitespace`, which reports the Unicode `White_Space` property.
/// Claimed: on an ASCII character the result holds exactly of the space and of the
/// control characters tab through carriage return (U+0009..U+000D); on any other
/// character it is `white_space(c)`. Which non-ASCII characters have the property is
/// left to that name.
#[verifier::external_body]
pub(crate) fn is_whitespace(c: char) -> (r: bool)
    ensures
        r == whitespace_char(c),
        c >= '\u{80}' ==> r == white_space(c),
{
    c.is_whitespace()
}

/// Calls `unicode_ident::is_xid_continue`.
/// Claimed: on ASCII input the crate answers from a bit table that holds exactly the
/// digits, the ASCII letters and `_`; on other input the result is `xid_continue(c)`,
/// and it is false wherever `white_space(c)` holds: the crate's tables give none of the
/// `White_Space` code points (U+0085, U+00A0, U+1680, U+2000..U+200A, U+2028, U+2029,
/// U+202F, U+205F, U+3000) the `XID_Continue` property. Which other characters have it
/// is left to that name.
#[verifier::external_body]
pub(crate) fn is_xid_continue(c: char) -> (r: bool)
    ensures
        r == ident_continue_char(c),
        c >= '\u{80}' ==> r == (!white_space(c) && xid_continue(c)),
{
    unicode_ident::is_xid_continue(c)
}

/// Calls `String::push`: appends `c` to `s`.
#[verifier::external_body]
pub(crate) fn push_char(s: &mut String, c: char)
    ensures
        final(s)@ == old(s)@.push(c),
{
    s.push(c)
}

/// The characters of `s`, in order.
pub fn chars_of(s: &str) -> (v: Vec<char>)
    ensures
        v@ == s@,
{
    let mut v: Vec<char> = Vec::new();
    for c in it: s.chars()
        invariant
            v@ == it.seq().take(it.index()),
            it.seq() == s@,
    {
        v.push(c);
    }
    v
}

/// A string made of the characters of `v`, in order.
pub fn string_of(v: &Vec<char>) -> (s: String)
    ensures
        s@ == v@,
{
    let mut s = String::new();
    for i in 0..v.len()
        invariant
            s@ == v@.take(i as int),
    {
        push_char(&mut s, v[i]);
        assert(v@.take(i + 1) == v@.take(i as int).push(v@[i as int]));
    }
    assert(v@.take(v.len() as int) == v@);
    s
}

} // verus!
