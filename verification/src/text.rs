//! Text as bytes: the language is read byte by byte, and each byte stands
//! for the character with the same code.

use vstd::prelude::*;

verus! {

/// Each byte read as the character with that code.
pub open spec fn chars_of(bytes: Seq<u8>) -> Seq<char> {
    bytes.map_values(|b: u8| b as char)
}

/// `String::push` of the standard library: appends one character to the
/// end of the string and changes nothing else.
#[verifier::external_body]
fn push_char(text: &mut String, c: char)
    ensures
        final(text)@ == old(text)@.push(c),
{
    text.push(c)
}

/// The string whose characters are the bytes `bytes[from..to]`.
pub fn string_of(bytes: &Vec<u8>, from: usize, to: usize) -> (s: String)
    requires
        from <= to <= bytes.len(),
    ensures
        s@ == chars_of(bytes@.subrange(from as int, to as int)),
{
    let mut s = String::new();
    let mut i: usize = from;
    while i < to
        invariant
            from <= i <= to <= bytes.len(),
            s@ == chars_of(bytes@.subrange(from as int, i as int)),
        decreases to - i,
    {
        push_char(&mut s, bytes[i] as char);
        proof {
            assert(bytes@.subrange(from as int, i + 1) =~= bytes@.subrange(
                from as int,
                i as int,
            ).push(bytes[i as int]));
            assert(s@ =~= chars_of(bytes@.subrange(from as int, i + 1)));
        }
        i = i + 1;
    }
    s
}

/// The string whose characters are the given bytes.
pub fn string_of_bytes(bytes: &Vec<u8>) -> (s: String)
    ensures
        s@ == chars_of(bytes@),
{
    proof {
        assert(bytes@.subrange(0, bytes.len() as int) =~= bytes@);
    }
    string_of(bytes, 0, bytes.len())
}

/// Whether a string reads as the given literal.
pub fn same_text(s: &String, literal: &str) -> (b: bool)
    ensures
        b == (s@ == literal@),
{
    let other = String::from_str(literal);
    *s == other
}

} // verus!
