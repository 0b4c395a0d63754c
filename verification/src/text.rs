//! Lines as bytes and as text: case folding for queries and the rendering
//! of a line as displayable text.

use vstd::prelude::*;
use vstd::utf8::is_ascii_chars;

verus! {

/// An upper-case ASCII letter becomes its lower-case letter; every other
/// byte stays.
pub open spec fn lower_byte(b: u8) -> u8 {
    if 65 <= b <= 90 {
        (b + 32) as u8
    } else {
        b
    }
}

/// A line with its ASCII letters folded to lower case.
pub open spec fn folded(line: Seq<u8>) -> Seq<u8> {
    Seq::new(line.len(), |i: int| lower_byte(line[i]))
}

/// Folds the ASCII letters of a line to lower case.
pub fn fold_case(line: &[u8]) -> (out: Vec<u8>)
    ensures
        out@ == folded(line@),
{
    let mut out: Vec<u8> = Vec::with_capacity(line.len());
    let mut i: usize = 0;
    while i < line.len()
        invariant
            i <= line.len(),
            out@ == folded(line@).take(i as int),
        decreases line.len() - i,
    {
        let b: u8 = line[i];
        let low: u8 = if 65 <= b && b <= 90 {
            b + 32
        } else {
            b
        };
        out.push(low);
        assert(out@ =~= folded(line@).take(i + 1));
        i += 1;
    }
    assert(out@ =~= folded(line@));
    out
}

/// An ASCII byte stays; any other byte becomes a space.
pub open spec fn sanitized_byte(b: u8) -> u8 {
    if b < 128 {
        b
    } else {
        32
    }
}

/// A line with every non-ASCII byte replaced by a space.
pub open spec fn sanitized(bytes: Seq<u8>) -> Seq<u8> {
    Seq::new(bytes.len(), |i: int| sanitized_byte(bytes[i]))
}

/// The number of non-ASCII bytes in a line.
pub open spec fn non_ascii_count(bytes: Seq<u8>) -> nat
    decreases bytes.len(),
{
    if bytes.len() == 0 {
        0
    } else {
        non_ascii_count(bytes.drop_last()) + if bytes.last() >= 128 {
            1nat
        } else {
            0nat
        }
    }
}

/// A line as displayable text: one character for every byte, a space where
/// the byte is not ASCII.
pub open spec fn rendered(bytes: Seq<u8>) -> Seq<char> {
    Seq::new(bytes.len(), |i: int| sanitized_byte(bytes[i]) as char)
}

/// Rendered text is ASCII and has one character for every byte.
pub proof fn lemma_rendered_is_ascii(bytes: Seq<u8>)
    ensures
        is_ascii_chars(rendered(bytes)),
        rendered(bytes).len() == bytes.len(),
{
    assert forall|i: int| 0 <= i < rendered(bytes).len() implies '\0' <= #[trigger] rendered(
        bytes,
    )[i] <= '\u{7f}' by {
        let b = sanitized_byte(bytes[i]);
        assert(b < 128);
        assert(b as char as u32 == b as u32);
    }
}

/// Replaces every non-ASCII byte of a line by a space, and tells how many
/// were replaced.
pub fn replace_non_utf8_with_space(bytes: &mut Vec<u8>) -> (replaced: usize)
    ensures
        final(bytes)@ == sanitized(old(bytes)@),
        replaced == non_ascii_count(old(bytes)@),
{
    let mut replaced: usize = 0;
    let mut i: usize = 0;
    while i < bytes.len()
        invariant
            i <= bytes.len(),
            bytes@.len() == old(bytes)@.len(),
            replaced == non_ascii_count(old(bytes)@.take(i as int)),
            replaced <= i,
            forall|j: int| 0 <= j < i ==> #[trigger] bytes@[j] == sanitized_byte(old(bytes)@[j]),
            forall|j: int| i <= j < bytes@.len() ==> #[trigger] bytes@[j] == old(bytes)@[j],
        decreases bytes.len() - i,
    {
        assert(old(bytes)@.take(i + 1).drop_last() =~= old(bytes)@.take(i as int));
        if bytes[i] >= 128 {
            bytes[i] = 32;
            replaced += 1;
        }
        i += 1;
    }
    assert(old(bytes)@.take(old(bytes)@.len() as int) =~= old(bytes)@);
    assert(bytes@ =~= sanitized(old(bytes)@));
    replaced
}

/// Turns ASCII bytes into the text they spell.
///
/// Calls `String::from_utf8_lossy`, which returns valid UTF-8 unchanged.
/// ASCII bytes are valid UTF-8 with one character for each byte, and the
/// contract claims exactly that: the text has the characters of the bytes.
#[verifier::external_body]
fn ascii_to_string(bytes: &Vec<u8>) -> (text: String)
    requires
        forall|i: int| 0 <= i < bytes@.len() ==> bytes@[i] < 128,
    ensures
        text@ == Seq::new(bytes@.len(), |i: int| bytes@[i] as char),
{
    String::from_utf8_lossy(bytes).into_owned()
}

/// Renders a line as displayable text, a space standing for every
/// non-ASCII byte.
pub fn bytes_to_utf8_string(bytes: &[u8]) -> (text: String)
    ensures
        text@ == rendered(bytes@),
        is_ascii_chars(text@),
{
    let mut modified_bytes: Vec<u8> = vstd::slice::slice_to_vec(bytes);
    let _ = replace_non_utf8_with_space(&mut modified_bytes);
    let text = ascii_to_string(&modified_bytes);
    proof {
        assert(text@ =~= rendered(bytes@));
        lemma_rendered_is_ascii(bytes@);
    }
    text
}

} // verus!
