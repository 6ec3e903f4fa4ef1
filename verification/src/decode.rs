//! Percent-decoding of what a path holds.

use vstd::prelude::*;
use vstd::utf8::{decode_utf8, encode_utf8, valid_utf8};

use crate::model::Hit;
use crate::text::texts;

verus! {

/// The text with its percent-encoded bytes decoded, and what is then no UTF-8 replaced.
pub uninterp spec fn percent_decoded(text: Seq<char>) -> Seq<char>;

/// The value of a hexadecimal digit.
pub open spec fn hex_value(digit: u8) -> Option<u8> {
    if 48 <= digit <= 57 {
        Some((digit - 48) as u8)
    } else if 65 <= digit <= 70 {
        Some((digit - 55) as u8)
    } else if 97 <= digit <= 102 {
        Some((digit - 87) as u8)
    } else {
        None
    }
}

/// The bytes with every percent sign that two hexadecimal digits follow replaced, with the digits,
/// by the byte that the digits stand for.
pub open spec fn unescaped(bytes: Seq<u8>) -> Seq<u8>
    decreases bytes.len(),
{
    if bytes.len() == 0 {
        bytes
    } else if bytes.len() >= 3 && bytes[0] == 37 && hex_value(bytes[1]) is Some && hex_value(
        bytes[2],
    ) is Some {
        seq![(hex_value(bytes[1])->0 * 16 + hex_value(bytes[2])->0) as u8] + unescaped(
            bytes.skip(3),
        )
    } else {
        seq![bytes[0]] + unescaped(bytes.skip(1))
    }
}

/// Whether a text is what decoding another one gives: if the unescaped bytes are UTF-8 it is the
/// text that they stand for, and if there is nothing to decode it is the same text.
pub open spec fn decodes_to(text: Seq<char>, result: Seq<char>) -> bool {
    let bytes = unescaped(encode_utf8(text));
    &&& result == percent_decoded(text)
    &&& valid_utf8(bytes) ==> result == decode_utf8(bytes)
    &&& !text.contains('%') ==> result == text
}

/// Decodes the percent-encoded bytes of a text.
///
/// Trusted: `percent_encoding::percent_decode_str` decodes every percent sign that two hexadecimal
/// digits follow, and `decode_utf8_lossy` reads the bytes as UTF-8. The result depends on the text
/// alone. What is put in the place of bytes that are not UTF-8 is only named.
#[verifier::external_body]
pub(crate) fn decode(text: &str) -> (r: String)
    ensures
        r@ == percent_decoded(text@),
        decodes_to(text@, r@),
{
    percent_encoding::percent_decode_str(text).decode_utf8_lossy().to_string()
}

/// Every text decoded.
pub open spec fn all_decoded(list: Seq<Seq<char>>) -> Seq<Seq<char>> {
    list.map_values(|s: Seq<char>| percent_decoded(s))
}

/// Decodes every text of a list.
pub fn decode_all(list: &Vec<String>) -> (r: Vec<String>)
    ensures
        texts(r@) == all_decoded(texts(list@)),
        forall|i: int| 0 <= i < list@.len() ==> decodes_to(list@[i]@, #[trigger] texts(r@)[i]),
{
    let mut out: Vec<String> = Vec::new();
    let mut i: usize = 0;
    while i < list.len()
        invariant
            i <= list@.len(),
            out@.len() == i,
            forall|j: int| 0 <= j < i ==> decodes_to(list@[j]@, (#[trigger] out@[j])@),
        decreases list@.len() - i,
    {
        out.push(decode(list[i].as_str()));
        i += 1;
    }
    assert(texts(out@) =~= all_decoded(texts(list@)));
    out
}

/// What was found, with the parameters decoded, and with them what a catch-all matched.
pub open spec fn decoded<V>(h: Hit<V>) -> Hit<V> {
    Hit {
        params: all_decoded(h.params),
        pattern: if h.leaf.is_catch_all() {
            percent_decoded(h.pattern)
        } else {
            h.pattern
        },
        ..h
    }
}

} // verus!
