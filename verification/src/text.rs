use vstd::prelude::*;
use vstd::utf8::{decode_utf8, encode_utf8, encode_utf8_decode_utf8, encode_utf8_valid_utf8, valid_utf8};

verus! {

/// The UTF-8 bytes of a text.
#[verifier::opaque]
pub open spec fn utf8_of(s: Seq<char>) -> Seq<u8> {
    encode_utf8(s)
}

/// The text that bytes spell, if they are well-formed UTF-8.
#[verifier::opaque]
pub open spec fn utf8_text(b: Seq<u8>) -> Option<Seq<char>> {
    if valid_utf8(b) {
        Some(decode_utf8(b))
    } else {
        None
    }
}

/// The bytes of a text spell that text.
pub proof fn lemma_utf8_round_trip(s: Seq<char>)
    ensures
        utf8_text(utf8_of(s)) == Some(s),
{
    reveal(utf8_of);
    reveal(utf8_text);
    encode_utf8_valid_utf8(s);
    encode_utf8_decode_utf8(s);
}

/// Only the empty text has no bytes.
pub proof fn lemma_utf8_of_empty(s: Seq<char>)
    ensures
        utf8_of(s).len() == 0 <==> s.len() == 0,
{
    reveal(utf8_of);
    encode_utf8_decode_utf8(s);
    if s.len() == 0 {
        assert(s =~= Seq::<char>::empty());
    }
}

} // verus!
