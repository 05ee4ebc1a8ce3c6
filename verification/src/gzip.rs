use std::io::Read;
use vstd::prelude::*;
use crate::decode::{decode, parse_tag};
use crate::tag::{MAX_DEPTH, NBTType, NbtError, Tag};

verus! {

/// What gzip decompression makes of a byte sequence: the decompressed
/// bytes, or nothing where the sequence is no intact gzip stream.
pub uninterp spec fn gunzipped(bytes: Seq<u8>) -> Option<Seq<u8>>;

/// `flate2::read::GzDecoder` over `bytes`, read to its end with
/// `Read::read_to_end`. The decoder's output depends on `bytes` alone, so
/// it has a name, `gunzipped`; an error of the decoder (a bad header, a
/// corrupt deflate stream, a wrong checksum or length) gives `None`.
#[verifier::external_body]
fn gunzip(bytes: &[u8]) -> (r: Option<Vec<u8>>)
    ensures
        match gunzipped(bytes@) {
            Some(out) => r matches Some(v) && v@ == out,
            None => r is None,
        },
{
    let mut out: Vec<u8> = Vec::new();
    match flate2::read::GzDecoder::new(bytes).read_to_end(&mut out) {
        Ok(_) => Some(out),
        Err(_) => None,
    }
}

/// The tree that a document's bytes hold: the node that they start with,
/// read with its type byte and name. Bytes behind that node are ignored.
pub open spec fn document(bytes: Option<Seq<u8>>) -> Result<Tag, NbtError> {
    match bytes {
        None => Err(NbtError::CorruptGzip),
        Some(b) => match parse_tag(b, None, MAX_DEPTH as nat) {
            Ok((t, _)) => Ok(t),
            Err(e) => Err(e),
        },
    }
}

/// What a reader of documents owes for `target`.
pub open spec fn document_read(target: Result<Tag, NbtError>, r: Result<NBTType, NbtError>) -> bool {
    match target {
        Ok(t) => r matches Ok(x) && x@ == t,
        Err(e) => r matches Err(e2) && e2 == e,
    }
}

/// Reads the tree from the bytes that decompression gave, or reports that
/// it gave none.
pub fn read_inflated(inflated: Option<Vec<u8>>) -> (r: Result<NBTType, NbtError>)
    ensures
        document_read(
            document(
                match inflated {
                    Some(v) => Some(v@),
                    None => None,
                },
            ),
            r,
        ),
{
    match inflated {
        None => Err(NbtError::CorruptGzip),
        Some(v) => match decode(v.as_slice()) {
            Ok((t, _)) => Ok(t),
            Err(e) => Err(e),
        },
    }
}

/// Reads the tree that a document holds. With `gzip` the document is a
/// gzip stream and is decompressed first; without, it is read as it stands.
pub fn read_document(input: &[u8], gzip: bool) -> (r: Result<NBTType, NbtError>)
    ensures
        document_read(
            document(
                if gzip {
                    gunzipped(input@)
                } else {
                    Some(input@)
                },
            ),
            r,
        ),
{
    if gzip {
        read_inflated(gunzip(input))
    } else {
        match decode(input) {
            Ok((t, _)) => Ok(t),
            Err(e) => Err(e),
        }
    }
}

} // verus!
