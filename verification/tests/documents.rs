use flate2::write::GzEncoder;
use flate2::Compression;
use nbt_codec::encode::write_nbt;
use nbt_codec::gzip::{read_document, read_inflated};
use nbt_codec::tag::{NBTType, NbtError};
use std::io::Write;

fn sample() -> NBTType {
    NBTType::TAG_Compound(
        "level".to_string(),
        vec![
            Box::new(NBTType::TAG_String("name".to_string(), "world".to_string())),
            Box::new(NBTType::TAG_Long_Array("seeds".to_string(), vec![1, -2, 3])),
        ],
    )
}

fn sample_bytes() -> Vec<u8> {
    let mut bytes: Vec<u8> = Vec::new();
    write_nbt(&mut bytes, &sample(), false).unwrap();
    bytes
}

fn gzipped(bytes: &[u8]) -> Vec<u8> {
    let mut encoder = GzEncoder::new(Vec::new(), Compression::default());
    encoder.write_all(bytes).unwrap();
    encoder.finish().unwrap()
}

#[test]
fn plain_document_is_read() {
    let bytes = sample_bytes();
    assert_eq!(read_document(bytes.as_slice(), false), Ok(sample()));
}

#[test]
fn gzip_document_is_read() {
    let packed = gzipped(sample_bytes().as_slice());
    assert_ne!(packed, sample_bytes());
    assert_eq!(read_document(packed.as_slice(), true), Ok(sample()));
}

#[test]
fn gzip_document_read_as_plain_is_refused() {
    let packed = gzipped(sample_bytes().as_slice());
    // 0x1f is no type id
    assert_eq!(read_document(packed.as_slice(), false), Err(NbtError::InvalidTagId));
}

#[test]
fn broken_gzip_is_refused() {
    let plain = sample_bytes();
    assert_eq!(read_document(plain.as_slice(), true), Err(NbtError::CorruptGzip));
    let mut packed = gzipped(plain.as_slice());
    packed.truncate(packed.len() - 6);
    assert_eq!(read_document(packed.as_slice(), true), Err(NbtError::CorruptGzip));
    let empty: Vec<u8> = Vec::new();
    assert_eq!(read_document(empty.as_slice(), true), Err(NbtError::CorruptGzip));
}

#[test]
fn truncated_tree_inside_gzip_is_refused() {
    let mut plain = sample_bytes();
    plain.truncate(plain.len() - 3);
    let packed = gzipped(plain.as_slice());
    assert_eq!(read_document(packed.as_slice(), true), Err(NbtError::TruncatedInput));
}

#[test]
fn inflated_bytes_are_read() {
    assert_eq!(read_inflated(Some(sample_bytes())), Ok(sample()));
    assert_eq!(read_inflated(None), Err(NbtError::CorruptGzip));
    assert_eq!(read_inflated(Some(vec![13])), Err(NbtError::InvalidTagId));
}
