use nbt_codec::decode::decode;
use nbt_codec::encode::write_nbt;
use nbt_codec::tag::{NBTType, MAX_DEPTH};
use nbt_codec::valid::{are_well_formed, fits_length_field, is_well_formed};

fn byte(name: &str, v: i8) -> Box<NBTType> {
    Box::new(NBTType::TAG_Byte(name.to_string(), v))
}

#[test]
fn well_formed_tree_is_accepted_and_round_trips() {
    let tree = NBTType::TAG_Compound(
        "root".to_string(),
        vec![
            byte("a", 1),
            Box::new(NBTType::TAG_List("l".to_string(), 1, vec![byte("", 2), byte("", 3)])),
        ],
    );
    assert!(is_well_formed(&tree, true, MAX_DEPTH));
    assert!(is_well_formed(&tree, true, 2));
    assert!(!is_well_formed(&tree, true, 1));
    assert!(!is_well_formed(&tree, false, MAX_DEPTH));
    let mut bytes: Vec<u8> = Vec::new();
    write_nbt(&mut bytes, &tree, false).unwrap();
    assert_eq!(decode(bytes.as_slice()), Ok((tree, bytes.len())));
}

#[test]
fn end_marker_is_well_formed_either_way() {
    assert!(is_well_formed(&NBTType::TAG_End, true, 0));
    assert!(is_well_formed(&NBTType::TAG_End, false, 0));
}

#[test]
fn end_marker_among_children_is_not_well_formed() {
    let tree = NBTType::TAG_Compound(
        "hello test".to_string(),
        vec![byte("sample byte", 3), Box::new(NBTType::TAG_End)],
    );
    assert!(!is_well_formed(&tree, true, MAX_DEPTH));
}

#[test]
fn names_decide_well_formedness() {
    assert!(!is_well_formed(&NBTType::TAG_Int(String::new(), 1), true, 0));
    assert!(is_well_formed(&NBTType::TAG_Int(String::new(), 1), false, 0));
    assert!(is_well_formed(&NBTType::TAG_Int("i".to_string(), 1), true, 0));
    assert!(!is_well_formed(&NBTType::TAG_Int("i".to_string(), 1), false, 0));
    assert!(!is_well_formed(&NBTType::TAG_Int("n".repeat(65536), 1), true, 0));
    assert!(is_well_formed(&NBTType::TAG_Int("n".repeat(65535), 1), true, 0));
    assert!(!is_well_formed(&NBTType::TAG_String("s".to_string(), "x".repeat(65536)), true, 0));
    assert!(fits_length_field(&"é".repeat(32767)));
    assert!(!fits_length_field(&"é".repeat(32768)));
}

#[test]
fn list_members_must_match_the_declared_type() {
    let mixed = vec![byte("", 1), Box::new(NBTType::TAG_Int(String::new(), 2))];
    assert!(!are_well_formed(&mixed, false, 1, 0));
    let named = vec![byte("x", 1)];
    assert!(!are_well_formed(&named, false, 1, 0));
    assert!(are_well_formed(&named, true, 0, 0));
    let bytes = vec![byte("", 1), byte("", 2)];
    assert!(are_well_formed(&bytes, false, 1, 0));
    assert!(!are_well_formed(&bytes, false, 3, 0));
    assert!(!are_well_formed(&bytes, true, 0, 0));
    let none: Vec<Box<NBTType>> = Vec::new();
    assert!(are_well_formed(&none, false, 200, 0));
    let list = NBTType::TAG_List("l".to_string(), 3, mixed);
    assert!(!is_well_formed(&list, true, MAX_DEPTH));
}
