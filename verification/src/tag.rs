use vstd::prelude::*;

verus! {

/// The deepest nesting of lists and compounds that the reader follows.
pub const MAX_DEPTH: usize = 512;

/// Everything that can go wrong while reading or writing a tree.
#[derive(Debug, Clone, Copy, PartialEq, Eq, Structural)]
pub enum NbtError {
    /// Fewer bytes are left than a field or a declared length asks for.
    TruncatedInput,
    /// A type byte outside 0..=12.
    InvalidTagId,
    /// The bytes of a name or of a string payload are not UTF-8.
    InvalidUtf8,
    /// A declared count is negative, or a count does not fit 31 bits.
    InvalidLength,
    /// A name or a string payload takes more than 65535 bytes.
    StringTooLong,
    /// The sink has no room for the encoded bytes.
    SinkWriteFailed,
    /// Lists and compounds are nested deeper than the reader follows.
    TooDeep,
    /// A document that should be a gzip stream is not an intact one.
    CorruptGzip,
}

/// One node of the tree. Every variant but `TAG_End` starts with the node's
/// name. Floats and doubles are held by their IEEE-754 bit patterns.
#[allow(non_camel_case_types)]
#[derive(Debug, PartialEq)]
pub enum NBTType {
    TAG_End,
    TAG_Byte(String, i8),
    TAG_Short(String, i16),
    TAG_Int(String, i32),
    TAG_Long(String, i64),
    TAG_Float(String, u32),
    TAG_Double(String, u64),
    TAG_Byte_Array(String, Vec<u8>),
    TAG_String(String, String),
    /// Name, the declared element type, and the elements.
    TAG_List(String, u8, Vec<Box<NBTType>>),
    TAG_Compound(String, Vec<Box<NBTType>>),
    TAG_Int_Array(String, Vec<i32>),
    TAG_Long_Array(String, Vec<i64>),
}

/// The mathematical value of a node: names and strings as sequences of
/// characters, arrays and children as sequences.
pub enum Tag {
    End,
    Byte(Seq<char>, i8),
    Short(Seq<char>, i16),
    Int(Seq<char>, i32),
    Long(Seq<char>, i64),
    Float(Seq<char>, u32),
    Double(Seq<char>, u64),
    ByteArray(Seq<char>, Seq<u8>),
    Text(Seq<char>, Seq<char>),
    List(Seq<char>, u8, Seq<Tag>),
    Compound(Seq<char>, Seq<Tag>),
    IntArray(Seq<char>, Seq<i32>),
    LongArray(Seq<char>, Seq<i64>),
}

/// The values of a vector of nodes, in order.
pub open spec fn tags_of(v: Seq<Box<NBTType>>) -> Seq<Tag>
    decreases v,
{
    Seq::new(v.len(), |i: int| if 0 <= i < v.len() { tag_of(*v[i]) } else { Tag::End })
}

/// The value of a node.
pub open spec fn tag_of(t: NBTType) -> Tag
    decreases t,
{
    match t {
        NBTType::TAG_End => Tag::End,
        NBTType::TAG_Byte(n, v) => Tag::Byte(n@, v),
        NBTType::TAG_Short(n, v) => Tag::Short(n@, v),
        NBTType::TAG_Int(n, v) => Tag::Int(n@, v),
        NBTType::TAG_Long(n, v) => Tag::Long(n@, v),
        NBTType::TAG_Float(n, v) => Tag::Float(n@, v),
        NBTType::TAG_Double(n, v) => Tag::Double(n@, v),
        NBTType::TAG_Byte_Array(n, a) => Tag::ByteArray(n@, a@),
        NBTType::TAG_String(n, s) => Tag::Text(n@, s@),
        NBTType::TAG_List(n, id, v) => Tag::List(n@, id, tags_of(v@)),
        NBTType::TAG_Compound(n, v) => Tag::Compound(n@, tags_of(v@)),
        NBTType::TAG_Int_Array(n, a) => Tag::IntArray(n@, a@),
        NBTType::TAG_Long_Array(n, a) => Tag::LongArray(n@, a@),
    }
}

impl View for NBTType {
    type V = Tag;

    open spec fn view(&self) -> Tag {
        tag_of(*self)
    }
}

/// The type id that stands for a node's variant on the wire.
pub open spec fn tag_id(t: Tag) -> u8 {
    match t {
        Tag::End => 0,
        Tag::Byte(..) => 1,
        Tag::Short(..) => 2,
        Tag::Int(..) => 3,
        Tag::Long(..) => 4,
        Tag::Float(..) => 5,
        Tag::Double(..) => 6,
        Tag::ByteArray(..) => 7,
        Tag::Text(..) => 8,
        Tag::List(..) => 9,
        Tag::Compound(..) => 10,
        Tag::IntArray(..) => 11,
        Tag::LongArray(..) => 12,
    }
}

/// A node's name; the end marker has none, which reads as the empty name.
pub open spec fn tag_name(t: Tag) -> Seq<char> {
    match t {
        Tag::End => Seq::empty(),
        Tag::Byte(n, _) => n,
        Tag::Short(n, _) => n,
        Tag::Int(n, _) => n,
        Tag::Long(n, _) => n,
        Tag::Float(n, _) => n,
        Tag::Double(n, _) => n,
        Tag::ByteArray(n, _) => n,
        Tag::Text(n, _) => n,
        Tag::List(n, _, _) => n,
        Tag::Compound(n, _) => n,
        Tag::IntArray(n, _) => n,
        Tag::LongArray(n, _) => n,
    }
}

} // verus!
