use vstd::prelude::*;
use crate::text::{lemma_utf8_of_empty, utf8_of};
use crate::tag::{NBTType, NbtError, Tag, tag_id, tag_name, tags_of};
use crate::wire::{be16, be32, be64, bits8, bits16, bits32, bits64, i8_bits, i16_bits, i32_bits, i64_bits};

verus! {

/// `done` followed by what `r` holds, or the error of `r`.
pub open spec fn after(done: Seq<u8>, r: Result<Seq<u8>, NbtError>) -> Result<Seq<u8>, NbtError> {
    match r {
        Ok(b) => Ok(done + b),
        Err(e) => Err(e),
    }
}

/// The bytes of `a` followed by those of `b`; the first error wins.
pub open spec fn chain(a: Result<Seq<u8>, NbtError>, b: Result<Seq<u8>, NbtError>) -> Result<
    Seq<u8>,
    NbtError,
> {
    match a {
        Ok(x) => after(x, b),
        Err(e) => Err(e),
    }
}

/// A length-prefixed text: two bytes of length, then the UTF-8 bytes.
pub open spec fn text_encoding(s: Seq<char>) -> Result<Seq<u8>, NbtError> {
    let b = utf8_of(s);
    if b.len() > 0xFFFF {
        Err(NbtError::StringTooLong)
    } else {
        Ok(be16(b.len() as u16) + b)
    }
}

/// A count as a signed 32-bit field.
pub open spec fn count_encoding(n: nat) -> Result<Seq<u8>, NbtError> {
    if n > 0x7FFF_FFFF {
        Err(NbtError::InvalidLength)
    } else {
        Ok(be32(n as u32))
    }
}

/// The header of a node: its type id and its name. A suppressed header and
/// the header of a node with an empty name are both empty.
pub open spec fn header_encoding(id: u8, name: Seq<char>, suppress: bool) -> Result<
    Seq<u8>,
    NbtError,
> {
    if suppress || name.len() == 0 {
        Ok(Seq::empty())
    } else {
        after(seq![id], text_encoding(name))
    }
}

/// The elements of an int array from index `i` on, four bytes each.
pub open spec fn ints_encoding(a: Seq<i32>, i: int) -> Seq<u8>
    decreases a.len() - i,
{
    if 0 <= i < a.len() {
        be32(bits32(a[i])) + ints_encoding(a, i + 1)
    } else {
        Seq::empty()
    }
}

/// The elements of a long array from index `i` on, eight bytes each.
pub open spec fn longs_encoding(a: Seq<i64>, i: int) -> Seq<u8>
    decreases a.len() - i,
{
    if 0 <= i < a.len() {
        be64(bits64(a[i])) + longs_encoding(a, i + 1)
    } else {
        Seq::empty()
    }
}

/// The nodes of `ts` from index `i` on, one after the other.
pub open spec fn seq_encoding(ts: Seq<Tag>, i: int, suppress: bool) -> Result<Seq<u8>, NbtError>
    decreases ts, ts.len() - i,
{
    if 0 <= i < ts.len() {
        chain(encoding(ts[i], suppress), seq_encoding(ts, i + 1, suppress))
    } else {
        Ok(Seq::empty())
    }
}

/// What follows a node's header.
pub open spec fn payload_encoding(t: Tag) -> Result<Seq<u8>, NbtError>
    decreases t, 0int,
{
    match t {
        Tag::End => Ok(Seq::empty()),
        Tag::Byte(_, v) => Ok(seq![bits8(v)]),
        Tag::Short(_, v) => Ok(be16(bits16(v))),
        Tag::Int(_, v) => Ok(be32(bits32(v))),
        Tag::Long(_, v) => Ok(be64(bits64(v))),
        Tag::Float(_, v) => Ok(be32(v)),
        Tag::Double(_, v) => Ok(be64(v)),
        Tag::ByteArray(_, a) => chain(count_encoding(a.len()), Ok(a)),
        Tag::Text(_, s) => text_encoding(s),
        Tag::List(_, id, elems) => chain(
            after(seq![id], count_encoding(elems.len())),
            seq_encoding(elems, 0, true),
        ),
        Tag::Compound(_, kids) => chain(seq_encoding(kids, 0, false), Ok(seq![0u8])),
        Tag::IntArray(_, a) => chain(count_encoding(a.len()), Ok(ints_encoding(a, 0))),
        Tag::LongArray(_, a) => chain(count_encoding(a.len()), Ok(longs_encoding(a, 0))),
    }
}

/// The bytes that stand for a node, or the first error that writing it
/// meets. The end marker is its type id alone, and nothing where the header
/// is suppressed.
pub open spec fn encoding(t: Tag, suppress: bool) -> Result<Seq<u8>, NbtError>
    decreases t, 1int,
{
    match t {
        Tag::End => Ok(if suppress { Seq::empty() } else { seq![0u8] }),
        _ => chain(header_encoding(tag_id(t), tag_name(t), suppress), payload_encoding(t)),
    }
}

/// What a writer owes for a value whose bytes are `target`: on success the
/// bytes follow what the sink held, on failure the sink keeps what it held
/// in front.
pub open spec fn written(
    before: Seq<u8>,
    now: Seq<u8>,
    target: Result<Seq<u8>, NbtError>,
    r: Result<(), NbtError>,
) -> bool {
    match target {
        Ok(b) => r is Ok && now == before + b,
        Err(e) => r == Err::<(), NbtError>(e) && before.is_prefix_of(now),
    }
}

/// Appends one byte.
pub fn write_u8(writer: &mut Vec<u8>, data: &u8)
    ensures
        final(writer)@ == old(writer)@ + seq![*data],
{
    writer.push(*data);
    assert(writer@ =~= old(writer)@ + seq![*data]);
}

/// Appends the two big-endian bytes of `data`.
pub fn write_u16(writer: &mut Vec<u8>, data: &u16)
    ensures
        final(writer)@ == old(writer)@ + be16(*data),
{
    let x: u16 = *data;
    writer.push((x / 256) as u8);
    writer.push((x % 256) as u8);
    assert(writer@ =~= old(writer)@ + be16(x));
}

/// Appends the four big-endian bytes of `data`.
pub fn write_u32(writer: &mut Vec<u8>, data: &u32)
    ensures
        final(writer)@ == old(writer)@ + be32(*data),
{
    let x: u32 = *data;
    writer.push((x / 0x100_0000) as u8);
    writer.push(((x / 0x1_0000) % 256) as u8);
    writer.push(((x / 256) % 256) as u8);
    writer.push((x % 256) as u8);
    assert(writer@ =~= old(writer)@ + be32(x));
}

/// Appends the eight big-endian bytes of `data`.
pub fn write_u64(writer: &mut Vec<u8>, data: &u64)
    ensures
        final(writer)@ == old(writer)@ + be64(*data),
{
    let x: u64 = *data;
    let hi: u32 = (x / 0x1_0000_0000) as u32;
    let lo: u32 = (x % 0x1_0000_0000) as u32;
    write_u32(writer, &hi);
    write_u32(writer, &lo);
    assert(writer@ =~= old(writer)@ + be64(x));
}

/// Appends `data` as it stands.
pub fn write_bytes(writer: &mut Vec<u8>, data: &[u8])
    ensures
        final(writer)@ == old(writer)@ + data@,
{
    writer.extend_from_slice(data);
    assert(writer@ =~= old(writer)@ + data@);
}

/// Appends a count as a signed 32-bit field; a count over 2^31 - 1 is
/// refused and nothing is written.
pub fn write_count(writer: &mut Vec<u8>, n: usize) -> (r: Result<(), NbtError>)
    ensures
        written(old(writer)@, final(writer)@, count_encoding(n as nat), r),
        r is Err ==> final(writer)@ == old(writer)@,
{
    if n > 0x7FFF_FFFF {
        assert(writer@.is_prefix_of(writer@));
        return Err(NbtError::InvalidLength);
    }
    let c: u32 = n as u32;
    write_u32(writer, &c);
    Ok(())
}

/// Appends a text with its two-byte length; a text of more than 65535
/// bytes is refused and nothing is written.
pub fn write_string(writer: &mut Vec<u8>, data: &String) -> (r: Result<(), NbtError>)
    ensures
        written(old(writer)@, final(writer)@, text_encoding(data@), r),
        r is Err ==> final(writer)@ == old(writer)@,
{
    let bytes = data.as_str().as_bytes();
    proof {
        reveal(utf8_of);
    }
    if bytes.len() > 0xFFFF {
        assert(writer@.is_prefix_of(writer@));
        return Err(NbtError::StringTooLong);
    }
    let n: u16 = bytes.len() as u16;
    write_u16(writer, &n);
    write_bytes(writer, bytes);
    assert(writer@ =~= old(writer)@ + (be16(n) + bytes@));
    Ok(())
}

/// Appends a node's header, type id and name, unless the name is empty.
pub fn write_header(writer: &mut Vec<u8>, id: &u8, field_name: &String) -> (r: Result<
    (),
    NbtError,
>)
    ensures
        written(old(writer)@, final(writer)@, header_encoding(*id, field_name@, false), r),
        r is Err ==> final(writer)@ == old(writer)@,
{
    let bytes = field_name.as_str().as_bytes();
    proof {
        reveal(utf8_of);
        lemma_utf8_of_empty(field_name@);
    }
    if bytes.len() == 0 {
        assert(writer@ =~= old(writer)@ + Seq::<u8>::empty());
        return Ok(());
    }
    if bytes.len() > 0xFFFF {
        assert(writer@.is_prefix_of(writer@));
        return Err(NbtError::StringTooLong);
    }
    write_u8(writer, id);
    let n: u16 = bytes.len() as u16;
    write_u16(writer, &n);
    write_bytes(writer, bytes);
    assert(writer@ =~= old(writer)@ + (seq![*id] + (be16(n) + bytes@)));
    Ok(())
}

/// Composing `after` twice is `after` of the joined prefix.
pub proof fn lemma_after_after(a: Seq<u8>, b: Seq<u8>, r: Result<Seq<u8>, NbtError>)
    ensures
        after(a, after(b, r)) == after(a + b, r),
{
    if let Ok(x) = r {
        assert(a + (b + x) =~= (a + b) + x);
    }
}

/// Appends every element of an int array, four bytes each.
pub fn write_ints(writer: &mut Vec<u8>, data: &Vec<i32>)
    ensures
        final(writer)@ == old(writer)@ + ints_encoding(data@, 0),
{
    let n: usize = data.len();
    let mut i: usize = 0;
    while i < n
        invariant
            i <= n,
            n == data@.len(),
            writer@ + ints_encoding(data@, i as int) =~= old(writer)@ + ints_encoding(data@, 0),
        decreases n - i,
    {
        let ghost before = writer@;
        let u: u32 = i32_bits(data[i]);
        write_u32(writer, &u);
        proof {
            let rest = ints_encoding(data@, i as int + 1);
            assert((before + be32(u)) + rest =~= before + (be32(u) + rest));
        }
        i = i + 1;
    }
    assert(writer@ + Seq::<u8>::empty() =~= writer@);
}

/// Appends every element of a long array, eight bytes each.
pub fn write_longs(writer: &mut Vec<u8>, data: &Vec<i64>)
    ensures
        final(writer)@ == old(writer)@ + longs_encoding(data@, 0),
{
    let n: usize = data.len();
    let mut i: usize = 0;
    while i < n
        invariant
            i <= n,
            n == data@.len(),
            writer@ + longs_encoding(data@, i as int) =~= old(writer)@ + longs_encoding(data@, 0),
        decreases n - i,
    {
        let ghost before = writer@;
        let u: u64 = i64_bits(data[i]);
        write_u64(writer, &u);
        proof {
            let rest = longs_encoding(data@, i as int + 1);
            assert((before + be64(u)) + rest =~= before + (be64(u) + rest));
        }
        i = i + 1;
    }
    assert(writer@ + Seq::<u8>::empty() =~= writer@);
}

/// Appends the nodes of `nodes` one after the other, each as `write_nbt`
/// writes it, and stops at the first that fails.
pub fn write_tags(writer: &mut Vec<u8>, nodes: &Vec<Box<NBTType>>, suppress_header: bool) -> (r:
    Result<(), NbtError>)
    ensures
        written(
            old(writer)@,
            final(writer)@,
            seq_encoding(tags_of(nodes@), 0, suppress_header),
            r,
        ),
    decreases nodes, 0int,
{
    let ghost ts = tags_of(nodes@);
    let ghost target = seq_encoding(ts, 0, suppress_header);
    let ghost base = writer@;
    let ghost done = Seq::<u8>::empty();
    let n: usize = nodes.len();
    let mut i: usize = 0;
    assert(writer@ =~= base + done);
    proof {
        lemma_after_empty(seq_encoding(ts, 0, suppress_header));
    }
    while i < n
        invariant
            i <= n,
            n == nodes@.len(),
            ts == tags_of(nodes@),
            base == old(writer)@,
            writer@ == base + done,
            target == seq_encoding(ts, 0, suppress_header),
            target == after(done, seq_encoding(ts, i as int, suppress_header)),
        decreases n - i,
    {
        let ghost child = encoding(ts[i as int], suppress_header);
        let ghost rest = seq_encoding(ts, i as int + 1, suppress_header);
        assert(ts[i as int] == nodes@[i as int]@);
        match write_nbt(writer, &nodes[i], suppress_header) {
            Ok(()) => {
                proof {
                    let b = child.unwrap();
                    lemma_after_after(done, b, rest);
                    assert((base + done) + b =~= base + (done + b));
                    done = done + b;
                }
            },
            Err(e) => {
                assert(base.is_prefix_of(writer@)) by {
                    assert(base.is_prefix_of(base + done));
                    assert(base =~= writer@.subrange(0, base.len() as int));
                }
                return Err(e);
            },
        }
        i = i + 1;
    }
    proof {
        assert(done + Seq::<u8>::empty() =~= done);
    }
    Ok(())
}

/// `after` of nothing changes nothing.
pub proof fn lemma_after_empty(r: Result<Seq<u8>, NbtError>)
    ensures
        after(Seq::empty(), r) == r,
{
    if let Ok(x) = r {
        assert(Seq::<u8>::empty() + x =~= x);
    }
}

/// Appends what follows the header of `data`.
pub fn write_payload(writer: &mut Vec<u8>, data: &NBTType) -> (r: Result<(), NbtError>)
    ensures
        written(old(writer)@, final(writer)@, payload_encoding(data@), r),
    decreases data, 0int,
{
    let ghost base = writer@;
    match data {
        NBTType::TAG_End => {
            assert(writer@ =~= base + Seq::<u8>::empty());
            Ok(())
        },
        NBTType::TAG_Byte(_, v) => {
            let u: u8 = i8_bits(*v);
            write_u8(writer, &u);
            Ok(())
        },
        NBTType::TAG_Short(_, v) => {
            let u: u16 = i16_bits(*v);
            write_u16(writer, &u);
            Ok(())
        },
        NBTType::TAG_Int(_, v) => {
            let u: u32 = i32_bits(*v);
            write_u32(writer, &u);
            Ok(())
        },
        NBTType::TAG_Long(_, v) => {
            let u: u64 = i64_bits(*v);
            write_u64(writer, &u);
            Ok(())
        },
        NBTType::TAG_Float(_, v) => {
            write_u32(writer, v);
            Ok(())
        },
        NBTType::TAG_Double(_, v) => {
            write_u64(writer, v);
            Ok(())
        },
        NBTType::TAG_Byte_Array(_, a) => {
            match write_count(writer, a.len()) {
                Ok(()) => {},
                Err(e) => { return Err(e); },
            }
            write_bytes(writer, a.as_slice());
            assert(writer@ =~= base + (be32(a@.len() as u32) + a@));
            Ok(())
        },
        NBTType::TAG_String(_, s) => write_string(writer, s),
        NBTType::TAG_List(_, id, elems) => {
            write_u8(writer, id);
            let ghost mid0 = writer@;
            match write_count(writer, elems.len()) {
                Ok(()) => {},
                Err(e) => {
                    assert(base.is_prefix_of(writer@));
                    return Err(e);
                },
            }
            let ghost mid = writer@;
            let ghost head = seq![*id] + be32(elems@.len() as u32);
            assert(mid =~= base + head);
            let r = write_tags(writer, elems, true);
            proof {
                match seq_encoding(tags_of(elems@), 0, true) {
                    Ok(b) => {
                        assert(writer@ =~= base + (head + b));
                    },
                    Err(_) => {
                        assert(base.is_prefix_of(mid));
                        assert(base =~= writer@.subrange(0, base.len() as int));
                    },
                }
            }
            r
        },
        NBTType::TAG_Compound(_, kids) => {
            match write_tags(writer, kids, false) {
                Ok(()) => {},
                Err(e) => { return Err(e); },
            }
            let ghost body = seq_encoding(tags_of(kids@), 0, false).unwrap();
            let end: u8 = 0;
            write_u8(writer, &end);
            assert(writer@ =~= base + (body + seq![0u8]));
            Ok(())
        },
        NBTType::TAG_Int_Array(_, a) => {
            match write_count(writer, a.len()) {
                Ok(()) => {},
                Err(e) => { return Err(e); },
            }
            write_ints(writer, a);
            assert(writer@ =~= base + (be32(a@.len() as u32) + ints_encoding(a@, 0)));
            Ok(())
        },
        NBTType::TAG_Long_Array(_, a) => {
            match write_count(writer, a.len()) {
                Ok(()) => {},
                Err(e) => { return Err(e); },
            }
            write_longs(writer, a);
            assert(writer@ =~= base + (be32(a@.len() as u32) + longs_encoding(a@, 0)));
            Ok(())
        },
    }
}

/// The name that a node carries, if it is not the end marker.
pub fn name_of(data: &NBTType) -> (r: Option<&String>)
    ensures
        data@ is End <==> r is None,
        r matches Some(n) ==> n@ == tag_name(data@),
{
    match data {
        NBTType::TAG_End => None,
        NBTType::TAG_Byte(n, _) => Some(n),
        NBTType::TAG_Short(n, _) => Some(n),
        NBTType::TAG_Int(n, _) => Some(n),
        NBTType::TAG_Long(n, _) => Some(n),
        NBTType::TAG_Float(n, _) => Some(n),
        NBTType::TAG_Double(n, _) => Some(n),
        NBTType::TAG_Byte_Array(n, _) => Some(n),
        NBTType::TAG_String(n, _) => Some(n),
        NBTType::TAG_List(n, _, _) => Some(n),
        NBTType::TAG_Compound(n, _) => Some(n),
        NBTType::TAG_Int_Array(n, _) => Some(n),
        NBTType::TAG_Long_Array(n, _) => Some(n),
    }
}

/// The type id of a node's variant.
pub fn id_of(data: &NBTType) -> (id: u8)
    ensures
        id == tag_id(data@),
{
    match data {
        NBTType::TAG_End => 0,
        NBTType::TAG_Byte(..) => 1,
        NBTType::TAG_Short(..) => 2,
        NBTType::TAG_Int(..) => 3,
        NBTType::TAG_Long(..) => 4,
        NBTType::TAG_Float(..) => 5,
        NBTType::TAG_Double(..) => 6,
        NBTType::TAG_Byte_Array(..) => 7,
        NBTType::TAG_String(..) => 8,
        NBTType::TAG_List(..) => 9,
        NBTType::TAG_Compound(..) => 10,
        NBTType::TAG_Int_Array(..) => 11,
        NBTType::TAG_Long_Array(..) => 12,
    }
}

/// Appends the bytes of a whole node to `writer`: its header, unless it is
/// suppressed or the name is empty, then its payload. The end marker is its
/// type id alone. On success `writer` holds what it held, followed by
/// exactly `encoding(data@, suppress_header)`; otherwise the first error
/// in writing order comes back.
pub fn write_nbt(writer: &mut Vec<u8>, data: &NBTType, suppress_header: bool) -> (r: Result<
    (),
    NbtError,
>)
    ensures
        written(old(writer)@, final(writer)@, encoding(data@, suppress_header), r),
    decreases data, 1int,
{
    let ghost base = writer@;
    match name_of(data) {
        None => {
            if !suppress_header {
                let end: u8 = 0;
                write_u8(writer, &end);
            } else {
                assert(writer@ =~= base + Seq::<u8>::empty());
            }
            Ok(())
        },
        Some(name) => {
            if !suppress_header {
                let id: u8 = id_of(data);
                match write_header(writer, &id, name) {
                    Ok(()) => {},
                    Err(e) => { return Err(e); },
                }
            } else {
                assert(writer@ =~= base + Seq::<u8>::empty());
            }
            let ghost mid = writer@;
            let ghost head = header_encoding(tag_id(data@), tag_name(data@), suppress_header).unwrap();
            let r = write_payload(writer, data);
            proof {
                match payload_encoding(data@) {
                    Ok(b) => {
                        assert(writer@ =~= base + (head + b));
                    },
                    Err(_) => {
                        assert(base.is_prefix_of(mid));
                        assert(base =~= writer@.subrange(0, base.len() as int));
                    },
                }
            }
            r
        },
    }
}

/// Writes a whole node to a sink that holds at most `limit` bytes. The
/// write is all or nothing: where the node cannot be written, or its bytes
/// would take the sink over `limit`, the sink keeps exactly what it held,
/// and in the second case the error is `SinkWriteFailed`.
pub fn write_nbt_bounded(
    writer: &mut Vec<u8>,
    data: &NBTType,
    suppress_header: bool,
    limit: usize,
) -> (r: Result<(), NbtError>)
    ensures
        match encoding(data@, suppress_header) {
            Ok(b) => if old(writer)@.len() + b.len() <= limit {
                r is Ok && final(writer)@ == old(writer)@ + b
            } else {
                r == Err::<(), NbtError>(NbtError::SinkWriteFailed) && final(writer)@ == old(
                    writer,
                )@
            },
            Err(e) => r == Err::<(), NbtError>(e) && final(writer)@ == old(writer)@,
        },
{
    let mut bytes: Vec<u8> = Vec::new();
    match write_nbt(&mut bytes, data, suppress_header) {
        Ok(()) => {},
        Err(e) => { return Err(e); },
    }
    assert(bytes@ =~= encoding(data@, suppress_header).unwrap());
    if writer.len() > limit || bytes.len() > limit - writer.len() {
        return Err(NbtError::SinkWriteFailed);
    }
    write_bytes(writer, bytes.as_slice());
    Ok(())
}

} // verus!
