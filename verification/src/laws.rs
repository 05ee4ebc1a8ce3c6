use vstd::prelude::*;
use crate::text::{lemma_utf8_round_trip, utf8_of};
use crate::decode::{
    lemma_named_tag_takes_bytes, parse_bytes, parse_byte_array, parse_count, parse_elems,
    parse_int_array, parse_ints, parse_kids, parse_list, parse_long_array, parse_longs,
    parse_payload, parse_tag, parse_text, parse_u16, parse_u32, parse_u64, parse_u8,
};
use crate::encode::{
    count_encoding, encoding, header_encoding, ints_encoding, lemma_after_empty, longs_encoding,
    payload_encoding, seq_encoding, text_encoding,
};
use crate::tag::{NbtError, Tag, tag_id, tag_name};
use crate::wire::{
    be16, be32, be64, bits8, bits16, bits32, bits64, lemma_be16_round_trip,
    lemma_be32_round_trip, lemma_be64_round_trip, lemma_signed_round_trip, signed32, un32,
};

verus! {

/// A text whose UTF-8 bytes can be counted in two bytes.
pub open spec fn text_fits(s: Seq<char>) -> bool {
    utf8_of(s).len() <= 0xFFFF
}

/// The trees that survive writing and reading. A named node has a name
/// that is not empty and fits its length field; an unnamed one (a list
/// element) has the empty name. Strings fit their length field and counts fit
/// 31 bits. The elements of a list are unnamed and of the declared type; the
/// children of a compound are named and none is the end marker. Lists and
/// compounds are nested at most `depth` levels.
pub open spec fn well_formed(t: Tag, named: bool, depth: nat) -> bool
    decreases t,
{
    &&& t is End || if named {
        tag_name(t).len() > 0 && text_fits(tag_name(t))
    } else {
        tag_name(t).len() == 0
    }
    &&& match t {
        Tag::ByteArray(_, a) => a.len() <= 0x7FFF_FFFF,
        Tag::Text(_, s) => text_fits(s),
        Tag::List(_, id, elems) => {
            &&& depth > 0
            &&& elems.len() <= 0x7FFF_FFFF
            &&& forall|i: int|
                0 <= i < elems.len() ==> tag_id(#[trigger] elems[i]) == id && well_formed(
                    elems[i],
                    false,
                    (depth - 1) as nat,
                )
        },
        Tag::Compound(_, kids) => {
            &&& depth > 0
            &&& forall|i: int|
                0 <= i < kids.len() ==> !(#[trigger] kids[i] is End) && well_formed(
                    kids[i],
                    true,
                    (depth - 1) as nat,
                )
        },
        Tag::IntArray(_, a) => a.len() <= 0x7FFF_FFFF,
        Tag::LongArray(_, a) => a.len() <= 0x7FFF_FFFF,
        _ => true,
    }
}

/// The fixed-width fields are read back as they were written, whatever
/// follows.
pub proof fn lemma_fields_round_trip(a: u8, b: u16, c: u32, d: u64, rest: Seq<u8>)
    ensures
        parse_u8(seq![a] + rest) == Ok::<(u8, Seq<u8>), NbtError>((a, rest)),
        parse_u16(be16(b) + rest) == Ok::<(u16, Seq<u8>), NbtError>((b, rest)),
        parse_u32(be32(c) + rest) == Ok::<(u32, Seq<u8>), NbtError>((c, rest)),
        parse_u64(be64(d) + rest) == Ok::<(u64, Seq<u8>), NbtError>((d, rest)),
{
    reveal(parse_u8);
    reveal(parse_u16);
    reveal(parse_u32);
    reveal(parse_u64);
    assert((seq![a] + rest).skip(1) =~= rest);
    lemma_be16_round_trip(b, rest);
    lemma_be32_round_trip(c, rest);
    lemma_be64_round_trip(d, rest);
}

/// Raw bytes are read back as they were written.
pub proof fn lemma_bytes_round_trip(a: Seq<u8>, rest: Seq<u8>)
    ensures
        parse_bytes(a + rest, a.len()) == Ok::<(Seq<u8>, Seq<u8>), NbtError>((a, rest)),
{
    reveal(parse_bytes);
    assert((a + rest).take(a.len() as int) =~= a);
    assert((a + rest).skip(a.len() as int) =~= rest);
}

/// A text that fits is read back as it was written, whatever follows.
pub proof fn lemma_text_round_trip(s: Seq<char>, rest: Seq<u8>)
    requires
        text_fits(s),
    ensures
        text_encoding(s) matches Ok(b) && parse_text(b + rest) == Ok::<
            (Seq<char>, Seq<u8>),
            NbtError,
        >((s, rest)),
{
    let u = utf8_of(s);
    let n = u.len() as u16;
    lemma_utf8_round_trip(s);
    lemma_fields_round_trip(0, n, 0, 0, u + rest);
    lemma_bytes_round_trip(u, rest);
    let whole = (be16(n) + u) + rest;
    assert(whole =~= be16(n) + (u + rest));
}

/// A count that fits is read back as it was written.
pub proof fn lemma_count_round_trip(n: nat, rest: Seq<u8>)
    requires
        n <= 0x7FFF_FFFF,
    ensures
        count_encoding(n) == Ok::<Seq<u8>, NbtError>(be32(n as u32)),
        parse_count(be32(n as u32) + rest) == Ok::<(nat, Seq<u8>), NbtError>((n, rest)),
{
    lemma_fields_round_trip(0, 0, n as u32, 0, rest);
    lemma_signed_round_trip(0, 0, n as i32, 0);
}

/// The elements of an int array are read back as they were written.
pub proof fn lemma_ints_round_trip(a: Seq<i32>, i: int, rest: Seq<u8>)
    requires
        0 <= i <= a.len(),
    ensures
        parse_ints(ints_encoding(a, i) + rest, (a.len() - i) as nat) == Ok::<
            (Seq<i32>, Seq<u8>),
            NbtError,
        >((a.skip(i), rest)),
    decreases a.len() - i,
{
    if i == a.len() {
        assert(ints_encoding(a, i) + rest =~= rest);
        assert(a.skip(i) =~= Seq::<i32>::empty());
    } else {
        let tail = ints_encoding(a, i + 1);
        let u = bits32(a[i]);
        lemma_ints_round_trip(a, i + 1, rest);
        lemma_fields_round_trip(0, 0, u, 0, tail + rest);
        lemma_signed_round_trip(0, 0, a[i], 0);
        assert(ints_encoding(a, i) + rest =~= be32(u) + (tail + rest));
        assert(seq![a[i]] + a.skip(i + 1) =~= a.skip(i));
    }
}

/// The elements of a long array are read back as they were written.
pub proof fn lemma_longs_round_trip(a: Seq<i64>, i: int, rest: Seq<u8>)
    requires
        0 <= i <= a.len(),
    ensures
        parse_longs(longs_encoding(a, i) + rest, (a.len() - i) as nat) == Ok::<
            (Seq<i64>, Seq<u8>),
            NbtError,
        >((a.skip(i), rest)),
    decreases a.len() - i,
{
    if i == a.len() {
        assert(longs_encoding(a, i) + rest =~= rest);
        assert(a.skip(i) =~= Seq::<i64>::empty());
    } else {
        let tail = longs_encoding(a, i + 1);
        let u = bits64(a[i]);
        lemma_longs_round_trip(a, i + 1, rest);
        lemma_fields_round_trip(0, 0, 0, u, tail + rest);
        lemma_signed_round_trip(0, 0, 0, a[i]);
        assert(longs_encoding(a, i) + rest =~= be64(u) + (tail + rest));
        assert(seq![a[i]] + a.skip(i + 1) =~= a.skip(i));
    }
}

/// An element that is read back, followed by what reads as the other
/// elements, reads as all of them.
pub proof fn lemma_elems_step(
    s: Seq<u8>,
    id: u8,
    n: nat,
    depth: nat,
    t: Tag,
    mid: Seq<u8>,
    others: Seq<Tag>,
    rest: Seq<u8>,
)
    requires
        n > 0,
        parse_tag(s, Some(id), depth) == Ok::<(Tag, Seq<u8>), NbtError>((t, mid)),
        parse_elems(mid, id, (n - 1) as nat, depth) == Ok::<(Seq<Tag>, Seq<u8>), NbtError>(
            (others, rest),
        ),
    ensures
        parse_elems(s, id, n, depth) == Ok::<(Seq<Tag>, Seq<u8>), NbtError>(
            (seq![t] + others, rest),
        ),
{
}

/// The elements of a list from index `i` on are read back as they were
/// written.
pub proof fn lemma_elems_round_trip(ts: Seq<Tag>, i: int, id: u8, depth: nat, rest: Seq<u8>)
    requires
        0 <= i <= ts.len(),
        forall|k: int|
            0 <= k < ts.len() ==> tag_id(#[trigger] ts[k]) == id && well_formed(
                ts[k],
                false,
                depth,
            ),
    ensures
        seq_encoding(ts, i, true) matches Ok(b) && parse_elems(
            b + rest,
            id,
            (ts.len() - i) as nat,
            depth,
        ) == Ok::<(Seq<Tag>, Seq<u8>), NbtError>((ts.skip(i), rest)),
    decreases ts, ts.len() - i,
{
    if i == ts.len() {
        assert(Seq::<u8>::empty() + rest =~= rest);
        assert(ts.skip(i) =~= Seq::<Tag>::empty());
    } else {
        let t = ts[i];
        let n = (ts.len() - i) as nat;
        assert(tag_id(t) == id && well_formed(t, false, depth));
        lemma_elems_round_trip(ts, i + 1, id, depth, rest);
        let tail = seq_encoding(ts, i + 1, true).unwrap();
        lemma_unnamed_round_trip(t, depth, tail + rest);
        let head = encoding(t, true).unwrap();
        assert((n - 1) as nat == (ts.len() - (i + 1)) as nat);
        lemma_elems_step(head + (tail + rest), id, n, depth, t, tail + rest, ts.skip(i + 1), rest);
        assert(seq_encoding(ts, i, true) == Ok::<Seq<u8>, NbtError>(head + tail));
        assert((head + tail) + rest =~= head + (tail + rest));
        assert(seq![t] + ts.skip(i + 1) =~= ts.skip(i));
    }
}

/// An end marker where a child is expected closes the compound.
pub proof fn lemma_end_marker_closes(rest: Seq<u8>, depth: nat)
    ensures
        parse_kids(seq![0u8] + rest, depth) == Ok::<(Seq<Tag>, Seq<u8>), NbtError>(
            (Seq::empty(), rest),
        ),
{
    let s = seq![0u8] + rest;
    lemma_fields_round_trip(0, 0, 0, 0, rest);
    assert(parse_tag(s, None, depth) == Ok::<(Tag, Seq<u8>), NbtError>((Tag::End, rest)));
}

/// A child that is read back, followed by what reads as the other
/// children, reads as all of them.
pub proof fn lemma_kids_step(
    s: Seq<u8>,
    depth: nat,
    t: Tag,
    mid: Seq<u8>,
    others: Seq<Tag>,
    rest: Seq<u8>,
)
    requires
        parse_tag(s, None, depth) == Ok::<(Tag, Seq<u8>), NbtError>((t, mid)),
        !(t is End),
        parse_kids(mid, depth) == Ok::<(Seq<Tag>, Seq<u8>), NbtError>((others, rest)),
    ensures
        parse_kids(s, depth) == Ok::<(Seq<Tag>, Seq<u8>), NbtError>((seq![t] + others, rest)),
{
    lemma_named_tag_takes_bytes(s, depth);
}

/// The children of a compound from index `i` on, followed by the end
/// marker, are read back as they were written.
pub proof fn lemma_kids_round_trip(ts: Seq<Tag>, i: int, depth: nat, rest: Seq<u8>)
    requires
        0 <= i <= ts.len(),
        forall|k: int|
            0 <= k < ts.len() ==> !(#[trigger] ts[k] is End) && well_formed(ts[k], true, depth),
    ensures
        seq_encoding(ts, i, false) matches Ok(b) && parse_kids(
            b + (seq![0u8] + rest),
            depth,
        ) == Ok::<(Seq<Tag>, Seq<u8>), NbtError>((ts.skip(i), rest)),
    decreases ts, ts.len() - i,
{
    let end = seq![0u8] + rest;
    if i == ts.len() {
        lemma_end_marker_closes(rest, depth);
        assert(Seq::<u8>::empty() + end =~= end);
        assert(ts.skip(i) =~= Seq::<Tag>::empty());
    } else {
        lemma_kids_round_trip(ts, i + 1, depth, rest);
        let tail = seq_encoding(ts, i + 1, false).unwrap();
        assert(well_formed(ts[i], true, depth) && !(ts[i] is End));
        lemma_named_round_trip(ts[i], depth, tail + end);
        let head = encoding(ts[i], false).unwrap();
        lemma_kids_step(head + (tail + end), depth, ts[i], tail + end, ts.skip(i + 1), rest);
        assert((head + tail) + end =~= head + (tail + end));
        assert(seq![ts[i]] + ts.skip(i + 1) =~= ts.skip(i));
    }
}

/// A byte array is read back as it was written.
pub proof fn lemma_byte_array_round_trip(name: Seq<char>, a: Seq<u8>, rest: Seq<u8>)
    requires
        a.len() <= 0x7FFF_FFFF,
    ensures
        parse_byte_array((be32(a.len() as u32) + a) + rest, name) == Ok::<
            (Tag, Seq<u8>),
            NbtError,
        >((Tag::ByteArray(name, a), rest)),
{
    let c = be32(a.len() as u32);
    lemma_count_round_trip(a.len(), a + rest);
    lemma_bytes_round_trip(a, rest);
    assert((c + a) + rest =~= c + (a + rest));
}

/// An int array is read back as it was written.
pub proof fn lemma_int_array_round_trip(name: Seq<char>, a: Seq<i32>, rest: Seq<u8>)
    requires
        a.len() <= 0x7FFF_FFFF,
    ensures
        parse_int_array((be32(a.len() as u32) + ints_encoding(a, 0)) + rest, name) == Ok::<
            (Tag, Seq<u8>),
            NbtError,
        >((Tag::IntArray(name, a), rest)),
{
    let c = be32(a.len() as u32);
    let body = ints_encoding(a, 0);
    lemma_ints_round_trip(a, 0, rest);
    lemma_count_round_trip(a.len(), body + rest);
    assert((c + body) + rest =~= c + (body + rest));
    assert(a.skip(0) =~= a);
}

/// A long array is read back as it was written.
pub proof fn lemma_long_array_round_trip(name: Seq<char>, a: Seq<i64>, rest: Seq<u8>)
    requires
        a.len() <= 0x7FFF_FFFF,
    ensures
        parse_long_array((be32(a.len() as u32) + longs_encoding(a, 0)) + rest, name) == Ok::<
            (Tag, Seq<u8>),
            NbtError,
        >((Tag::LongArray(name, a), rest)),
{
    let c = be32(a.len() as u32);
    let body = longs_encoding(a, 0);
    lemma_longs_round_trip(a, 0, rest);
    lemma_count_round_trip(a.len(), body + rest);
    assert((c + body) + rest =~= c + (body + rest));
    assert(a.skip(0) =~= a);
}

/// A list whose elements are read back is read back itself.
pub proof fn lemma_list_frame(
    name: Seq<char>,
    id: u8,
    elems: Seq<Tag>,
    body: Seq<u8>,
    depth: nat,
    rest: Seq<u8>,
)
    requires
        depth > 0,
        elems.len() <= 0x7FFF_FFFF,
        parse_elems(body + rest, id, elems.len(), (depth - 1) as nat) == Ok::<
            (Seq<Tag>, Seq<u8>),
            NbtError,
        >((elems, rest)),
    ensures
        parse_list(((seq![id] + be32(elems.len() as u32)) + body) + rest, name, depth) == Ok::<
            (Tag, Seq<u8>),
            NbtError,
        >((Tag::List(name, id, elems), rest)),
{
    let c = be32(elems.len() as u32);
    lemma_count_round_trip(elems.len(), body + rest);
    lemma_fields_round_trip(id, 0, 0, 0, c + (body + rest));
    let whole = ((seq![id] + c) + body) + rest;
    assert(whole =~= seq![id] + (c + (body + rest)));
}

/// The payload of a well-formed node is read back as it was written.
pub proof fn lemma_payload_round_trip(t: Tag, named: bool, depth: nat, rest: Seq<u8>)
    requires
        well_formed(t, named, depth),
    ensures
        payload_encoding(t) matches Ok(b) && parse_payload(b + rest, tag_id(t), tag_name(t), depth)
            == Ok::<(Tag, Seq<u8>), NbtError>((t, rest)),
    decreases t, 0int,
{
    match t {
        Tag::End => {
            assert(Seq::<u8>::empty() + rest =~= rest);
        },
        Tag::Byte(_, v) => {
            lemma_signed_round_trip(v, 0, 0, 0);
            lemma_fields_round_trip(bits8(v), 0, 0, 0, rest);
        },
        Tag::Short(_, v) => {
            lemma_signed_round_trip(0, v, 0, 0);
            lemma_fields_round_trip(0, bits16(v), 0, 0, rest);
        },
        Tag::Int(_, v) => {
            lemma_signed_round_trip(0, 0, v, 0);
            lemma_fields_round_trip(0, 0, bits32(v), 0, rest);
        },
        Tag::Long(_, v) => {
            lemma_signed_round_trip(0, 0, 0, v);
            lemma_fields_round_trip(0, 0, 0, bits64(v), rest);
        },
        Tag::Float(_, v) => {
            lemma_fields_round_trip(0, 0, v, 0, rest);
        },
        Tag::Double(_, v) => {
            lemma_fields_round_trip(0, 0, 0, v, rest);
        },
        Tag::ByteArray(name, a) => {
            lemma_count_round_trip(a.len(), a + rest);
            lemma_byte_array_round_trip(name, a, rest);
        },
        Tag::Text(_, s) => {
            lemma_text_round_trip(s, rest);
        },
        Tag::List(name, id, elems) => {
            lemma_elems_round_trip(elems, 0, id, (depth - 1) as nat, rest);
            let body = seq_encoding(elems, 0, true).unwrap();
            assert(elems.skip(0) =~= elems);
            lemma_count_round_trip(elems.len(), body + rest);
            lemma_list_frame(name, id, elems, body, depth, rest);
        },
        Tag::Compound(_, kids) => {
            lemma_kids_round_trip(kids, 0, (depth - 1) as nat, rest);
            let body = seq_encoding(kids, 0, false).unwrap();
            assert((body + seq![0u8]) + rest =~= body + (seq![0u8] + rest));
            assert(kids.skip(0) =~= kids);
        },
        Tag::IntArray(name, a) => {
            lemma_count_round_trip(a.len(), ints_encoding(a, 0) + rest);
            lemma_int_array_round_trip(name, a, rest);
        },
        Tag::LongArray(name, a) => {
            lemma_count_round_trip(a.len(), longs_encoding(a, 0) + rest);
            lemma_long_array_round_trip(name, a, rest);
        },
    }
}

/// Behind the header of a named node, reading goes on with the payload.
pub proof fn lemma_header_round_trip(id: u8, name: Seq<char>, depth: nat, tail: Seq<u8>)
    requires
        0 < id <= 12,
        name.len() > 0,
        text_fits(name),
    ensures
        header_encoding(id, name, false) matches Ok(h) && parse_tag(h + tail, None, depth)
            == parse_payload(tail, id, name, depth),
{
    lemma_text_round_trip(name, tail);
    let nb = text_encoding(name).unwrap();
    lemma_fields_round_trip(id, 0, 0, 0, nb + tail);
    let whole = (seq![id] + nb) + tail;
    assert(whole =~= seq![id] + (nb + tail));
}

/// The end marker is read back from its type byte.
pub proof fn lemma_end_round_trip(depth: nat, rest: Seq<u8>)
    ensures
        encoding(Tag::End, false) == Ok::<Seq<u8>, NbtError>(seq![0u8]),
        parse_tag(seq![0u8] + rest, None, depth) == Ok::<(Tag, Seq<u8>), NbtError>(
            (Tag::End, rest),
        ),
{
    lemma_fields_round_trip(0, 0, 0, 0, rest);
}

/// A named node whose payload is read back is read back itself.
pub proof fn lemma_named_frame(t: Tag, depth: nat, body: Seq<u8>, rest: Seq<u8>)
    requires
        !(t is End),
        tag_name(t).len() > 0,
        text_fits(tag_name(t)),
        payload_encoding(t) == Ok::<Seq<u8>, NbtError>(body),
        parse_payload(body + rest, tag_id(t), tag_name(t), depth) == Ok::<
            (Tag, Seq<u8>),
            NbtError,
        >((t, rest)),
    ensures
        encoding(t, false) matches Ok(b) && parse_tag(b + rest, None, depth) == Ok::<
            (Tag, Seq<u8>),
            NbtError,
        >((t, rest)),
{
    let id = tag_id(t);
    assert(0 < id <= 12);
    lemma_header_round_trip(id, tag_name(t), depth, body + rest);
    let h = header_encoding(id, tag_name(t), false).unwrap();
    assert((h + body) + rest =~= h + (body + rest));
    assert(encoding(t, false) == Ok::<Seq<u8>, NbtError>(h + body));
}

/// A well-formed named node is read back as it was written.
pub proof fn lemma_named_round_trip(t: Tag, depth: nat, rest: Seq<u8>)
    requires
        well_formed(t, true, depth),
    ensures
        encoding(t, false) matches Ok(b) && parse_tag(b + rest, None, depth) == Ok::<
            (Tag, Seq<u8>),
            NbtError,
        >((t, rest)),
    decreases t, 1int,
{
    if t is End {
        lemma_end_round_trip(depth, rest);
    } else {
        lemma_payload_round_trip(t, true, depth, rest);
        lemma_named_frame(t, depth, payload_encoding(t).unwrap(), rest);
    }
}

/// A well-formed list element is read back as it was written.
pub proof fn lemma_unnamed_round_trip(t: Tag, depth: nat, rest: Seq<u8>)
    requires
        well_formed(t, false, depth),
    ensures
        encoding(t, true) matches Ok(b) && parse_tag(b + rest, Some(tag_id(t)), depth) == Ok::<
            (Tag, Seq<u8>),
            NbtError,
        >((t, rest)),
    decreases t, 1int,
{
    lemma_payload_round_trip(t, false, depth, rest);
    if t is End {
        assert(Seq::<u8>::empty() + rest =~= rest);
    } else {
        lemma_after_empty(payload_encoding(t));
        assert(tag_name(t) =~= Seq::<char>::empty());
    }
}

/// Round trip: the bytes that a well-formed tree is written as, with any
/// bytes behind them, are read back as that tree, and reading stops where
/// those other bytes begin. A named node is written with its header and
/// read without a forced type; a list element is written without a header
/// and read with its type forced.
pub proof fn law_round_trip(t: Tag, named: bool, depth: nat, rest: Seq<u8>)
    requires
        well_formed(t, named, depth),
    ensures
        encoding(t, !named) matches Ok(b) && parse_tag(
            b + rest,
            if named {
                None
            } else {
                Some(tag_id(t))
            },
            depth,
        ) == Ok::<(Tag, Seq<u8>), NbtError>((t, rest)),
{
    if named {
        lemma_named_round_trip(t, depth, rest);
    } else {
        lemma_unnamed_round_trip(t, depth, rest);
    }
}

/// A node with an empty name is written without a header: its bytes are
/// its payload alone, the same as where the header is suppressed. (The end
/// marker has no name and no payload; its one byte is its type id.)
pub proof fn law_empty_name_writes_no_header(t: Tag)
    requires
        !(t is End),
        tag_name(t).len() == 0,
    ensures
        encoding(t, false) == payload_encoding(t),
        encoding(t, false) == encoding(t, true),
{
    lemma_after_empty(payload_encoding(t));
}

/// A type byte over 12 is refused whatever follows it, and so is a forced
/// type over 12.
pub proof fn law_unknown_id_is_refused(s: Seq<u8>, forced: u8, depth: nat)
    ensures
        s.len() >= 1 && s[0] > 12 ==> parse_tag(s, None, depth) == Err::<
            (Tag, Seq<u8>),
            NbtError,
        >(NbtError::InvalidTagId),
        forced > 12 ==> parse_tag(s, Some(forced), depth) == Err::<(Tag, Seq<u8>), NbtError>(
            NbtError::InvalidTagId,
        ),
{
    reveal(parse_u8);
}

/// A count whose four bytes read as a negative number is refused.
pub proof fn lemma_negative_count(s: Seq<u8>)
    requires
        s.len() >= 4,
        signed32(un32(s)) < 0,
    ensures
        parse_count(s) == Err::<(nat, Seq<u8>), NbtError>(NbtError::InvalidLength),
{
    reveal(parse_u32);
}

/// An array whose declared count reads as negative is refused, and so is a
/// list whose count, behind the element type, reads as negative.
pub proof fn law_negative_count_is_refused(s: Seq<u8>, id: u8, name: Seq<char>, depth: nat)
    requires
        id == 7 || id == 11 || id == 12 || (id == 9 && depth > 0),
        id != 9 ==> s.len() >= 4 && signed32(un32(s)) < 0,
        id == 9 ==> s.len() >= 5 && signed32(un32(s.skip(1))) < 0,
    ensures
        parse_payload(s, id, name, depth) == Err::<(Tag, Seq<u8>), NbtError>(
            NbtError::InvalidLength,
        ),
{
    if id == 9 {
        reveal(parse_u8);
        lemma_negative_count(s.skip(1));
    } else {
        lemma_negative_count(s);
    }
}

/// The width of the payload of a fixed-width kind.
pub open spec fn fixed_width(id: u8) -> nat {
    if id == 1 {
        1
    } else if id == 2 {
        2
    } else if id == 3 || id == 5 {
        4
    } else {
        8
    }
}

/// A fixed-width payload that is cut short is refused.
pub proof fn law_short_field_is_refused(s: Seq<u8>, id: u8, name: Seq<char>, depth: nat)
    requires
        1 <= id <= 6,
        s.len() < fixed_width(id),
    ensures
        parse_payload(s, id, name, depth) == Err::<(Tag, Seq<u8>), NbtError>(
            NbtError::TruncatedInput,
        ),
{
    reveal(parse_u8);
    reveal(parse_u16);
    reveal(parse_u32);
    reveal(parse_u64);
}

/// Fewer than `4 * n` bytes do not hold `n` ints.
pub proof fn lemma_short_ints(s: Seq<u8>, n: nat)
    requires
        s.len() < 4 * n,
    ensures
        parse_ints(s, n) == Err::<(Seq<i32>, Seq<u8>), NbtError>(NbtError::TruncatedInput),
    decreases n,
{
    reveal(parse_u32);
    if s.len() >= 4 {
        lemma_short_ints(s.skip(4), (n - 1) as nat);
    }
}

/// Fewer than `8 * n` bytes do not hold `n` longs.
pub proof fn lemma_short_longs(s: Seq<u8>, n: nat)
    requires
        s.len() < 8 * n,
    ensures
        parse_longs(s, n) == Err::<(Seq<i64>, Seq<u8>), NbtError>(NbtError::TruncatedInput),
    decreases n,
{
    reveal(parse_u64);
    if s.len() >= 8 {
        lemma_short_longs(s.skip(8), (n - 1) as nat);
    }
}

/// An array whose declared count asks for more bytes than are left is
/// refused.
pub proof fn law_short_array_is_refused(s: Seq<u8>, id: u8, name: Seq<char>, depth: nat)
    requires
        id == 7 || id == 11 || id == 12,
        parse_count(s) matches Ok((n, r)) && r.len() < n * (if id == 7 {
            1int
        } else if id == 11 {
            4int
        } else {
            8int
        }),
    ensures
        parse_payload(s, id, name, depth) == Err::<(Tag, Seq<u8>), NbtError>(
            NbtError::TruncatedInput,
        ),
{
    if let Ok((n, r)) = parse_count(s) {
        if id == 7 {
            reveal(parse_bytes);
        } else if id == 11 {
            lemma_short_ints(r, n);
        } else {
            lemma_short_longs(r, n);
        }
    }
}

/// No child of a compound that was read is the end marker, and an end
/// marker where a child is expected closes the compound at once.
pub proof fn law_compound_stops_at_first_end(s: Seq<u8>, depth: nat)
    ensures
        parse_kids(s, depth) matches Ok((kids, _)) ==> forall|i: int|
            0 <= i < kids.len() ==> !(#[trigger] kids[i] is End),
        parse_tag(s, None, depth) matches Ok((t, r)) ==> (t is End ==> parse_kids(s, depth) == Ok::<
            (Seq<Tag>, Seq<u8>),
            NbtError,
        >((Seq::empty(), r))),
    decreases s.len(),
{
    if let Ok((t, r)) = parse_tag(s, None, depth) {
        if !(t is End) && r.len() < s.len() {
            law_compound_stops_at_first_end(r, depth);
            if let Ok((others, _)) = parse_kids(r, depth) {
                let kids = seq![t] + others;
                assert forall|i: int| 0 <= i < kids.len() implies !(#[trigger] kids[i] is End) by {
                    if i > 0 {
                        assert(kids[i] == others[i - 1]);
                    }
                }
            }
        }
    }
}

/// A list of `n` ints takes four bytes for each element and nothing more:
/// no element has a type byte or a name.
pub proof fn law_int_list_takes_four_bytes_each(s: Seq<u8>, n: nat, depth: nat)
    requires
        s.len() >= 4 * n,
    ensures
        parse_elems(s, 3, n, depth) matches Ok((elems, r)) && elems.len() == n && r == s.skip(
            4 * n as int,
        ) && forall|i: int|
            0 <= i < n ==> #[trigger] elems[i] == Tag::Int(
                Seq::empty(),
                signed32(un32(s.skip(4 * i))),
            ),
    decreases n,
{
    reveal(parse_u32);
    if n == 0 {
        assert(s.skip(0) =~= s);
    } else {
        let tail = s.skip(4);
        law_int_list_takes_four_bytes_each(tail, (n - 1) as nat, depth);
        let first = Tag::Int(Seq::empty(), signed32(un32(s)));
        assert(parse_tag(s, Some(3u8), depth) == Ok::<(Tag, Seq<u8>), NbtError>((first, tail)));
        let (others, r) = parse_elems(tail, 3, (n - 1) as nat, depth).unwrap();
        let elems = seq![first] + others;
        assert(tail.skip(4 * (n - 1)) =~= s.skip(4 * n as int));
        assert(s.skip(0) =~= s);
        assert forall|i: int| 0 <= i < n implies #[trigger] elems[i] == Tag::Int(
            Seq::empty(),
            signed32(un32(s.skip(4 * i))),
        ) by {
            if i > 0 {
                assert(elems[i] == others[i - 1]);
                assert(tail.skip(4 * (i - 1)) =~= s.skip(4 * i));
            }
        }
    }
}

/// A payload that is read becomes a node of the kind that was asked for,
/// with the name that was given.
pub proof fn lemma_payload_kind(s: Seq<u8>, id: u8, name: Seq<char>, depth: nat)
    ensures
        parse_payload(s, id, name, depth) matches Ok((t, _)) ==> tag_id(t) == id && (id != 0
            ==> tag_name(t) == name),
{
}

/// The elements of a list that was read are as many as were declared, all
/// of the declared type, and none has a name.
pub proof fn law_list_is_homogeneous(s: Seq<u8>, id: u8, n: nat, depth: nat)
    ensures
        parse_elems(s, id, n, depth) matches Ok((elems, _)) ==> elems.len() == n && forall|i: int|
            0 <= i < n ==> tag_id(#[trigger] elems[i]) == id && tag_name(elems[i]).len() == 0,
    decreases n,
{
    if n > 0 {
        lemma_payload_kind(s, id, Seq::empty(), depth);
        if let Ok((t, r)) = parse_tag(s, Some(id), depth) {
            law_list_is_homogeneous(r, id, (n - 1) as nat, depth);
            if let Ok((others, _)) = parse_elems(r, id, (n - 1) as nat, depth) {
                let elems = seq![t] + others;
                assert forall|i: int| 0 <= i < n implies tag_id(#[trigger] elems[i]) == id
                    && tag_name(elems[i]).len() == 0 by {
                    if i > 0 {
                        assert(elems[i] == others[i - 1]);
                    }
                }
            }
        }
    }
}

} // verus!
