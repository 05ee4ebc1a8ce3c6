use vstd::prelude::*;
use vstd::slice::{slice_subrange, slice_to_vec};
use vstd::utf8::{decode_utf8, valid_utf8};
use crate::text::utf8_text;
use crate::tag::{MAX_DEPTH, NBTType, NbtError, Tag, tags_of};
use crate::wire::{i8_from_bits, i16_from_bits, i32_from_bits, i64_from_bits, signed8, signed16, signed32, signed64, un16, un32, un64};

verus! {

/// One byte and what follows it.
#[verifier::opaque]
pub open spec fn parse_u8(s: Seq<u8>) -> Result<(u8, Seq<u8>), NbtError> {
    if s.len() < 1 {
        Err(NbtError::TruncatedInput)
    } else {
        Ok((s[0], s.skip(1)))
    }
}

/// Two bytes read big-endian, and what follows them.
#[verifier::opaque]
pub open spec fn parse_u16(s: Seq<u8>) -> Result<(u16, Seq<u8>), NbtError> {
    if s.len() < 2 {
        Err(NbtError::TruncatedInput)
    } else {
        Ok((un16(s), s.skip(2)))
    }
}

/// Four bytes read big-endian, and what follows them.
#[verifier::opaque]
pub open spec fn parse_u32(s: Seq<u8>) -> Result<(u32, Seq<u8>), NbtError> {
    if s.len() < 4 {
        Err(NbtError::TruncatedInput)
    } else {
        Ok((un32(s), s.skip(4)))
    }
}

/// Eight bytes read big-endian, and what follows them.
#[verifier::opaque]
pub open spec fn parse_u64(s: Seq<u8>) -> Result<(u64, Seq<u8>), NbtError> {
    if s.len() < 8 {
        Err(NbtError::TruncatedInput)
    } else {
        Ok((un64(s), s.skip(8)))
    }
}

/// A signed 32-bit field.
pub open spec fn parse_i32(s: Seq<u8>) -> Result<(i32, Seq<u8>), NbtError> {
    match parse_u32(s) {
        Ok((u, r)) => Ok((signed32(u), r)),
        Err(e) => Err(e),
    }
}

/// A signed 64-bit field.
pub open spec fn parse_i64(s: Seq<u8>) -> Result<(i64, Seq<u8>), NbtError> {
    match parse_u64(s) {
        Ok((u, r)) => Ok((signed64(u), r)),
        Err(e) => Err(e),
    }
}

/// A signed 32-bit count, which must not be negative.
pub open spec fn parse_count(s: Seq<u8>) -> Result<(nat, Seq<u8>), NbtError> {
    match parse_i32(s) {
        Ok((n, r)) => if n < 0 {
            Err(NbtError::InvalidLength)
        } else {
            Ok((n as nat, r))
        },
        Err(e) => Err(e),
    }
}

/// The next `n` bytes as they stand.
#[verifier::opaque]
pub open spec fn parse_bytes(s: Seq<u8>, n: nat) -> Result<(Seq<u8>, Seq<u8>), NbtError> {
    if s.len() < n {
        Err(NbtError::TruncatedInput)
    } else {
        Ok((s.take(n as int), s.skip(n as int)))
    }
}

/// A text: two bytes of length, then that many bytes of UTF-8.
pub open spec fn parse_text(s: Seq<u8>) -> Result<(Seq<char>, Seq<u8>), NbtError> {
    match parse_u16(s) {
        Ok((n, r)) => match parse_bytes(r, n as nat) {
            Ok((b, r2)) => match utf8_text(b) {
                Some(text) => Ok((text, r2)),
                None => Err(NbtError::InvalidUtf8),
            },
            Err(e) => Err(e),
        },
        Err(e) => Err(e),
    }
}

/// `done` in front of the items that `r` holds, or the error of `r`.
pub open spec fn prepend<T>(done: Seq<T>, r: Result<(Seq<T>, Seq<u8>), NbtError>) -> Result<
    (Seq<T>, Seq<u8>),
    NbtError,
> {
    match r {
        Ok((items, rest)) => Ok((done + items, rest)),
        Err(e) => Err(e),
    }
}

/// `n` signed 32-bit elements.
pub open spec fn parse_ints(s: Seq<u8>, n: nat) -> Result<(Seq<i32>, Seq<u8>), NbtError>
    decreases n,
{
    if n == 0 {
        Ok((Seq::empty(), s))
    } else {
        match parse_i32(s) {
            Ok((v, r)) => prepend(seq![v], parse_ints(r, (n - 1) as nat)),
            Err(e) => Err(e),
        }
    }
}

/// `n` signed 64-bit elements.
pub open spec fn parse_longs(s: Seq<u8>, n: nat) -> Result<(Seq<i64>, Seq<u8>), NbtError>
    decreases n,
{
    if n == 0 {
        Ok((Seq::empty(), s))
    } else {
        match parse_i64(s) {
            Ok((v, r)) => prepend(seq![v], parse_longs(r, (n - 1) as nat)),
            Err(e) => Err(e),
        }
    }
}

/// `n` list elements of type `id`, each without a header.
pub open spec fn parse_elems(s: Seq<u8>, id: u8, n: nat, depth: nat) -> Result<
    (Seq<Tag>, Seq<u8>),
    NbtError,
>
    decreases depth, 3int, n,
{
    if n == 0 {
        Ok((Seq::empty(), s))
    } else {
        match parse_tag(s, Some(id), depth) {
            Ok((t, r)) => prepend(seq![t], parse_elems(r, id, (n - 1) as nat, depth)),
            Err(e) => Err(e),
        }
    }
}

/// The children of a compound: named nodes up to the first end marker,
/// which is taken from the input and not kept. Every child takes at least
/// its type byte (`lemma_named_tag_takes_bytes`), so the last branch is
/// never reached.
pub open spec fn parse_kids(s: Seq<u8>, depth: nat) -> Result<(Seq<Tag>, Seq<u8>), NbtError>
    decreases depth, 3int, s.len(),
{
    match parse_tag(s, None, depth) {
        Ok((t, r)) => if t is End {
            Ok((Seq::empty(), r))
        } else if r.len() < s.len() {
            prepend(seq![t], parse_kids(r, depth))
        } else {
            Err(NbtError::TruncatedInput)
        },
        Err(e) => Err(e),
    }
}

/// The payload of a byte array: a count, then that many bytes.
pub open spec fn parse_byte_array(s: Seq<u8>, name: Seq<char>) -> Result<(Tag, Seq<u8>), NbtError> {
    match parse_count(s) {
        Ok((n, r)) => match parse_bytes(r, n) {
            Ok((a, r2)) => Ok((Tag::ByteArray(name, a), r2)),
            Err(e) => Err(e),
        },
        Err(e) => Err(e),
    }
}

/// The payload of an int array: a count, then that many elements.
pub open spec fn parse_int_array(s: Seq<u8>, name: Seq<char>) -> Result<(Tag, Seq<u8>), NbtError> {
    match parse_count(s) {
        Ok((n, r)) => match parse_ints(r, n) {
            Ok((a, r2)) => Ok((Tag::IntArray(name, a), r2)),
            Err(e) => Err(e),
        },
        Err(e) => Err(e),
    }
}

/// The payload of a long array: a count, then that many elements.
pub open spec fn parse_long_array(s: Seq<u8>, name: Seq<char>) -> Result<(Tag, Seq<u8>), NbtError> {
    match parse_count(s) {
        Ok((n, r)) => match parse_longs(r, n) {
            Ok((a, r2)) => Ok((Tag::LongArray(name, a), r2)),
            Err(e) => Err(e),
        },
        Err(e) => Err(e),
    }
}

/// The payload of a list: the element type, a count, then that many
/// elements, read one level further down.
pub open spec fn parse_list(s: Seq<u8>, name: Seq<char>, depth: nat) -> Result<
    (Tag, Seq<u8>),
    NbtError,
>
    decreases depth, 0int,
{
    if depth == 0 {
        Err(NbtError::TooDeep)
    } else {
        match parse_u8(s) {
            Ok((elem, r)) => match parse_count(r) {
                Ok((n, r2)) => match parse_elems(r2, elem, n, (depth - 1) as nat) {
                    Ok((ts, r3)) => Ok((Tag::List(name, elem, ts), r3)),
                    Err(e) => Err(e),
                },
                Err(e) => Err(e),
            },
            Err(e) => Err(e),
        }
    }
}

/// The payload of a compound: its children, read one level further down.
pub open spec fn parse_compound(s: Seq<u8>, name: Seq<char>, depth: nat) -> Result<
    (Tag, Seq<u8>),
    NbtError,
>
    decreases depth, 0int,
{
    if depth == 0 {
        Err(NbtError::TooDeep)
    } else {
        match parse_kids(s, (depth - 1) as nat) {
            Ok((ts, r)) => Ok((Tag::Compound(name, ts), r)),
            Err(e) => Err(e),
        }
    }
}

/// The payload of a node of type `id`, which becomes a node named `name`.
/// A list or a compound needs `depth` above zero, and its children are read
/// with one less.
pub open spec fn parse_payload(s: Seq<u8>, id: u8, name: Seq<char>, depth: nat) -> Result<
    (Tag, Seq<u8>),
    NbtError,
>
    decreases depth, 1int,
{
    if id == 0 {
        Ok((Tag::End, s))
    } else if id == 1 {
        match parse_u8(s) {
            Ok((v, r)) => Ok((Tag::Byte(name, signed8(v)), r)),
            Err(e) => Err(e),
        }
    } else if id == 2 {
        match parse_u16(s) {
            Ok((v, r)) => Ok((Tag::Short(name, signed16(v)), r)),
            Err(e) => Err(e),
        }
    } else if id == 3 {
        match parse_i32(s) {
            Ok((v, r)) => Ok((Tag::Int(name, v), r)),
            Err(e) => Err(e),
        }
    } else if id == 4 {
        match parse_i64(s) {
            Ok((v, r)) => Ok((Tag::Long(name, v), r)),
            Err(e) => Err(e),
        }
    } else if id == 5 {
        match parse_u32(s) {
            Ok((v, r)) => Ok((Tag::Float(name, v), r)),
            Err(e) => Err(e),
        }
    } else if id == 6 {
        match parse_u64(s) {
            Ok((v, r)) => Ok((Tag::Double(name, v), r)),
            Err(e) => Err(e),
        }
    } else if id == 7 {
        parse_byte_array(s, name)
    } else if id == 8 {
        match parse_text(s) {
            Ok((v, r)) => Ok((Tag::Text(name, v), r)),
            Err(e) => Err(e),
        }
    } else if id == 9 {
        parse_list(s, name, depth)
    } else if id == 10 {
        parse_compound(s, name, depth)
    } else if id == 11 {
        parse_int_array(s, name)
    } else if id == 12 {
        parse_long_array(s, name)
    } else {
        Err(NbtError::InvalidTagId)
    }
}

/// One node and the input that follows it. Without a forced type the type
/// byte is read, then, unless it is the end marker, the name; with one,
/// neither is read and the name is empty. A type id over 12 is refused
/// before anything else is read.
pub open spec fn parse_tag(s: Seq<u8>, forced: Option<u8>, depth: nat) -> Result<
    (Tag, Seq<u8>),
    NbtError,
>
    decreases depth, 2int,
{
    match forced {
        Some(id) => parse_payload(s, id, Seq::empty(), depth),
        None => match parse_u8(s) {
            Ok((id, r)) => if id == 0 {
                Ok((Tag::End, r))
            } else if id > 12 {
                Err(NbtError::InvalidTagId)
            } else {
                match parse_text(r) {
                    Ok((name, r2)) => parse_payload(r2, id, name, depth),
                    Err(e) => Err(e),
                }
            },
            Err(e) => Err(e),
        },
    }
}

/// What the fixed-width fields and raw bytes leave of the input is shorter
/// by their width.
pub proof fn lemma_fields_shrink(s: Seq<u8>, n: nat)
    ensures
        parse_u8(s) matches Ok((_, r)) ==> r.len() + 1 == s.len(),
        parse_u16(s) matches Ok((_, r)) ==> r.len() + 2 == s.len(),
        parse_u32(s) matches Ok((_, r)) ==> r.len() + 4 == s.len(),
        parse_u64(s) matches Ok((_, r)) ==> r.len() + 8 == s.len(),
        parse_bytes(s, n) matches Ok((_, r)) ==> r.len() + n == s.len(),
{
    reveal(parse_u8);
    reveal(parse_u16);
    reveal(parse_u32);
    reveal(parse_u64);
    reveal(parse_bytes);
}

/// Reading a text never gives back more input than it got.
pub proof fn lemma_text_shrinks(s: Seq<u8>)
    ensures
        parse_text(s) matches Ok((_, r)) ==> r.len() <= s.len(),
{
    lemma_fields_shrink(s, 0);
    if let Ok((n, r)) = parse_u16(s) {
        lemma_fields_shrink(r, n as nat);
    }
}

/// Reading `n` ints never gives back more input than it got.
pub proof fn lemma_ints_shrink(s: Seq<u8>, n: nat)
    ensures
        parse_ints(s, n) matches Ok((_, r)) ==> r.len() <= s.len(),
    decreases n,
{
    if n > 0 {
        lemma_fields_shrink(s, 0);
        if let Ok((_, r)) = parse_i32(s) {
            lemma_ints_shrink(r, (n - 1) as nat);
        }
    }
}

/// Reading `n` longs never gives back more input than it got.
pub proof fn lemma_longs_shrink(s: Seq<u8>, n: nat)
    ensures
        parse_longs(s, n) matches Ok((_, r)) ==> r.len() <= s.len(),
    decreases n,
{
    if n > 0 {
        lemma_fields_shrink(s, 0);
        if let Ok((_, r)) = parse_i64(s) {
            lemma_longs_shrink(r, (n - 1) as nat);
        }
    }
}

/// Reading list elements never gives back more input than it got.
pub proof fn lemma_elems_shrink(s: Seq<u8>, id: u8, n: nat, depth: nat)
    ensures
        parse_elems(s, id, n, depth) matches Ok((_, r)) ==> r.len() <= s.len(),
    decreases depth, 3int, n,
{
    if n > 0 {
        lemma_tag_shrinks(s, Some(id), depth);
        if let Ok((_, r)) = parse_tag(s, Some(id), depth) {
            lemma_elems_shrink(r, id, (n - 1) as nat, depth);
        }
    }
}

/// Reading a compound's children never gives back more input than it got.
pub proof fn lemma_kids_shrink(s: Seq<u8>, depth: nat)
    ensures
        parse_kids(s, depth) matches Ok((_, r)) ==> r.len() <= s.len(),
    decreases depth, 3int, s.len(),
{
    lemma_tag_shrinks(s, None, depth);
    if let Ok((t, r)) = parse_tag(s, None, depth) {
        if !(t is End) && r.len() < s.len() {
            lemma_kids_shrink(r, depth);
        }
    }
}

/// Reading a payload never gives back more input than it got.
pub proof fn lemma_payload_shrinks(s: Seq<u8>, id: u8, name: Seq<char>, depth: nat)
    ensures
        parse_payload(s, id, name, depth) matches Ok((_, r)) ==> r.len() <= s.len(),
    decreases depth, 1int,
{
    lemma_fields_shrink(s, 0);
    if id == 7 {
        if let Ok((n, r)) = parse_count(s) {
            lemma_fields_shrink(r, n);
        }
    } else if id == 8 {
        lemma_text_shrinks(s);
    } else if id == 9 && depth > 0 {
        if let Ok((elem, r)) = parse_u8(s) {
            lemma_fields_shrink(r, 0);
            if let Ok((n, r2)) = parse_count(r) {
                lemma_elems_shrink(r2, elem, n, (depth - 1) as nat);
            }
        }
    } else if id == 10 && depth > 0 {
        lemma_kids_shrink(s, (depth - 1) as nat);
    } else if id == 11 {
        if let Ok((n, r)) = parse_count(s) {
            lemma_ints_shrink(r, n);
        }
    } else if id == 12 {
        if let Ok((n, r)) = parse_count(s) {
            lemma_longs_shrink(r, n);
        }
    }
}

/// Reading a node never gives back more input than it got.
pub proof fn lemma_tag_shrinks(s: Seq<u8>, forced: Option<u8>, depth: nat)
    ensures
        parse_tag(s, forced, depth) matches Ok((_, r)) ==> r.len() <= s.len(),
    decreases depth, 2int,
{
    match forced {
        Some(id) => lemma_payload_shrinks(s, id, Seq::empty(), depth),
        None => {
            lemma_fields_shrink(s, 0);
            if let Ok((id, r)) = parse_u8(s) {
                if 0 < id <= 12 {
                    lemma_text_shrinks(r);
                    if let Ok((name, r2)) = parse_text(r) {
                        lemma_payload_shrinks(r2, id, name, depth);
                    }
                }
            }
        },
    }
}

/// A node that is read with its type byte takes at least that byte, so the
/// children of a compound are read from ever shorter input.
pub proof fn lemma_named_tag_takes_bytes(s: Seq<u8>, depth: nat)
    ensures
        parse_tag(s, None, depth) matches Ok((_, r)) ==> r.len() < s.len(),
{
    lemma_fields_shrink(s, 0);
    if let Ok((id, r)) = parse_u8(s) {
        if 0 < id <= 12 {
            lemma_text_shrinks(r);
            if let Ok((name, r2)) = parse_text(r) {
                lemma_payload_shrinks(r2, id, name, depth);
            }
        }
    }
}

/// What a reader owes for a plain value that `target` describes: the value
/// and the position behind it, or the same error.
pub open spec fn consumed<T>(
    input: Seq<u8>,
    target: Result<(T, Seq<u8>), NbtError>,
    r: Result<(T, usize), NbtError>,
) -> bool {
    match target {
        Ok((v, rest)) => r matches Ok((x, p)) && x == v && p <= input.len() && input.skip(p as int)
            == rest,
        Err(e) => r matches Err(e2) && e2 == e,
    }
}

/// The same for a vector, which is held to the sequence by its view.
pub open spec fn consumed_vec<T>(
    input: Seq<u8>,
    target: Result<(Seq<T>, Seq<u8>), NbtError>,
    r: Result<(Vec<T>, usize), NbtError>,
) -> bool {
    match target {
        Ok((v, rest)) => r matches Ok((x, p)) && x@ == v && p <= input.len() && input.skip(p as int)
            == rest,
        Err(e) => r matches Err(e2) && e2 == e,
    }
}

/// The same for a node.
pub open spec fn decoded(
    input: Seq<u8>,
    target: Result<(Tag, Seq<u8>), NbtError>,
    r: Result<(NBTType, usize), NbtError>,
) -> bool {
    match target {
        Ok((v, rest)) => r matches Ok((x, p)) && x@ == v && p <= input.len() && input.skip(p as int)
            == rest,
        Err(e) => r matches Err(e2) && e2 == e,
    }
}

/// The same for a vector of nodes.
pub open spec fn decoded_seq(
    input: Seq<u8>,
    target: Result<(Seq<Tag>, Seq<u8>), NbtError>,
    r: Result<(Vec<Box<NBTType>>, usize), NbtError>,
) -> bool {
    match target {
        Ok((v, rest)) => r matches Ok((x, p)) && tags_of(x@) == v && p <= input.len() && input.skip(
            p as int,
        ) == rest,
        Err(e) => r matches Err(e2) && e2 == e,
    }
}

/// Skipping in two steps is skipping once.
proof fn lemma_skip_skip(s: Seq<u8>, a: int, b: int)
    requires
        0 <= a,
        0 <= b,
        a + b <= s.len(),
    ensures
        s.skip(a).skip(b) == s.skip(a + b),
        s.skip(a).take(b) == s.subrange(a, a + b),
{
    assert(s.skip(a).skip(b) =~= s.skip(a + b));
    assert(s.skip(a).take(b) =~= s.subrange(a, a + b));
}

/// Reads the byte at `pos`.
pub fn read_u8(input: &[u8], pos: usize) -> (r: Result<(u8, usize), NbtError>)
    requires
        pos <= input.len(),
    ensures
        consumed(input@, parse_u8(input@.skip(pos as int)), r),
{
    proof {
        reveal(parse_u8);
    }
    if input.len() - pos < 1 {
        return Err(NbtError::TruncatedInput);
    }
    proof {
        reveal(parse_u8);
        lemma_skip_skip(input@, pos as int, 1);
    }
    Ok((input[pos], pos + 1))
}

/// Reads two bytes at `pos`, big-endian.
pub fn read_u16(input: &[u8], pos: usize) -> (r: Result<(u16, usize), NbtError>)
    requires
        pos <= input.len(),
    ensures
        consumed(input@, parse_u16(input@.skip(pos as int)), r),
{
    proof {
        reveal(parse_u16);
    }
    if input.len() - pos < 2 {
        return Err(NbtError::TruncatedInput);
    }
    proof {
        reveal(parse_u16);
        lemma_skip_skip(input@, pos as int, 2);
    }
    let hi: u16 = input[pos] as u16;
    let lo: u16 = input[pos + 1] as u16;
    Ok((hi * 256 + lo, pos + 2))
}

/// Reads four bytes at `pos`, big-endian.
pub fn read_u32(input: &[u8], pos: usize) -> (r: Result<(u32, usize), NbtError>)
    requires
        pos <= input.len(),
    ensures
        consumed(input@, parse_u32(input@.skip(pos as int)), r),
{
    proof {
        reveal(parse_u32);
    }
    if input.len() - pos < 4 {
        return Err(NbtError::TruncatedInput);
    }
    proof {
        reveal(parse_u32);
        lemma_skip_skip(input@, pos as int, 4);
    }
    let b0: u32 = input[pos] as u32;
    let b1: u32 = input[pos + 1] as u32;
    let b2: u32 = input[pos + 2] as u32;
    let b3: u32 = input[pos + 3] as u32;
    Ok((b0 * 0x100_0000 + b1 * 0x1_0000 + b2 * 256 + b3, pos + 4))
}

/// Reads eight bytes at `pos`, big-endian.
pub fn read_u64(input: &[u8], pos: usize) -> (r: Result<(u64, usize), NbtError>)
    requires
        pos <= input.len(),
    ensures
        consumed(input@, parse_u64(input@.skip(pos as int)), r),
{
    proof {
        reveal(parse_u32);
        reveal(parse_u64);
    }
    if input.len() - pos < 8 {
        return Err(NbtError::TruncatedInput);
    }
    let (hi, mid) = match read_u32(input, pos) {
        Ok(x) => x,
        Err(e) => { return Err(e); },
    };
    let (lo, end) = match read_u32(input, mid) {
        Ok(x) => x,
        Err(e) => { return Err(e); },
    };
    proof {
        reveal(parse_u32);
        reveal(parse_u64);
        lemma_skip_skip(input@, pos as int, 4);
        lemma_skip_skip(input@, pos as int + 4, 4);
        lemma_skip_skip(input@, pos as int, 8);
        assert(input@.skip(pos as int).skip(4) == input@.skip(mid as int));
    }
    let h: u64 = hi as u64;
    let l: u64 = lo as u64;
    Ok((h * 0x1_0000_0000 + l, end))
}

/// Reads a signed 32-bit field at `pos`.
pub fn read_i32(input: &[u8], pos: usize) -> (r: Result<(i32, usize), NbtError>)
    requires
        pos <= input.len(),
    ensures
        consumed(input@, parse_i32(input@.skip(pos as int)), r),
{
    match read_u32(input, pos) {
        Ok((u, p)) => Ok((i32_from_bits(u), p)),
        Err(e) => Err(e),
    }
}

/// Reads a signed 64-bit field at `pos`.
pub fn read_i64(input: &[u8], pos: usize) -> (r: Result<(i64, usize), NbtError>)
    requires
        pos <= input.len(),
    ensures
        consumed(input@, parse_i64(input@.skip(pos as int)), r),
{
    match read_u64(input, pos) {
        Ok((u, p)) => Ok((i64_from_bits(u), p)),
        Err(e) => Err(e),
    }
}

/// Reads a count at `pos` and refuses a negative one.
pub fn read_count(input: &[u8], pos: usize) -> (r: Result<(usize, usize), NbtError>)
    requires
        pos <= input.len(),
    ensures
        match parse_count(input@.skip(pos as int)) {
            Ok((n, rest)) => r matches Ok((x, p)) && x == n && p <= input.len() && input@.skip(
                p as int,
            ) == rest,
            Err(e) => r matches Err(e2) && e2 == e,
        },
{
    match read_i32(input, pos) {
        Ok((n, p)) => if n < 0 {
            Err(NbtError::InvalidLength)
        } else {
            Ok((n as usize, p))
        },
        Err(e) => Err(e),
    }
}

/// Copies the `n` bytes at `pos`.
pub fn read_bytes(input: &[u8], pos: usize, n: usize) -> (r: Result<(Vec<u8>, usize), NbtError>)
    requires
        pos <= input.len(),
    ensures
        consumed_vec(input@, parse_bytes(input@.skip(pos as int), n as nat), r),
{
    proof {
        reveal(parse_bytes);
    }
    if input.len() - pos < n {
        return Err(NbtError::TruncatedInput);
    }
    proof {
        reveal(parse_bytes);
        lemma_skip_skip(input@, pos as int, n as int);
    }
    let bytes = slice_to_vec(slice_subrange(input, pos, pos + n));
    Ok((bytes, pos + n))
}

/// `String::from_utf8` of std: the bytes become a string exactly when they
/// are well-formed UTF-8, and the string then holds the characters that
/// they spell.
#[verifier::external_body]
fn string_from_utf8(bytes: Vec<u8>) -> (r: Option<String>)
    ensures
        r is Some <==> valid_utf8(bytes@),
        r matches Some(s) ==> s@ == decode_utf8(bytes@),
{
    match String::from_utf8(bytes) {
        Ok(s) => Some(s),
        Err(_) => None,
    }
}

/// Reads a text at `pos`: two bytes of length, then that many bytes, which
/// must be UTF-8.
pub fn read_string(input: &[u8], pos: usize) -> (r: Result<(String, usize), NbtError>)
    requires
        pos <= input.len(),
    ensures
        match parse_text(input@.skip(pos as int)) {
            Ok((v, rest)) => r matches Ok((x, p)) && x@ == v && p <= input.len() && input@.skip(
                p as int,
            ) == rest,
            Err(e) => r matches Err(e2) && e2 == e,
        },
{
    let (n, p) = match read_u16(input, pos) {
        Ok(x) => x,
        Err(e) => { return Err(e); },
    };
    let (bytes, q) = match read_bytes(input, p, n as usize) {
        Ok(x) => x,
        Err(e) => { return Err(e); },
    };
    proof {
        reveal(utf8_text);
    }
    match string_from_utf8(bytes) {
        Some(s) => Ok((s, q)),
        None => Err(NbtError::InvalidUtf8),
    }
}

/// Composing `prepend` twice is `prepend` of the joined front.
pub proof fn lemma_prepend_prepend<T>(a: Seq<T>, b: Seq<T>, r: Result<(Seq<T>, Seq<u8>), NbtError>)
    ensures
        prepend(a, prepend(b, r)) == prepend(a + b, r),
{
    if let Ok((x, _)) = r {
        assert(a + (b + x) =~= (a + b) + x);
    }
}

/// `prepend` of nothing changes nothing.
pub proof fn lemma_prepend_empty<T>(r: Result<(Seq<T>, Seq<u8>), NbtError>)
    ensures
        prepend(Seq::empty(), r) == r,
{
    if let Ok((x, _)) = r {
        assert(Seq::<T>::empty() + x =~= x);
    }
}

/// Reads `n` signed 32-bit elements at `pos`.
pub fn read_ints(input: &[u8], pos: usize, n: usize) -> (r: Result<(Vec<i32>, usize), NbtError>)
    requires
        pos <= input.len(),
    ensures
        consumed_vec(input@, parse_ints(input@.skip(pos as int), n as nat), r),
{
    let ghost target = parse_ints(input@.skip(pos as int), n as nat);
    let mut out: Vec<i32> = Vec::new();
    let mut p: usize = pos;
    let mut i: usize = 0;
    proof {
        lemma_prepend_empty(target);
    }
    while i < n
        invariant
            i <= n,
            p <= input.len(),
            target == parse_ints(input@.skip(pos as int), n as nat),
            target == prepend(out@, parse_ints(input@.skip(p as int), (n - i) as nat)),
        decreases n - i,
    {
        let ghost front = out@;
        match read_i32(input, p) {
            Ok((v, q)) => {
                proof {
                    lemma_prepend_prepend(
                        front,
                        seq![v],
                        parse_ints(input@.skip(q as int), (n - i - 1) as nat),
                    );
                }
                out.push(v);
                assert(out@ =~= front + seq![v]);
                p = q;
            },
            Err(e) => {
                assert(parse_ints(input@.skip(p as int), (n - i) as nat) is Err);
                return Err(e);
            },
        }
        i = i + 1;
    }
    proof {
        assert(out@ + Seq::<i32>::empty() =~= out@);
    }
    Ok((out, p))
}

/// Reads `n` signed 64-bit elements at `pos`.
pub fn read_longs(input: &[u8], pos: usize, n: usize) -> (r: Result<(Vec<i64>, usize), NbtError>)
    requires
        pos <= input.len(),
    ensures
        consumed_vec(input@, parse_longs(input@.skip(pos as int), n as nat), r),
{
    let ghost target = parse_longs(input@.skip(pos as int), n as nat);
    let mut out: Vec<i64> = Vec::new();
    let mut p: usize = pos;
    let mut i: usize = 0;
    proof {
        lemma_prepend_empty(target);
    }
    while i < n
        invariant
            i <= n,
            p <= input.len(),
            target == parse_longs(input@.skip(pos as int), n as nat),
            target == prepend(out@, parse_longs(input@.skip(p as int), (n - i) as nat)),
        decreases n - i,
    {
        let ghost front = out@;
        match read_i64(input, p) {
            Ok((v, q)) => {
                proof {
                    lemma_prepend_prepend(
                        front,
                        seq![v],
                        parse_longs(input@.skip(q as int), (n - i - 1) as nat),
                    );
                }
                out.push(v);
                assert(out@ =~= front + seq![v]);
                p = q;
            },
            Err(e) => {
                assert(parse_longs(input@.skip(p as int), (n - i) as nat) is Err);
                return Err(e);
            },
        }
        i = i + 1;
    }
    proof {
        assert(out@ + Seq::<i64>::empty() =~= out@);
    }
    Ok((out, p))
}

/// The values of a vector with one more node are those of the vector, then
/// that of the node.
proof fn lemma_tags_of_push(v: Seq<Box<NBTType>>, t: NBTType)
    ensures
        tags_of(v.push(Box::new(t))) == tags_of(v) + seq![t@],
        tags_of(Seq::<Box<NBTType>>::empty()) == Seq::<Tag>::empty(),
{
    assert(tags_of(v.push(Box::new(t))) =~= tags_of(v) + seq![t@]);
    assert(tags_of(Seq::<Box<NBTType>>::empty()) =~= Seq::<Tag>::empty());
}

/// Reads `n` list elements of type `id` at `pos`, none of them with a
/// header.
pub fn read_elems(input: &[u8], pos: usize, id: u8, n: usize, depth: usize) -> (r: Result<
    (Vec<Box<NBTType>>, usize),
    NbtError,
>)
    requires
        pos <= input.len(),
    ensures
        decoded_seq(input@, parse_elems(input@.skip(pos as int), id, n as nat, depth as nat), r),
    decreases depth, 3int,
{
    let ghost target = parse_elems(input@.skip(pos as int), id, n as nat, depth as nat);
    let mut out: Vec<Box<NBTType>> = Vec::new();
    let mut p: usize = pos;
    let mut i: usize = 0;
    proof {
        lemma_prepend_empty(target);
        lemma_tags_of_push(out@, NBTType::TAG_End);
    }
    while i < n
        invariant
            i <= n,
            p <= input.len(),
            target == parse_elems(input@.skip(pos as int), id, n as nat, depth as nat),
            target == prepend(
                tags_of(out@),
                parse_elems(input@.skip(p as int), id, (n - i) as nat, depth as nat),
            ),
        decreases n - i,
    {
        let ghost front = out@;
        match read_nbt_within(input, p, Some(id), depth) {
            Ok((t, q)) => {
                proof {
                    lemma_prepend_prepend(
                        tags_of(front),
                        seq![t@],
                        parse_elems(input@.skip(q as int), id, (n - i - 1) as nat, depth as nat),
                    );
                    lemma_tags_of_push(front, t);
                }
                out.push(Box::new(t));
                p = q;
            },
            Err(e) => {
                assert(parse_elems(input@.skip(p as int), id, (n - i) as nat, depth as nat) is Err);
                return Err(e);
            },
        }
        i = i + 1;
    }
    proof {
        assert(tags_of(out@) + Seq::<Tag>::empty() =~= tags_of(out@));
    }
    Ok((out, p))
}

/// Whether a node is the end marker.
pub fn is_end(t: &NBTType) -> (b: bool)
    ensures
        b == (t@ is End),
{
    match t {
        NBTType::TAG_End => true,
        _ => false,
    }
}

/// Reads the children of a compound at `pos`: named nodes up to the first
/// end marker, which is taken from the input and not kept.
pub fn read_kids(input: &[u8], pos: usize, depth: usize) -> (r: Result<
    (Vec<Box<NBTType>>, usize),
    NbtError,
>)
    requires
        pos <= input.len(),
    ensures
        decoded_seq(input@, parse_kids(input@.skip(pos as int), depth as nat), r),
    decreases depth, 3int,
{
    let ghost target = parse_kids(input@.skip(pos as int), depth as nat);
    let mut out: Vec<Box<NBTType>> = Vec::new();
    let mut p: usize = pos;
    proof {
        lemma_prepend_empty(target);
        lemma_tags_of_push(out@, NBTType::TAG_End);
    }
    loop
        invariant
            p <= input.len(),
            target == parse_kids(input@.skip(pos as int), depth as nat),
            target == prepend(tags_of(out@), parse_kids(input@.skip(p as int), depth as nat)),
        decreases input.len() - p,
    {
        let ghost front = out@;
        proof {
            lemma_named_tag_takes_bytes(input@.skip(p as int), depth as nat);
        }
        match read_nbt_within(input, p, None, depth) {
            Ok((t, q)) => {
                if is_end(&t) {
                    proof {
                        assert(tags_of(out@) + Seq::<Tag>::empty() =~= tags_of(out@));
                    }
                    return Ok((out, q));
                }
                proof {
                    lemma_prepend_prepend(
                        tags_of(front),
                        seq![t@],
                        parse_kids(input@.skip(q as int), depth as nat),
                    );
                    lemma_tags_of_push(front, t);
                }
                out.push(Box::new(t));
                p = q;
            },
            Err(e) => {
                assert(parse_kids(input@.skip(p as int), depth as nat) is Err);
                return Err(e);
            },
        }
    }
}

/// Reads the payload of a byte array at `pos`.
pub fn read_byte_array(input: &[u8], pos: usize, name: String) -> (r: Result<
    (NBTType, usize),
    NbtError,
>)
    requires
        pos <= input.len(),
    ensures
        decoded(input@, parse_byte_array(input@.skip(pos as int), name@), r),
{
    let (n, p) = match read_count(input, pos) {
        Ok(x) => x,
        Err(e) => { return Err(e); },
    };
    match read_bytes(input, p, n) {
        Ok((a, q)) => Ok((NBTType::TAG_Byte_Array(name, a), q)),
        Err(e) => Err(e),
    }
}

/// Reads the payload of an int array at `pos`.
pub fn read_int_array(input: &[u8], pos: usize, name: String) -> (r: Result<
    (NBTType, usize),
    NbtError,
>)
    requires
        pos <= input.len(),
    ensures
        decoded(input@, parse_int_array(input@.skip(pos as int), name@), r),
{
    let (n, p) = match read_count(input, pos) {
        Ok(x) => x,
        Err(e) => { return Err(e); },
    };
    match read_ints(input, p, n) {
        Ok((a, q)) => Ok((NBTType::TAG_Int_Array(name, a), q)),
        Err(e) => Err(e),
    }
}

/// Reads the payload of a long array at `pos`.
pub fn read_long_array(input: &[u8], pos: usize, name: String) -> (r: Result<
    (NBTType, usize),
    NbtError,
>)
    requires
        pos <= input.len(),
    ensures
        decoded(input@, parse_long_array(input@.skip(pos as int), name@), r),
{
    let (n, p) = match read_count(input, pos) {
        Ok(x) => x,
        Err(e) => { return Err(e); },
    };
    match read_longs(input, p, n) {
        Ok((a, q)) => Ok((NBTType::TAG_Long_Array(name, a), q)),
        Err(e) => Err(e),
    }
}

/// Reads the payload of a list at `pos`; its elements are read one level
/// further down.
pub fn read_list(input: &[u8], pos: usize, name: String, depth: usize) -> (r: Result<
    (NBTType, usize),
    NbtError,
>)
    requires
        pos <= input.len(),
    ensures
        decoded(input@, parse_list(input@.skip(pos as int), name@, depth as nat), r),
    decreases depth, 0int,
{
    if depth == 0 {
        return Err(NbtError::TooDeep);
    }
    let (elem, p) = match read_u8(input, pos) {
        Ok(x) => x,
        Err(e) => { return Err(e); },
    };
    let (n, q) = match read_count(input, p) {
        Ok(x) => x,
        Err(e) => { return Err(e); },
    };
    match read_elems(input, q, elem, n, depth - 1) {
        Ok((v, end)) => Ok((NBTType::TAG_List(name, elem, v), end)),
        Err(e) => Err(e),
    }
}

/// Reads the payload of a compound at `pos`; its children are read one
/// level further down.
pub fn read_compound(input: &[u8], pos: usize, name: String, depth: usize) -> (r: Result<
    (NBTType, usize),
    NbtError,
>)
    requires
        pos <= input.len(),
    ensures
        decoded(input@, parse_compound(input@.skip(pos as int), name@, depth as nat), r),
    decreases depth, 0int,
{
    if depth == 0 {
        return Err(NbtError::TooDeep);
    }
    match read_kids(input, pos, depth - 1) {
        Ok((v, end)) => Ok((NBTType::TAG_Compound(name, v), end)),
        Err(e) => Err(e),
    }
}

/// Reads the payload of a node of type `id` at `pos` and gives the node the
/// name `name`.
pub fn read_payload(input: &[u8], pos: usize, id: u8, name: String, depth: usize) -> (r: Result<
    (NBTType, usize),
    NbtError,
>)
    requires
        pos <= input.len(),
    ensures
        decoded(input@, parse_payload(input@.skip(pos as int), id, name@, depth as nat), r),
    decreases depth, 1int,
{
    match id {
        0 => Ok((NBTType::TAG_End, pos)),
        1 => match read_u8(input, pos) {
            Ok((v, p)) => Ok((NBTType::TAG_Byte(name, i8_from_bits(v)), p)),
            Err(e) => Err(e),
        },
        2 => match read_u16(input, pos) {
            Ok((v, p)) => Ok((NBTType::TAG_Short(name, i16_from_bits(v)), p)),
            Err(e) => Err(e),
        },
        3 => match read_i32(input, pos) {
            Ok((v, p)) => Ok((NBTType::TAG_Int(name, v), p)),
            Err(e) => Err(e),
        },
        4 => match read_i64(input, pos) {
            Ok((v, p)) => Ok((NBTType::TAG_Long(name, v), p)),
            Err(e) => Err(e),
        },
        5 => match read_u32(input, pos) {
            Ok((v, p)) => Ok((NBTType::TAG_Float(name, v), p)),
            Err(e) => Err(e),
        },
        6 => match read_u64(input, pos) {
            Ok((v, p)) => Ok((NBTType::TAG_Double(name, v), p)),
            Err(e) => Err(e),
        },
        7 => read_byte_array(input, pos, name),
        8 => match read_string(input, pos) {
            Ok((v, p)) => Ok((NBTType::TAG_String(name, v), p)),
            Err(e) => Err(e),
        },
        9 => read_list(input, pos, name, depth),
        10 => read_compound(input, pos, name, depth),
        11 => read_int_array(input, pos, name),
        12 => read_long_array(input, pos, name),
        _ => Err(NbtError::InvalidTagId),
    }
}

/// Reads one node at `pos`, following lists and compounds `depth` levels
/// down. Without `specific` the type byte and, unless that is the end
/// marker, the name are read first; with it, neither is read and the name
/// is empty.
pub fn read_nbt_within(input: &[u8], pos: usize, specific: Option<u8>, depth: usize) -> (r: Result<
    (NBTType, usize),
    NbtError,
>)
    requires
        pos <= input.len(),
    ensures
        decoded(input@, parse_tag(input@.skip(pos as int), specific, depth as nat), r),
    decreases depth, 2int,
{
    match specific {
        Some(id) => read_payload(input, pos, id, String::new(), depth),
        None => {
            let (id, p) = match read_u8(input, pos) {
                Ok(x) => x,
                Err(e) => { return Err(e); },
            };
            if id == 0 {
                return Ok((NBTType::TAG_End, p));
            }
            if id > 12 {
                return Err(NbtError::InvalidTagId);
            }
            let (name, q) = match read_string(input, p) {
                Ok(x) => x,
                Err(e) => { return Err(e); },
            };
            read_payload(input, q, id, name, depth)
        },
    }
}

/// Reads one node at `pos` and returns it with the position behind it. The
/// result is exactly what `parse_tag` gives for the input from `pos` on,
/// with nesting followed `MAX_DEPTH` levels down.
pub fn read_nbt(input: &[u8], pos: usize, specific: Option<u8>) -> (r: Result<
    (NBTType, usize),
    NbtError,
>)
    requires
        pos <= input.len(),
    ensures
        decoded(input@, parse_tag(input@.skip(pos as int), specific, MAX_DEPTH as nat), r),
{
    read_nbt_within(input, pos, specific, MAX_DEPTH)
}

/// Reads the node that `input` starts with, type byte and name included,
/// and returns it with the number of bytes that it took.
pub fn decode(input: &[u8]) -> (r: Result<(NBTType, usize), NbtError>)
    ensures
        decoded(input@, parse_tag(input@, None, MAX_DEPTH as nat), r),
{
    assert(input@.skip(0) =~= input@);
    read_nbt(input, 0, None)
}

} // verus!
