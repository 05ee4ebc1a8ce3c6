use vstd::prelude::*;
use crate::encode::{id_of, name_of};
use crate::laws::{text_fits, well_formed};
use crate::tag::{NBTType, Tag, tag_id, tags_of};
use crate::text::{lemma_utf8_of_empty, utf8_of};

verus! {

/// Whether the UTF-8 bytes of a text can be counted in two bytes.
pub fn fits_length_field(s: &String) -> (b: bool)
    ensures
        b == text_fits(s@),
{
    proof {
        reveal(utf8_of);
    }
    s.as_str().as_bytes().len() <= 0xFFFF
}

/// What is asked of the elements of a list (`named` false: unnamed, of type
/// `id`) or of the children of a compound (`named` true: named, none the
/// end marker).
pub open spec fn members_well_formed(ts: Seq<Tag>, named: bool, id: u8, depth: nat) -> bool {
    if named {
        forall|i: int|
            0 <= i < ts.len() ==> !(#[trigger] ts[i] is End) && well_formed(ts[i], true, depth)
    } else {
        forall|i: int|
            0 <= i < ts.len() ==> tag_id(#[trigger] ts[i]) == id && well_formed(
                ts[i],
                false,
                depth,
            )
    }
}

/// Whether every node of `nodes` is a well-formed member of a list or of a
/// compound.
pub fn are_well_formed(nodes: &Vec<Box<NBTType>>, named: bool, id: u8, depth: usize) -> (b: bool)
    ensures
        b == members_well_formed(tags_of(nodes@), named, id, depth as nat),
    decreases nodes, 0int,
{
    let ghost ts = tags_of(nodes@);
    let n: usize = nodes.len();
    let mut i: usize = 0;
    while i < n
        invariant
            i <= n,
            n == nodes@.len(),
            ts == tags_of(nodes@),
            members_well_formed(ts.take(i as int), named, id, depth as nat),
        decreases n - i,
    {
        let node: &NBTType = &nodes[i];
        assert(ts[i as int] == node@);
        let kind_fits = if named {
            id_of(node) != 0
        } else {
            id_of(node) == id
        };
        if !kind_fits || !is_well_formed(node, named, depth) {
            return false;
        }
        proof {
            let before = ts.take(i as int);
            let after = ts.take(i as int + 1);
            assert forall|k: int| 0 <= k < after.len() implies (if named {
                !(#[trigger] after[k] is End) && well_formed(after[k], true, depth as nat)
            } else {
                tag_id(after[k]) == id && well_formed(after[k], false, depth as nat)
            }) by {
                if k < i {
                    assert(after[k] == before[k]);
                }
            }
        }
        i = i + 1;
    }
    assert(ts.take(n as int) =~= ts);
    true
}

/// Whether a tree is one that survives writing and reading: see
/// `well_formed`.
pub fn is_well_formed(t: &NBTType, named: bool, depth: usize) -> (b: bool)
    ensures
        b == well_formed(t@, named, depth as nat),
    decreases t, 1int,
{
    match name_of(t) {
        None => { return true; },
        Some(name) => {
            proof {
                reveal(utf8_of);
                lemma_utf8_of_empty(name@);
            }
            let len: usize = name.as_str().as_bytes().len();
            let name_fits = if named {
                0 < len && len <= 0xFFFF
            } else {
                len == 0
            };
            if !name_fits {
                return false;
            }
        },
    }
    match t {
        NBTType::TAG_Byte_Array(_, a) => a.len() <= 0x7FFF_FFFF,
        NBTType::TAG_String(_, s) => fits_length_field(s),
        NBTType::TAG_List(_, id, elems) => depth > 0 && elems.len() <= 0x7FFF_FFFF
            && are_well_formed(elems, false, *id, depth - 1),
        NBTType::TAG_Compound(_, kids) => depth > 0 && are_well_formed(kids, true, 0, depth - 1),
        NBTType::TAG_Int_Array(_, a) => a.len() <= 0x7FFF_FFFF,
        NBTType::TAG_Long_Array(_, a) => a.len() <= 0x7FFF_FFFF,
        _ => true,
    }
}

} // verus!
