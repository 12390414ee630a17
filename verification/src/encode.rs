use vstd::prelude::*;

use crate::types::NamedLeaf;
use crate::varint::{push_bytes, push_varint, spec_varint};

verus! {

/// Wire bytes of one link's message body: the child's content identifier
/// (field 1, length-delimited), its name (field 2, length-delimited) and its
/// cumulative size (field 3, varint).
pub open spec fn spec_link_inner(l: NamedLeaf) -> Seq<u8> {
    seq![0x0au8] + spec_varint(l.1@.len()) + l.1@ + seq![0x12u8] + spec_varint(l.0@.len()) + l.0@
        + seq![0x18u8] + spec_varint(l.2 as nat)
}

/// Wire bytes of one link inside a directory block: field 2 of the outer
/// message, length-delimited.
pub open spec fn spec_link(l: NamedLeaf) -> Seq<u8> {
    seq![0x12u8] + spec_varint(spec_link_inner(l).len()) + spec_link_inner(l)
}

/// Wire bytes of a whole link list, in order.
pub open spec fn spec_links(ls: Seq<NamedLeaf>) -> Seq<u8>
    decreases ls.len(),
{
    if ls.len() == 0 {
        Seq::empty()
    } else {
        spec_links(ls.drop_last()) + spec_link(ls.last())
    }
}

/// The directory marker carried as the outer message's data field (field 1):
/// a two-byte inner message saying "directory".
pub open spec fn spec_dir_data() -> Seq<u8> {
    seq![0x0au8, 0x02u8, 0x08u8, 0x01u8]
}

/// A directory's full block: every link in order, then the directory marker.
pub open spec fn spec_encode_block(ls: Seq<NamedLeaf>) -> Seq<u8> {
    spec_links(ls) + spec_dir_data()
}

/// The link list with the fill-in options stripped; meaningful when every
/// slot is filled.
pub open spec fn unwrap_links(links: Seq<Option<NamedLeaf>>) -> Seq<NamedLeaf> {
    links.map(|i: int, o: Option<NamedLeaf>| o.unwrap())
}

/// Sum of the cumulative sizes of the links.
pub open spec fn sum_sizes(ls: Seq<NamedLeaf>) -> nat
    decreases ls.len(),
{
    if ls.len() == 0 {
        0
    } else {
        sum_sizes(ls.drop_last()) + ls.last().2 as nat
    }
}

/// Cumulative size of a rendered directory: its block length plus the sum of
/// every direct child's cumulative size. A sum past the largest size value
/// saturates there, a deliberate machine-limit choice where a plain sum
/// would exceed the size type.
pub open spec fn spec_total_size(block_len: nat, ls: Seq<NamedLeaf>) -> nat {
    if block_len + sum_sizes(ls) > u64::MAX {
        u64::MAX as nat
    } else {
        block_len + sum_sizes(ls)
    }
}

/// Appends the wire bytes of one link to `buf`.
fn push_link(buf: &mut Vec<u8>, l: &NamedLeaf)
    ensures
        final(buf)@ == old(buf)@ + spec_link(*l),
{
    let ghost orig: Seq<u8> = buf@;
    let mut inner: Vec<u8> = Vec::new();
    inner.push(0x0a);
    push_varint(&mut inner, l.1.len() as u64);
    push_bytes(&mut inner, &l.1);
    inner.push(0x12);
    push_varint(&mut inner, l.0.len() as u64);
    push_bytes(&mut inner, &l.0);
    inner.push(0x18);
    push_varint(&mut inner, l.2);
    proof {
        assert(inner@ =~= spec_link_inner(*l));
    }
    buf.push(0x12);
    push_varint(buf, inner.len() as u64);
    push_bytes(buf, &inner);
    proof {
        assert(buf@ =~= orig + spec_link(*l));
    }
}

/// Replaces the contents of `buf` with the encoded block for `links`;
/// every slot of `links` must already be filled.
pub fn encode_block(links: &Vec<Option<NamedLeaf>>, buf: &mut Vec<u8>)
    requires
        forall|i: int| 0 <= i < links@.len() ==> links@[i] is Some,
    ensures
        final(buf)@ == spec_encode_block(unwrap_links(links@)),
{
    let ghost ls: Seq<NamedLeaf> = unwrap_links(links@);
    buf.clear();
    let mut i: usize = 0;
    while i < links.len()
        invariant
            forall|k: int| 0 <= k < links@.len() ==> links@[k] is Some,
            ls == unwrap_links(links@),
            i <= links@.len(),
            buf@ == spec_links(ls.take(i as int)),
        decreases links@.len() - i,
    {
        match &links[i] {
            Some(l) => {
                push_link(buf, l);
            },
            None => {
                proof {
                    assert(false);
                }
            },
        }
        proof {
            assert(ls.take(i + 1 as int).drop_last() =~= ls.take(i as int));
            assert(ls.take(i + 1 as int).last() == links@[i as int].unwrap());
        }
        i = i + 1;
    }
    proof {
        assert(ls.take(ls.len() as int) =~= ls);
    }
    buf.push(0x0a);
    buf.push(0x02);
    buf.push(0x08);
    buf.push(0x01);
    proof {
        assert(buf@ =~= spec_encode_block(ls));
    }
}

/// Adds every link's cumulative size to `base`, saturating at the largest
/// size value.
pub fn add_link_sizes(base: u64, links: &Vec<Option<NamedLeaf>>) -> (r: u64)
    requires
        forall|i: int| 0 <= i < links@.len() ==> links@[i] is Some,
    ensures
        r == spec_total_size(base as nat, unwrap_links(links@)),
{
    let ghost ls: Seq<NamedLeaf> = unwrap_links(links@);
    let mut total: u64 = base;
    let mut i: usize = 0;
    while i < links.len()
        invariant
            forall|k: int| 0 <= k < links@.len() ==> links@[k] is Some,
            ls == unwrap_links(links@),
            i <= links@.len(),
            total == spec_total_size(base as nat, ls.take(i as int)),
        decreases links@.len() - i,
    {
        let s: u64 = match &links[i] {
            Some(l) => l.2,
            None => {
                proof {
                    assert(false);
                }
                0
            },
        };
        proof {
            assert(ls.take(i + 1 as int).drop_last() =~= ls.take(i as int));
            assert(ls.take(i + 1 as int).last() == links@[i as int].unwrap());
        }
        if total > u64::MAX - s {
            total = u64::MAX;
        } else {
            total = total + s;
        }
        i = i + 1;
    }
    proof {
        assert(ls.take(ls.len() as int) =~= ls);
    }
    total
}

} // verus!
