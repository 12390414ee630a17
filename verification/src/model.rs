use vstd::prelude::*;

use crate::encode::{
    spec_dir_data, spec_encode_block, spec_link, spec_link_inner, spec_links, spec_total_size,
    sum_sizes,
};
use crate::hashing::{sha256_of, spec_cid_v0};
use crate::types::{DirBuilder, Entry, NamedLeaf, SLASH};
use crate::varint::spec_varint;

verus! {

/// One resolved link as pure data: name bytes, content identifier bytes,
/// cumulative size.
pub ghost struct LinkModel {
    pub name: Seq<u8>,
    pub cid: Seq<u8>,
    pub total_size: u64,
}

/// One output record as pure data.
pub ghost struct RecordModel {
    pub path: Seq<u8>,
    pub cid: Seq<u8>,
    pub total_size: nat,
    pub block: Seq<u8>,
}

/// Wire bytes of one link, stated over the link's data alone.
pub open spec fn link_inner_v(l: LinkModel) -> Seq<u8> {
    seq![0x0au8] + spec_varint(l.cid.len()) + l.cid + seq![0x12u8] + spec_varint(l.name.len())
        + l.name + seq![0x18u8] + spec_varint(l.total_size as nat)
}

pub open spec fn link_v(l: LinkModel) -> Seq<u8> {
    seq![0x12u8] + spec_varint(link_inner_v(l).len()) + link_inner_v(l)
}

pub open spec fn links_v(ls: Seq<LinkModel>) -> Seq<u8>
    decreases ls.len(),
{
    if ls.len() == 0 {
        Seq::empty()
    } else {
        links_v(ls.drop_last()) + link_v(ls.last())
    }
}

/// A directory's block, stated over its links' data alone.
pub open spec fn block_v(ls: Seq<LinkModel>) -> Seq<u8> {
    links_v(ls) + spec_dir_data()
}

pub open spec fn sum_v(ls: Seq<LinkModel>) -> nat
    decreases ls.len(),
{
    if ls.len() == 0 {
        0
    } else {
        sum_v(ls.drop_last()) + ls.last().total_size as nat
    }
}

/// Cumulative size of the directory the links describe: block length plus the
/// children's sizes, saturating at the largest size value (the deliberate
/// machine-limit reading of the plain sum).
pub open spec fn total_v(ls: Seq<LinkModel>) -> nat {
    if block_v(ls).len() + sum_v(ls) > u64::MAX {
        u64::MAX as nat
    } else {
        block_v(ls).len() + sum_v(ls)
    }
}

/// The record a directory with links `ls` produces under path `p`.
pub open spec fn record_v(p: Seq<u8>, ls: Seq<LinkModel>) -> RecordModel {
    RecordModel {
        path: p,
        cid: spec_cid_v0(block_v(ls)),
        total_size: total_v(ls),
        block: block_v(ls),
    }
}

/// The data a concrete resolved link carries.
pub open spec fn link_view(l: NamedLeaf) -> LinkModel {
    LinkModel { name: l.0@, cid: l.1@, total_size: l.2 }
}

pub open spec fn link_views(ls: Seq<NamedLeaf>) -> Seq<LinkModel> {
    ls.map(|i: int, l: NamedLeaf| link_view(l))
}

/// Encoding and size of a concrete link list go through its data alone.
pub proof fn lemma_links_bridge(ls: Seq<NamedLeaf>)
    ensures
        spec_links(ls) == links_v(link_views(ls)),
        spec_encode_block(ls) == block_v(link_views(ls)),
        sum_sizes(ls) == sum_v(link_views(ls)),
        spec_total_size(spec_encode_block(ls).len(), ls) == total_v(link_views(ls)),
    decreases ls.len(),
{
    let vs = link_views(ls);
    if ls.len() == 0 {
        assert(vs.len() == 0);
    } else {
        lemma_links_bridge(ls.drop_last());
        assert(link_views(ls.drop_last()) =~= vs.drop_last());
        assert(vs.last() == link_view(ls.last()));
        assert(spec_link_inner(ls.last()) == link_inner_v(vs.last()));
        assert(spec_link(ls.last()) == link_v(vs.last()));
    }
}

/// The fully resolved link list of a directory node: leaves as given, each
/// subdirectory by the identifier and size of its own rendered block.
pub open spec fn node_links(n: DirBuilder) -> Seq<LinkModel>
    decreases n, 1int,
{
    entry_links(n.nodes@)
}

pub open spec fn entry_links(s: Seq<(Vec<u8>, Entry)>) -> Seq<LinkModel>
    decreases s, 1int,
{
    if s.len() == 0 {
        Seq::empty()
    } else {
        entry_links(s.drop_last()) + seq![entry_link(s.last().0, s.last().1)]
    }
}

pub open spec fn entry_link(name: Vec<u8>, e: Entry) -> LinkModel
    decreases e, 1int,
{
    match e {
        Entry::Leaf(l) => LinkModel { name: name@, cid: l.link@, total_size: l.total_size },
        Entry::Directory(c) => LinkModel {
            name: name@,
            cid: node_cid(c),
            total_size: node_size(c),
        },
    }
}

/// The block a directory node renders to.
pub open spec fn node_block(n: DirBuilder) -> Seq<u8> {
    block_v(node_links(n))
}

/// The content identifier of a directory node's block.
pub open spec fn node_cid(n: DirBuilder) -> Seq<u8>
    decreases n, 2int,
{
    spec_cid_v0(block_v(node_links(n)))
}

/// The cumulative size of a directory node's subtree, as stored in its
/// parent's link.
pub open spec fn node_size(n: DirBuilder) -> u64
    decreases n, 2int,
{
    total_v(node_links(n)) as u64
}

/// Each position of a node's link list, spelled out.
pub proof fn lemma_entry_links_pointwise(s: Seq<(Vec<u8>, Entry)>)
    ensures
        entry_links(s).len() == s.len(),
        forall|j: int|
            0 <= j < s.len() ==> entry_links(s)[j] == entry_link(
                (#[trigger] s[j]).0,
                s[j].1,
            ),
    decreases s.len(),
{
    if s.len() > 0 {
        lemma_entry_links_pointwise(s.drop_last());
        assert(forall|j: int| 0 <= j < s.len() - 1 ==> s.drop_last()[j] == s[j]);
        assert(forall|j: int|
            0 <= j < s.len() - 1 ==> #[trigger] entry_links(s)[j] == entry_links(s.drop_last())[j]);
    }
}

/// The path a child gets under its parent's path: the root's children stand
/// at the top, deeper children behind one separator.
pub open spec fn child_path(prefix: Seq<u8>, name: Seq<u8>) -> Seq<u8> {
    if prefix.len() == 0 {
        name
    } else {
        prefix + seq![SLASH] + name
    }
}

/// Every record a directory node standing at path `p` contributes, in
/// emission order: its subdirectories' records (latest sibling first, since
/// descend frames are pushed in order and popped from the top), then the
/// node's own record.
pub open spec fn emit_node(n: DirBuilder, p: Seq<u8>) -> Seq<RecordModel>
    decreases n,
{
    emit_entries(n.nodes@, p) + seq![record_v(p, node_links(n))]
}

pub open spec fn emit_entries(s: Seq<(Vec<u8>, Entry)>, p: Seq<u8>) -> Seq<RecordModel>
    decreases s,
{
    if s.len() == 0 {
        Seq::empty()
    } else {
        (match s.last().1 {
            Entry::Directory(c) => emit_node(c, child_path(p, s.last().0@)),
            Entry::Leaf(_) => Seq::empty(),
        }) + emit_entries(s.drop_last(), p)
    }
}

/// The whole output of one traversal that meets no size limit: with a wrap,
/// every directory including the root; without, only the directories below
/// the root.
pub open spec fn emit_tree(root: DirBuilder, wrap: bool) -> Seq<RecordModel> {
    if wrap {
        emit_node(root, Seq::empty())
    } else {
        emit_entries(root.nodes@, Seq::empty())
    }
}

} // verus!
