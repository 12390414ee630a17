use vstd::prelude::*;

use std::collections::HashMap;

use crate::encode::{
    encode_block, add_link_sizes, spec_encode_block, spec_total_size, unwrap_links,
};
use crate::hashing::{cid_v0, spec_cid_v0};
use crate::model::{
    block_v, child_path, emit_entries, emit_node, emit_tree, entry_link, entry_links, lemma_entry_links_pointwise,
    lemma_links_bridge, link_view, link_views, node_cid, node_links, node_size, record_v, total_v,
    LinkModel, RecordModel,
};
use crate::path::{join_segs, lemma_join_nonempty, path_wf, seg_wf, segs_of, update_full_path};
use crate::types::{
    clone_bytes, entries_names_ok, entries_size, entry_size, name_ok, names_ok, tree_size,
    DirBuilder, Entry, Leaf, NamedLeaf, TreeConstructionFailed, TreeOptions,
};

verus! {

broadcast use vstd::std_specs::hash::group_hash_axioms;

/// The link list a directory is rendered from: `Some` for resolved children,
/// `None` for subdirectories still being traversed.
pub type Leaves = Vec<Option<NamedLeaf>>;

/// Where a frame keeps its link list: held directly (no unresolved children)
/// or parked in the deferred stash under a key (some child still pending).
#[derive(Debug)]
pub enum LeafStorage {
    Direct(Leaves),
    Stashed(u64),
}

/// The traversal's work items, processed from the top of an explicit stack.
pub enum Visited {
    DescentRoot(DirBuilder),
    Descent { node: DirBuilder, name: Vec<u8>, depth: usize, index: usize, parent_key: u64 },
    Post {
        parent_key: u64,
        depth: usize,
        name: Vec<u8>,
        index: usize,
        leaves: LeafStorage,
        links: Ghost<Seq<LinkModel>>,
    },
    PostRoot { leaves: LeafStorage, links: Ghost<Seq<LinkModel>> },
}

/// A frame that will later fill slot `claim_idx` of the stash entry
/// `claim_key` claims that slot.
pub open spec fn has_claim(f: Visited) -> bool {
    ||| f matches Visited::Descent { .. }
    ||| f matches Visited::Post { .. }
}

pub open spec fn claim_key(f: Visited) -> u64 {
    match f {
        Visited::Descent { parent_key, .. } => parent_key,
        Visited::Post { parent_key, .. } => parent_key,
        _ => arbitrary(),
    }
}

pub open spec fn claim_idx(f: Visited) -> int {
    match f {
        Visited::Descent { index, .. } => index as int,
        Visited::Post { index, .. } => index as int,
        _ => arbitrary(),
    }
}

/// A frame that holds the stash entry under `owner_key` owns it: it is the
/// frame that will take the entry out and render it.
pub open spec fn has_owner(f: Visited) -> bool {
    ||| f matches Visited::Post { leaves: LeafStorage::Stashed(_), .. }
    ||| f matches Visited::PostRoot { leaves: LeafStorage::Stashed(_), .. }
}

pub open spec fn owner_key(f: Visited) -> u64 {
    match f {
        Visited::Post { leaves: LeafStorage::Stashed(k), .. } => k,
        Visited::PostRoot { leaves: LeafStorage::Stashed(k), .. } => k,
        _ => arbitrary(),
    }
}

pub open spec fn direct_leaves(f: Visited) -> Option<Seq<Option<NamedLeaf>>> {
    match f {
        Visited::Post { leaves: LeafStorage::Direct(l), .. } => Some(l@),
        Visited::PostRoot { leaves: LeafStorage::Direct(l), .. } => Some(l@),
        _ => None,
    }
}

/// The fully resolved link list a finishing frame will render, carried as
/// ghost data from the moment the frame is created.
pub open spec fn post_links(f: Visited) -> Seq<LinkModel> {
    match f {
        Visited::Post { links, .. } => links@,
        Visited::PostRoot { links, .. } => links@,
        _ => arbitrary(),
    }
}

/// The link a claiming frame will eventually write into its parent's slot.
pub open spec fn claim_link(f: Visited) -> LinkModel {
    match f {
        Visited::Descent { node, name, .. } => LinkModel {
            name: name@,
            cid: node_cid(node),
            total_size: node_size(node),
        },
        Visited::Post { name, links, .. } => LinkModel {
            name: name@,
            cid: spec_cid_v0(block_v(links@)),
            total_size: total_v(links@) as u64,
        },
        _ => arbitrary(),
    }
}

pub open spec fn frame_depth(f: Visited) -> int {
    match f {
        Visited::DescentRoot(_) => 0,
        Visited::PostRoot { .. } => 0,
        Visited::Descent { depth, .. } => depth as int,
        Visited::Post { depth, .. } => depth as int,
    }
}

pub open spec fn descent_node(f: Visited) -> DirBuilder {
    match f {
        Visited::DescentRoot(n) => n,
        Visited::Descent { node, .. } => node,
        _ => arbitrary(),
    }
}

/// How much tree is still to be visited under a frame.
pub open spec fn frame_size(f: Visited) -> nat {
    match f {
        Visited::DescentRoot(n) => tree_size(n),
        Visited::Descent { node, .. } => tree_size(node),
        _ => 0,
    }
}

pub open spec fn frames_size(s: Seq<Visited>) -> nat
    decreases s.len(),
{
    if s.len() == 0 {
        0
    } else {
        frames_size(s.drop_last()) + frame_size(s.last())
    }
}

pub proof fn lemma_frames_size_concat(a: Seq<Visited>, b: Seq<Visited>)
    ensures
        frames_size(a + b) == frames_size(a) + frames_size(b),
    decreases b.len(),
{
    if b.len() == 0 {
        assert(a + b =~= a);
    } else {
        assert((a + b).drop_last() =~= a + b.drop_last());
        assert((a + b).last() == b.last());
        lemma_frames_size_concat(a, b.drop_last());
    }
}

pub open spec fn all_some(l: Seq<Option<NamedLeaf>>) -> bool {
    forall|i: int| 0 <= i < l.len() ==> l[i] is Some
}

/// What one child entry contributes to its directory's link list: leaves are
/// taken as they are, subdirectories start as holes.
pub open spec fn spec_leaf_of(name: Vec<u8>, e: Entry) -> Option<NamedLeaf> {
    match e {
        Entry::Directory(_) => None,
        Entry::Leaf(l) => Some(NamedLeaf(name, l.link, l.total_size)),
    }
}

pub open spec fn spec_leaves(s: Seq<(Vec<u8>, Entry)>) -> Seq<Option<NamedLeaf>> {
    s.map(|i: int, kv: (Vec<u8>, Entry)| spec_leaf_of(kv.0, kv.1))
}

/// The descend frames a directory's children produce, in encounter order.
pub open spec fn spec_children(s: Seq<(Vec<u8>, Entry)>, depth: int, parent_key: u64) -> Seq<
    Visited,
>
    decreases s.len(),
{
    if s.len() == 0 {
        Seq::empty()
    } else {
        spec_children(s.drop_last(), depth, parent_key) + (match s.last().1 {
            Entry::Directory(node) => seq![
                Visited::Descent {
                    node,
                    name: s.last().0,
                    depth: (depth + 1) as usize,
                    index: (s.len() - 1) as usize,
                    parent_key,
                },
            ],
            Entry::Leaf(_) => Seq::empty(),
        })
    }
}

/// What holds of every descend frame a partition produces: each is a descent
/// claiming a distinct hole of the produced link list, one frame per hole.
pub proof fn lemma_children_props(s: Seq<(Vec<u8>, Entry)>, depth: int, pk: u64)
    requires
        entries_names_ok(s),
        s.len() <= usize::MAX,
        0 <= depth,
        depth + 1 <= usize::MAX,
    ensures
        spec_children(s, depth, pk).len() <= s.len(),
        forall|k: int|
            0 <= k < spec_children(s, depth, pk).len() ==> {
                let f = #[trigger] spec_children(s, depth, pk)[k];
                &&& f matches Visited::Descent { .. }
                &&& has_claim(f)
                &&& !has_owner(f)
                &&& claim_key(f) == pk
                &&& 0 <= claim_idx(f) < s.len()
                &&& spec_leaves(s)[claim_idx(f)] is None
                &&& frame_depth(f) == depth + 1
                &&& names_ok(descent_node(f))
                &&& (f matches Visited::Descent { name, .. } ==> name_ok(name@) && name == s[claim_idx(
                    f,
                )].0)
                &&& s[claim_idx(f)].1 == Entry::Directory(descent_node(f))
                &&& tree_size(descent_node(f)) <= entries_size(s)
            },
        forall|k1: int, k2: int|
            0 <= k1 < k2 < spec_children(s, depth, pk).len() ==> claim_idx(
                #[trigger] spec_children(s, depth, pk)[k1],
            ) < claim_idx(#[trigger] spec_children(s, depth, pk)[k2]),
        forall|idx: int|
            0 <= idx < s.len() && spec_leaves(s)[idx] is None ==> exists|k: int|
                0 <= k < spec_children(s, depth, pk).len() && claim_idx(
                    #[trigger] spec_children(s, depth, pk)[k],
                ) == idx,
        frames_size(spec_children(s, depth, pk)) <= entries_size(s),
    decreases s.len(),
{
    if s.len() == 0 {
    } else {
        let s0 = s.drop_last();
        lemma_children_props(s0, depth, pk);
        let cs0 = spec_children(s0, depth, pk);
        let cs = spec_children(s, depth, pk);
        assert(forall|i: int| 0 <= i < s0.len() ==> s0[i] == s[i]);
        assert(forall|i: int|
            0 <= i < s0.len() ==> #[trigger] spec_leaves(s0)[i] == spec_leaves(s)[i]);
        match s.last().1 {
            Entry::Leaf(_) => {
                assert(cs =~= cs0);
                assert(spec_leaves(s)[s.len() - 1] is Some);
                lemma_frames_size_concat(cs0, Seq::empty());
                assert forall|idx: int|
                    0 <= idx < s.len() && spec_leaves(s)[idx] is None implies exists|k: int|
                    0 <= k < cs.len() && claim_idx(#[trigger] cs[k]) == idx by {
                    assert(idx < s0.len());
                    assert(spec_leaves(s0)[idx] is None);
                    let k0 = choose|k: int| 0 <= k < cs0.len() && claim_idx(#[trigger] cs0[k]) == idx;
                    assert(cs[k0] == cs0[k0]);
                }
            },
            Entry::Directory(node) => {
                let nf = Visited::Descent {
                    node,
                    name: s.last().0,
                    depth: (depth + 1) as usize,
                    index: (s.len() - 1) as usize,
                    parent_key: pk,
                };
                assert(cs == cs0 + seq![nf]);
                assert(names_ok(node));
                assert(name_ok(s.last().0@));
                assert(claim_idx(nf) == s.len() - 1);
                assert(spec_leaves(s)[s.len() - 1] is None);
                assert(tree_size(node) == entry_size(s.last().1));
                assert forall|k: int| 0 <= k < cs.len() implies {
                    let f = #[trigger] cs[k];
                    &&& f matches Visited::Descent { .. }
                    &&& has_claim(f)
                    &&& !has_owner(f)
                    &&& claim_key(f) == pk
                    &&& 0 <= claim_idx(f) < s.len()
                    &&& spec_leaves(s)[claim_idx(f)] is None
                    &&& frame_depth(f) == depth + 1
                    &&& names_ok(descent_node(f))
                    &&& (f matches Visited::Descent { name, .. } ==> name_ok(name@))
                    &&& tree_size(descent_node(f)) <= entries_size(s)
                } by {
                    if k < cs0.len() {
                        assert(cs[k] == cs0[k]);
                    } else {
                        assert(cs[k] == nf);
                    }
                }
                assert forall|k1: int, k2: int| 0 <= k1 < k2 < cs.len() implies claim_idx(
                    #[trigger] cs[k1],
                ) < claim_idx(#[trigger] cs[k2]) by {
                    if k2 < cs0.len() {
                        assert(cs[k1] == cs0[k1] && cs[k2] == cs0[k2]);
                    } else {
                        assert(cs[k2] == nf);
                        assert(cs[k1] == cs0[k1]);
                        assert(claim_idx(cs0[k1]) < s0.len());
                    }
                }
                assert forall|idx: int|
                    0 <= idx < s.len() && spec_leaves(s)[idx] is None implies exists|k: int|
                    0 <= k < cs.len() && claim_idx(#[trigger] cs[k]) == idx by {
                    if idx < s0.len() {
                        assert(spec_leaves(s0)[idx] is None);
                        let k0 = choose|k: int|
                            0 <= k < cs0.len() && claim_idx(#[trigger] cs0[k]) == idx;
                        assert(cs[k0] == cs0[k0]);
                        assert(claim_idx(cs[k0]) == idx);
                    } else {
                        assert(claim_idx(cs[cs.len() - 1]) == idx);
                    }
                }
                lemma_frames_size_concat(cs0, seq![nf]);
                assert(frames_size(seq![nf]) == tree_size(node)) by {
                    assert(seq![nf].drop_last() =~= Seq::<Visited>::empty());
                    assert(frames_size(Seq::<Visited>::empty()) == 0);
                    assert(seq![nf].last() == nf);
                    assert(frame_size(nf) == tree_size(node));
                }
            },
        }
    }
}

/// Splits a directory's ordered children into the positional link list (holes
/// for subdirectories) and the descend frames for those subdirectories, in
/// encounter order; the frames will fill the stash entry under `parent_key`.
pub fn partition_children_leaves(
    depth: usize,
    entries: Vec<(Vec<u8>, Entry)>,
    children: &mut Vec<Visited>,
    parent_key: u64,
) -> (leaves: Leaves)
    requires
        depth < usize::MAX,
    ensures
        leaves@ == spec_leaves(entries@),
        final(children)@ == old(children)@ + spec_children(entries@, depth as int, parent_key),
{
    let ghost orig: Seq<(Vec<u8>, Entry)> = entries@;
    let ghost base: Seq<Visited> = children@;
    let mut entries = entries;
    let mut leaves: Leaves = Vec::new();
    let mut i: usize = 0;
    let total: usize = entries.len();
    while entries.len() > 0
        invariant
            depth < usize::MAX,
            orig.len() == total,
            i + entries@.len() == total,
            entries@ == orig.skip(i as int),
            leaves@ == spec_leaves(orig.take(i as int)),
            children@ == base + spec_children(orig.take(i as int), depth as int, parent_key),
        decreases entries@.len(),
    {
        let (k, v) = entries.remove(0);
        proof {
            assert(orig.skip(i as int)[0] == orig[i as int]);
            assert(orig.skip(i as int).remove(0) =~= orig.skip(i + 1 as int));
            assert(orig.take(i + 1 as int).drop_last() =~= orig.take(i as int));
            assert(orig.take(i + 1 as int).last() == orig[i as int]);
        }
        match v {
            Entry::Directory(node) => {
                children.push(
                    Visited::Descent { node, name: k, depth: depth + 1, index: i, parent_key },
                );
                leaves.push(None);
            },
            Entry::Leaf(leaf) => {
                leaves.push(Some(NamedLeaf(k, leaf.link, leaf.total_size)));
            },
        }
        proof {
            assert(spec_leaves(orig.take(i + 1 as int)) =~= spec_leaves(orig.take(i as int)).push(
                spec_leaf_of(orig[i as int].0, orig[i as int].1),
            ));
        }
        i = i + 1;
    }
    proof {
        assert(orig.take(total as int) =~= orig);
    }
    leaves
}

impl LeafStorage {
    /// Resolves the storage to a concrete link list: either the list held
    /// directly, or the entry taken out of the stash under the parked key.
    pub fn into_inner(self, stash: &mut HashMap<u64, Leaves>) -> (r: Leaves)
        requires
            self matches LeafStorage::Stashed(k) ==> old(stash)@.contains_key(k),
        ensures
            match self {
                LeafStorage::Direct(l) => r == l && final(stash)@ == old(stash)@,
                LeafStorage::Stashed(k) => r == old(stash)@[k] && final(stash)@ == old(
                    stash,
                )@.remove(k),
            },
    {
        match self {
            LeafStorage::Direct(leaves) => leaves,
            LeafStorage::Stashed(id) => stash.remove(&id).unwrap(),
        }
    }
}

/// Renders the directory nodes a tree needs, one block per pull, children
/// before their parent.
pub struct PostOrderIterator {
    full_path: Vec<u8>,
    old_depth: usize,
    block_buffer: Vec<u8>,
    // the stack of pending work
    pending: Vec<Visited>,
    // channel from finished children back to their parents; used only when a
    // directory mixes resolved leaves and pending subdirectories
    persisted_cids: HashMap<u64, Leaves>,
    reused_children: Vec<Visited>,
    cid: Option<Vec<u8>>,
    total_size: u64,
    opts: TreeOptions,
    // stash keys are handed out from this counter, never reused
    next_key: u64,
}

/// There is a hole at slot `idx` of the stash entry under `k`.
pub open spec fn stash_hole(s: Map<u64, Leaves>, k: u64, idx: int) -> bool {
    s.contains_key(k) && 0 <= idx < s[k]@.len() && s[k]@[idx] is None
}

/// A single frame agrees with the stash and the key counter.
pub open spec fn frame_wf(f: Visited, s: Map<u64, Leaves>, next_key: u64) -> bool {
    &&& (has_owner(f) ==> owner_key(f) < next_key && s.contains_key(owner_key(f)))
    &&& (has_claim(f) ==> claim_key(f) < next_key && stash_hole(s, claim_key(f), claim_idx(f)))
    &&& (match f {
        Visited::DescentRoot(n) => names_ok(n) && tree_size(n) <= usize::MAX,
        Visited::Descent { node, name, depth, .. } => names_ok(node) && name_ok(name@) && 1 <= depth
            && depth + tree_size(node) <= usize::MAX,
        Visited::Post { name, depth, .. } => name_ok(name@) && 1 <= depth,
        Visited::PostRoot { .. } => true,
    })
    &&& (has_owner(f) ==> s[owner_key(f)]@.len() == post_links(f).len())
    &&& (direct_leaves(f) matches Some(l) ==> all_some(l) && l.len() == post_links(f).len() && (
    forall|x: int| 0 <= x < l.len() ==> link_view((#[trigger] l[x]).unwrap()) == post_links(f)[x]))
}

/// The stack, the stash and the key counter agree: every parked link list is
/// owned by exactly one pending frame, every hole in it is claimed by exactly
/// one frame above that owner, and frame depths never jump up by more than
/// one between neighbours.
pub open spec fn stack_wf(p: Seq<Visited>, s: Map<u64, Leaves>, nk: u64) -> bool {
    &&& (forall|i: int| 0 <= i < p.len() ==> frame_wf(#[trigger] p[i], s, nk))
    &&& (forall|i: int, j: int|
        0 <= i < j < p.len() && has_owner(#[trigger] p[i]) && has_owner(#[trigger] p[j])
            ==> owner_key(p[i]) != owner_key(p[j]))
    &&& (forall|i: int, j: int|
        0 <= i < j < p.len() && has_claim(#[trigger] p[i]) && has_claim(#[trigger] p[j]) ==> !(
        claim_key(p[i]) == claim_key(p[j]) && claim_idx(p[i]) == claim_idx(p[j])))
    &&& (forall|i: int, j: int|
        0 <= i < p.len() && 0 <= j < p.len() && has_claim(#[trigger] p[i]) && has_owner(
            #[trigger] p[j],
        ) && claim_key(p[i]) == owner_key(p[j]) ==> j < i)
    &&& (forall|j: int, idx: int|
        0 <= j < p.len() && has_owner(#[trigger] p[j]) && #[trigger] stash_hole(
            s,
            owner_key(p[j]),
            idx,
        ) ==> exists|i: int|
            0 <= i < p.len() && has_claim(#[trigger] p[i]) && claim_key(p[i]) == owner_key(p[j])
                && claim_idx(p[i]) == idx)
    &&& (forall|j: int, x: int|
        0 <= j < p.len() && has_owner(#[trigger] p[j]) && 0 <= x < s[owner_key(p[j])]@.len()
            && s[owner_key(p[j])]@[x] is Some ==> link_view(s[owner_key(p[j])]@[x].unwrap())
            == #[trigger] post_links(p[j])[x])
    &&& (forall|i: int, o: int|
        0 <= i < p.len() && 0 <= o < p.len() && has_claim(#[trigger] p[i]) && has_owner(
            #[trigger] p[o],
        ) && claim_key(p[i]) == owner_key(p[o]) ==> post_links(p[o])[claim_idx(p[i])] == claim_link(
            p[i],
        ))
    &&& (forall|k: u64| s.contains_key(k) ==> k < nk)
    &&& (forall|i: int|
        0 <= i < p.len() && ((#[trigger] p[i]) matches Visited::DescentRoot(_) || p[i]
            matches Visited::PostRoot { .. }) ==> i == 0)
    &&& (forall|i: int|
        0 <= i < p.len() - 1 ==> frame_depth(#[trigger] p[i]) <= frame_depth(p[i + 1]) + 1)
    &&& nk + frames_size(p) <= u64::MAX
}

/// The full path a named frame at `depth` is emitted under, given the
/// tracked segments when it reaches the top: everything above its parent is
/// dropped, its own name appended.
pub open spec fn frame_path(segs: Seq<Seq<u8>>, depth: int, name: Seq<u8>) -> Seq<u8> {
    join_segs(segs.take(depth - 1) + seq![name])
}

/// The records a frame still owes, given the tracked segments at the moment
/// it reaches the top of the stack.
pub open spec fn frame_records(f: Visited, segs: Seq<Seq<u8>>, wrap: bool) -> Seq<RecordModel> {
    match f {
        Visited::DescentRoot(n) => if wrap {
            emit_node(n, Seq::empty())
        } else {
            emit_entries(n.nodes@, Seq::empty())
        },
        Visited::Descent { node, name, depth, .. } => emit_node(
            node,
            frame_path(segs, depth as int, name@),
        ),
        Visited::Post { name, depth, links, .. } => seq![
            record_v(frame_path(segs, depth as int, name@), links@),
        ],
        Visited::PostRoot { links, .. } => if wrap {
            seq![record_v(Seq::empty(), links@)]
        } else {
            Seq::empty()
        },
    }
}

/// The tracked segments once a frame's whole subtree has been processed.
pub open spec fn frame_segs_after(f: Visited, segs: Seq<Seq<u8>>) -> Seq<Seq<u8>> {
    match f {
        Visited::DescentRoot(_) => Seq::empty(),
        Visited::PostRoot { .. } => Seq::empty(),
        Visited::Descent { name, depth, .. } => segs.take(depth as int - 1) + seq![name@],
        Visited::Post { name, depth, .. } => segs.take(depth as int - 1) + seq![name@],
    }
}

/// The records a whole stack still owes, top frame first.
pub open spec fn rem_of(p: Seq<Visited>, segs: Seq<Seq<u8>>, wrap: bool) -> Seq<RecordModel>
    decreases p.len(),
{
    if p.len() == 0 {
        Seq::empty()
    } else {
        frame_records(p.last(), segs, wrap) + rem_of(
            p.drop_last(),
            frame_segs_after(p.last(), segs),
            wrap,
        )
    }
}

/// Whether a record's block fits the configured limit.
pub open spec fn head_within_limit(h: RecordModel, limit: Option<u64>) -> bool {
    match limit {
        Some(lim) => h.block.len() <= lim,
        None => true,
    }
}

/// Appending one segment to a joined path is joining under the parent path.
proof fn lemma_join_push(ss: Seq<Seq<u8>>, n: Seq<u8>)
    requires
        seg_wf(ss),
    ensures
        join_segs(ss + seq![n]) == child_path(join_segs(ss), n),
{
    let w = ss + seq![n];
    if ss.len() == 0 {
        assert(w.len() == 1);
        assert(w[0] == n);
    } else {
        lemma_join_nonempty(ss);
        assert(w.drop_last() =~= ss);
        assert(w.last() == n);
    }
}

/// Pushing a directory's descend frames owes exactly that directory's child
/// records: the stack's owed records fold to the emission model.
proof fn lemma_rem_children(
    base: Seq<Visited>,
    s: Seq<(Vec<u8>, Entry)>,
    d: int,
    key: u64,
    segs: Seq<Seq<u8>>,
    wrap: bool,
)
    requires
        0 <= d <= segs.len(),
        d + 1 <= usize::MAX,
        s.len() <= usize::MAX,
        seg_wf(segs.take(d)),
    ensures
        exists|segs_out: Seq<Seq<u8>>|
            #[trigger] segs_out.take(d) == segs.take(d) && d <= segs_out.len() && rem_of(
                base + spec_children(s, d, key),
                segs,
                wrap,
            ) == emit_entries(s, join_segs(segs.take(d))) + rem_of(base, segs_out, wrap),
    decreases s.len(),
{
    let pp = join_segs(segs.take(d));
    if s.len() == 0 {
        assert(base + spec_children(s, d, key) =~= base);
        assert(emit_entries(s, pp) + rem_of(base, segs, wrap) =~= rem_of(base, segs, wrap));
        assert(segs.take(d) == segs.take(d) && d <= segs.len() && rem_of(
            base + spec_children(s, d, key),
            segs,
            wrap,
        ) == emit_entries(s, pp) + rem_of(base, segs, wrap));
    } else {
        let s0 = s.drop_last();
        let cs0 = spec_children(s0, d, key);
        match s.last().1 {
            Entry::Leaf(_) => {
                assert(base + spec_children(s, d, key) =~= base + cs0);
                lemma_rem_children(base, s0, d, key, segs, wrap);
                let segs_out = choose|so: Seq<Seq<u8>>|
                    #[trigger] so.take(d) == segs.take(d) && d <= so.len() && rem_of(
                        base + cs0,
                        segs,
                        wrap,
                    ) == emit_entries(s0, pp) + rem_of(base, so, wrap);
                assert(emit_entries(s, pp) =~= emit_entries(s0, pp));
                assert(segs_out.take(d) == segs.take(d) && d <= segs_out.len() && rem_of(
                    base + spec_children(s, d, key),
                    segs,
                    wrap,
                ) == emit_entries(s, pp) + rem_of(base, segs_out, wrap));
            },
            Entry::Directory(c) => {
                let nm = s.last().0;
                let cf = Visited::Descent {
                    node: c,
                    name: nm,
                    depth: (d + 1) as usize,
                    index: (s.len() - 1) as usize,
                    parent_key: key,
                };
                let whole = base + spec_children(s, d, key);
                assert(whole =~= (base + cs0) + seq![cf]);
                assert(whole.len() > 0);
                assert(whole.last() == cf);
                assert(whole.drop_last() =~= base + cs0);
                let segs2 = segs.take(d) + seq![nm@];
                assert(frame_segs_after(cf, segs) =~= segs2);
                lemma_join_push(segs.take(d), nm@);
                assert(frame_path(segs, d + 1, nm@) == join_segs(segs.take(d) + seq![nm@])) by {
                    assert(segs.take(d + 1 - 1) == segs.take(d));
                }
                assert(frame_records(cf, segs, wrap) == emit_node(c, child_path(pp, nm@)));
                assert(segs2.take(d) =~= segs.take(d));
                lemma_rem_children(base, s0, d, key, segs2, wrap);
                let segs_out = choose|so: Seq<Seq<u8>>|
                    #[trigger] so.take(d) == segs2.take(d) && d <= so.len() && rem_of(
                        base + cs0,
                        segs2,
                        wrap,
                    ) == emit_entries(s0, join_segs(segs2.take(d))) + rem_of(base, so, wrap);
                assert(join_segs(segs2.take(d)) == pp);
                assert(rem_of(whole, segs, wrap) == frame_records(cf, segs, wrap) + rem_of(
                    base + cs0,
                    segs2,
                    wrap,
                ));
                assert(emit_entries(s, pp) == emit_node(c, child_path(pp, nm@)) + emit_entries(
                    s0,
                    pp,
                ));
                assert(rem_of(whole, segs, wrap) =~= emit_entries(s, pp) + rem_of(base, segs_out, wrap));
                assert(segs_out.take(d) == segs.take(d) && d <= segs_out.len() && rem_of(
                    base + spec_children(s, d, key),
                    segs,
                    wrap,
                ) == emit_entries(s, pp) + rem_of(base, segs_out, wrap));
            },
        }
    }
}

impl PostOrderIterator {
    /// The whole engine state is consistent: the stack against the stash and
    /// the key counter, and the path tracker against the stack.
    pub closed spec fn wf(self) -> bool {
        let p = self.pending@;
        &&& stack_wf(p, self.persisted_cids@, self.next_key)
        &&& (p.len() > 0 ==> frame_depth(p.last()) <= self.old_depth + 1)
        &&& path_wf(self.full_path@)
        &&& self.old_depth == segs_of(self.full_path@).len()
        &&& self.reused_children@.len() == 0
    }

    /// No more records will come: the stack has run dry.
    pub closed spec fn is_exhausted(self) -> bool {
        self.pending@.len() == 0
    }

    /// The options the traversal was started with.
    pub closed spec fn options(self) -> TreeOptions {
        self.opts
    }

    /// The records this traversal still owes, in order: the spec-level
    /// rendering of the pending work against the current path state.
    pub closed spec fn remaining(self) -> Seq<RecordModel> {
        rem_of(self.pending@, segs_of(self.full_path@), self.opts.wrap_with_directory)
    }

    /// Starts a traversal of `root`. `longest_path` is a sizing hint for the
    /// path buffer, nothing more.
    pub fn new(root: DirBuilder, opts: TreeOptions, longest_path: usize) -> (it: PostOrderIterator)
        requires
            names_ok(root),
            tree_size(root) <= usize::MAX,
        ensures
            it.wf(),
            !it.is_exhausted(),
            it.options() == opts,
            it.remaining() == emit_tree(root, opts.wrap_with_directory),
    {
        let ghost root_ghost = root;
        let mut pending: Vec<Visited> = Vec::new();
        pending.push(Visited::DescentRoot(root));
        let it = PostOrderIterator {
            full_path: Vec::with_capacity(longest_path),
            old_depth: 0,
            block_buffer: Vec::new(),
            pending,
            persisted_cids: HashMap::new(),
            reused_children: Vec::new(),
            cid: None,
            total_size: 0,
            opts,
            next_key: 0,
        };
        proof {
            let p = it.pending@;
            assert(p =~= seq![Visited::DescentRoot(root_ghost)]);
            assert(p.drop_last() =~= Seq::<Visited>::empty());
            assert(p.len() == 1);
            assert(p.last() == Visited::DescentRoot(root_ghost));
            assert(frames_size(Seq::<Visited>::empty()) == 0);
            assert(frames_size(p) == frames_size(p.drop_last()) + frame_size(p.last()));
            assert(frames_size(p) == tree_size(root_ghost));
            assert(segs_of(it.full_path@) =~= Seq::<Seq<u8>>::empty());
            assert(crate::path::join_segs(segs_of(it.full_path@)) =~= it.full_path@);
            assert(frame_records(p.last(), segs_of(it.full_path@), opts.wrap_with_directory)
                == emit_tree(root_ghost, opts.wrap_with_directory));
            assert(rem_of(
                p.drop_last(),
                frame_segs_after(p.last(), segs_of(it.full_path@)),
                opts.wrap_with_directory,
            ) =~= Seq::<RecordModel>::empty());
            assert(it.remaining() == frame_records(
                p.last(),
                segs_of(it.full_path@),
                opts.wrap_with_directory,
            ) + rem_of(
                p.drop_last(),
                frame_segs_after(p.last(), segs_of(it.full_path@)),
                opts.wrap_with_directory,
            ));
            assert(it.remaining() =~= emit_tree(root_ghost, opts.wrap_with_directory));
        }
        it
    }

    /// Encodes a completed link list, checks the encoded size against the
    /// limit, and returns the block's content identifier together with the
    /// cumulative size of the subtree it covers. The block is staged away
    /// from the caller's buffer: a rejected block is never hashed and leaves
    /// the buffer exactly as it was.
    pub fn render_directory(
        links: &Leaves,
        buffer: &mut Vec<u8>,
        block_size_limit: &Option<u64>,
    ) -> (r: Result<Leaf, TreeConstructionFailed>)
        requires
            all_some(links@),
        ensures
            ({
                let ls = unwrap_links(links@);
                let block = spec_encode_block(ls);
                match r {
                    Ok(leaf) => {
                        &&& leaf.link@ == spec_cid_v0(block)
                        &&& leaf.total_size == spec_total_size(block.len(), ls)
                        &&& final(buffer)@ == block
                        &&& (block_size_limit matches Some(lim) ==> block.len() <= *lim)
                    },
                    Err(e) => {
                        &&& e == TreeConstructionFailed::TooLargeBlock(block.len() as u64)
                        &&& block_size_limit matches Some(lim) && block.len() > *lim
                        &&& final(buffer)@ == old(buffer)@
                    },
                }
            }),
    {
        let mut encoded: Vec<u8> = Vec::new();
        encode_block(links, &mut encoded);
        let size = encoded.len();
        if let Some(limit) = block_size_limit {
            if *limit < size as u64 {
                return Err(TreeConstructionFailed::TooLargeBlock(size as u64));
            }
        }
        let cid = cid_v0(&encoded);
        let total = add_link_sizes(size as u64, links);
        *buffer = encoded;
        Ok(Leaf { link: cid, total_size: total })
    }
}

/// Replaces slot `i` of a link list.
fn set_link(v: &mut Vec<Option<NamedLeaf>>, i: usize, val: Option<NamedLeaf>)
    requires
        i < old(v)@.len(),
    ensures
        final(v)@ == old(v)@.update(i as int, val),
{
    let ghost orig = v@;
    v.remove(i);
    v.insert(i, val);
    proof {
        assert(v@ =~= orig.update(i as int, val));
    }
}

/// Popping a descend frame, parking its link list (when children are
/// pending) and pushing the matching post-process frame and the child
/// descend frames keeps the stack and the stash consistent, and shrinks the
/// work that is left.
#[verifier::rlimit(100)]
proof fn lemma_descent_step(
    p_all: Seq<Visited>,
    s_all: Map<u64, Leaves>,
    nk: u64,
    post: Visited,
    lv: Leaves,
    any: bool,
)
    requires
        stack_wf(p_all, s_all, nk),
        p_all.len() > 0,
        (p_all.last() matches Visited::DescentRoot(_)) || (p_all.last() matches Visited::Descent {
            ..
        }),
        lv@ == spec_leaves(descent_node(p_all.last()).nodes@),
        any == (spec_children(
            descent_node(p_all.last()).nodes@,
            frame_depth(p_all.last()),
            nk,
        ).len() > 0),
        (post matches Visited::Post { .. }) || (post matches Visited::PostRoot { .. }),
        frame_depth(post) == frame_depth(p_all.last()),
        has_owner(post) == any,
        any ==> owner_key(post) == nk,
        has_claim(post) == has_claim(p_all.last()),
        has_claim(post) ==> claim_key(post) == claim_key(p_all.last()) && claim_idx(post)
            == claim_idx(p_all.last()),
        direct_leaves(post) == (if any {
            Option::<Seq<Option<NamedLeaf>>>::None
        } else {
            Option::Some(spec_leaves(descent_node(p_all.last()).nodes@))
        }),
        post matches Visited::Post { name, depth, .. } ==> name_ok(name@) && 1 <= depth,
        post_links(post) == node_links(descent_node(p_all.last())),
        has_claim(post) ==> claim_link(post) == claim_link(p_all.last()),
    ensures
        nk < u64::MAX,
        ({
            let entries = descent_node(p_all.last()).nodes@;
            let d = frame_depth(p_all.last());
            let cs = spec_children(entries, d, nk);
            let p2 = p_all.drop_last() + seq![post] + cs;
            let s2 = if any {
                s_all.insert(nk, lv)
            } else {
                s_all
            };
            &&& stack_wf(p2, s2, (nk + 1) as u64)
            &&& frames_size(p2) < frames_size(p_all)
            &&& p2.len() > 0
            &&& frame_depth(p2.last()) <= d + 1
        }),
{
    let popped = p_all.last();
    let node = descent_node(popped);
    let entries = node.nodes@;
    let d = frame_depth(popped);
    let cs = spec_children(entries, d, nk);
    let rest = p_all.drop_last();
    let rl = rest.len() as int;
    let p2 = rest + seq![post] + cs;
    let s2 = if any {
        s_all.insert(nk, lv)
    } else {
        s_all
    };
    assert(p_all[p_all.len() - 1] == popped);
    assert(frame_wf(popped, s_all, nk));
    assert(names_ok(node));
    assert(0 <= d && d + tree_size(node) <= usize::MAX);
    assert(tree_size(node) == 1 + entries_size(entries));
    assert(entries.len() == node.nodes.len());
    assert(entries_names_ok(entries));
    lemma_children_props(entries, d, nk);
    lemma_entry_links_pointwise(entries);
    assert(lv@.len() == entries.len());
    assert(post_links(post).len() == entries.len());
    assert forall|x: int|
        0 <= x < entries.len() && spec_leaves(entries)[x] is Some implies link_view(
        spec_leaves(entries)[x].unwrap(),
    ) == post_links(post)[x] by {
        assert(spec_leaves(entries)[x] == spec_leaf_of(entries[x].0, entries[x].1));
        assert(entry_links(entries)[x] == entry_link(entries[x].0, entries[x].1));
    }
    let nk2 = (nk + 1) as u64;

    // sizes
    assert(frames_size(p_all) == frames_size(rest) + tree_size(node));
    lemma_frames_size_concat(rest, seq![post]);
    lemma_frames_size_concat(rest + seq![post], cs);
    assert(p2 =~= (rest + seq![post]) + cs);
    assert(frames_size(seq![post]) == 0) by {
        assert(seq![post].drop_last() =~= Seq::<Visited>::empty());
        assert(frames_size(Seq::<Visited>::empty()) == 0);
        assert(frame_size(seq![post].last()) == 0);
    }
    assert(frames_size(p2) == frames_size(rest) + frames_size(cs));
    assert(frames_size(cs) <= entries_size(entries));
    assert(frames_size(p2) < frames_size(p_all));
    assert(nk < u64::MAX);
    assert(nk2 + frames_size(p2) <= u64::MAX);

    // indexing
    assert(forall|i: int| 0 <= i < rl ==> p2[i] == p_all[i]);
    assert(p2[rl] == post);
    assert(forall|k: int| 0 <= k < cs.len() ==> p2[rl + 1 + k] == cs[k]);
    assert(p2.len() == rl + 1 + cs.len());

    // every frame agrees with the new stash and counter
    assert forall|i: int| 0 <= i < p2.len() implies frame_wf(#[trigger] p2[i], s2, nk2) by {
        if i < rl {
            let f = p_all[i];
            assert(frame_wf(f, s_all, nk));
            if has_owner(f) {
                assert(owner_key(f) != nk);
                assert(s2[owner_key(f)] == s_all[owner_key(f)]);
            }
            if has_claim(f) {
                assert(claim_key(f) != nk);
                assert(stash_hole(s2, claim_key(f), claim_idx(f)));
            }
        } else if i == rl {
            if has_claim(post) {
                assert(claim_key(post) != nk);
                assert(stash_hole(s2, claim_key(post), claim_idx(post)));
            }
            if !any {
                assert forall|ix: int|
                    0 <= ix < spec_leaves(entries).len() implies spec_leaves(entries)[ix]
                    is Some by {
                    if spec_leaves(entries)[ix] is None {
                        assert(exists|k: int|
                            0 <= k < cs.len() && claim_idx(#[trigger] cs[k]) == ix);
                        assert(false);
                    }
                }
            }
        } else {
            let k = i - rl - 1;
            let f = cs[k];
            assert(p2[i] == f);
            assert(claim_key(f) == nk);
            assert(any);
            assert(s2[nk] == lv);
            assert(lv@.len() == entries.len());
            assert(stash_hole(s2, nk, claim_idx(f)));
            assert(frame_depth(f) == d + 1);
            assert(tree_size(descent_node(f)) <= entries_size(entries));
        }
    }

    // filled slots still match their owner's resolved links
    assert forall|j: int, x: int|
        0 <= j < p2.len() && has_owner(#[trigger] p2[j]) && 0 <= x < s2[owner_key(
            p2[j],
        )]@.len() && s2[owner_key(p2[j])]@[x] is Some implies link_view(
        s2[owner_key(p2[j])]@[x].unwrap(),
    ) == #[trigger] post_links(p2[j])[x] by {
        if j < rl {
            assert(p2[j] == p_all[j]);
            assert(frame_wf(p_all[j], s_all, nk));
            let ko = owner_key(p_all[j]);
            assert(ko != nk);
            assert(s2[ko] == s_all[ko]);
            assert(link_view(s_all[ko]@[x].unwrap()) == post_links(p_all[j])[x]);
        } else if j == rl {
            assert(any);
            assert(owner_key(post) == nk);
            assert(s2[nk] == lv);
        } else {
            assert(!has_owner(cs[j - rl - 1]));
            assert(false);
        }
    }
    // every claim agrees with the slot reserved for it
    assert forall|i: int, o: int|
        0 <= i < p2.len() && 0 <= o < p2.len() && has_claim(#[trigger] p2[i]) && has_owner(
            #[trigger] p2[o],
        ) && claim_key(p2[i]) == owner_key(p2[o]) implies post_links(p2[o])[claim_idx(p2[i])]
        == claim_link(p2[i]) by {
        if o < rl {
            assert(p2[o] == p_all[o]);
            assert(frame_wf(p_all[o], s_all, nk));
            let ko = owner_key(p_all[o]);
            assert(ko < nk);
            if i < rl {
                assert(p2[i] == p_all[i]);
            } else if i == rl {
                assert(claim_link(post) == claim_link(popped));
                assert(post_links(p_all[o])[claim_idx(p_all[p_all.len() - 1])] == claim_link(
                    p_all[p_all.len() - 1],
                ));
            } else {
                assert(claim_key(cs[i - rl - 1]) == nk);
                assert(false);
            }
        } else if o == rl {
            assert(owner_key(p2[o]) == nk);
            if i < rl {
                assert(frame_wf(p_all[i], s_all, nk));
                assert(claim_key(p_all[i]) < nk);
                assert(false);
            } else if i == rl {
                assert(frame_wf(popped, s_all, nk));
                assert(claim_key(popped) < nk);
                assert(false);
            } else {
                let k = i - rl - 1;
                let cf = cs[k];
                assert(p2[i] == cf);
                let idx = claim_idx(cf);
                assert(entries[idx].1 == Entry::Directory(descent_node(cf)));
                assert(cf matches Visited::Descent { name, .. } && name == entries[idx].0);
                assert(entry_links(entries)[idx] == entry_link(entries[idx].0, entries[idx].1));
                assert(claim_link(cf) == entry_link(entries[idx].0, entries[idx].1));
            }
        } else {
            assert(!has_owner(cs[o - rl - 1]));
            assert(false);
        }
    }
    // root frames only ever stand at the bottom
    assert forall|i: int|
        0 <= i < p2.len() && ((#[trigger] p2[i]) matches Visited::DescentRoot(_) || p2[i]
            matches Visited::PostRoot { .. }) implies i == 0 by {
        if i < rl {
            assert(p2[i] == p_all[i]);
        } else if i == rl {
            if !(post matches Visited::Post { .. }) {
                assert(!has_claim(post));
                assert(!has_claim(popped));
                assert(popped matches Visited::DescentRoot(_));
                assert(p_all.len() - 1 == 0);
            }
        } else {
            assert(p2[i] == cs[i - rl - 1]);
        }
    }
    // owners stay pairwise distinct
    assert forall|i: int, j: int|
        0 <= i < j < p2.len() && has_owner(#[trigger] p2[i]) && has_owner(
            #[trigger] p2[j],
        ) implies owner_key(p2[i]) != owner_key(p2[j]) by {
        if j < rl {
            assert(p2[i] == p_all[i] && p2[j] == p_all[j]);
        } else if j == rl {
            assert(owner_key(p2[j]) == nk);
            assert(frame_wf(p_all[i], s_all, nk));
            assert(owner_key(p2[i]) < nk);
        } else {
            assert(!has_owner(cs[j - rl - 1]));
        }
    }

    // claims stay pairwise distinct
    assert forall|i: int, j: int|
        0 <= i < j < p2.len() && has_claim(#[trigger] p2[i]) && has_claim(
            #[trigger] p2[j],
        ) implies !(claim_key(p2[i]) == claim_key(p2[j]) && claim_idx(p2[i]) == claim_idx(
        p2[j],
    )) by {
        if j < rl {
            assert(p2[i] == p_all[i] && p2[j] == p_all[j]);
        } else if j == rl {
            assert(p2[i] == p_all[i]);
            assert(!(claim_key(p_all[i]) == claim_key(popped) && claim_idx(p_all[i]) == claim_idx(
                popped,
            )));
        } else {
            assert(claim_key(p2[j]) == nk);
            if i < rl {
                assert(frame_wf(p_all[i], s_all, nk));
                assert(claim_key(p2[i]) < nk);
            } else if i == rl {
                assert(frame_wf(popped, s_all, nk));
                assert(claim_key(popped) < nk);
            } else {
                assert(claim_idx(cs[i - rl - 1]) < claim_idx(cs[j - rl - 1]));
            }
        }
    }

    // claimants stand above the owner of their key
    assert forall|i: int, j: int|
        0 <= i < p2.len() && 0 <= j < p2.len() && has_claim(#[trigger] p2[i]) && has_owner(
            #[trigger] p2[j],
        ) && claim_key(p2[i]) == owner_key(p2[j]) implies j < i by {
        if j < rl {
            let ko = owner_key(p_all[j]);
            assert(frame_wf(p_all[j], s_all, nk));
            assert(ko < nk);
            if i < rl {
                assert(p2[i] == p_all[i]);
            } else if i == rl {
                assert(claim_key(popped) == ko);
                assert(j < p_all.len() - 1);
            } else {
                assert(claim_key(cs[i - rl - 1]) == nk);
                assert(false);
            }
        } else if j == rl {
            assert(owner_key(p2[j]) == nk);
            if i < rl {
                assert(frame_wf(p_all[i], s_all, nk));
                assert(claim_key(p_all[i]) < nk);
                assert(false);
            } else if i == rl {
                assert(frame_wf(popped, s_all, nk));
                assert(claim_key(popped) < nk);
                assert(false);
            }
        } else {
            assert(!has_owner(cs[j - rl - 1]));
            assert(false);
        }
    }

    // every hole keeps a claimant
    assert forall|j: int, idx: int|
        0 <= j < p2.len() && has_owner(#[trigger] p2[j]) && #[trigger] stash_hole(
            s2,
            owner_key(p2[j]),
            idx,
        ) implies exists|i: int|
        0 <= i < p2.len() && has_claim(#[trigger] p2[i]) && claim_key(p2[i]) == owner_key(p2[j])
            && claim_idx(p2[i]) == idx by {
        if j < rl {
            let ko = owner_key(p_all[j]);
            assert(frame_wf(p_all[j], s_all, nk));
            assert(ko != nk);
            assert(stash_hole(s_all, ko, idx));
            let i0 = choose|i0: int|
                0 <= i0 < p_all.len() && has_claim(#[trigger] p_all[i0]) && claim_key(p_all[i0])
                    == ko && claim_idx(p_all[i0]) == idx;
            if i0 < rl {
                assert(p2[i0] == p_all[i0]);
                assert(0 <= i0 < p2.len() && has_claim(p2[i0]) && claim_key(p2[i0]) == owner_key(
                    p2[j],
                ) && claim_idx(p2[i0]) == idx);
            } else {
                assert(p_all[i0] == popped);
                assert(has_claim(post) && claim_key(post) == ko && claim_idx(post) == idx);
                assert(0 <= rl < p2.len() && has_claim(p2[rl]) && claim_key(p2[rl]) == owner_key(
                    p2[j],
                ) && claim_idx(p2[rl]) == idx);
            }
        } else if j == rl {
            assert(owner_key(p2[j]) == nk);
            assert(any);
            assert(s2[nk] == lv);
            assert(spec_leaves(entries)[idx] is None);
            let k = choose|k: int| 0 <= k < cs.len() && claim_idx(#[trigger] cs[k]) == idx;
            assert(p2[rl + 1 + k] == cs[k]);
            assert(0 <= rl + 1 + k < p2.len() && has_claim(p2[rl + 1 + k]) && claim_key(
                p2[rl + 1 + k],
            ) == owner_key(p2[j]) && claim_idx(p2[rl + 1 + k]) == idx);
        } else {
            assert(!has_owner(cs[j - rl - 1]));
            assert(false);
        }
    }

    // stash keys stay below the counter
    assert forall|k: u64| s2.contains_key(k) implies k < nk2 by {
        if k != nk {
            assert(s_all.contains_key(k));
        }
    }

    // depths never jump up by more than one
    assert forall|i: int| 0 <= i < p2.len() - 1 implies frame_depth(#[trigger] p2[i])
        <= frame_depth(p2[i + 1]) + 1 by {
        if i + 1 < rl {
            assert(p2[i] == p_all[i] && p2[i + 1] == p_all[i + 1]);
        } else if i + 1 == rl {
            assert(p2[i] == p_all[i]);
            assert(frame_depth(p_all[i]) <= frame_depth(p_all[i + 1]) + 1);
            assert(frame_depth(p_all[rl]) == d);
        } else if i == rl {
            assert(frame_depth(p2[i]) == d);
            assert(frame_depth(p2[i + 1]) == d + 1);
        } else {
            assert(frame_depth(p2[i]) == d + 1 && frame_depth(p2[i + 1]) == d + 1);
        }
    }

    if cs.len() > 0 {
        assert(p2.last() == cs[cs.len() - 1]);
        assert(frame_depth(p2.last()) == d + 1);
    } else {
        assert(p2.last() == post);
    }
}

/// Descending one directory leaves the owed records unchanged: the popped
/// descend frame's records fold into the pushed post-process frame and the
/// child descend frames.
#[verifier::rlimit(100)]
proof fn lemma_rem_descent(
    p_all: Seq<Visited>,
    segs0: Seq<Seq<u8>>,
    wrap: bool,
    post: Visited,
    nk: u64,
)
    requires
        p_all.len() > 0,
        seg_wf(segs0),
        (p_all.last() matches Visited::DescentRoot(_)) || (p_all.last() matches Visited::Descent {
            ..
        }),
        frame_depth(p_all.last()) - 1 <= segs0.len(),
        frame_depth(p_all.last()) + 1 <= usize::MAX,
        descent_node(p_all.last()).nodes@.len() <= usize::MAX,
        p_all.last() matches Visited::Descent { name, .. } ==> name_ok(name@) && 1 <= frame_depth(
            p_all.last(),
        ),
        p_all.last() matches Visited::Descent { name, depth, .. } ==> (post
            matches Visited::Post { name: pn, depth: pd, .. } && pn == name && pd == depth),
        p_all.last() matches Visited::DescentRoot(_) ==> post matches Visited::PostRoot { .. },
        post_links(post) == node_links(descent_node(p_all.last())),
    ensures
        rem_of(
            p_all.drop_last() + seq![post] + spec_children(
                descent_node(p_all.last()).nodes@,
                frame_depth(p_all.last()),
                nk,
            ),
            frame_segs_after(p_all.last(), segs0),
            wrap,
        ) == rem_of(p_all, segs0, wrap),
{
    let popped = p_all.last();
    let node = descent_node(popped);
    let entries = node.nodes@;
    let d = frame_depth(popped);
    let rest = p_all.drop_last();
    let cs = spec_children(entries, d, nk);
    let base = rest + seq![post];
    let segs1 = frame_segs_after(popped, segs0);
    match popped {
        Visited::Descent { name, .. } => {
            assert(segs1 == segs0.take(d - 1) + seq![name@]);
            assert(segs1.len() == d);
            assert(segs1.take(d) =~= segs1);
            assert forall|i: int| 0 <= i < segs1.len() implies name_ok(segs1[i]) by {
                if i < d - 1 {
                    assert(segs1[i] == segs0[i]);
                }
            }
        },
        _ => {
            assert(segs1 =~= Seq::<Seq<u8>>::empty());
            assert(segs1.take(0) =~= segs1);
        },
    }
    assert(seg_wf(segs1.take(d)));
    assert(0 <= d <= segs1.len());
    lemma_rem_children(base, entries, d, nk, segs1, wrap);
    let segs_out = choose|so: Seq<Seq<u8>>|
        #[trigger] so.take(d) == segs1.take(d) && d <= so.len() && rem_of(base + cs, segs1, wrap)
            == emit_entries(entries, join_segs(segs1.take(d))) + rem_of(base, so, wrap);
    let pp = join_segs(segs1.take(d));
    assert(base.len() > 0);
    assert(base.last() == post);
    assert(base.drop_last() =~= rest);
    match popped {
        Visited::Descent { name, depth, .. } => {
            assert forall|i: int| 0 <= i < d - 1 implies segs_out[i] == segs1[i] by {
                assert(segs_out.take(d)[i] == segs1.take(d)[i]);
            }
            assert(segs_out.take(d - 1) =~= segs1.take(d - 1));
            assert(segs1.take(d - 1) =~= segs0.take(d - 1));
            assert(frame_path(segs_out, d, name@) == frame_path(segs0, d, name@));
            assert(frame_segs_after(post, segs_out) =~= segs1);
            assert(pp == frame_path(segs0, d, name@)) by {
                assert(segs1.take(d) =~= segs0.take(d - 1) + seq![name@]);
            }
            assert(frame_records(post, segs_out, wrap) == seq![
                record_v(pp, node_links(node)),
            ]);
            assert(frame_records(popped, segs0, wrap) == emit_node(node, pp));
        },
        _ => {
            assert(pp =~= Seq::<u8>::empty());
            assert(frame_segs_after(post, segs_out) =~= segs1);
            if wrap {
                assert(frame_records(post, segs_out, wrap) == seq![
                    record_v(pp, node_links(node)),
                ]);
                assert(frame_records(popped, segs0, wrap) == emit_node(node, pp));
            } else {
                assert(frame_records(post, segs_out, wrap) =~= Seq::<RecordModel>::empty());
                assert(frame_records(popped, segs0, wrap) == emit_entries(entries, pp));
            }
        },
    }
    assert(rem_of(base, segs_out, wrap) == frame_records(post, segs_out, wrap) + rem_of(
        base.drop_last(),
        frame_segs_after(post, segs_out),
        wrap,
    ));
    assert(rem_of(rest, frame_segs_after(post, segs_out), wrap) == rem_of(rest, segs1, wrap));
    assert(rem_of(p_all, segs0, wrap) == frame_records(popped, segs0, wrap) + rem_of(
        rest,
        segs1,
        wrap,
    ));
    assert(emit_node(node, pp) == emit_entries(entries, pp) + seq![record_v(pp, node_links(node))]);
    assert(rest + seq![post] + cs =~= base + cs);
    assert(rem_of(base + cs, segs1, wrap) =~= rem_of(p_all, segs0, wrap));
}

/// Facts needed to finalize the frame on top of the stack: its link list is
/// complete (every hole was filled by a child that finished earlier), and a
/// named frame's claimed slot in its parent's parked list is still open.
proof fn lemma_resolve_facts(p_all: Seq<Visited>, s_all: Map<u64, Leaves>, nk: u64)
    requires
        stack_wf(p_all, s_all, nk),
        p_all.len() > 0,
        (p_all.last() matches Visited::Post { .. }) || (p_all.last() matches Visited::PostRoot {
            ..
        }),
    ensures
        has_owner(p_all.last()) ==> s_all.contains_key(owner_key(p_all.last())) && all_some(
            s_all[owner_key(p_all.last())]@,
        ) && s_all[owner_key(p_all.last())]@.len() == post_links(p_all.last()).len() && (forall|
            x: int,
        |
            0 <= x < s_all[owner_key(p_all.last())]@.len() ==> link_view(
                (#[trigger] s_all[owner_key(p_all.last())]@[x]).unwrap(),
            ) == post_links(p_all.last())[x]),
        direct_leaves(p_all.last()) matches Some(l) ==> all_some(l) && l.len() == post_links(
            p_all.last(),
        ).len() && (forall|x: int|
            0 <= x < l.len() ==> link_view((#[trigger] l[x]).unwrap()) == post_links(
                p_all.last(),
            )[x]),
        p_all.last() matches Visited::Post { .. } ==> stash_hole(
            s_all,
            claim_key(p_all.last()),
            claim_idx(p_all.last()),
        ) && claim_key(p_all.last()) < nk && (has_owner(p_all.last()) ==> claim_key(p_all.last())
            != owner_key(p_all.last())),
{
    let popped = p_all.last();
    assert(p_all[p_all.len() - 1] == popped);
    assert(frame_wf(popped, s_all, nk));
    if has_owner(popped) {
        let k_o = owner_key(popped);
        assert forall|ix: int| 0 <= ix < s_all[k_o]@.len() implies s_all[k_o]@[ix] is Some by {
            if s_all[k_o]@[ix] is None {
                assert(stash_hole(s_all, owner_key(p_all[p_all.len() - 1]), ix));
                let i0 = choose|i0: int|
                    0 <= i0 < p_all.len() && has_claim(#[trigger] p_all[i0]) && claim_key(
                        p_all[i0],
                    ) == k_o && claim_idx(p_all[i0]) == ix;
                assert(p_all.len() - 1 < i0);
                assert(false);
            }
        }
        if has_claim(popped) && claim_key(popped) == k_o {
            assert(p_all.len() - 1 < p_all.len() - 1);
        }
        assert forall|x: int| 0 <= x < s_all[k_o]@.len() implies link_view(
            (#[trigger] s_all[k_o]@[x]).unwrap(),
        ) == post_links(popped)[x] by {
            assert(link_view(s_all[owner_key(p_all[p_all.len() - 1])]@[x].unwrap()) == post_links(
                p_all[p_all.len() - 1],
            )[x]);
        }
    }
}

/// Popping the finished frame, taking its parked list out of the stash and
/// filling its slot in the parent's parked list keeps the remaining stack and
/// the stash consistent.
#[verifier::rlimit(100)]
proof fn lemma_post_step(
    p_all: Seq<Visited>,
    s_all: Map<u64, Leaves>,
    nk: u64,
    v2: Leaves,
    val: Option<NamedLeaf>,
    s2: Map<u64, Leaves>,
)
    requires
        stack_wf(p_all, s_all, nk),
        p_all.len() > 0,
        p_all.last() matches Visited::Post { .. },
        val is Some,
        link_view(val.unwrap()) == claim_link(p_all.last()),
        v2@ == s_all[claim_key(p_all.last())]@.update(claim_idx(p_all.last()), val),
        s2 == (if has_owner(p_all.last()) {
            s_all.remove(owner_key(p_all.last()))
        } else {
            s_all
        }).insert(claim_key(p_all.last()), v2),
    ensures
        stack_wf(p_all.drop_last(), s2, nk),
        frames_size(p_all.drop_last()) <= frames_size(p_all),
        p_all.drop_last().len() > 0 ==> frame_depth(p_all.drop_last().last()) <= frame_depth(
            p_all.last(),
        ) + 1,
{
    let popped = p_all.last();
    let rest = p_all.drop_last();
    let pk = claim_key(popped);
    let idx = claim_idx(popped);
    assert(p_all[p_all.len() - 1] == popped);
    assert(frame_wf(popped, s_all, nk));
    assert(stash_hole(s_all, pk, idx));
    if has_owner(popped) && pk == owner_key(popped) {
        assert(p_all.len() - 1 < p_all.len() - 1);
    }
    assert(s2[pk]@ == s_all[pk]@.update(idx, val));
    assert(s2[pk]@.len() == s_all[pk]@.len());
    assert(frames_size(p_all) == frames_size(rest) + frame_size(popped));
    assert forall|i: int| 0 <= i < rest.len() implies frame_wf(#[trigger] rest[i], s2, nk) by {
        assert(rest[i] == p_all[i]);
        assert(frame_wf(p_all[i], s_all, nk));
        let f = p_all[i];
        if has_owner(f) {
            if has_owner(popped) && owner_key(f) == owner_key(popped) {
                assert(false);
            }
            assert(s2.contains_key(owner_key(f)));
            if owner_key(f) == pk {
                assert(s2[pk]@.len() == s_all[pk]@.len());
            } else {
                assert(s2[owner_key(f)] == s_all[owner_key(f)]);
            }
        }
        if has_claim(f) {
            let ck = claim_key(f);
            let cx = claim_idx(f);
            if has_owner(popped) && ck == owner_key(popped) {
                assert(p_all.len() - 1 < i);
                assert(false);
            }
            if ck == pk {
                assert(!(claim_key(p_all[i]) == claim_key(popped) && claim_idx(p_all[i])
                    == claim_idx(popped)));
                assert(cx != idx);
                assert(s2[ck]@[cx] == s_all[ck]@[cx]);
                assert(stash_hole(s2, ck, cx));
            } else {
                assert(s2[ck] == s_all[ck]);
                assert(stash_hole(s2, ck, cx));
            }
        }
    }
    assert forall|j: int, x: int|
        0 <= j < rest.len() && has_owner(#[trigger] rest[j]) && 0 <= x < s2[owner_key(
            rest[j],
        )]@.len() && s2[owner_key(rest[j])]@[x] is Some implies link_view(
        s2[owner_key(rest[j])]@[x].unwrap(),
    ) == #[trigger] post_links(rest[j])[x] by {
        assert(rest[j] == p_all[j]);
        let ko = owner_key(p_all[j]);
        if has_owner(popped) && ko == owner_key(popped) {
            assert(false);
        }
        if ko == pk {
            if x == idx {
                assert(s2[pk]@[x] == val);
                assert(post_links(p_all[j])[claim_idx(p_all[p_all.len() - 1])] == claim_link(
                    p_all[p_all.len() - 1],
                ));
            } else {
                assert(s2[pk]@[x] == s_all[pk]@[x]);
                assert(link_view(s_all[ko]@[x].unwrap()) == post_links(p_all[j])[x]);
            }
        } else {
            assert(s2[ko] == s_all[ko]);
            assert(link_view(s_all[ko]@[x].unwrap()) == post_links(p_all[j])[x]);
        }
    }
    assert forall|i: int, o: int|
        0 <= i < rest.len() && 0 <= o < rest.len() && has_claim(#[trigger] rest[i]) && has_owner(
            #[trigger] rest[o],
        ) && claim_key(rest[i]) == owner_key(rest[o]) implies post_links(rest[o])[claim_idx(
        rest[i],
    )] == claim_link(rest[i]) by {
        assert(rest[i] == p_all[i] && rest[o] == p_all[o]);
    }
    assert forall|i: int, j: int|
        0 <= i < j < rest.len() && has_owner(#[trigger] rest[i]) && has_owner(
            #[trigger] rest[j],
        ) implies owner_key(rest[i]) != owner_key(rest[j]) by {
        assert(rest[i] == p_all[i] && rest[j] == p_all[j]);
    }
    assert forall|i: int, j: int|
        0 <= i < j < rest.len() && has_claim(#[trigger] rest[i]) && has_claim(
            #[trigger] rest[j],
        ) implies !(claim_key(rest[i]) == claim_key(rest[j]) && claim_idx(rest[i]) == claim_idx(
        rest[j],
    )) by {
        assert(rest[i] == p_all[i] && rest[j] == p_all[j]);
    }
    assert forall|i: int, j: int|
        0 <= i < rest.len() && 0 <= j < rest.len() && has_claim(#[trigger] rest[i]) && has_owner(
            #[trigger] rest[j],
        ) && claim_key(rest[i]) == owner_key(rest[j]) implies j < i by {
        assert(rest[i] == p_all[i] && rest[j] == p_all[j]);
    }
    assert forall|j: int, idx2: int|
        0 <= j < rest.len() && has_owner(#[trigger] rest[j]) && #[trigger] stash_hole(
            s2,
            owner_key(rest[j]),
            idx2,
        ) implies exists|i: int|
        0 <= i < rest.len() && has_claim(#[trigger] rest[i]) && claim_key(rest[i]) == owner_key(
            rest[j],
        ) && claim_idx(rest[i]) == idx2 by {
        assert(rest[j] == p_all[j]);
        let ko = owner_key(p_all[j]);
        if has_owner(popped) && ko == owner_key(popped) {
            assert(false);
        }
        if ko == pk && idx2 == idx {
            assert(s2[ko]@[idx2] is Some);
            assert(false);
        }
        assert(stash_hole(s_all, ko, idx2));
        let i0 = choose|i0: int|
            0 <= i0 < p_all.len() && has_claim(#[trigger] p_all[i0]) && claim_key(p_all[i0]) == ko
                && claim_idx(p_all[i0]) == idx2;
        assert(i0 < p_all.len() - 1);
        assert(rest[i0] == p_all[i0]);
        assert(0 <= i0 < rest.len() && has_claim(rest[i0]) && claim_key(rest[i0]) == owner_key(
            rest[j],
        ) && claim_idx(rest[i0]) == idx2);
    }
    assert forall|k: u64| s2.contains_key(k) implies k < nk by {
        if k != pk {
            assert(s_all.contains_key(k));
        }
    }
    assert forall|i: int|
        0 <= i < rest.len() && ((#[trigger] rest[i]) matches Visited::DescentRoot(_) || rest[i]
            matches Visited::PostRoot { .. }) implies i == 0 by {
        assert(rest[i] == p_all[i]);
    }
    assert forall|i: int| 0 <= i < rest.len() - 1 implies frame_depth(#[trigger] rest[i])
        <= frame_depth(rest[i + 1]) + 1 by {
        assert(rest[i] == p_all[i] && rest[i + 1] == p_all[i + 1]);
    }
    if rest.len() > 0 {
        assert(rest.last() == p_all[p_all.len() - 2]);
        assert(frame_depth(p_all[p_all.len() - 2]) <= frame_depth(p_all[p_all.len() - 1]) + 1);
    }
}

/// Popping the root's finishing frame and taking its parked list out of the
/// stash keeps the remaining stack and the stash consistent.
#[verifier::rlimit(100)]
proof fn lemma_postroot_step(p_all: Seq<Visited>, s_all: Map<u64, Leaves>, nk: u64)
    requires
        stack_wf(p_all, s_all, nk),
        p_all.len() > 0,
        p_all.last() matches Visited::PostRoot { .. },
    ensures
        stack_wf(
            p_all.drop_last(),
            if has_owner(p_all.last()) {
                s_all.remove(owner_key(p_all.last()))
            } else {
                s_all
            },
            nk,
        ),
        frames_size(p_all.drop_last()) <= frames_size(p_all),
        p_all.drop_last().len() > 0 ==> frame_depth(p_all.drop_last().last()) <= frame_depth(
            p_all.last(),
        ) + 1,
{
    let popped = p_all.last();
    let rest = p_all.drop_last();
    let s1 = if has_owner(popped) {
        s_all.remove(owner_key(popped))
    } else {
        s_all
    };
    assert(p_all[p_all.len() - 1] == popped);
    assert(frame_wf(popped, s_all, nk));
    assert(frames_size(p_all) == frames_size(rest) + frame_size(popped));
    assert forall|i: int| 0 <= i < rest.len() implies frame_wf(#[trigger] rest[i], s1, nk) by {
        assert(rest[i] == p_all[i]);
        assert(frame_wf(p_all[i], s_all, nk));
        let f = p_all[i];
        if has_owner(f) {
            if has_owner(popped) && owner_key(f) == owner_key(popped) {
                assert(false);
            }
            assert(s1[owner_key(f)] == s_all[owner_key(f)]);
        }
        if has_claim(f) {
            if has_owner(popped) && claim_key(f) == owner_key(popped) {
                assert(p_all.len() - 1 < i);
                assert(false);
            }
            assert(stash_hole(s1, claim_key(f), claim_idx(f)));
        }
    }
    assert forall|j: int, x: int|
        0 <= j < rest.len() && has_owner(#[trigger] rest[j]) && 0 <= x < s1[owner_key(
            rest[j],
        )]@.len() && s1[owner_key(rest[j])]@[x] is Some implies link_view(
        s1[owner_key(rest[j])]@[x].unwrap(),
    ) == #[trigger] post_links(rest[j])[x] by {
        assert(rest[j] == p_all[j]);
        let ko = owner_key(p_all[j]);
        if has_owner(popped) && ko == owner_key(popped) {
            assert(false);
        }
        assert(s1[ko] == s_all[ko]);
        assert(link_view(s_all[ko]@[x].unwrap()) == post_links(p_all[j])[x]);
    }
    assert forall|i: int, o: int|
        0 <= i < rest.len() && 0 <= o < rest.len() && has_claim(#[trigger] rest[i]) && has_owner(
            #[trigger] rest[o],
        ) && claim_key(rest[i]) == owner_key(rest[o]) implies post_links(rest[o])[claim_idx(
        rest[i],
    )] == claim_link(rest[i]) by {
        assert(rest[i] == p_all[i] && rest[o] == p_all[o]);
    }
    assert forall|i: int, j: int|
        0 <= i < j < rest.len() && has_owner(#[trigger] rest[i]) && has_owner(
            #[trigger] rest[j],
        ) implies owner_key(rest[i]) != owner_key(rest[j]) by {
        assert(rest[i] == p_all[i] && rest[j] == p_all[j]);
    }
    assert forall|i: int, j: int|
        0 <= i < j < rest.len() && has_claim(#[trigger] rest[i]) && has_claim(
            #[trigger] rest[j],
        ) implies !(claim_key(rest[i]) == claim_key(rest[j]) && claim_idx(rest[i]) == claim_idx(
        rest[j],
    )) by {
        assert(rest[i] == p_all[i] && rest[j] == p_all[j]);
    }
    assert forall|i: int, j: int|
        0 <= i < rest.len() && 0 <= j < rest.len() && has_claim(#[trigger] rest[i]) && has_owner(
            #[trigger] rest[j],
        ) && claim_key(rest[i]) == owner_key(rest[j]) implies j < i by {
        assert(rest[i] == p_all[i] && rest[j] == p_all[j]);
    }
    assert forall|j: int, idx2: int|
        0 <= j < rest.len() && has_owner(#[trigger] rest[j]) && #[trigger] stash_hole(
            s1,
            owner_key(rest[j]),
            idx2,
        ) implies exists|i: int|
        0 <= i < rest.len() && has_claim(#[trigger] rest[i]) && claim_key(rest[i]) == owner_key(
            rest[j],
        ) && claim_idx(rest[i]) == idx2 by {
        assert(rest[j] == p_all[j]);
        let ko = owner_key(p_all[j]);
        if has_owner(popped) && ko == owner_key(popped) {
            assert(false);
        }
        assert(stash_hole(s_all, ko, idx2));
        let i0 = choose|i0: int|
            0 <= i0 < p_all.len() && has_claim(#[trigger] p_all[i0]) && claim_key(p_all[i0]) == ko
                && claim_idx(p_all[i0]) == idx2;
        assert(i0 < p_all.len() - 1);
        assert(rest[i0] == p_all[i0]);
        assert(0 <= i0 < rest.len() && has_claim(rest[i0]) && claim_key(rest[i0]) == owner_key(
            rest[j],
        ) && claim_idx(rest[i0]) == idx2);
    }
    assert forall|k: u64| s1.contains_key(k) implies k < nk by {
        assert(s_all.contains_key(k));
    }
    assert forall|i: int|
        0 <= i < rest.len() && ((#[trigger] rest[i]) matches Visited::DescentRoot(_) || rest[i]
            matches Visited::PostRoot { .. }) implies i == 0 by {
        assert(rest[i] == p_all[i]);
    }
    assert forall|i: int| 0 <= i < rest.len() - 1 implies frame_depth(#[trigger] rest[i])
        <= frame_depth(rest[i + 1]) + 1 by {
        assert(rest[i] == p_all[i] && rest[i + 1] == p_all[i + 1]);
    }
    if rest.len() > 0 {
        assert(rest.last() == p_all[p_all.len() - 2]);
        assert(frame_depth(p_all[p_all.len() - 2]) <= frame_depth(p_all[p_all.len() - 1]) + 1);
    }
}

/// Borrowed view of one output record, valid until the next pull.
#[derive(Debug)]
pub struct TreeNode<'a> {
    /// Full path to the node.
    pub path: &'a Vec<u8>,
    /// Content identifier of the block.
    pub cid: &'a Vec<u8>,
    /// Cumulative size of the subtree in bytes.
    pub total_size: u64,
    /// The encoded directory block itself.
    pub block: &'a Vec<u8>,
}

/// Owned, detached version of one output record.
#[derive(Debug)]
pub struct OwnedTreeNode {
    /// Full path to the node.
    pub path: Vec<u8>,
    /// Content identifier of the block.
    pub cid: Vec<u8>,
    /// Cumulative size of the subtree in bytes.
    pub total_size: u64,
    /// The encoded directory block itself.
    pub block: Vec<u8>,
}

impl<'a> TreeNode<'a> {
    /// Copies the record out of the engine's buffers: the detached record
    /// reports exactly the same values.
    pub fn into_owned(self) -> (r: OwnedTreeNode)
        ensures
            r.path@ == self.path@,
            r.cid@ == self.cid@,
            r.total_size == self.total_size,
            r.block@ == self.block@,
    {
        OwnedTreeNode {
            path: clone_bytes(self.path),
            cid: clone_bytes(self.cid),
            total_size: self.total_size,
            block: clone_bytes(self.block),
        }
    }
}

impl PostOrderIterator {
    /// Produces the next rendered directory block, if any: exactly the head
    /// of the owed records, which `new` fixed as the tree's emission model.
    /// Its content identifier addresses exactly its block bytes, its
    /// cumulative size sums the block length with its links' sizes, and its
    /// path is the slash-join of the names down from the root's child. A
    /// record whose block exceeds the configured limit is not returned: the
    /// pull fails with the block's exact encoded size instead. After the
    /// first error, or after exhaustion, every further pull returns nothing.
    #[verifier::rlimit(100)]
    pub fn next_borrowed(&mut self) -> (r: Option<
        Result<TreeNode<'_>, TreeConstructionFailed>,
    >)
        requires
            old(self).wf(),
        ensures
            final(self).wf(),
            final(self).options() == old(self).options(),
            old(self).is_exhausted() ==> r is None,
            r is None ==> final(self).is_exhausted(),
            r matches Some(Err(_)) ==> final(self).is_exhausted() && old(
                self,
            ).options().block_size_limit is Some,
            r matches Some(Ok(t)) ==> {
                &&& t.cid@ == spec_cid_v0(t.block@)
                &&& exists|ls: Seq<NamedLeaf>|
                    t.block@ == #[trigger] spec_encode_block(ls) && t.total_size == spec_total_size(
                        spec_encode_block(ls).len(),
                        ls,
                    )
                &&& (old(self).options().block_size_limit matches Some(lim) ==> t.block@.len()
                    <= lim)
                &&& path_wf(t.path@)
            },
            old(self).remaining().len() == 0 ==> r is None,
            old(self).remaining().len() > 0 && head_within_limit(old(self).remaining()[0], old(self).options().block_size_limit) ==> (r matches Some(Ok(t)) && t.path@ == old(self).remaining()[0].path && t.cid@ == old(self).remaining()[0].cid && t.total_size as nat == old(self).remaining()[0].total_size && t.block@ == old(self).remaining()[0].block && final(self).remaining() == old(self).remaining().skip(1)),
            old(self).remaining().len() > 0 && !head_within_limit(old(self).remaining()[0], old(self).options().block_size_limit) ==> (r matches Some(Err(e)) && e == TreeConstructionFailed::TooLargeBlock(old(self).remaining()[0].block.len() as u64)),
    {
        while self.pending.len() > 0
            invariant
                self.wf(),
                self.opts == old(self).opts,
                old(self).pending@.len() > 0 || self.pending@.len() == 0,
                self.remaining() == old(self).remaining(),
            decreases frames_size(self.pending@),
        {
            let ghost p_all = self.pending@;
            let ghost s_all = self.persisted_cids@;
            let ghost nk = self.next_key;
            let ghost segs0 = segs_of(self.full_path@);
            let ghost wrap = self.opts.wrap_with_directory;
            let ghost rem0 = rem_of(p_all, segs0, wrap);
            proof {
                assert(self.remaining() == rem0);
            }
            let visited = self.pending.pop().unwrap();
            proof {
                assert(p_all[p_all.len() - 1] == p_all.last());
                assert(frame_wf(p_all.last(), s_all, nk));
                assert(visited == p_all.last());
                assert(self.pending@ =~= p_all.drop_last());
                assert(frames_size(p_all) == frames_size(p_all.drop_last()) + frame_size(
                    p_all.last(),
                ));
            }
            let (nm, dp): (Option<&Vec<u8>>, usize) = match &visited {
                Visited::DescentRoot(_) => (None, 0),
                Visited::Descent { name, depth, .. } => (Some(name), *depth),
                Visited::Post { name, depth, .. } => (Some(name), *depth),
                Visited::PostRoot { .. } => (None, 0),
            };
            proof {
                assert(frame_depth(p_all.last()) <= self.old_depth + 1);
                assert(frame_depth(p_all.last()) == dp);
            }
            update_full_path(&mut self.full_path, &mut self.old_depth, nm, dp);
            match visited {
                Visited::DescentRoot(node) => {
                    let ghost g_node = node;
                    let ghost entries = node.nodes@;
                    proof {
                        assert(tree_size(g_node) >= 1);
                        assert(nk + frames_size(p_all) <= u64::MAX);
                        assert(entries.len() == node.nodes.len());
                    }
                    let key = self.next_key;
                    self.next_key = self.next_key + 1;
                    let leaves = partition_children_leaves(
                        0,
                        node.nodes,
                        &mut self.reused_children,
                        key,
                    );
                    let ghost lv_ghost = leaves;
                    let any_children = self.reused_children.len() > 0;
                    proof {
                        assert(self.reused_children@ =~= spec_children(entries, 0, key));
                        assert(any_children == (spec_children(entries, 0, key).len() > 0));
                    }
                    let storage = if any_children {
                        self.persisted_cids.insert(key, leaves);
                        LeafStorage::Stashed(key)
                    } else {
                        LeafStorage::Direct(leaves)
                    };
                    let post = Visited::PostRoot { leaves: storage, links: Ghost(node_links(g_node)) };
                    let ghost g_post = post;
                    self.pending.push(post);
                    self.pending.append(&mut self.reused_children);
                    proof {
                        lemma_descent_step(p_all, s_all, nk, g_post, lv_ghost, any_children);
                        assert(self.pending@ =~= p_all.drop_last() + seq![g_post] + spec_children(
                            entries,
                            0,
                            key,
                        ));
                        assert(self.old_depth == 0);
                        lemma_rem_descent(p_all, segs0, wrap, g_post, nk);
                        assert(segs_of(self.full_path@) =~= frame_segs_after(p_all.last(), segs0));
                        assert(self.remaining() == rem0);
                    }
                },
                Visited::Descent { node, name, depth, index, parent_key } => {
                    let ghost g_node = node;
                    let ghost entries = node.nodes@;
                    proof {
                        assert(tree_size(g_node) >= 1);
                        assert(nk + frames_size(p_all) <= u64::MAX);
                        assert(depth < usize::MAX);
                        assert(entries.len() == node.nodes.len());
                    }
                    let key = self.next_key;
                    self.next_key = self.next_key + 1;
                    let leaves = partition_children_leaves(
                        depth,
                        node.nodes,
                        &mut self.reused_children,
                        key,
                    );
                    let ghost lv_ghost = leaves;
                    let any_children = self.reused_children.len() > 0;
                    proof {
                        assert(self.reused_children@ =~= spec_children(
                            entries,
                            depth as int,
                            key,
                        ));
                        assert(any_children == (spec_children(entries, depth as int, key).len()
                            > 0));
                    }
                    let storage = if any_children {
                        self.persisted_cids.insert(key, leaves);
                        LeafStorage::Stashed(key)
                    } else {
                        LeafStorage::Direct(leaves)
                    };
                    let post = Visited::Post {
                        parent_key,
                        depth,
                        name,
                        index,
                        leaves: storage,
                        links: Ghost(node_links(g_node)),
                    };
                    let ghost g_post = post;
                    self.pending.push(post);
                    self.pending.append(&mut self.reused_children);
                    proof {
                        lemma_descent_step(p_all, s_all, nk, g_post, lv_ghost, any_children);
                        assert(self.pending@ =~= p_all.drop_last() + seq![g_post] + spec_children(
                            entries,
                            depth as int,
                            key,
                        ));
                        assert(self.old_depth == dp);
                        lemma_rem_descent(p_all, segs0, wrap, g_post, nk);
                        assert(segs_of(self.full_path@) =~= frame_segs_after(p_all.last(), segs0));
                        assert(self.remaining() == rem0);
                    }
                },
                Visited::Post { parent_key, depth: _, name, index, leaves, links: _ } => {
                    let ghost g_st = leaves;
                    let ghost g_popped = p_all.last();
                    proof {
                        lemma_resolve_facts(p_all, s_all, nk);
                        assert(claim_key(g_popped) == parent_key);
                        assert(claim_idx(g_popped) == index as int);
                        assert(stash_hole(s_all, parent_key, index as int));
                        match g_st {
                            LeafStorage::Stashed(k) => {
                                assert(has_owner(g_popped) && owner_key(g_popped) == k);
                                assert(s_all.contains_key(k));
                            },
                            LeafStorage::Direct(_) => {},
                        }
                    }
                    let lv = leaves.into_inner(&mut self.persisted_cids);
                    let ghost s1 = self.persisted_cids@;
                    proof {
                        if has_owner(g_popped) {
                            assert(s1 == s_all.remove(owner_key(g_popped)));
                            assert(lv@ == s_all[owner_key(g_popped)]@);
                        } else {
                            assert(s1 == s_all);
                            assert(direct_leaves(g_popped) == Some(lv@));
                        }
                        assert(all_some(lv@));
                        assert(s1.contains_key(parent_key));
                        assert(s1[parent_key] == s_all[parent_key]);
                        let wls = unwrap_links(lv@);
                        assert(wls.len() == lv@.len());
                        assert(lv@.len() == post_links(g_popped).len());
                        assert forall|x: int| 0 <= x < wls.len() implies link_views(wls)[x]
                            == post_links(g_popped)[x] by {
                            assert(wls[x] == lv@[x].unwrap());
                            assert(link_views(wls)[x] == link_view(wls[x]));
                            if has_owner(g_popped) {
                                assert(lv@[x] == s_all[owner_key(g_popped)]@[x]);
                            }
                        }
                        assert(link_views(wls) =~= post_links(g_popped));
                        lemma_links_bridge(wls);
                        assert(spec_encode_block(wls) == block_v(post_links(g_popped)));
                        assert(rem0 == frame_records(g_popped, segs0, wrap) + rem_of(
                            p_all.drop_last(),
                            frame_segs_after(g_popped, segs0),
                            wrap,
                        ));
                        assert(frame_records(g_popped, segs0, wrap) == seq![
                            record_v(frame_path(segs0, dp as int, name@), post_links(g_popped)),
                        ]);
                        assert(rem0.len() > 0);
                        assert(rem0[0] == record_v(
                            frame_path(segs0, dp as int, name@),
                            post_links(g_popped),
                        ));
                        assert(segs_of(self.full_path@) == segs0.take(dp as int - 1) + seq![
                            name@,
                        ]);
                        assert(self.full_path@ == join_segs(segs_of(self.full_path@)));
                        assert(self.full_path@ == rem0[0].path);
                        assert(rem0[0].block == block_v(post_links(g_popped)));
                    }
                    let leaf = match Self::render_directory(
                        &lv,
                        &mut self.block_buffer,
                        &self.opts.block_size_limit,
                    ) {
                        Ok(leaf) => leaf,
                        Err(e) => {
                            self.pending.clear();
                            proof {
                                assert(frames_size(Seq::<Visited>::empty()) == 0);
                                assert forall|k: u64| s1.contains_key(k) implies k
                                    < self.next_key by {
                                    assert(s_all.contains_key(k));
                                }
                                assert(!head_within_limit(rem0[0], self.opts.block_size_limit));
                                assert(e == TreeConstructionFailed::TooLargeBlock(
                                    rem0[0].block.len() as u64,
                                ));
                            }
                            return Some(Err(e));
                        },
                    };
                    let cidv = clone_bytes(&leaf.link);
                    self.cid = Some(cidv);
                    self.total_size = leaf.total_size;
                    let mut parent = match self.persisted_cids.remove(&parent_key) {
                        Some(v) => v,
                        None => {
                            proof {
                                assert(false);
                            }
                            Vec::new()
                        },
                    };
                    let ghost g_val = Some(
                        NamedLeaf(name, leaf.link, leaf.total_size),
                    );
                    proof {
                        let wls = unwrap_links(lv@);
                        assert(wls.len() == lv@.len());
                        assert(lv@.len() == post_links(g_popped).len());
                        assert forall|x: int| 0 <= x < wls.len() implies link_views(wls)[x]
                            == post_links(g_popped)[x] by {
                            assert(wls[x] == lv@[x].unwrap());
                            assert(link_views(wls)[x] == link_view(wls[x]));
                            if has_owner(g_popped) {
                                assert(lv@[x] == s_all[owner_key(g_popped)]@[x]);
                            }
                        }
                        assert(link_views(wls) =~= post_links(g_popped));
                        lemma_links_bridge(wls);
                        assert(leaf.link@ == spec_cid_v0(block_v(post_links(g_popped))));
                        assert(leaf.total_size == total_v(post_links(g_popped)));
                        assert(total_v(post_links(g_popped)) <= u64::MAX);
                        assert(link_view(g_val.unwrap()) == claim_link(g_popped));
                    }
                    set_link(&mut parent, index, Some(NamedLeaf(name, leaf.link, leaf.total_size)));
                    let ghost v2 = parent;
                    self.persisted_cids.insert(parent_key, parent);
                    let ghost s2 = self.persisted_cids@;
                    let ghost rest = p_all.drop_last();
                    proof {
                        assert(s2 =~= s1.insert(parent_key, v2));
                        assert(v2@ == s_all[parent_key]@.update(index as int, g_val));
                        lemma_post_step(p_all, s_all, nk, v2, g_val, s2);
                        assert(stack_wf(rest, s2, nk));
                        let ghost wls = unwrap_links(lv@);
                        assert(self.block_buffer@ == spec_encode_block(wls));
                        assert(self.block_buffer@ == rem0[0].block);
                        assert(leaf.link@ == rem0[0].cid);
                        assert(self.total_size as nat == rem0[0].total_size);
                        assert(head_within_limit(rem0[0], self.opts.block_size_limit));
                        assert(self.pending@ =~= rest);
                        assert(segs_of(self.full_path@) =~= frame_segs_after(g_popped, segs0));
                        assert(self.remaining() == rem_of(
                            rest,
                            frame_segs_after(g_popped, segs0),
                            wrap,
                        ));
                        assert(rem0.skip(1) =~= rem_of(rest, frame_segs_after(g_popped, segs0), wrap));
                    }
                    return Some(
                        Ok(
                            TreeNode {
                                path: &self.full_path,
                                cid: self.cid.as_ref().unwrap(),
                                total_size: self.total_size,
                                block: &self.block_buffer,
                            },
                        ),
                    );
                },
                Visited::PostRoot { leaves, links: _ } => {
                    let ghost g_st = leaves;
                    let ghost g_popped = p_all.last();
                    proof {
                        lemma_resolve_facts(p_all, s_all, nk);
                        lemma_postroot_step(p_all, s_all, nk);
                        match g_st {
                            LeafStorage::Stashed(k) => {
                                assert(has_owner(g_popped) && owner_key(g_popped) == k);
                                assert(s_all.contains_key(k));
                            },
                            LeafStorage::Direct(_) => {},
                        }
                    }
                    let lv = leaves.into_inner(&mut self.persisted_cids);
                    let ghost s1 = self.persisted_cids@;
                    let ghost rest = p_all.drop_last();
                    proof {
                        if has_owner(g_popped) {
                            assert(s1 == s_all.remove(owner_key(g_popped)));
                            assert(lv@ == s_all[owner_key(g_popped)]@);
                        } else {
                            assert(s1 == s_all);
                            assert(direct_leaves(g_popped) == Some(lv@));
                        }
                        assert(all_some(lv@));
                        assert(stack_wf(rest, s1, nk));
                        assert(p_all[p_all.len() - 1] == g_popped);
                        assert(p_all.len() - 1 == 0);
                        assert(rest =~= Seq::<Visited>::empty());
                        assert(rem0 == frame_records(g_popped, segs0, wrap) + rem_of(
                            rest,
                            frame_segs_after(g_popped, segs0),
                            wrap,
                        ));
                        assert(rem_of(rest, frame_segs_after(g_popped, segs0), wrap)
                            =~= Seq::<RecordModel>::empty());
                        let wls = unwrap_links(lv@);
                        assert(wls.len() == lv@.len());
                        assert(lv@.len() == post_links(g_popped).len());
                        assert forall|x: int| 0 <= x < wls.len() implies link_views(wls)[x]
                            == post_links(g_popped)[x] by {
                            assert(wls[x] == lv@[x].unwrap());
                            assert(link_views(wls)[x] == link_view(wls[x]));
                            if has_owner(g_popped) {
                                assert(lv@[x] == s_all[owner_key(g_popped)]@[x]);
                            }
                        }
                        assert(link_views(wls) =~= post_links(g_popped));
                        lemma_links_bridge(wls);
                        assert(spec_encode_block(wls) == block_v(post_links(g_popped)));
                        assert(segs_of(self.full_path@) =~= Seq::<Seq<u8>>::empty());
                        assert(self.full_path@ == join_segs(segs_of(self.full_path@)));
                        assert(self.full_path@ =~= Seq::<u8>::empty());
                    }
                    if !self.opts.wrap_with_directory {
                        self.pending.clear();
                        proof {
                            assert(frames_size(Seq::<Visited>::empty()) == 0);
                            assert(rem0 =~= Seq::<RecordModel>::empty());
                        }
                        return None;
                    }
                    let leaf = match Self::render_directory(
                        &lv,
                        &mut self.block_buffer,
                        &self.opts.block_size_limit,
                    ) {
                        Ok(leaf) => leaf,
                        Err(e) => {
                            self.pending.clear();
                            proof {
                                assert(frames_size(Seq::<Visited>::empty()) == 0);
                                assert(rem0.len() > 0);
                                assert(rem0[0] == record_v(Seq::empty(), post_links(g_popped)));
                                assert(!head_within_limit(rem0[0], self.opts.block_size_limit));
                                assert(e == TreeConstructionFailed::TooLargeBlock(
                                    rem0[0].block.len() as u64,
                                ));
                            }
                            return Some(Err(e));
                        },
                    };
                    let cidv = clone_bytes(&leaf.link);
                    self.cid = Some(cidv);
                    self.total_size = leaf.total_size;
                    proof {
                        let ghost wls = unwrap_links(lv@);
                        assert(self.block_buffer@ == spec_encode_block(wls));
                        assert(rem0.len() > 0);
                        assert(rem0[0] == record_v(Seq::empty(), post_links(g_popped)));
                        assert(self.block_buffer@ == rem0[0].block);
                        assert(leaf.link@ == rem0[0].cid);
                        assert(self.total_size as nat == rem0[0].total_size);
                        assert(self.full_path@ == rem0[0].path);
                        assert(head_within_limit(rem0[0], self.opts.block_size_limit));
                        assert(self.pending@ =~= rest);
                        assert(self.remaining() =~= Seq::<RecordModel>::empty());
                        assert(rem0.skip(1) =~= Seq::<RecordModel>::empty());
                    }
                    return Some(
                        Ok(
                            TreeNode {
                                path: &self.full_path,
                                cid: self.cid.as_ref().unwrap(),
                                total_size: self.total_size,
                                block: &self.block_buffer,
                            },
                        ),
                    );
                },
            }
        }
        proof {
            assert(self.remaining() =~= Seq::<RecordModel>::empty());
        }
        None
    }

    /// Produces the next record in owned form; reports exactly what
    /// `next_borrowed` would have.
    pub fn next(&mut self) -> (r: Option<Result<OwnedTreeNode, TreeConstructionFailed>>)
        requires
            old(self).wf(),
        ensures
            final(self).wf(),
            final(self).options() == old(self).options(),
            old(self).is_exhausted() ==> r is None,
            r is None ==> final(self).is_exhausted(),
            r matches Some(Err(_)) ==> final(self).is_exhausted() && old(
                self,
            ).options().block_size_limit is Some,
            r matches Some(Ok(t)) ==> {
                &&& t.cid@ == spec_cid_v0(t.block@)
                &&& exists|ls: Seq<NamedLeaf>|
                    t.block@ == #[trigger] spec_encode_block(ls) && t.total_size == spec_total_size(
                        spec_encode_block(ls).len(),
                        ls,
                    )
                &&& (old(self).options().block_size_limit matches Some(lim) ==> t.block@.len()
                    <= lim)
                &&& path_wf(t.path@)
            },
            old(self).remaining().len() == 0 ==> r is None,
            old(self).remaining().len() > 0 && head_within_limit(old(self).remaining()[0], old(self).options().block_size_limit) ==> (r matches Some(Ok(t)) && t.path@ == old(self).remaining()[0].path && t.cid@ == old(self).remaining()[0].cid && t.total_size as nat == old(self).remaining()[0].total_size && t.block@ == old(self).remaining()[0].block && final(self).remaining() == old(self).remaining().skip(1)),
            old(self).remaining().len() > 0 && !head_within_limit(old(self).remaining()[0], old(self).options().block_size_limit) ==> (r matches Some(Err(e)) && e == TreeConstructionFailed::TooLargeBlock(old(self).remaining()[0].block.len() as u64)),
    {
        match self.next_borrowed() {
            Option::None => Option::None,
            Option::Some(Ok(t)) => Option::Some(Ok(t.into_owned())),
            Option::Some(Err(e)) => Option::Some(Err(e)),
        }
    }
}

} // verus!
