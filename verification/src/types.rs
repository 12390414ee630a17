use vstd::prelude::*;

verus! {

/// Byte that separates path segments in a full path.
pub const SLASH: u8 = 0x2f;

/// An already-resolved child: content identifier bytes plus the cumulative
/// size in bytes of the subtree (or file) the identifier refers to.
#[derive(Debug)]
pub struct Leaf {
    pub link: Vec<u8>,
    pub total_size: u64,
}

/// A resolved link as it sits in a directory's link list:
/// name, content identifier bytes, cumulative size.
#[derive(Debug)]
pub struct NamedLeaf(pub Vec<u8>, pub Vec<u8>, pub u64);

/// One child of a directory: either a nested, not-yet-rendered directory or
/// an already-resolved leaf.
#[derive(Debug)]
pub enum Entry {
    Directory(DirBuilder),
    Leaf(Leaf),
}

/// A directory node handed to the traversal: a numeric identifier, the parent's
/// identifier (absent only for the root), and the ordered children. The
/// engine keys its deferred work by keys of its own, so the identifiers are
/// carried for the builder's sake and never drive the traversal.
#[derive(Debug)]
pub struct DirBuilder {
    pub id: u64,
    pub parent_id: Option<u64>,
    pub nodes: Vec<(Vec<u8>, Entry)>,
}

/// Options that stay fixed for the whole traversal.
#[derive(Debug)]
pub struct TreeOptions {
    pub wrap_with_directory: bool,
    pub block_size_limit: Option<u64>,
}

/// The one recoverable failure: an encoded directory block was larger than the
/// configured limit; carries the block's encoded size.
#[derive(Debug, PartialEq, Eq, Structural)]
pub enum TreeConstructionFailed {
    TooLargeBlock(u64),
}

/// A child name is usable in a slash-delimited path when it is nonempty and
/// holds no separator byte: an empty name or one holding a separator would
/// desynchronize the tracked path from the tracked depth.
pub open spec fn name_ok(s: Seq<u8>) -> bool {
    s.len() > 0 && forall|i: int| 0 <= i < s.len() ==> s[i] != SLASH
}

/// Every name in the tree is usable in a path.
pub open spec fn names_ok(n: DirBuilder) -> bool
    decreases n,
{
    entries_names_ok(n.nodes@)
}

pub open spec fn entries_names_ok(s: Seq<(Vec<u8>, Entry)>) -> bool
    decreases s,
{
    if s.len() == 0 {
        true
    } else {
        entries_names_ok(s.drop_last()) && name_ok(s.last().0@)
            && (s.last().1 matches Entry::Directory(node) ==> names_ok(node))
    }
}

/// Number of directory nodes in the subtree rooted at `n`, the node itself
/// included; a measure for the traversal's termination.
pub open spec fn tree_size(n: DirBuilder) -> nat
    decreases n,
{
    1 + entries_size(n.nodes@)
}

pub open spec fn entries_size(s: Seq<(Vec<u8>, Entry)>) -> nat
    decreases s,
{
    if s.len() == 0 {
        0
    } else {
        entries_size(s.drop_last()) + entry_size(s.last().1)
    }
}

pub open spec fn entry_size(e: Entry) -> nat
    decreases e,
{
    match e {
        Entry::Directory(n) => tree_size(n),
        Entry::Leaf(_) => 0,
    }
}

/// An exact copy of a byte vector.
pub fn clone_bytes(v: &Vec<u8>) -> (r: Vec<u8>)
    ensures
        r@ == v@,
{
    let mut r: Vec<u8> = Vec::new();
    let mut i: usize = 0;
    while i < v.len()
        invariant
            i <= v@.len(),
            r@ == v@.take(i as int),
        decreases v@.len() - i,
    {
        r.push(v[i]);
        proof {
            assert(v@.take(i + 1 as int) =~= v@.take(i as int).push(v@[i as int]));
        }
        i = i + 1;
    }
    proof {
        assert(v@.take(v@.len() as int) =~= v@);
    }
    r
}

} // verus!
