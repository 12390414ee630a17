use sha2::{Digest, Sha256};
use unixfs::iter::PostOrderIterator;
use unixfs::types::{DirBuilder, Entry, Leaf, TreeConstructionFailed, TreeOptions};

fn dir(id: u64, parent_id: Option<u64>, nodes: Vec<(Vec<u8>, Entry)>) -> DirBuilder {
    DirBuilder { id, parent_id, nodes }
}

fn leaf(cid: Vec<u8>, total_size: u64) -> Entry {
    Entry::Leaf(Leaf { link: cid, total_size })
}

fn opts(wrap: bool, limit: Option<u64>) -> TreeOptions {
    TreeOptions { wrap_with_directory: wrap, block_size_limit: limit }
}

fn cid_v0_of(block: &[u8]) -> Vec<u8> {
    let mut out = vec![0x12u8, 0x20];
    out.extend_from_slice(&Sha256::digest(block));
    out
}

struct Rec {
    path: Vec<u8>,
    cid: Vec<u8>,
    total_size: u64,
    block: Vec<u8>,
}

fn collect(mut it: PostOrderIterator) -> Vec<Rec> {
    let mut out = Vec::new();
    loop {
        match it.next() {
            Some(Ok(t)) => out.push(Rec { path: t.path, cid: t.cid, total_size: t.total_size, block: t.block }),
            Some(Err(e)) => panic!("unexpected error: {:?}", e),
            None => break,
        }
    }
    out
}

const EMPTY_BLOCK: [u8; 4] = [0x0a, 0x02, 0x08, 0x01];

#[test]
fn empty_directory_wrapped() {
    let root = dir(0, None, vec![]);
    let it = PostOrderIterator::new(root, opts(true, None), 0);
    let recs = collect(it);
    assert_eq!(recs.len(), 1);
    assert_eq!(recs[0].path, Vec::<u8>::new());
    assert_eq!(recs[0].block, EMPTY_BLOCK.to_vec());
    assert_eq!(recs[0].total_size, 4);
    assert_eq!(recs[0].cid, cid_v0_of(&EMPTY_BLOCK));
}

#[test]
fn empty_directory_unwrapped_emits_nothing() {
    let root = dir(0, None, vec![]);
    let it = PostOrderIterator::new(root, opts(false, None), 0);
    let recs = collect(it);
    assert_eq!(recs.len(), 0);
}

#[test]
fn leaf_only_directory_block_bytes() {
    let root = dir(
        0,
        None,
        vec![
            (b"a".to_vec(), leaf(vec![0x01, 0x02], 5)),
            (b"b".to_vec(), leaf(vec![0x03, 0x04], 7)),
        ],
    );
    let it = PostOrderIterator::new(root, opts(true, None), 0);
    let recs = collect(it);
    assert_eq!(recs.len(), 1);
    let mut expected = Vec::new();
    // link "a": hash, name, tsize
    expected.extend_from_slice(&[0x12, 0x09, 0x0a, 0x02, 0x01, 0x02, 0x12, 0x01, 0x61, 0x18, 0x05]);
    // link "b"
    expected.extend_from_slice(&[0x12, 0x09, 0x0a, 0x02, 0x03, 0x04, 0x12, 0x01, 0x62, 0x18, 0x07]);
    expected.extend_from_slice(&EMPTY_BLOCK);
    assert_eq!(recs[0].block, expected);
    assert_eq!(recs[0].total_size, 26 + 5 + 7);
    assert_eq!(recs[0].cid, cid_v0_of(&expected));
}

#[test]
fn leaf_directory_cid_does_not_depend_on_surroundings() {
    let leaves = || {
        vec![
            (b"a".to_vec(), leaf(vec![0x01, 0x02], 5)),
            (b"b".to_vec(), leaf(vec![0x03, 0x04], 7)),
        ]
    };
    // standalone: the directory is the root itself
    let alone = collect(PostOrderIterator::new(dir(7, None, leaves()), opts(true, None), 0));
    // nested: the same directory sits under another root, beside a leaf
    let inner = dir(1, Some(0), leaves());
    let root = dir(
        0,
        None,
        vec![
            (b"d".to_vec(), Entry::Directory(inner)),
            (b"z".to_vec(), leaf(vec![0x09], 1)),
        ],
    );
    let nested = collect(PostOrderIterator::new(root, opts(true, None), 0));
    assert_eq!(nested.len(), 2);
    assert_eq!(nested[0].path, b"d".to_vec());
    assert_eq!(nested[0].cid, alone[0].cid);
    assert_eq!(nested[0].block, alone[0].block);
    assert_eq!(nested[0].total_size, alone[0].total_size);
}

#[test]
fn reverse_sibling_order() {
    let root = dir(
        0,
        None,
        vec![
            (b"a".to_vec(), Entry::Directory(dir(1, Some(0), vec![]))),
            (b"b".to_vec(), Entry::Directory(dir(2, Some(0), vec![]))),
            (b"c".to_vec(), Entry::Directory(dir(3, Some(0), vec![]))),
        ],
    );
    let recs = collect(PostOrderIterator::new(root, opts(true, None), 0));
    assert_eq!(recs.len(), 4);
    assert_eq!(recs[0].path, b"c".to_vec());
    assert_eq!(recs[1].path, b"b".to_vec());
    assert_eq!(recs[2].path, b"a".to_vec());
    assert_eq!(recs[3].path, Vec::<u8>::new());
}

#[test]
fn children_precede_parents() {
    let x = dir(2, Some(1), vec![]);
    let a = dir(1, Some(0), vec![(b"x".to_vec(), Entry::Directory(x))]);
    let root = dir(
        0,
        None,
        vec![
            (b"a".to_vec(), Entry::Directory(a)),
            (b"b".to_vec(), Entry::Directory(dir(3, Some(0), vec![]))),
        ],
    );
    let recs = collect(PostOrderIterator::new(root, opts(true, None), 0));
    let paths: Vec<Vec<u8>> = recs.iter().map(|r| r.path.clone()).collect();
    assert_eq!(
        paths,
        vec![b"b".to_vec(), b"a/x".to_vec(), b"a".to_vec(), Vec::<u8>::new()]
    );
}

#[test]
fn paths_for_leaf_bearing_directory() {
    // root/{a/{x}, b} with x and b plain leaves
    let a = dir(1, Some(0), vec![(b"x".to_vec(), leaf(vec![0x05], 2))]);
    let root = dir(
        0,
        None,
        vec![
            (b"a".to_vec(), Entry::Directory(a)),
            (b"b".to_vec(), leaf(vec![0x06], 3)),
        ],
    );
    let recs = collect(PostOrderIterator::new(root, opts(true, None), 0));
    assert_eq!(recs.len(), 2);
    assert_eq!(recs[0].path, b"a".to_vec());
    assert_eq!(recs[1].path, Vec::<u8>::new());
}

#[test]
fn size_limit_rejects_block_and_terminates() {
    let root = dir(0, None, vec![(b"a".to_vec(), leaf(vec![0x01, 0x02], 5))]);
    let mut it = PostOrderIterator::new(root, opts(true, Some(1)), 0);
    match it.next() {
        Some(Err(TreeConstructionFailed::TooLargeBlock(size))) => {
            // one link of 11 bytes plus the 4-byte directory marker
            assert_eq!(size, 15);
        }
        other => panic!("expected a too-large-block error, got {:?}", other.is_some()),
    }
    assert!(it.next().is_none());
    assert!(it.next().is_none());
}

#[test]
fn size_limit_allows_block_at_exact_size() {
    let root = dir(0, None, vec![]);
    let recs = collect(PostOrderIterator::new(root, opts(true, Some(4)), 0));
    assert_eq!(recs.len(), 1);
}

#[test]
fn deterministic_across_runs() {
    let build = || {
        let x = dir(2, Some(1), vec![(b"f".to_vec(), leaf(vec![0x09, 0x08], 3))]);
        let a = dir(1, Some(0), vec![(b"x".to_vec(), Entry::Directory(x))]);
        dir(
            0,
            None,
            vec![
                (b"a".to_vec(), Entry::Directory(a)),
                (b"b".to_vec(), leaf(vec![0x01], 1)),
            ],
        )
    };
    let r1 = collect(PostOrderIterator::new(build(), opts(true, None), 0));
    let r2 = collect(PostOrderIterator::new(build(), opts(true, None), 0));
    assert_eq!(r1.len(), r2.len());
    for (a, b) in r1.iter().zip(r2.iter()) {
        assert_eq!(a.path, b.path);
        assert_eq!(a.cid, b.cid);
        assert_eq!(a.total_size, b.total_size);
        assert_eq!(a.block, b.block);
    }
}

#[test]
fn wrap_toggle_differs_by_exactly_the_root_record() {
    let build = || {
        dir(
            0,
            None,
            vec![(b"a".to_vec(), Entry::Directory(dir(1, Some(0), vec![])))],
        )
    };
    let wrapped = collect(PostOrderIterator::new(build(), opts(true, None), 0));
    let bare = collect(PostOrderIterator::new(build(), opts(false, None), 0));
    assert_eq!(wrapped.len(), bare.len() + 1);
    for (a, b) in bare.iter().zip(wrapped.iter()) {
        assert_eq!(a.path, b.path);
        assert_eq!(a.cid, b.cid);
        assert_eq!(a.total_size, b.total_size);
        assert_eq!(a.block, b.block);
    }
    assert_eq!(wrapped.last().unwrap().path, Vec::<u8>::new());
}

#[test]
fn exhausted_iterator_stays_exhausted() {
    let root = dir(0, None, vec![]);
    let mut it = PostOrderIterator::new(root, opts(true, None), 0);
    assert!(it.next().is_some());
    assert!(it.next().is_none());
    assert!(it.next().is_none());
    assert!(it.next_borrowed().is_none());
}

#[test]
fn cumulative_size_sums_children() {
    let d = dir(1, Some(0), vec![(b"f".to_vec(), leaf(vec![0x09, 0x09], 3))]);
    let root = dir(
        0,
        None,
        vec![
            (b"d".to_vec(), Entry::Directory(d)),
            (b"g".to_vec(), leaf(vec![0x07], 5)),
        ],
    );
    let recs = collect(PostOrderIterator::new(root, opts(true, None), 0));
    assert_eq!(recs.len(), 2);
    let d_rec = &recs[0];
    let root_rec = &recs[1];
    assert_eq!(d_rec.path, b"d".to_vec());
    assert_eq!(d_rec.total_size, d_rec.block.len() as u64 + 3);
    assert_eq!(
        root_rec.total_size,
        root_rec.block.len() as u64 + d_rec.total_size + 5
    );
}

#[test]
fn borrowed_and_owned_records_agree() {
    let build = || {
        dir(
            0,
            None,
            vec![(b"a".to_vec(), Entry::Directory(dir(1, Some(0), vec![])))],
        )
    };
    let mut it_b = PostOrderIterator::new(build(), opts(true, None), 0);
    let mut it_o = PostOrderIterator::new(build(), opts(true, None), 0);
    loop {
        let owned = it_o.next();
        match it_b.next_borrowed() {
            Some(Ok(t)) => {
                let o = owned.unwrap().unwrap();
                assert_eq!(t.path, &o.path);
                assert_eq!(t.cid, &o.cid);
                assert_eq!(t.total_size, o.total_size);
                assert_eq!(t.block, &o.block);
            }
            Some(Err(_)) => panic!("unexpected error"),
            None => {
                assert!(owned.is_none());
                break;
            }
        }
    }
}

#[test]
fn record_cid_is_hash_of_block() {
    let root = dir(
        0,
        None,
        vec![
            (b"a".to_vec(), Entry::Directory(dir(1, Some(0), vec![]))),
            (b"b".to_vec(), leaf(vec![0x01], 1)),
        ],
    );
    let recs = collect(PostOrderIterator::new(root, opts(true, None), 0));
    for r in &recs {
        assert_eq!(r.cid, cid_v0_of(&r.block));
        assert_eq!(r.cid.len(), 34);
    }
}

#[test]
fn cumulative_size_saturates_at_maximum() {
    let root = dir(
        0,
        None,
        vec![
            (b"a".to_vec(), leaf(vec![0x01], u64::MAX)),
            (b"b".to_vec(), leaf(vec![0x02], 9)),
        ],
    );
    let recs = collect(PostOrderIterator::new(root, opts(true, None), 0));
    assert_eq!(recs.len(), 1);
    assert_eq!(recs[0].total_size, u64::MAX);
}

#[test]
fn deep_chain_emits_deepest_first() {
    let c = dir(3, Some(2), vec![]);
    let b = dir(2, Some(1), vec![(b"c".to_vec(), Entry::Directory(c))]);
    let a = dir(1, Some(0), vec![(b"b".to_vec(), Entry::Directory(b))]);
    let root = dir(0, None, vec![(b"a".to_vec(), Entry::Directory(a))]);
    let recs = collect(PostOrderIterator::new(root, opts(true, None), 0));
    let paths: Vec<Vec<u8>> = recs.iter().map(|r| r.path.clone()).collect();
    assert_eq!(
        paths,
        vec![
            b"a/b/c".to_vec(),
            b"a/b".to_vec(),
            b"a".to_vec(),
            Vec::<u8>::new()
        ]
    );
}
