use unixfs::iter::{partition_children_leaves, LeafStorage, PostOrderIterator, Visited};
use unixfs::path::update_full_path;
use unixfs::types::{DirBuilder, Entry, Leaf, NamedLeaf, TreeConstructionFailed};

#[test]
fn path_update_replaces_sibling_segment() {
    let mut path = b"a/b".to_vec();
    let mut depth: usize = 2;
    let name = b"c".to_vec();
    update_full_path(&mut path, &mut depth, Some(&name), 2);
    assert_eq!(path, b"a/c".to_vec());
    assert_eq!(depth, 2);
}

#[test]
fn path_update_descends_one_level() {
    let mut path = b"a/b".to_vec();
    let mut depth: usize = 2;
    let name = b"c".to_vec();
    update_full_path(&mut path, &mut depth, Some(&name), 3);
    assert_eq!(path, b"a/b/c".to_vec());
    assert_eq!(depth, 3);
}

#[test]
fn path_update_pops_to_shallower_sibling() {
    let mut path = b"a/b/c/d".to_vec();
    let mut depth: usize = 4;
    let name = b"e".to_vec();
    update_full_path(&mut path, &mut depth, Some(&name), 2);
    assert_eq!(path, b"a/e".to_vec());
    assert_eq!(depth, 2);
}

#[test]
fn path_update_resets_below_two() {
    let mut path = b"a/b/c".to_vec();
    let mut depth: usize = 3;
    update_full_path(&mut path, &mut depth, None, 0);
    assert_eq!(path, Vec::<u8>::new());
    assert_eq!(depth, 0);

    let name = b"x".to_vec();
    update_full_path(&mut path, &mut depth, Some(&name), 1);
    assert_eq!(path, b"x".to_vec());
    assert_eq!(depth, 1);
}

#[test]
fn path_update_keeps_matching_suffix() {
    let mut path = b"a/b/foo".to_vec();
    let mut depth: usize = 3;
    let name = b"foo".to_vec();
    update_full_path(&mut path, &mut depth, Some(&name), 3);
    assert_eq!(path, b"a/b/foo".to_vec());
    assert_eq!(depth, 3);
}

#[test]
fn partition_splits_leaves_and_directories() {
    let entries: Vec<(Vec<u8>, Entry)> = vec![
        (b"f".to_vec(), Entry::Leaf(Leaf { link: vec![0x01], total_size: 9 })),
        (
            b"d".to_vec(),
            Entry::Directory(DirBuilder { id: 5, parent_id: Some(0), nodes: vec![] }),
        ),
        (b"g".to_vec(), Entry::Leaf(Leaf { link: vec![0x02], total_size: 1 })),
    ];
    let mut children: Vec<Visited> = Vec::new();
    let leaves = partition_children_leaves(0, entries, &mut children, 42);
    assert_eq!(leaves.len(), 3);
    match &leaves[0] {
        Some(NamedLeaf(name, cid, size)) => {
            assert_eq!(name, &b"f".to_vec());
            assert_eq!(cid, &vec![0x01]);
            assert_eq!(*size, 9);
        }
        None => panic!("slot 0 should be filled"),
    }
    assert!(leaves[1].is_none());
    assert!(leaves[2].is_some());
    assert_eq!(children.len(), 1);
    match &children[0] {
        Visited::Descent { node, name, depth, index, parent_key } => {
            assert_eq!(node.id, 5);
            assert_eq!(name, &b"d".to_vec());
            assert_eq!(*depth, 1);
            assert_eq!(*index, 1);
            assert_eq!(*parent_key, 42);
        }
        _ => panic!("expected a descend frame"),
    }
}

#[test]
fn render_directory_encodes_and_sums() {
    let links: Vec<Option<NamedLeaf>> = vec![
        Some(NamedLeaf(b"a".to_vec(), vec![0x01, 0x02], 5)),
    ];
    let mut buffer: Vec<u8> = Vec::new();
    let out = PostOrderIterator::render_directory(&links, &mut buffer, &None).unwrap();
    let expected: Vec<u8> = vec![
        0x12, 0x09, 0x0a, 0x02, 0x01, 0x02, 0x12, 0x01, 0x61, 0x18, 0x05, 0x0a, 0x02, 0x08, 0x01,
    ];
    assert_eq!(buffer, expected);
    assert_eq!(out.total_size, 15 + 5);
    assert_eq!(out.link.len(), 34);
    assert_eq!(out.link[0], 0x12);
    assert_eq!(out.link[1], 0x20);
}

#[test]
fn render_directory_reports_oversize() {
    let links: Vec<Option<NamedLeaf>> = vec![
        Some(NamedLeaf(b"a".to_vec(), vec![0x01, 0x02], 5)),
    ];
    let mut buffer: Vec<u8> = Vec::new();
    let out = PostOrderIterator::render_directory(&links, &mut buffer, &Some(14));
    assert_eq!(out.unwrap_err(), TreeConstructionFailed::TooLargeBlock(15));
}

#[test]
fn storage_into_inner_direct_and_stashed() {
    let mut stash = std::collections::HashMap::new();
    stash.insert(3u64, vec![Some(NamedLeaf(b"n".to_vec(), vec![0x0a], 2))]);

    let direct = LeafStorage::Direct(vec![None]);
    let got = direct.into_inner(&mut stash);
    assert_eq!(got.len(), 1);
    assert!(stash.contains_key(&3));

    let stashed = LeafStorage::Stashed(3);
    let got = stashed.into_inner(&mut stash);
    assert_eq!(got.len(), 1);
    assert!(got[0].is_some());
    assert!(!stash.contains_key(&3));
}

#[test]
fn varint_sizes_cross_byte_boundary() {
    // a name of 200 bytes forces a two-byte length varint inside the link
    let name = vec![0x61u8; 200];
    let links: Vec<Option<NamedLeaf>> = vec![Some(NamedLeaf(name.clone(), vec![0x01], 300))];
    let mut buffer: Vec<u8> = Vec::new();
    PostOrderIterator::render_directory(&links, &mut buffer, &None).unwrap();
    // inner: 1 + 1 + 1 (hash) + 1 + 2 + 200 (name) + 1 + 2 (tsize 300) = 209
    let mut expected: Vec<u8> = vec![0x12, 0xd1, 0x01];
    expected.extend_from_slice(&[0x0a, 0x01, 0x01]);
    expected.extend_from_slice(&[0x12, 0xc8, 0x01]);
    expected.extend_from_slice(&name);
    expected.extend_from_slice(&[0x18, 0xac, 0x02]);
    expected.extend_from_slice(&[0x0a, 0x02, 0x08, 0x01]);
    assert_eq!(buffer, expected);
}
