use monotree::Bits;
use monotree::Hasher;
use monotree::Monotree;
use monotree::Node;
use monotree::Unit;
use monotree::hasher::Blake3;
use monotree::hasher::Sha2;
use monotree::database::MemoryDB;
use monotree::tree::root_key;
use monotree::utils::random_hashes;
use monotree::utils::shuffle;
use monotree::verify_proof;

fn new_tree() -> Monotree {
    Monotree::default()
}

fn fill(byte: u8) -> monotree::Hash {
    [byte; 32]
}

#[test]
fn single_key_tree_is_a_soft_over_the_full_path() {
    // empty -> insert (key=0x00*32, leaf=0x11*32):
    // the root is hash(leaf || bits(0..256, key) || 0x00)
    let mut tree = new_tree();
    let key = fill(0x00);
    let leaf = fill(0x11);
    let root = tree.insert(None, &key, &leaf).unwrap().unwrap();

    let bits = Bits::new(&key);
    assert_eq!(bits.start, 0);
    assert_eq!(bits.end, 256);
    let mut pre: Vec<u8> = Vec::new();
    pre.extend_from_slice(&leaf);
    pre.extend_from_slice(&bits.to_bytes().unwrap());
    pre.push(0x00);
    let expected = Blake3::new().digest(&pre);
    assert_eq!(root, expected);

    assert_eq!(tree.get(Some(&root), &key).unwrap(), Some(leaf));
}

#[test]
fn removing_the_sole_key_returns_to_the_empty_root() {
    let mut tree = new_tree();
    let key = fill(0x00);
    let leaf = fill(0x11);
    let root = tree.insert(None, &key, &leaf).unwrap().unwrap();
    let root = tree.remove(Some(&root), &key).unwrap();
    assert_eq!(root, None);
}

#[test]
fn pair_insert_is_a_hard_node_and_order_independent() {
    // (k1=0x80*32, v1=0xaa*32) then (k2=0x00*32, v2=0xbb*32): a Hard node
    // holding both leaves; the reversed order gives the identical root
    let k1 = fill(0x80);
    let v1 = fill(0xaa);
    let k2 = fill(0x00);
    let v2 = fill(0xbb);

    let mut tree = new_tree();
    let r = tree.insert(None, &k1, &v1).unwrap();
    let r = tree.insert(r.as_ref(), &k2, &v2).unwrap().unwrap();

    let mut tree2 = new_tree();
    let s = tree2.insert(None, &k2, &v2).unwrap();
    let s = tree2.insert(s.as_ref(), &k1, &v1).unwrap().unwrap();
    assert_eq!(r, s);

    let node = Node::new(
        Some(Unit { hash: v1.to_vec(), bits: Bits::new(&k1) }),
        Some(Unit { hash: v2.to_vec(), bits: Bits::new(&k2) }),
    );
    let expected = Blake3::new().digest(&node.to_bytes().unwrap());
    assert_eq!(r, expected);
}

#[test]
fn keys_differing_in_the_last_bit_split_at_depth_two() {
    let k1 = fill(0x00);
    let mut k2 = fill(0x00);
    k2[31] = 0x01;
    let v1 = fill(0xaa);
    let v2 = fill(0xbb);

    let mut tree = new_tree();
    let r = tree.insert(None, &k1, &v1).unwrap();
    let r = tree.insert(r.as_ref(), &k2, &v2).unwrap().unwrap();

    // inner Hard: the two one-bit fan-outs; outer Soft: the 255-bit run
    let inner = Node::new(
        Some(Unit { hash: v1.to_vec(), bits: Bits::new(&k1).drop(255) }),
        Some(Unit { hash: v2.to_vec(), bits: Bits::new(&k2).drop(255) }),
    );
    let hasher = Blake3::new();
    let inner_hash = hasher.digest(&inner.to_bytes().unwrap());
    let outer_bits = Bits::new(&k1).take(255);
    assert_eq!(outer_bits.len(), 255);
    assert_eq!(Bits::new(&k2).drop(255).len(), 1);
    let outer = Node::new(Some(Unit { hash: inner_hash.to_vec(), bits: outer_bits }), None);
    let expected = hasher.digest(&outer.to_bytes().unwrap());
    assert_eq!(r, expected);

    assert_eq!(tree.get(Some(&r), &k1).unwrap(), Some(v1));
    assert_eq!(tree.get(Some(&r), &k2).unwrap(), Some(v2));
}

#[test]
fn overwriting_a_key_replaces_only_that_leaf() {
    let keys = vec![fill(0x13), fill(0x9c), fill(0x55)];
    let first = vec![fill(0x01), fill(0x02), fill(0x03)];
    let second = fill(0xfe);

    let mut tree = new_tree();
    let mut root: Option<monotree::Hash> = None;
    for (k, v) in keys.iter().zip(first.iter()) {
        root = tree.insert(root.as_ref(), k, v).unwrap();
    }
    // overwrite the middle key
    root = tree.insert(root.as_ref(), &keys[1], &second).unwrap();

    let mut fresh = new_tree();
    let mut expected: Option<monotree::Hash> = None;
    for (k, v) in keys.iter().zip([first[0], second, first[2]].iter()) {
        expected = fresh.insert(expected.as_ref(), k, v).unwrap();
    }
    assert_eq!(root, expected);
    let r = root.unwrap();
    assert_eq!(tree.get(Some(&r), &keys[0]).unwrap(), Some(first[0]));
    assert_eq!(tree.get(Some(&r), &keys[1]).unwrap(), Some(second));
    assert_eq!(tree.get(Some(&r), &keys[2]).unwrap(), Some(first[2]));
}

#[test]
fn gets_align_with_keys_and_absent_keys_read_none() {
    let keys = random_hashes(40);
    let leaves = random_hashes(40);
    let mut tree = new_tree();
    let root = tree.inserts(None, &keys, &leaves).unwrap();

    let found = tree.gets(root.as_ref(), &keys).unwrap();
    assert_eq!(found.len(), keys.len());
    for (f, v) in found.iter().zip(leaves.iter()) {
        assert_eq!(f.as_ref(), Some(v));
    }

    let stranger = random_hashes(1)[0];
    let r = root.unwrap();
    assert_eq!(tree.get(Some(&r), &stranger).unwrap(), None);
    assert_eq!(tree.get_merkle_proof(Some(&r), &stranger).unwrap(), None);
}

#[test]
fn insert_order_does_not_change_the_root() {
    // 500 random distinct keys in two different orders give equal roots
    let keys = random_hashes(500);
    let leaves = random_hashes(500);

    let mut tree1 = new_tree();
    let r1 = tree1.inserts(None, &keys, &leaves).unwrap();

    let mut paired: Vec<(monotree::Hash, monotree::Hash)> =
        keys.iter().cloned().zip(leaves.iter().cloned()).collect();
    shuffle(&mut paired);
    let shuffled_keys: Vec<monotree::Hash> = paired.iter().map(|p| p.0).collect();
    let shuffled_leaves: Vec<monotree::Hash> = paired.iter().map(|p| p.1).collect();

    let mut tree2 = new_tree();
    let r2 = tree2.inserts(None, &shuffled_keys, &shuffled_leaves).unwrap();
    assert_eq!(r1, r2);
}

#[test]
fn generated_proofs_verify_and_tampered_proofs_fail() {
    let keys = random_hashes(1000);
    let leaves = random_hashes(1000);
    let mut tree = new_tree();
    let root = tree.inserts(None, &keys, &leaves).unwrap();
    let hasher = Blake3::new();

    for (k, v) in keys.iter().zip(leaves.iter()) {
        let proof = tree.get_merkle_proof(root.as_ref(), k).unwrap();
        assert!(proof.is_some());
        assert!(verify_proof(&hasher, root.as_ref(), v, proof.as_ref()));
    }

    // flip one byte of one frame: verification must fail
    let k = &keys[123];
    let v = &leaves[123];
    let mut proof = tree.get_merkle_proof(root.as_ref(), k).unwrap().unwrap();
    let frame = proof.len() / 2;
    let byte = proof[frame].1.len() / 2;
    proof[frame].1[byte] ^= 0x40;
    assert!(!verify_proof(&hasher, root.as_ref(), v, Some(&proof)));

    // a wrong leaf fails too
    let good = tree.get_merkle_proof(root.as_ref(), k).unwrap();
    let wrong = fill(0x31);
    assert!(!verify_proof(&hasher, root.as_ref(), &wrong, good.as_ref()));
    // and no proof at all verifies as false
    assert!(!verify_proof(&hasher, root.as_ref(), v, None));
}

#[test]
fn insert_then_immediate_remove_leaves_the_empty_root() {
    let keys = random_hashes(500);
    let leaves = random_hashes(500);
    let mut tree = new_tree();
    for (k, v) in keys.iter().zip(leaves.iter()) {
        let root = tree.insert(None, k, v).unwrap();
        let root = tree.remove(root.as_ref(), k).unwrap();
        assert_eq!(root, None);
    }
}

#[test]
fn removing_all_keys_returns_to_the_empty_root() {
    let keys = random_hashes(100);
    let leaves = random_hashes(100);
    let mut tree = new_tree();
    let root = tree.inserts(None, &keys, &leaves).unwrap();
    assert!(root.is_some());
    let root = tree.removes(root.as_ref(), &keys).unwrap();
    assert_eq!(root, None);
}

#[test]
fn removing_an_absent_key_keeps_the_root() {
    let keys = random_hashes(20);
    let leaves = random_hashes(20);
    let mut tree = new_tree();
    let root = tree.inserts(None, &keys, &leaves).unwrap();
    let stranger = random_hashes(1)[0];
    let after = tree.remove(root.as_ref(), &stranger).unwrap();
    assert_eq!(after, root);
}

#[test]
fn roots_differ_across_hashers() {
    let keys = random_hashes(50);
    let leaves = random_hashes(50);
    let mut t1: Monotree<MemoryDB, Blake3> = Monotree::new("blake3-side");
    let mut t2: Monotree<MemoryDB, Sha2> = Monotree::new("sha2-side");
    let r1 = t1.inserts(None, &keys, &leaves).unwrap();
    let r2 = t2.inserts(None, &keys, &leaves).unwrap();
    assert_ne!(r1, r2);
}

#[test]
fn batch_reads_see_pending_writes() {
    let mut tree = new_tree();
    let key = fill(0x21);
    let leaf = fill(0x43);
    tree.prepare().unwrap();
    let root = tree.insert(None, &key, &leaf).unwrap().unwrap();
    assert_eq!(tree.get(Some(&root), &key).unwrap(), Some(leaf));
    tree.commit().unwrap();
    assert_eq!(tree.get(Some(&root), &key).unwrap(), Some(leaf));
}

#[test]
fn headroot_roundtrips_through_the_backend() {
    let mut tree = new_tree();
    assert_eq!(tree.get_headroot().unwrap(), None);
    let key = fill(0x66);
    let leaf = fill(0x99);
    let root = tree.insert(None, &key, &leaf).unwrap().unwrap();
    tree.set_headroot(Some(&root)).unwrap();
    assert_eq!(tree.get_headroot().unwrap(), Some(root));
    // the reserved banner key stays out of the tree's own key space
    assert_eq!(root_key().len(), 32);
}

#[test]
fn dangling_references_surface_as_errors() {
    let mut tree = new_tree();
    let fake = fill(0x5a);
    let key = fill(0x01);
    let leaf = fill(0x02);
    assert!(tree.get(Some(&fake), &key).is_err());
    assert!(tree.insert(Some(&fake), &key, &leaf).is_err());
    assert!(tree.remove(Some(&fake), &key).is_err());
    assert!(tree.get_merkle_proof(Some(&fake), &key).is_err());
}

#[test]
fn hashers_compute_known_and_distinct_digests() {
    let input = b"abc";
    let sha2 = Sha2::new().digest(input);
    let expected: [u8; 32] = [
        0xba, 0x78, 0x16, 0xbf, 0x8f, 0x01, 0xcf, 0xea, 0x41, 0x41, 0x40, 0xde, 0x5d, 0xae, 0x22,
        0x23, 0xb0, 0x03, 0x61, 0xa3, 0x96, 0x17, 0x7a, 0x9c, 0xb4, 0x10, 0xff, 0x61, 0xf2, 0x00,
        0x15, 0xad,
    ];
    assert_eq!(sha2, expected);

    let b3 = Blake3::new().digest(input);
    assert_ne!(b3, sha2);
    let b3_again = Blake3::new().digest(input);
    assert_eq!(b3, b3_again);
}
