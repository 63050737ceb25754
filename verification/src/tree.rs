//! The tree engine: a compressed binary-radix sparse Merkle tree over a
//! content-addressed backend. Every mutation rewrites the touched nodes
//! bottom-up and returns the new root digest; lookups, Merkle-proof
//! generation and a stateless proof verifier descend the same bit-path.
use vstd::prelude::*;

verus! {

use crate::Errors;
use crate::HASH_LEN;
use crate::bits::Bits;
use crate::database::Database;
use crate::hasher::Hasher;
use crate::node::Cell;
use crate::node::Node;
use crate::node::SpecNode;
use crate::node::SpecUnit;
use crate::node::lemma_parse_wf;
use crate::node::spec_cells;
use crate::node::spec_node_parse;
use crate::node::spec_node_ser;
use crate::utils::bits_view;
use crate::node::Unit;
use crate::utils::slice_to_hash;

/// The 256-bit path of a fixed-width key, MSB first.
pub open spec fn key_bits(key: Seq<u8>) -> Seq<bool> {
    bits_view(key, 0, 256)
}

/// The view of an optional root reference.
pub open spec fn opt_root(root: Option<&crate::Hash>) -> Option<Seq<u8>> {
    match root {
        Some(h) => Some(h@),
        None => None,
    }
}

/// Length of the longest common prefix of two bit strings.
pub open spec fn lcp_len(a: Seq<bool>, b: Seq<bool>) -> nat
    decreases a.len(),
{
    if a.len() == 0 || b.len() == 0 {
        0
    } else if a[0] != b[0] {
        0
    } else {
        1 + lcp_len(a.skip(1), b.skip(1))
    }
}

/// A longest common prefix is no longer than either string.
pub proof fn lemma_lcp_bound(a: Seq<bool>, b: Seq<bool>)
    ensures
        lcp_len(a, b) <= a.len(),
        lcp_len(a, b) <= b.len(),
    decreases a.len(),
{
    if a.len() > 0 && b.len() > 0 && a[0] == b[0] {
        lemma_lcp_bound(a.skip(1), b.skip(1));
    }
}

/// The number a prefix-scan stops at is the longest-common-prefix length.
pub proof fn lemma_lcp_char(a: Seq<bool>, b: Seq<bool>, n: int)
    requires
        0 <= n <= a.len(),
        n <= b.len(),
        forall|k: int| 0 <= k < n ==> a[k] == b[k],
        n < a.len() && n < b.len() ==> a[n] != b[n],
    ensures
        lcp_len(a, b) == n,
    decreases n,
{
    if n == 0 {
    } else {
        assert(a[0] == b[0]);
        lemma_lcp_char(a.skip(1), b.skip(1), n - 1);
    }
}

/// Serialize a node, digest it, and record it in the map under its
/// digest: the one write primitive of the engine.
pub open spec fn spec_put_node<H: Hasher>(h: H, map: Map<Seq<u8>, Seq<u8>>, n: SpecNode) -> (
    Map<Seq<u8>, Seq<u8>>,
    Seq<u8>,
) {
    let bytes = spec_node_ser(n);
    let d = h.digest_spec(bytes);
    (map.insert(d, bytes), d)
}

/// A node from one mandatory child and an optional sibling: Soft without
/// a sibling, Hard with one.
pub open spec fn spec_node_of(a: SpecUnit, sib: Option<SpecUnit>) -> SpecNode {
    match sib {
        None => SpecNode::Soft(a),
        Some(b) => SpecNode::Hard(a, b),
    }
}

/// Insert a leaf under the remaining key path `kbits` (laid out at bit
/// offset `kstart`) below the node addressed by `root`: the four descent
/// cases of the engine. `None` means a missing reference or an
/// undecodable node.
#[verifier::opaque]
pub open spec fn spec_put<H: Hasher>(
    h: H,
    map: Map<Seq<u8>, Seq<u8>>,
    root: Seq<u8>,
    kstart: int,
    kbits: Seq<bool>,
    leaf: Seq<u8>,
) -> Option<(Map<Seq<u8>, Seq<u8>>, Seq<u8>)>
    decreases kbits.len(),
    via spec_put_dec::<H>
{
    if !map.contains_key(root) || kbits.len() == 0 {
        None
    } else {
        match spec_cells(map[root], kbits[0]) {
            None => None,
            Some((u, sib)) => {
                let n = lcp_len(u.bits, kbits);
                if n == 0 {
                    // set-aside: the new leaf becomes the second child here
                    Some(
                        spec_put_node(
                            h,
                            map,
                            SpecNode::Hard(
                                u,
                                SpecUnit { hash: leaf, start: kstart, bits: kbits },
                            ),
                        ),
                    )
                } else if n == kbits.len() {
                    // replacement: the leaf takes over this slot
                    Some(
                        spec_put_node(
                            h,
                            map,
                            spec_node_of(
                                SpecUnit { hash: leaf, start: kstart, bits: kbits },
                                sib,
                            ),
                        ),
                    )
                } else if n == u.bits.len() {
                    // consume & descend: recurse below, rewrite this level
                    match spec_put(
                        h,
                        map,
                        u.hash,
                        (kstart + n) % 8,
                        kbits.skip(n as int),
                        leaf,
                    ) {
                        None => None,
                        Some((m1, h1)) => Some(
                            spec_put_node(
                                h,
                                m1,
                                spec_node_of(
                                    SpecUnit { hash: h1, start: u.start, bits: u.bits },
                                    sib,
                                ),
                            ),
                        ),
                    }
                } else {
                    // split: an inner Hard at the divergence point
                    let inner = spec_put_node(
                        h,
                        map,
                        SpecNode::Hard(
                            SpecUnit {
                                hash: u.hash,
                                start: (u.start + n) % 8,
                                bits: u.bits.skip(n as int),
                            },
                            SpecUnit {
                                hash: leaf,
                                start: (kstart + n) % 8,
                                bits: kbits.skip(n as int),
                            },
                        ),
                    );
                    Some(
                        spec_put_node(
                            h,
                            inner.0,
                            spec_node_of(
                                SpecUnit {
                                    hash: inner.1,
                                    start: u.start,
                                    bits: u.bits.take(n as int),
                                },
                                sib,
                            ),
                        ),
                    )
                }
            },
        }
    }
}

#[via_fn]
proof fn spec_put_dec<H: Hasher>(
    h: H,
    map: Map<Seq<u8>, Seq<u8>>,
    root: Seq<u8>,
    kstart: int,
    kbits: Seq<bool>,
    leaf: Seq<u8>,
) {
    if map.contains_key(root) && kbits.len() > 0 {
        let c = spec_cells(map[root], kbits[0]);
        if c is Some {
            lemma_lcp_bound(c->Some_0.0.bits, kbits);
        }
    }
}

/// Insert into a possibly empty tree: an empty tree grows a single Soft
/// node carrying the full key path.
pub open spec fn spec_insert<H: Hasher>(
    h: H,
    map: Map<Seq<u8>, Seq<u8>>,
    root: Option<Seq<u8>>,
    key: Seq<u8>,
    leaf: Seq<u8>,
) -> Option<(Map<Seq<u8>, Seq<u8>>, Seq<u8>)> {
    match root {
        None => Some(
            spec_put_node(
                h,
                map,
                SpecNode::Soft(SpecUnit { hash: leaf, start: 0, bits: key_bits(key) }),
            ),
        ),
        Some(rt) => spec_put(h, map, rt, 0, key_bits(key), leaf),
    }
}

/// What a descent finds under a key: the leaf digest, nothing, or a
/// corrupt state (a dangling reference or an undecodable node).
#[verifier::ext_equal]
pub ghost enum SpecLookup {
    Found(Seq<u8>),
    Missing,
    Corrupt,
}

/// Look the remaining key path up below the node addressed by `root`.
#[verifier::opaque]
pub open spec fn spec_find(map: Map<Seq<u8>, Seq<u8>>, root: Seq<u8>, kbits: Seq<bool>) -> SpecLookup
    decreases kbits.len(),
    via spec_find_dec
{
    if !map.contains_key(root) || kbits.len() == 0 {
        SpecLookup::Corrupt
    } else {
        match spec_cells(map[root], kbits[0]) {
            None => SpecLookup::Corrupt,
            Some((u, sib)) => {
                let n = lcp_len(u.bits, kbits);
                if n == kbits.len() {
                    SpecLookup::Found(u.hash)
                } else if n == u.bits.len() {
                    if n == 0 {
                        SpecLookup::Corrupt
                    } else {
                        spec_find(map, u.hash, kbits.skip(n as int))
                    }
                } else {
                    SpecLookup::Missing
                }
            },
        }
    }
}

#[via_fn]
proof fn spec_find_dec(map: Map<Seq<u8>, Seq<u8>>, root: Seq<u8>, kbits: Seq<bool>) {
    if map.contains_key(root) && kbits.len() > 0 {
        let c = spec_cells(map[root], kbits[0]);
        if c is Some {
            lemma_lcp_bound(c->Some_0.0.bits, kbits);
        }
    }
}

/// Look a whole key up from an optional root; an empty tree holds
/// nothing.
pub open spec fn spec_get(map: Map<Seq<u8>, Seq<u8>>, root: Option<Seq<u8>>, key: Seq<u8>)
    -> SpecLookup {
    match root {
        None => SpecLookup::Missing,
        Some(rt) => spec_find(map, rt, key_bits(key)),
    }
}

/// What a removal leaves behind: the key was not there, the subtree
/// became empty, or a rewritten subtree with a new root digest.
#[verifier::ext_equal]
pub ghost enum SpecDelete {
    NotPresent,
    Empty,
    NewRoot { map: Map<Seq<u8>, Seq<u8>>, root: Seq<u8> },
}

/// Remove the remaining key path below the node addressed by `root`;
/// a vanished child promotes the sibling into a Soft node. `None` means
/// a corrupt state.
#[verifier::opaque]
pub open spec fn spec_del<H: Hasher>(
    h: H,
    map: Map<Seq<u8>, Seq<u8>>,
    root: Seq<u8>,
    kbits: Seq<bool>,
) -> Option<SpecDelete>
    decreases kbits.len(),
    via spec_del_dec::<H>
{
    if !map.contains_key(root) || kbits.len() == 0 {
        None
    } else {
        match spec_cells(map[root], kbits[0]) {
            None => None,
            Some((u, sib)) => {
                let n = lcp_len(u.bits, kbits);
                if n == kbits.len() {
                    match sib {
                        None => Some(SpecDelete::Empty),
                        Some(s) => {
                            let p = spec_put_node(h, map, SpecNode::Soft(s));
                            Some(SpecDelete::NewRoot { map: p.0, root: p.1 })
                        },
                    }
                } else if n == u.bits.len() {
                    if n == 0 {
                        None
                    } else {
                        match spec_del(h, map, u.hash, kbits.skip(n as int)) {
                            None => None,
                            Some(SpecDelete::NotPresent) => Some(SpecDelete::NotPresent),
                            Some(SpecDelete::Empty) => match sib {
                                None => Some(SpecDelete::Empty),
                                Some(s) => {
                                    let p = spec_put_node(h, map, SpecNode::Soft(s));
                                    Some(SpecDelete::NewRoot { map: p.0, root: p.1 })
                                },
                            },
                            Some(SpecDelete::NewRoot { map: m1, root: h1 }) => {
                                let p = spec_put_node(
                                    h,
                                    m1,
                                    spec_node_of(
                                        SpecUnit { hash: h1, start: u.start, bits: u.bits },
                                        sib,
                                    ),
                                );
                                Some(SpecDelete::NewRoot { map: p.0, root: p.1 })
                            },
                        }
                    }
                } else {
                    Some(SpecDelete::NotPresent)
                }
            },
        }
    }
}

#[via_fn]
proof fn spec_del_dec<H: Hasher>(
    h: H,
    map: Map<Seq<u8>, Seq<u8>>,
    root: Seq<u8>,
    kbits: Seq<bool>,
) {
    if map.contains_key(root) && kbits.len() > 0 {
        let c = spec_cells(map[root], kbits[0]);
        if c is Some {
            lemma_lcp_bound(c->Some_0.0.bits, kbits);
        }
    }
}

/// Remove a whole key from an optional root: an absent key leaves the
/// root unchanged, removing the last key leaves the empty tree.
pub open spec fn spec_remove<H: Hasher>(
    h: H,
    map: Map<Seq<u8>, Seq<u8>>,
    root: Option<Seq<u8>>,
    key: Seq<u8>,
) -> Option<(Map<Seq<u8>, Seq<u8>>, Option<Seq<u8>>)> {
    match root {
        None => Some((map, None)),
        Some(rt) => match spec_del(h, map, rt, key_bits(key)) {
            None => None,
            Some(SpecDelete::NotPresent) => Some((map, Some(rt))),
            Some(SpecDelete::Empty) => Some((map, None)),
            Some(SpecDelete::NewRoot { map: m1, root: h1 }) => Some((m1, Some(h1))),
        },
    }
}

/// What one removal descent reported back to its caller.
enum DeleteOutcome {
    NotPresent,
    BecameEmpty,
    NewRoot(crate::Hash),
}

/// A sparse Merkle tree handle: one backend, one hasher.
pub struct Monotree<D = crate::database::MemoryDB, H = crate::hasher::Blake3> {
    db: D,
    hasher: H,
}

impl<D, H> Monotree<D, H> where D: Database, H: Hasher {
    /// The hasher this tree digests nodes with.
    pub closed spec fn hasher_view(&self) -> H {
        self.hasher
    }

    /// The visible state of the tree's backend.
    pub closed spec fn db_view(&self) -> Map<Seq<u8>, Seq<u8>> {
        self.db.view_map()
    }

    /// Whether the backend owes success on digest-wide keys.
    pub closed spec fn db_reliable(&self) -> bool {
        self.db.reliable()
    }

    /// Open a tree over a fresh backend handle at the given location.
    pub fn new(dbpath: &str) -> Self {
        let db = D::new(dbpath);
        let hasher = H::new();
        Monotree { db, hasher }
    }

    /// Serialize, digest, and write one node; the returned digest is its
    /// address.
    fn put_node(&mut self, node: Node) -> (r: Result<Option<crate::Hash>, Errors>)
        requires
            node.wf(),
        ensures
            final (self).hasher_view() == old(self).hasher_view(),
            final (self).db_reliable() == old(self).db_reliable(),
            r matches Ok(o) ==> o matches Some(nh) && final (self).db_view() == spec_put_node(
                old(self).hasher_view(),
                old(self).db_view(),
                node@,
            ).0 && nh@ == spec_put_node(old(self).hasher_view(), old(self).db_view(), node@).1,
            old(self).db_reliable() ==> r is Ok,
    {
        let bytes: Vec<u8> = match node.to_bytes() {
            Ok(v) => v,
            Err(e) => {
                return Err(e);
            },
        };
        let hash: crate::Hash = self.hasher.digest(bytes.as_slice());
        match self.db.put(hash.as_slice(), bytes) {
            Ok(_) => Ok(Some(hash)),
            Err(e) => Err(e),
        }
    }

    /// Insert one key-leaf pair; the tree grows from `root` and the new
    /// root digest comes back.
    pub fn insert(&mut self, root: Option<&crate::Hash>, key: &crate::Hash, leaf: &crate::Hash)
        -> (r: Result<Option<crate::Hash>, Errors>)
        ensures
            final (self).hasher_view() == old(self).hasher_view(),
            final (self).db_reliable() == old(self).db_reliable(),
            r matches Ok(o) ==> o matches Some(nh) && spec_insert(
                old(self).hasher_view(),
                old(self).db_view(),
                opt_root(root),
                key@,
                leaf@,
            ) == Some((final (self).db_view(), nh@)),
            spec_insert(
                old(self).hasher_view(),
                old(self).db_view(),
                opt_root(root),
                key@,
                leaf@,
            ) is None ==> r is Err,
            old(self).db_reliable() && spec_insert(
                old(self).hasher_view(),
                old(self).db_view(),
                opt_root(root),
                key@,
                leaf@,
            ) is Some ==> r is Ok,
    {
        match root {
            None => {
                let bits = Bits::new(key.as_slice());
                let unit = Unit {
                    hash: vstd::slice::slice_to_vec(leaf.as_slice()),
                    bits,
                };
                let node = Node::new(Some(unit), None);
                self.put_node(node)
            },
            Some(rt) => self.put(rt.as_slice(), Bits::new(key.as_slice()), leaf.as_slice()),
        }
    }

    /// Recursive descent of an insert: read the node at `root`, decode it
    /// toward the key's first bit, and rewrite this level after one of
    /// the four cases.
    fn put(&mut self, root: &[u8], bits: Bits, leaf: &[u8]) -> (r: Result<
        Option<crate::Hash>,
        Errors,
    >)
        requires
            bits.wf(),
            bits@.len() > 0,
            leaf@.len() == HASH_LEN,
        ensures
            final (self).hasher_view() == old(self).hasher_view(),
            final (self).db_reliable() == old(self).db_reliable(),
            r matches Ok(o) ==> o matches Some(nh) && spec_put(
                old(self).hasher_view(),
                old(self).db_view(),
                root@,
                bits.start as int,
                bits@,
                leaf@,
            ) == Some((final (self).db_view(), nh@)),
            spec_put(
                old(self).hasher_view(),
                old(self).db_view(),
                root@,
                bits.start as int,
                bits@,
                leaf@,
            ) is None ==> r is Err,
            old(self).db_reliable() && root@.len() == 32 && spec_put(
                old(self).hasher_view(),
                old(self).db_view(),
                root@,
                bits.start as int,
                bits@,
                leaf@,
            ) is Some ==> r is Ok,
        decreases bits@.len(),
    {
        proof {
            reveal(spec_put);
        }
        let bytes: Vec<u8> = match self.db.get(root) {
            Ok(Some(v)) => v,
            Ok(None) => {
                return Err(Errors::new("put: node reference not found"));
            },
            Err(e) => {
                return Err(e);
            },
        };
        let first: bool = bits.first();
        let cells = match Node::cells_from_bytes(bytes.as_slice(), first) {
            Ok(c) => c,
            Err(e) => {
                return Err(e);
            },
        };
        proof {
            lemma_parse_wf(bytes@);
        }
        let unit: Unit = cells.0.unwrap();
        let sibling: Cell = cells.1;
        let n: u16 = Bits::len_common_bits(&unit.bits, &bits);
        let bits_len: u16 = bits.len();
        let unit_len: u16 = unit.bits.len();
        proof {
            lemma_lcp_char(unit.bits@, bits@, n as int);
            if sibling is Some {
                assert(sibling->0@.bits[0] != bits@[0]);
            }
        }
        if n == 0 {
            let new_unit = Unit { hash: vstd::slice::slice_to_vec(leaf), bits };
            let node = Node::new(Some(unit), Some(new_unit));
            self.put_node(node)
        } else if n == bits_len {
            let new_unit = Unit { hash: vstd::slice::slice_to_vec(leaf), bits };
            let node = Node::new(Some(new_unit), sibling);
            self.put_node(node)
        } else if n == unit_len {
            let tail = bits.drop(n);
            let child = match self.put(unit.hash.as_slice(), tail, leaf) {
                Ok(o) => o.unwrap(),
                Err(e) => {
                    return Err(e);
                },
            };
            let node = Node::new(
                Some(Unit { hash: vstd::slice::slice_to_vec(child.as_slice()), bits: unit.bits }),
                sibling,
            );
            self.put_node(node)
        } else {
            let u_tail = unit.bits.drop(n);
            let u_head = unit.bits.take(n);
            let k_tail = bits.drop(n);
            let inner = Node::new(
                Some(Unit { hash: unit.hash, bits: u_tail }),
                Some(Unit { hash: vstd::slice::slice_to_vec(leaf), bits: k_tail }),
            );
            let inner_hash = match self.put_node(inner) {
                Ok(o) => o.unwrap(),
                Err(e) => {
                    return Err(e);
                },
            };
            let node = Node::new(
                Some(
                    Unit {
                        hash: vstd::slice::slice_to_vec(inner_hash.as_slice()),
                        bits: u_head,
                    },
                ),
                sibling,
            );
            self.put_node(node)
        }
    }

    /// Get the leaf digest stored under a key, or nothing if the key is
    /// absent; a dangling reference or undecodable node is an error.
    pub fn get(&mut self, root: Option<&crate::Hash>, key: &crate::Hash) -> (r: Result<
        Option<crate::Hash>,
        Errors,
    >)
        ensures
            final (self).hasher_view() == old(self).hasher_view(),
            final (self).db_view() == old(self).db_view(),
            final (self).db_reliable() == old(self).db_reliable(),
            r matches Ok(o) ==> match spec_get(old(self).db_view(), opt_root(root), key@) {
                SpecLookup::Found(l) => o matches Some(v) && v@ == l,
                SpecLookup::Missing => o is None,
                SpecLookup::Corrupt => false,
            },
            spec_get(old(self).db_view(), opt_root(root), key@) is Corrupt ==> r is Err,
            root is None ==> (r matches Ok(o) && o is None),
            old(self).db_reliable() && !(spec_get(old(self).db_view(), opt_root(root), key@)
                is Corrupt) ==> r is Ok,
    {
        match root {
            None => Ok(None),
            Some(rt) => self.find_key(rt.as_slice(), Bits::new(key.as_slice())),
        }
    }

    /// Recursive descent of a lookup.
    fn find_key(&mut self, root: &[u8], bits: Bits) -> (r: Result<Option<crate::Hash>, Errors>)
        requires
            bits.wf(),
            bits@.len() > 0,
        ensures
            final (self).hasher_view() == old(self).hasher_view(),
            final (self).db_view() == old(self).db_view(),
            final (self).db_reliable() == old(self).db_reliable(),
            r matches Ok(o) ==> match spec_find(old(self).db_view(), root@, bits@) {
                SpecLookup::Found(l) => o matches Some(v) && v@ == l,
                SpecLookup::Missing => o is None,
                SpecLookup::Corrupt => false,
            },
            spec_find(old(self).db_view(), root@, bits@) is Corrupt ==> r is Err,
            old(self).db_reliable() && root@.len() == 32 && !(spec_find(
                old(self).db_view(),
                root@,
                bits@,
            ) is Corrupt) ==> r is Ok,
        decreases bits@.len(),
    {
        proof {
            reveal(spec_find);
        }
        let bytes: Vec<u8> = match self.db.get(root) {
            Ok(Some(v)) => v,
            Ok(None) => {
                return Err(Errors::new("find: node reference not found"));
            },
            Err(e) => {
                return Err(e);
            },
        };
        let first: bool = bits.first();
        let cells = match Node::cells_from_bytes(bytes.as_slice(), first) {
            Ok(c) => c,
            Err(e) => {
                return Err(e);
            },
        };
        proof {
            lemma_parse_wf(bytes@);
        }
        let unit: Unit = cells.0.unwrap();
        let n: u16 = Bits::len_common_bits(&unit.bits, &bits);
        let bits_len: u16 = bits.len();
        let unit_len: u16 = unit.bits.len();
        proof {
            lemma_lcp_char(unit.bits@, bits@, n as int);
        }
        if n == bits_len {
            Ok(Some(slice_to_hash(unit.hash.as_slice())))
        } else if n == unit_len {
            self.find_key(unit.hash.as_slice(), bits.drop(n))
        } else {
            Ok(None)
        }
    }

    /// Remove a key and its leaf; an absent key leaves the root
    /// unchanged, and removing the last key returns the empty tree.
    pub fn remove(&mut self, root: Option<&crate::Hash>, key: &crate::Hash) -> (r: Result<
        Option<crate::Hash>,
        Errors,
    >)
        ensures
            final (self).hasher_view() == old(self).hasher_view(),
            final (self).db_reliable() == old(self).db_reliable(),
            r matches Ok(o) ==> spec_remove(
                old(self).hasher_view(),
                old(self).db_view(),
                opt_root(root),
                key@,
            ) == Some((final (self).db_view(), opt_val(o))),
            spec_remove(
                old(self).hasher_view(),
                old(self).db_view(),
                opt_root(root),
                key@,
            ) is None ==> r is Err,
            root is None ==> (r matches Ok(o) && o is None && final (self).db_view() == old(
                self,
            ).db_view()),
            old(self).db_reliable() && spec_remove(
                old(self).hasher_view(),
                old(self).db_view(),
                opt_root(root),
                key@,
            ) is Some ==> r is Ok,
    {
        match root {
            None => Ok(None),
            Some(rt) => {
                match self.delete_key(rt.as_slice(), Bits::new(key.as_slice())) {
                    Ok(DeleteOutcome::NotPresent) => Ok(Some(*rt)),
                    Ok(DeleteOutcome::BecameEmpty) => Ok(None),
                    Ok(DeleteOutcome::NewRoot(h)) => Ok(Some(h)),
                    Err(e) => Err(e),
                }
            },
        }
    }

    /// Recursive descent of a removal: at the key's level the sibling is
    /// promoted into a Soft node; a vanished child propagates upward.
    fn delete_key(&mut self, root: &[u8], bits: Bits) -> (r: Result<DeleteOutcome, Errors>)
        requires
            bits.wf(),
            bits@.len() > 0,
        ensures
            final (self).hasher_view() == old(self).hasher_view(),
            r matches Ok(o) ==> match o {
                DeleteOutcome::NotPresent => spec_del(
                    old(self).hasher_view(),
                    old(self).db_view(),
                    root@,
                    bits@,
                ) == Some(SpecDelete::NotPresent) && final (self).db_view() == old(self).db_view(),
                DeleteOutcome::BecameEmpty => spec_del(
                    old(self).hasher_view(),
                    old(self).db_view(),
                    root@,
                    bits@,
                ) == Some(SpecDelete::Empty) && final (self).db_view() == old(self).db_view(),
                DeleteOutcome::NewRoot(nh) => spec_del(
                    old(self).hasher_view(),
                    old(self).db_view(),
                    root@,
                    bits@,
                ) == Some(SpecDelete::NewRoot { map: final (self).db_view(), root: nh@ }),
            },
            spec_del(old(self).hasher_view(), old(self).db_view(), root@, bits@) is None ==> r
                is Err,
            final (self).db_reliable() == old(self).db_reliable(),
            old(self).db_reliable() && root@.len() == 32 && spec_del(
                old(self).hasher_view(),
                old(self).db_view(),
                root@,
                bits@,
            ) is Some ==> r is Ok,
        decreases bits@.len(),
    {
        proof {
            reveal(spec_del);
        }
        let bytes: Vec<u8> = match self.db.get(root) {
            Ok(Some(v)) => v,
            Ok(None) => {
                return Err(Errors::new("remove: node reference not found"));
            },
            Err(e) => {
                return Err(e);
            },
        };
        let first: bool = bits.first();
        let cells = match Node::cells_from_bytes(bytes.as_slice(), first) {
            Ok(c) => c,
            Err(e) => {
                return Err(e);
            },
        };
        proof {
            lemma_parse_wf(bytes@);
        }
        let unit: Unit = cells.0.unwrap();
        let sibling: Cell = cells.1;
        let n: u16 = Bits::len_common_bits(&unit.bits, &bits);
        let bits_len: u16 = bits.len();
        let unit_len: u16 = unit.bits.len();
        proof {
            lemma_lcp_char(unit.bits@, bits@, n as int);
        }
        if n == bits_len {
            match sibling {
                Some(s) => {
                    let node = Node::new(None, Some(s));
                    match self.put_node(node) {
                        Ok(o) => Ok(DeleteOutcome::NewRoot(o.unwrap())),
                        Err(e) => Err(e),
                    }
                },
                None => Ok(DeleteOutcome::BecameEmpty),
            }
        } else if n == unit_len {
            let outcome = match self.delete_key(unit.hash.as_slice(), bits.drop(n)) {
                Ok(o) => o,
                Err(e) => {
                    return Err(e);
                },
            };
            match outcome {
                DeleteOutcome::NotPresent => Ok(DeleteOutcome::NotPresent),
                DeleteOutcome::BecameEmpty => {
                    match sibling {
                        Some(s) => {
                            let node = Node::new(None, Some(s));
                            match self.put_node(node) {
                                Ok(o) => Ok(DeleteOutcome::NewRoot(o.unwrap())),
                                Err(e) => Err(e),
                            }
                        },
                        None => Ok(DeleteOutcome::BecameEmpty),
                    }
                },
                DeleteOutcome::NewRoot(h1) => {
                    let node = Node::new(
                        Some(
                            Unit {
                                hash: vstd::slice::slice_to_vec(h1.as_slice()),
                                bits: unit.bits,
                            },
                        ),
                        sibling,
                    );
                    match self.put_node(node) {
                        Ok(o) => Ok(DeleteOutcome::NewRoot(o.unwrap())),
                        Err(e) => Err(e),
                    }
                },
            }
        } else {
            Ok(DeleteOutcome::NotPresent)
        }
    }

    /// Retrieve the latest published root from the backend.
    pub fn get_headroot(&mut self) -> (r: Result<Option<crate::Hash>, Errors>)
        ensures
            final (self).hasher_view() == old(self).hasher_view(),
            final (self).db_view() == old(self).db_view(),
            final (self).db_reliable() == old(self).db_reliable(),
            r matches Ok(Some(h)) ==> old(self).db_view().contains_key(spec_root_key()) && h@
                == old(self).db_view()[spec_root_key()],
            r matches Ok(None) ==> !old(self).db_view().contains_key(spec_root_key()),
            old(self).db_reliable() && old(self).db_view().contains_key(spec_root_key()) && old(
                self,
            ).db_view()[spec_root_key()].len() == 32 ==> (r matches Ok(o) && o is Some),
            old(self).db_reliable() && !old(self).db_view().contains_key(spec_root_key()) ==> (
            r matches Ok(o) && o is None),
    {
        let rk: crate::Hash = root_key();
        match self.db.get(rk.as_slice()) {
            Ok(Some(v)) => {
                if v.len() != 32 {
                    Err(Errors::new("headroot: stored root is not digest-wide"))
                } else {
                    Ok(Some(slice_to_hash(v.as_slice())))
                }
            },
            Ok(None) => Ok(None),
            Err(e) => Err(e),
        }
    }

    /// Publish a root as the latest, under the reserved banner key; the
    /// tree never updates that key on its own.
    pub fn set_headroot(&mut self, headroot: Option<&crate::Hash>) -> (r: Result<(), Errors>)
        ensures
            final (self).hasher_view() == old(self).hasher_view(),
            final (self).db_reliable() == old(self).db_reliable(),
            headroot is None ==> final (self).db_view() == old(self).db_view() && r is Ok,
            headroot matches Some(h) ==> (r is Ok ==> final (self).db_view() == old(
                self,
            ).db_view().insert(spec_root_key(), h@)),
            old(self).db_reliable() ==> r is Ok,
    {
        match headroot {
            None => Ok(()),
            Some(h) => {
                let rk: crate::Hash = root_key();
                self.db.put(rk.as_slice(), vstd::slice::slice_to_vec(h.as_slice()))
            },
        }
    }

    /// Open a batch: following writes are cached and deferred until
    /// `commit`, while reads on this handle already see them.
    pub fn prepare(&mut self) -> (r: Result<(), Errors>)
        ensures
            final (self).hasher_view() == old(self).hasher_view(),
            final (self).db_reliable() == old(self).db_reliable(),
            r is Ok ==> final (self).db_view() == old(self).db_view(),
            old(self).db_reliable() ==> r is Ok,
    {
        self.db.init_batch()
    }

    /// Commit the open batch atomically; the visible state does not
    /// change, it becomes durable.
    pub fn commit(&mut self) -> (r: Result<(), Errors>)
        ensures
            final (self).hasher_view() == old(self).hasher_view(),
            final (self).db_reliable() == old(self).db_reliable(),
            r is Ok ==> final (self).db_view() == old(self).db_view(),
            old(self).db_reliable() ==> r is Ok,
    {
        self.db.finish_batch()
    }

    /// Insert many pairs as one atomic batch: the keys are sorted first,
    /// the inserts are chained through the root, and the batch commits at
    /// the end. The resulting root does not depend on the input order of
    /// distinct keys.
    pub fn inserts(
        &mut self,
        root: Option<&crate::Hash>,
        keys: &[crate::Hash],
        leaves: &[crate::Hash],
    ) -> (r: Result<Option<crate::Hash>, Errors>)
        requires
            keys@.len() == leaves@.len(),
        ensures
            final (self).hasher_view() == old(self).hasher_view(),
            final (self).db_reliable() == old(self).db_reliable(),
            r matches Ok(o) ==> exists|idx: Seq<int>|
                #[trigger] is_sorted_index_perm(idx, keys@) && spec_inserts(
                    old(self).hasher_view(),
                    old(self).db_view(),
                    opt_root(root),
                    pairs_through(keys@, leaves@, idx),
                ) == Some((final (self).db_view(), opt_val(o))),
            old(self).db_reliable() && (forall|idx: Seq<int>|
                is_sorted_index_perm(idx, keys@) ==> spec_inserts(
                    old(self).hasher_view(),
                    old(self).db_view(),
                    opt_root(root),
                    pairs_through(keys@, leaves@, idx),
                ) is Some) ==> r is Ok,
    {
        let indices: Vec<usize> = crate::utils::get_sorted_indices(keys, false);
        let ghost idx = Seq::new(indices@.len(), |i: int| indices@[i] as int);
        let ghost h0 = self.hasher_view();
        let ghost db0 = self.db_view();
        let ghost hyp = forall|idx2: Seq<int>|
            is_sorted_index_perm(idx2, keys@) ==> spec_inserts(
                h0,
                db0,
                opt_root(root),
                pairs_through(keys@, leaves@, idx2),
            ) is Some;
        proof {
            assert forall|a: int, b: int| 0 <= a <= b < idx.len() implies crate::utils::lex_le(
                keys@[idx[a]]@,
                keys@[idx[b]]@,
            ) by {
                assert(crate::utils::ord_le(
                    keys@[indices@[a] as int]@,
                    keys@[indices@[b] as int]@,
                    false,
                ));
            }
            assert(is_sorted_index_perm(idx, keys@));
        }
        match self.prepare() {
            Ok(_) => {},
            Err(e) => {
                return Err(e);
            },
        }
        let mut cur: Option<crate::Hash> = match root {
            Some(h) => Some(*h),
            None => None,
        };
        let n: usize = indices.len();
        let mut i: usize = 0;
        proof {
            assert(pairs_through(keys@, leaves@, idx.take(0)) =~= Seq::<(Seq<u8>, Seq<u8>)>::empty());
        }
        while i < n
            invariant
                i <= n,
                n == indices@.len() == keys@.len(),
                keys@.len() == leaves@.len(),
                idx == Seq::new(indices@.len(), |k: int| indices@[k] as int),
                is_sorted_index_perm(idx, keys@),
                h0 == old(self).hasher_view(),
                db0 == old(self).db_view(),
                self.hasher_view() == h0,
                self.db_reliable() == old(self).db_reliable(),
                hyp == (forall|idx2: Seq<int>|
                    is_sorted_index_perm(idx2, keys@) ==> spec_inserts(
                        h0,
                        db0,
                        opt_root(root),
                        pairs_through(keys@, leaves@, idx2),
                    ) is Some),
                hyp ==> spec_inserts(h0, db0, opt_root(root), pairs_through(keys@, leaves@, idx))
                    is Some,
                spec_inserts(h0, db0, opt_root(root), pairs_through(keys@, leaves@, idx.take(i as int)))
                    == Some((self.db_view(), opt_val(cur))),
            decreases n - i,
        {
            let t: usize = indices[i];
            proof {
                assert(idx[i as int] == indices@[i as int] as int);
                assert(0 <= idx[i as int] < keys@.len());
            }
            let ghost pre_db = self.db_view();
            let ghost pre_cur = cur;
            let step = match &cur {
                Some(hh) => self.insert(Some(hh), &keys[t], &leaves[t]),
                None => self.insert(None, &keys[t], &leaves[t]),
            };
            let next = match step {
                Ok(o) => o,
                Err(e) => {
                    proof {
                        if old(self).db_reliable() && hyp {
                            let full = pairs_through(keys@, leaves@, idx);
                            let pre = pairs_through(keys@, leaves@, idx.take(i as int));
                            let p = (keys@[t as int]@, leaves@[t as int]@);
                            lemma_spec_inserts_prefix(h0, db0, opt_root(root), full, i + 1);
                            assert(full.take(i + 1) =~= pairs_through(
                                keys@,
                                leaves@,
                                idx.take(i + 1),
                            ));
                            assert(pairs_through(keys@, leaves@, idx.take(i + 1)) =~= pre.push(p));
                            lemma_spec_inserts_push(h0, db0, opt_root(root), pre, p);
                            assert(spec_insert(h0, pre_db, opt_val(pre_cur), p.0, p.1) is Some);
                            assert(false);
                        }
                    }
                    return Err(e);
                },
            };
            cur = next;
            proof {
                let pre = pairs_through(keys@, leaves@, idx.take(i as int));
                let p = (keys@[t as int]@, leaves@[t as int]@);
                lemma_spec_inserts_push(h0, db0, opt_root(root), pre, p);
                assert(pairs_through(keys@, leaves@, idx.take(i + 1)) =~= pre.push(p));
            }
            i = i + 1;
        }
        proof {
            assert(idx.take(n as int) =~= idx);
        }
        match self.commit() {
            Ok(_) => {},
            Err(e) => {
                return Err(e);
            },
        }
        proof {
            assert(is_sorted_index_perm(idx, keys@));
        }
        Ok(cur)
    }

    /// Look many keys up; the results align with the input keys.
    pub fn gets(&mut self, root: Option<&crate::Hash>, keys: &[crate::Hash]) -> (r: Result<
        Vec<Option<crate::Hash>>,
        Errors,
    >)
        ensures
            final (self).hasher_view() == old(self).hasher_view(),
            final (self).db_view() == old(self).db_view(),
            final (self).db_reliable() == old(self).db_reliable(),
            r matches Ok(v) ==> v@.len() == keys@.len() && forall|i: int|
                0 <= i < keys@.len() ==> match spec_get(
                    old(self).db_view(),
                    opt_root(root),
                    #[trigger] keys@[i]@,
                ) {
                    SpecLookup::Found(l) => v@[i] matches Some(x) && x@ == l,
                    SpecLookup::Missing => v@[i] is None,
                    SpecLookup::Corrupt => false,
                },
            keys@.len() == 0 ==> r is Ok,
            old(self).db_reliable() && (forall|i: int|
                0 <= i < keys@.len() ==> !(spec_get(
                    old(self).db_view(),
                    opt_root(root),
                    #[trigger] keys@[i]@,
                ) is Corrupt)) ==> r is Ok,
    {
        let ghost all_readable = forall|i: int|
            0 <= i < keys@.len() ==> !(spec_get(
                old(self).db_view(),
                opt_root(root),
                #[trigger] keys@[i]@,
            ) is Corrupt);
        let mut leaves: Vec<Option<crate::Hash>> = Vec::new();
        let n: usize = keys.len();
        let mut i: usize = 0;
        while i < n
            invariant
                i <= n,
                n == keys@.len(),
                leaves@.len() == i,
                self.hasher_view() == old(self).hasher_view(),
                self.db_view() == old(self).db_view(),
                self.db_reliable() == old(self).db_reliable(),
                all_readable == (forall|k: int|
                    0 <= k < keys@.len() ==> !(spec_get(
                        old(self).db_view(),
                        opt_root(root),
                        #[trigger] keys@[k]@,
                    ) is Corrupt)),
                forall|k: int|
                    0 <= k < i ==> match spec_get(
                        old(self).db_view(),
                        opt_root(root),
                        #[trigger] keys@[k]@,
                    ) {
                        SpecLookup::Found(l) => leaves@[k] matches Some(x) && x@ == l,
                        SpecLookup::Missing => leaves@[k] is None,
                        SpecLookup::Corrupt => false,
                    },
            decreases n - i,
        {
            let found = match self.get(root, &keys[i]) {
                Ok(o) => o,
                Err(e) => {
                    proof {
                        if self.db_reliable() && all_readable {
                            assert(!(spec_get(
                                old(self).db_view(),
                                opt_root(root),
                                keys@[i as int]@,
                            ) is Corrupt));
                        }
                    }
                    return Err(e);
                },
            };
            leaves.push(found);
            i = i + 1;
        }
        Ok(leaves)
    }

    /// Remove many keys as one atomic batch, with the same sorting and
    /// batch discipline as `inserts`.
    pub fn removes(&mut self, root: Option<&crate::Hash>, keys: &[crate::Hash]) -> (r: Result<
        Option<crate::Hash>,
        Errors,
    >)
        ensures
            final (self).hasher_view() == old(self).hasher_view(),
            final (self).db_reliable() == old(self).db_reliable(),
            r matches Ok(o) ==> exists|idx: Seq<int>|
                #[trigger] is_sorted_index_perm(idx, keys@) && spec_removes(
                    old(self).hasher_view(),
                    old(self).db_view(),
                    opt_root(root),
                    keys_through(keys@, idx),
                ) == Some((final (self).db_view(), opt_val(o))),
            old(self).db_reliable() && (forall|idx: Seq<int>|
                is_sorted_index_perm(idx, keys@) ==> spec_removes(
                    old(self).hasher_view(),
                    old(self).db_view(),
                    opt_root(root),
                    keys_through(keys@, idx),
                ) is Some) ==> r is Ok,
    {
        let indices: Vec<usize> = crate::utils::get_sorted_indices(keys, false);
        let ghost idx = Seq::new(indices@.len(), |i: int| indices@[i] as int);
        let ghost h0 = self.hasher_view();
        let ghost db0 = self.db_view();
        let ghost hyp = forall|idx2: Seq<int>|
            is_sorted_index_perm(idx2, keys@) ==> spec_removes(
                h0,
                db0,
                opt_root(root),
                keys_through(keys@, idx2),
            ) is Some;
        proof {
            assert forall|a: int, b: int| 0 <= a <= b < idx.len() implies crate::utils::lex_le(
                keys@[idx[a]]@,
                keys@[idx[b]]@,
            ) by {
                assert(crate::utils::ord_le(
                    keys@[indices@[a] as int]@,
                    keys@[indices@[b] as int]@,
                    false,
                ));
            }
            assert(is_sorted_index_perm(idx, keys@));
        }
        match self.prepare() {
            Ok(_) => {},
            Err(e) => {
                return Err(e);
            },
        }
        let mut cur: Option<crate::Hash> = match root {
            Some(h) => Some(*h),
            None => None,
        };
        let n: usize = indices.len();
        let mut i: usize = 0;
        proof {
            assert(keys_through(keys@, idx.take(0)) =~= Seq::<Seq<u8>>::empty());
        }
        while i < n
            invariant
                i <= n,
                n == indices@.len() == keys@.len(),
                idx == Seq::new(indices@.len(), |k: int| indices@[k] as int),
                is_sorted_index_perm(idx, keys@),
                h0 == old(self).hasher_view(),
                db0 == old(self).db_view(),
                self.hasher_view() == h0,
                self.db_reliable() == old(self).db_reliable(),
                hyp == (forall|idx2: Seq<int>|
                    is_sorted_index_perm(idx2, keys@) ==> spec_removes(
                        h0,
                        db0,
                        opt_root(root),
                        keys_through(keys@, idx2),
                    ) is Some),
                hyp ==> spec_removes(h0, db0, opt_root(root), keys_through(keys@, idx)) is Some,
                spec_removes(h0, db0, opt_root(root), keys_through(keys@, idx.take(i as int)))
                    == Some((self.db_view(), opt_val(cur))),
            decreases n - i,
        {
            let t: usize = indices[i];
            proof {
                assert(idx[i as int] == indices@[i as int] as int);
                assert(0 <= idx[i as int] < keys@.len());
            }
            let ghost pre_db = self.db_view();
            let ghost pre_cur = cur;
            let step = match &cur {
                Some(hh) => self.remove(Some(hh), &keys[t]),
                None => self.remove(None, &keys[t]),
            };
            let next = match step {
                Ok(o) => o,
                Err(e) => {
                    proof {
                        if old(self).db_reliable() && hyp {
                            let full = keys_through(keys@, idx);
                            let pre = keys_through(keys@, idx.take(i as int));
                            let k = keys@[t as int]@;
                            lemma_spec_removes_prefix(h0, db0, opt_root(root), full, i + 1);
                            assert(full.take(i + 1) =~= keys_through(keys@, idx.take(i + 1)));
                            assert(keys_through(keys@, idx.take(i + 1)) =~= pre.push(k));
                            lemma_spec_removes_push(h0, db0, opt_root(root), pre, k);
                            assert(spec_remove(h0, pre_db, opt_val(pre_cur), k) is Some);
                            assert(false);
                        }
                    }
                    return Err(e);
                },
            };
            cur = next;
            proof {
                let pre = keys_through(keys@, idx.take(i as int));
                let k = keys@[t as int]@;
                lemma_spec_removes_push(h0, db0, opt_root(root), pre, k);
                assert(keys_through(keys@, idx.take(i + 1)) =~= pre.push(k));
            }
            i = i + 1;
        }
        proof {
            assert(idx.take(n as int) =~= idx);
        }
        match self.commit() {
            Ok(_) => {},
            Err(e) => {
                return Err(e);
            },
        }
        proof {
            assert(is_sorted_index_perm(idx, keys@));
        }
        Ok(cur)
    }

    /// Generate a Merkle proof for the given root and key: `None` for an
    /// absent key, usable as a non-inclusion witness.
    pub fn get_merkle_proof(&mut self, root: Option<&crate::Hash>, key: &crate::Hash) -> (r:
        Result<Option<crate::Proof>, Errors>)
        ensures
            final (self).hasher_view() == old(self).hasher_view(),
            final (self).db_view() == old(self).db_view(),
            final (self).db_reliable() == old(self).db_reliable(),
            r matches Ok(o) ==> match spec_merkle_proof(old(self).db_view(), opt_root(root), key@) {
                None => false,
                Some(None) => o is None,
                Some(Some(frames)) => o matches Some(p) && proof_view(p@) == frames,
            },
            spec_merkle_proof(old(self).db_view(), opt_root(root), key@) is None ==> r is Err,
            root is None ==> (r matches Ok(o) && o is None),
            old(self).db_reliable() && spec_merkle_proof(
                old(self).db_view(),
                opt_root(root),
                key@,
            ) is Some ==> r is Ok,
    {
        match root {
            None => Ok(None),
            Some(rt) => self.gen_proof(rt.as_slice(), Bits::new(key.as_slice())),
        }
    }

    /// Recursive descent of proof generation, along the same path a
    /// lookup would take.
    fn gen_proof(&mut self, root: &[u8], bits: Bits) -> (r: Result<Option<crate::Proof>, Errors>)
        requires
            bits.wf(),
            bits@.len() > 0,
        ensures
            final (self).hasher_view() == old(self).hasher_view(),
            final (self).db_view() == old(self).db_view(),
            final (self).db_reliable() == old(self).db_reliable(),
            r matches Ok(o) ==> match spec_gen_proof(old(self).db_view(), root@, bits@) {
                None => false,
                Some(None) => o is None,
                Some(Some(frames)) => o matches Some(p) && proof_view(p@) == frames,
            },
            spec_gen_proof(old(self).db_view(), root@, bits@) is None ==> r is Err,
            old(self).db_reliable() && root@.len() == 32 && spec_gen_proof(
                old(self).db_view(),
                root@,
                bits@,
            ) is Some ==> r is Ok,
        decreases bits@.len(),
    {
        proof {
            reveal(spec_gen_proof);
        }
        let bytes: Vec<u8> = match self.db.get(root) {
            Ok(Some(v)) => v,
            Ok(None) => {
                return Err(Errors::new("proof: node reference not found"));
            },
            Err(e) => {
                return Err(e);
            },
        };
        let first: bool = bits.first();
        let cells = match Node::cells_from_bytes(bytes.as_slice(), first) {
            Ok(c) => c,
            Err(e) => {
                return Err(e);
            },
        };
        proof {
            lemma_parse_wf(bytes@);
        }
        let unit: Unit = cells.0.unwrap();
        let n: u16 = Bits::len_common_bits(&unit.bits, &bits);
        let bits_len: u16 = bits.len();
        let unit_len: u16 = unit.bits.len();
        proof {
            lemma_lcp_char(unit.bits@, bits@, n as int);
        }
        if n == bits_len {
            let frame = match self.encode_proof(bytes.as_slice(), first) {
                Ok(f) => f,
                Err(e) => {
                    return Err(e);
                },
            };
            let mut p: crate::Proof = Vec::new();
            p.push(frame);
            proof {
                assert(proof_view(p@) =~= seq![
                    spec_encode_frame(old(self).db_view()[root@], bits@[0]),
                ]);
            }
            Ok(Some(p))
        } else if n == unit_len {
            let rest = match self.gen_proof(unit.hash.as_slice(), bits.drop(n)) {
                Ok(o) => o,
                Err(e) => {
                    return Err(e);
                },
            };
            match rest {
                None => Ok(None),
                Some(mut rest_frames) => {
                    let frame = match self.encode_proof(bytes.as_slice(), first) {
                        Ok(f) => f,
                        Err(e) => {
                            return Err(e);
                        },
                    };
                    let ghost rest_view = proof_view(rest_frames@);
                    let mut p: crate::Proof = Vec::new();
                    p.push(frame);
                    p.append(&mut rest_frames);
                    proof {
                        assert(proof_view(p@) =~= seq![
                            spec_encode_frame(old(self).db_view()[root@], bits@[0]),
                        ] + rest_view);
                    }
                    Ok(Some(p))
                },
            }
        } else {
            Ok(None)
        }
    }

    /// Cut one node's bytes into a proof frame, excising the pursued
    /// digest.
    fn encode_proof(&self, bytes: &[u8], right: bool) -> (r: Result<(bool, Vec<u8>), Errors>)
        ensures
            r matches Ok(f) ==> spec_node_parse(bytes@) is Some && (f.0, f.1@) == spec_encode_frame(
                bytes@,
                right,
            ),
            r is Err <==> spec_node_parse(bytes@) is None,
    {
        match Node::from_bytes(bytes) {
            Ok(Node::Soft(_)) => {
                let cut: Vec<u8> = vstd::slice::slice_to_vec(
                    vstd::slice::slice_subrange(bytes, 32, bytes.len()),
                );
                proof {
                    assert(cut@ =~= bytes@.skip(32));
                }
                Ok((false, cut))
            },
            Ok(Node::Hard(_, _)) => {
                if right {
                    let mut cut: Vec<u8> = vstd::slice::slice_to_vec(
                        vstd::slice::slice_subrange(bytes, 0, bytes.len() - 33),
                    );
                    cut.push(0x01);
                    proof {
                        assert(cut@ =~= bytes@.take(bytes@.len() - 33) + seq![1u8]);
                    }
                    Ok((true, cut))
                } else {
                    let cut: Vec<u8> = vstd::slice::slice_to_vec(
                        vstd::slice::slice_subrange(bytes, 32, bytes.len()),
                    );
                    proof {
                        assert(cut@ =~= bytes@.skip(32));
                    }
                    Ok((false, cut))
                }
            },
            Err(e) => Err(e),
        }
    }
}

/// Fold a pair sequence into a tree, inserting front to back.
pub open spec fn spec_inserts<H: Hasher>(
    h: H,
    map: Map<Seq<u8>, Seq<u8>>,
    root: Option<Seq<u8>>,
    pairs: Seq<(Seq<u8>, Seq<u8>)>,
) -> Option<(Map<Seq<u8>, Seq<u8>>, Option<Seq<u8>>)>
    decreases pairs.len(),
{
    if pairs.len() == 0 {
        Some((map, root))
    } else {
        match spec_insert(h, map, root, pairs[0].0, pairs[0].1) {
            None => None,
            Some((m, r)) => spec_inserts(h, m, Some(r), pairs.skip(1)),
        }
    }
}

/// Fold a key sequence into removals, front to back.
pub open spec fn spec_removes<H: Hasher>(
    h: H,
    map: Map<Seq<u8>, Seq<u8>>,
    root: Option<Seq<u8>>,
    keys: Seq<Seq<u8>>,
) -> Option<(Map<Seq<u8>, Seq<u8>>, Option<Seq<u8>>)>
    decreases keys.len(),
{
    if keys.len() == 0 {
        Some((map, root))
    } else {
        match spec_remove(h, map, root, keys[0]) {
            None => None,
            Some((m, r)) => spec_removes(h, m, r, keys.skip(1)),
        }
    }
}

/// Appending one pair to an insert fold runs the fold, then that insert.
#[verifier::rlimit(100)]
pub proof fn lemma_spec_inserts_push<H: Hasher>(
    h: H,
    map: Map<Seq<u8>, Seq<u8>>,
    root: Option<Seq<u8>>,
    pairs: Seq<(Seq<u8>, Seq<u8>)>,
    p: (Seq<u8>, Seq<u8>),
)
    ensures
        spec_inserts(h, map, root, pairs.push(p)) == (match spec_inserts(h, map, root, pairs) {
            None => None,
            Some((m1, r1)) => match spec_insert(h, m1, r1, p.0, p.1) {
                None => None,
                Some((m2, r2)) => Some((m2, Some(r2))),
            },
        }),
    decreases pairs.len(),
{
    let whole = pairs.push(p);
    if pairs.len() == 0 {
        assert(whole[0] == p);
        assert(whole.skip(1) =~= Seq::<(Seq<u8>, Seq<u8>)>::empty());
        assert(spec_inserts(h, map, root, pairs) == Some((map, root)));
        match spec_insert(h, map, root, p.0, p.1) {
            None => {
                assert(spec_inserts(h, map, root, whole) is None);
            },
            Some((m, r)) => {
                assert(spec_inserts(h, m, Some(r), whole.skip(1)) == Some((m, Some(r))));
                assert(spec_inserts(h, map, root, whole) == Some((m, Some(r))));
            },
        }
    } else {
        assert(whole[0] == pairs[0]);
        assert(whole.skip(1) =~= pairs.skip(1).push(p));
        match spec_insert(h, map, root, pairs[0].0, pairs[0].1) {
            None => {
                assert(spec_inserts(h, map, root, whole) is None);
                assert(spec_inserts(h, map, root, pairs) is None);
            },
            Some((m, r)) => {
                lemma_spec_inserts_push(h, m, Some(r), pairs.skip(1), p);
                assert(spec_inserts(h, map, root, whole) == spec_inserts(
                    h,
                    m,
                    Some(r),
                    pairs.skip(1).push(p),
                ));
                assert(spec_inserts(h, map, root, pairs) == spec_inserts(h, m, Some(r), pairs.skip(1)));
            },
        }
    }
}

/// Appending one key to a removal fold runs the fold, then that removal.
#[verifier::rlimit(100)]
pub proof fn lemma_spec_removes_push<H: Hasher>(
    h: H,
    map: Map<Seq<u8>, Seq<u8>>,
    root: Option<Seq<u8>>,
    keys: Seq<Seq<u8>>,
    k: Seq<u8>,
)
    ensures
        spec_removes(h, map, root, keys.push(k)) == (match spec_removes(h, map, root, keys) {
            None => None,
            Some((m1, r1)) => spec_remove(h, m1, r1, k),
        }),
    decreases keys.len(),
{
    let whole = keys.push(k);
    if keys.len() == 0 {
        assert(whole[0] == k);
        assert(whole.skip(1) =~= Seq::<Seq<u8>>::empty());
        assert(spec_removes(h, map, root, keys) == Some((map, root)));
        match spec_remove(h, map, root, k) {
            None => {
                assert(spec_removes(h, map, root, whole) is None);
            },
            Some((m, r)) => {
                assert(spec_removes(h, m, r, whole.skip(1)) == Some((m, r)));
                assert(spec_removes(h, map, root, whole) == Some((m, r)));
            },
        }
    } else {
        assert(whole[0] == keys[0]);
        assert(whole.skip(1) =~= keys.skip(1).push(k));
        match spec_remove(h, map, root, keys[0]) {
            None => {
                assert(spec_removes(h, map, root, whole) is None);
                assert(spec_removes(h, map, root, keys) is None);
            },
            Some((m, r)) => {
                lemma_spec_removes_push(h, m, r, keys.skip(1), k);
                assert(spec_removes(h, map, root, whole) == spec_removes(
                    h,
                    m,
                    r,
                    keys.skip(1).push(k),
                ));
                assert(spec_removes(h, map, root, keys) == spec_removes(h, m, r, keys.skip(1)));
            },
        }
    }
}

/// A fold that succeeds on a whole pair sequence succeeds on each of
/// its prefixes.
pub proof fn lemma_spec_inserts_prefix<H: Hasher>(
    h: H,
    map: Map<Seq<u8>, Seq<u8>>,
    root: Option<Seq<u8>>,
    pairs: Seq<(Seq<u8>, Seq<u8>)>,
    j: int,
)
    requires
        0 <= j <= pairs.len(),
        spec_inserts(h, map, root, pairs) is Some,
    ensures
        spec_inserts(h, map, root, pairs.take(j)) is Some,
    decreases pairs.len(),
{
    if j == 0 {
        assert(pairs.take(0) =~= Seq::<(Seq<u8>, Seq<u8>)>::empty());
    } else {
        match spec_insert(h, map, root, pairs[0].0, pairs[0].1) {
            None => {},
            Some((m, r)) => {
                lemma_spec_inserts_prefix(h, m, Some(r), pairs.skip(1), j - 1);
                assert(pairs.take(j)[0] == pairs[0]);
                assert(pairs.take(j).skip(1) =~= pairs.skip(1).take(j - 1));
            },
        }
    }
}

/// A fold that succeeds on a whole key sequence succeeds on each of its
/// prefixes.
pub proof fn lemma_spec_removes_prefix<H: Hasher>(
    h: H,
    map: Map<Seq<u8>, Seq<u8>>,
    root: Option<Seq<u8>>,
    keys: Seq<Seq<u8>>,
    j: int,
)
    requires
        0 <= j <= keys.len(),
        spec_removes(h, map, root, keys) is Some,
    ensures
        spec_removes(h, map, root, keys.take(j)) is Some,
    decreases keys.len(),
{
    if j == 0 {
        assert(keys.take(0) =~= Seq::<Seq<u8>>::empty());
    } else {
        match spec_remove(h, map, root, keys[0]) {
            None => {},
            Some((m, r)) => {
                lemma_spec_removes_prefix(h, m, r, keys.skip(1), j - 1);
                assert(keys.take(j)[0] == keys[0]);
                assert(keys.take(j).skip(1) =~= keys.skip(1).take(j - 1));
            },
        }
    }
}

/// An index permutation of `0..keys.len()` through which the keys read
/// in ascending lexicographic order.
pub open spec fn is_sorted_index_perm(idx: Seq<int>, keys: Seq<crate::Hash>) -> bool {
    &&& idx.len() == keys.len()
    &&& forall|i: int| 0 <= i < idx.len() ==> 0 <= #[trigger] idx[i] < keys.len()
    &&& forall|i: int, j: int| 0 <= i < j < idx.len() ==> idx[i] != idx[j]
    &&& forall|i: int, j: int|
        0 <= i <= j < idx.len() ==> crate::utils::lex_le(keys[idx[i]]@, keys[idx[j]]@)
}

/// The key-leaf pairs read through an index order.
pub open spec fn pairs_through(keys: Seq<crate::Hash>, leaves: Seq<crate::Hash>, idx: Seq<int>)
    -> Seq<(Seq<u8>, Seq<u8>)> {
    Seq::new(idx.len(), |i: int| (keys[idx[i]]@, leaves[idx[i]]@))
}

/// The keys read through an index order.
pub open spec fn keys_through(keys: Seq<crate::Hash>, idx: Seq<int>) -> Seq<Seq<u8>> {
    Seq::new(idx.len(), |i: int| keys[idx[i]]@)
}

/// Verify a Merkle proof against a root and leaf with only the hasher in
/// hand: fold the frames leaf-to-root and compare the result with the
/// claimed root. A missing proof verifies as false.
pub fn verify_proof<H: Hasher>(
    hasher: &H,
    root: Option<&crate::Hash>,
    leaf: &crate::Hash,
    pf: Option<&crate::Proof>,
) -> (r: bool)
    requires
        pf is Some ==> root is Some,
    ensures
        r == (pf matches Some(p) && root matches Some(rt) && spec_fold_proof(
            *hasher,
            leaf@,
            proof_view(p@),
        ) == rt@),
{
    match pf {
        None => false,
        Some(p) => {
            let mut hash: crate::Hash = *leaf;
            let mut idx: usize = p.len();
            proof {
                assert(proof_view(p@).skip(idx as int) =~= Seq::<(bool, Seq<u8>)>::empty());
            }
            while idx > 0
                invariant
                    idx <= p@.len(),
                    hash@ == spec_fold_proof(*hasher, leaf@, proof_view(p@).skip(idx as int)),
                decreases idx,
            {
                idx = idx - 1;
                let right: bool = p[idx].0;
                let cut: &Vec<u8> = &p[idx].1;
                let l: usize = cut.len();
                let m: usize = if l > 0 {
                    l - 1
                } else {
                    0
                };
                let mut o: Vec<u8> = Vec::new();
                if right {
                    o.extend_from_slice(vstd::slice::slice_subrange(cut.as_slice(), 0, m));
                    o.extend_from_slice(hash.as_slice());
                    o.extend_from_slice(vstd::slice::slice_subrange(cut.as_slice(), m, l));
                } else {
                    o.extend_from_slice(hash.as_slice());
                    o.extend_from_slice(cut.as_slice());
                }
                let ghost frames = proof_view(p@);
                proof {
                    assert(frames.skip(idx as int)[0] == (p@[idx as int].0, p@[idx as int].1@));
                    assert(frames.skip(idx as int).skip(1) =~= frames.skip(idx + 1));
                    if right {
                        assert(o@ =~= cut@.take(m as int) + hash@ + cut@.skip(m as int));
                    } else {
                        assert(o@ =~= hash@ + cut@);
                    }
                }
                hash = hasher.digest(o.as_slice());
            }
            proof {
                assert(proof_view(p@).skip(0) =~= proof_view(p@));
            }
            match root {
                Some(rt) => crate::utils::hash_eq(&hash, rt),
                None => false,
            }
        },
    }
}

/// The view of a proof: each frame's flag and cut bytes.
pub open spec fn proof_view(p: Seq<(bool, Vec<u8>)>) -> Seq<(bool, Seq<u8>)> {
    Seq::new(p.len(), |i: int| (p[i].0, p[i].1@))
}

/// The frame a node contributes to a proof: its serialized bytes with
/// the pursued child's digest excised. Soft nodes and left descents cut
/// the leading digest; right descents cut the trailing digest but keep
/// the tag byte.
pub open spec fn spec_encode_frame(bytes: Seq<u8>, right: bool) -> (bool, Seq<u8>) {
    match spec_node_parse(bytes) {
        Some(SpecNode::Soft(_)) => (false, bytes.skip(32)),
        Some(SpecNode::Hard(_, _)) => if right {
            (true, bytes.take(bytes.len() - 33) + seq![1u8])
        } else {
            (false, bytes.skip(32))
        },
        None => (false, Seq::empty()),
    }
}

/// Generate the proof frames for the remaining key path below `root`:
/// one frame per traversed node, root first. `Some(None)` is an absent
/// key (no proof); `None` is a corrupt state.
#[verifier::opaque]
pub open spec fn spec_gen_proof(map: Map<Seq<u8>, Seq<u8>>, root: Seq<u8>, kbits: Seq<bool>)
    -> Option<Option<Seq<(bool, Seq<u8>)>>>
    decreases kbits.len(),
    via spec_gen_proof_dec
{
    if !map.contains_key(root) || kbits.len() == 0 {
        None
    } else {
        match spec_cells(map[root], kbits[0]) {
            None => None,
            Some((u, sib)) => {
                let n = lcp_len(u.bits, kbits);
                if n == kbits.len() {
                    Some(Some(seq![spec_encode_frame(map[root], kbits[0])]))
                } else if n == u.bits.len() {
                    if n == 0 {
                        None
                    } else {
                        match spec_gen_proof(map, u.hash, kbits.skip(n as int)) {
                            None => None,
                            Some(None) => Some(None),
                            Some(Some(rest)) => Some(
                                Some(seq![spec_encode_frame(map[root], kbits[0])] + rest),
                            ),
                        }
                    }
                } else {
                    Some(None)
                }
            },
        }
    }
}

#[via_fn]
proof fn spec_gen_proof_dec(map: Map<Seq<u8>, Seq<u8>>, root: Seq<u8>, kbits: Seq<bool>) {
    if map.contains_key(root) && kbits.len() > 0 {
        let c = spec_cells(map[root], kbits[0]);
        if c is Some {
            lemma_lcp_bound(c->Some_0.0.bits, kbits);
        }
    }
}

/// A whole-key proof from an optional root; an empty tree proves
/// nothing.
pub open spec fn spec_merkle_proof(map: Map<Seq<u8>, Seq<u8>>, root: Option<Seq<u8>>, key: Seq<u8>)
    -> Option<Option<Seq<(bool, Seq<u8>)>>> {
    match root {
        None => Some(None),
        Some(rt) => spec_gen_proof(map, rt, key_bits(key)),
    }
}

/// The digest a verifier reconstructs from a leaf and proof frames,
/// folding the frames leaf-to-root: each frame re-inserts the running
/// digest into its cut and hashes the result.
pub open spec fn spec_fold_proof<H: Hasher>(h: H, leaf: Seq<u8>, frames: Seq<(bool, Seq<u8>)>)
    -> Seq<u8>
    decreases frames.len(),
{
    if frames.len() == 0 {
        leaf
    } else {
        let first = frames[0];
        let sub = spec_fold_proof(h, leaf, frames.skip(1));
        let c = first.1;
        let m = if c.len() > 0 {
            c.len() - 1
        } else {
            0
        };
        if first.0 {
            h.digest_spec(c.take(m as int) + sub + c.skip(m as int))
        } else {
            h.digest_spec(sub + c)
        }
    }
}

impl<H: Hasher> Monotree<crate::database::MemoryDB, H> {
    /// A tree over the in-memory backend always owes success: every
    /// conditioned success clause of the engine applies to it.
    pub proof fn lemma_memory_backend_reliable(&self)
        ensures
            self.db_reliable(),
    {
    }
}

impl Default for Monotree<crate::database::MemoryDB, crate::hasher::Blake3> {
    /// A tree over a fresh, empty in-memory backend, hashed with blake3.
    fn default() -> (r: Self)
        ensures
            r.hasher_view() == crate::hasher::Blake3,
            r.db_view() == crate::database::no_entries(),
            r.db_reliable(),
    {
        Monotree {
            db: <crate::database::MemoryDB as Database>::new("monotree"),
            hasher: crate::hasher::Blake3,
        }
    }
}

/// The view of an optional owned root digest.
pub open spec fn opt_val(o: Option<crate::Hash>) -> Option<Seq<u8>> {
    match o {
        Some(h) => Some(h@),
        None => None,
    }
}

/// The reserved banner key the latest root is published under.
pub open spec fn spec_root_key() -> Seq<u8> {
    seq![
        95u8, 95u8, 95u8, 95u8, 95u8, 95u8, 95u8, 109u8, 111u8, 110u8, 111u8, 116u8, 114u8, 101u8,
        101u8, 58u8, 58u8, 104u8, 101u8, 97u8, 100u8, 114u8, 111u8, 111u8, 116u8, 95u8, 95u8, 95u8,
        95u8, 95u8, 95u8, 95u8,
    ]
}

/// The reserved key under which the latest root is stored: the banner
/// string `_______monotree::headroot_______`.
pub fn root_key() -> (r: crate::Hash)
    ensures
        r@ == spec_root_key(),
{
    let mut k: crate::Hash = [95u8; 32];
    k[7] = 109u8;
    k[8] = 111u8;
    k[9] = 110u8;
    k[10] = 111u8;
    k[11] = 116u8;
    k[12] = 114u8;
    k[13] = 101u8;
    k[14] = 101u8;
    k[15] = 58u8;
    k[16] = 58u8;
    k[17] = 104u8;
    k[18] = 101u8;
    k[19] = 97u8;
    k[20] = 100u8;
    k[21] = 114u8;
    k[22] = 111u8;
    k[23] = 111u8;
    k[24] = 116u8;
    proof {
        assert(k@ =~= spec_root_key());
    }
    k
}

} // verus!
