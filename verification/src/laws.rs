//! The laws of the engine, stated and proved over its ghost model:
//! batch inserts reach the same root from any enumeration of the same
//! pairs; an inserted key reads back as its leaf while every other key
//! reads what it read before; a removed key reads back absent; folding
//! distinct pairs into the empty tree, each folded key reads its leaf,
//! an absent key reads nothing and has no proof, and every generated
//! proof folds from its leaf back to the root; a fold of inserts from a
//! readable state never fails; and removing a tree's sole key returns
//! it to the empty root.
//!
//! The laws that depend on digests not colliding say so: they take a
//! collision-free (`digest_injective`) and digest-wide hasher, the
//! idealization a cryptographic hash function is chosen for, and a
//! content-addressed state, which the engine's write primitive
//! maintains.
use vstd::prelude::*;

verus! {

use crate::HASH_LEN;
use crate::hasher::Hasher;
use crate::node::SpecNode;
use crate::node::SpecUnit;
use crate::node::lemma_node_roundtrip;
use crate::node::lemma_parse_wf;
use crate::node::spec_unit_wf;
use crate::node::spec_cells;
use crate::node::spec_node_parse;
use crate::node::spec_node_wf;
use crate::node::spec_parse_cell_fwd;
use crate::tree::SpecDelete;
use crate::tree::key_bits;
use crate::tree::lemma_lcp_char;
use crate::tree::spec_del;
use crate::tree::spec_insert;
use crate::tree::spec_inserts;
use crate::tree::spec_put_node;
use crate::tree::spec_remove;
use crate::tree::lcp_len;
use crate::tree::spec_encode_frame;
use crate::tree::spec_find;
use crate::tree::spec_fold_proof;
use crate::tree::spec_gen_proof;
use crate::utils::lemma_lex_antisym;
use crate::utils::lex_le;

/// A pair sequence in ascending key order.
pub open spec fn sorted_by_key(p: Seq<(Seq<u8>, Seq<u8>)>) -> bool {
    forall|i: int, j: int| 0 <= i <= j < p.len() ==> lex_le(#[trigger] p[i].0, #[trigger] p[j].0)
}

/// A pair sequence whose keys are all distinct and digest-wide.
pub open spec fn distinct_keys(p: Seq<(Seq<u8>, Seq<u8>)>) -> bool {
    &&& forall|i: int, j: int| 0 <= i < j < p.len() ==> p[i].0 != p[j].0
    &&& forall|i: int| 0 <= i < p.len() ==> (#[trigger] p[i].0).len() == HASH_LEN
}

/// Two sorted enumerations of the same pair multiset, with distinct
/// keys, are the same sequence.
pub proof fn lemma_sorted_pairs_unique(p1: Seq<(Seq<u8>, Seq<u8>)>, p2: Seq<(Seq<u8>, Seq<u8>)>)
    requires
        sorted_by_key(p1),
        sorted_by_key(p2),
        distinct_keys(p1),
        distinct_keys(p2),
        p1.to_multiset() == p2.to_multiset(),
    ensures
        p1 == p2,
    decreases p1.len(),
{
    broadcast use vstd::seq_lib::group_to_multiset_ensures;

    p1.to_multiset_ensures();
    p2.to_multiset_ensures();
    assert(p1.len() == p2.len());
    if p1.len() == 0 {
        assert(p1 =~= p2);
    } else {
        // the head of each sequence sits somewhere in the other
        assert(p2.to_multiset().contains(p1[0]));
        assert(p2.contains(p1[0]));
        let j = choose|j: int| 0 <= j < p2.len() && p2[j] == p1[0];
        assert(p1.to_multiset().contains(p2[0]));
        assert(p1.contains(p2[0]));
        let i = choose|i: int| 0 <= i < p1.len() && p1[i] == p2[0];
        // both heads carry the least key, so the keys agree
        assert(lex_le(p2[0].0, p1[0].0));
        assert(lex_le(p1[0].0, p2[0].0));
        lemma_lex_antisym(p1[0].0, p2[0].0);
        // distinct keys force the heads onto the same slot
        assert(j == 0) by {
            if j != 0 {
                assert(p2[0].0 != p2[j].0);
            }
        }
        assert(p1[0] == p2[0]);
        let t1 = p1.drop_first();
        let t2 = p2.drop_first();
        assert(p1.remove(0) =~= t1);
        assert(p2.remove(0) =~= t2);
        assert(t1.to_multiset() == p1.to_multiset().remove(p1[0]));
        assert(t2.to_multiset() == p2.to_multiset().remove(p2[0]));
        assert(t1.to_multiset() =~= t2.to_multiset());
        assert(sorted_by_key(t1)) by {
            assert(forall|a: int, b: int|
                0 <= a <= b < t1.len() ==> lex_le(#[trigger] t1[a].0, #[trigger] t1[b].0));
        }
        assert(sorted_by_key(t2)) by {
            assert(forall|a: int, b: int|
                0 <= a <= b < t2.len() ==> lex_le(#[trigger] t2[a].0, #[trigger] t2[b].0));
        }
        assert(distinct_keys(t1)) by {
            assert(forall|a: int| 0 <= a < t1.len() ==> (#[trigger] t1[a].0).len() == HASH_LEN);
        }
        assert(distinct_keys(t2)) by {
            assert(forall|a: int| 0 <= a < t2.len() ==> (#[trigger] t2[a].0).len() == HASH_LEN);
        }
        lemma_sorted_pairs_unique(t1, t2);
        assert forall|k: int| 0 <= k < p1.len() implies p1[k] == p2[k] by {
            if k > 0 {
                assert(p1[k] == t1[k - 1]);
                assert(p2[k] == t2[k - 1]);
            }
        }
        assert(p1 =~= p2);
    }
}

/// Batch inserts are order-independent: folding any two sorted
/// enumerations of the same key-leaf multiset, with distinct keys, from
/// the same state yields the same map and the same root digest.
pub proof fn lemma_inserts_order_independent<H: Hasher>(
    h: H,
    map: Map<Seq<u8>, Seq<u8>>,
    root: Option<Seq<u8>>,
    p1: Seq<(Seq<u8>, Seq<u8>)>,
    p2: Seq<(Seq<u8>, Seq<u8>)>,
)
    requires
        sorted_by_key(p1),
        sorted_by_key(p2),
        distinct_keys(p1),
        distinct_keys(p2),
        p1.to_multiset() == p2.to_multiset(),
    ensures
        spec_inserts(h, map, root, p1) == spec_inserts(h, map, root, p2),
{
    lemma_sorted_pairs_unique(p1, p2);
}

/// Removing the sole key of a one-key tree returns the empty root:
/// insert into the empty tree, then remove that key, and the root is
/// gone while the map keeps only the orphaned node.
pub proof fn lemma_remove_sole_key<H: Hasher>(
    h: H,
    map: Map<Seq<u8>, Seq<u8>>,
    key: Seq<u8>,
    leaf: Seq<u8>,
)
    requires
        key.len() == HASH_LEN,
        leaf.len() == HASH_LEN,
    ensures
        ({
            let ins = spec_insert(h, map, None, key, leaf);
            &&& ins is Some
            &&& spec_remove(h, ins->Some_0.0, Some(ins->Some_0.1), key) == Some(
                (ins->Some_0.0, None::<Seq<u8>>),
            )
        }),
{
    reveal(crate::tree::spec_del);
    let u = SpecUnit { hash: leaf, start: 0, bits: key_bits(key) };
    let node = SpecNode::Soft(u);
    assert(spec_node_wf(node));
    lemma_node_roundtrip(node);
    let p = spec_put_node(h, map, node);
    let m = p.0;
    let d = p.1;
    assert(m[d] == crate::node::spec_node_ser(node));
    assert(crate::node::spec_node_parse(m[d]) == Some(node));
    let kb = key_bits(key);
    assert(kb.len() == 256);
    lemma_lcp_char(u.bits, kb, 256);
    assert(spec_del(h, m, d, kb) == Some(SpecDelete::Empty));
}

/// Proof generation mirrors lookup outcome for outcome: a proof comes
/// out exactly when the key is present, no proof exactly when it is
/// absent, and an error exactly when the state is corrupt. The absence
/// of a proof is therefore a non-inclusion witness.
pub proof fn lemma_proof_exists_iff_found(map: Map<Seq<u8>, Seq<u8>>, root: Seq<u8>, kbits: Seq<
    bool,
>)
    ensures
        spec_find(map, root, kbits) is Found <==> (spec_gen_proof(map, root, kbits) matches Some(o)
            && o is Some),
        spec_find(map, root, kbits) is Missing <==> spec_gen_proof(map, root, kbits) == Some(
            None::<Seq<(bool, Seq<u8>)>>,
        ),
        spec_find(map, root, kbits) is Corrupt <==> spec_gen_proof(map, root, kbits) is None,
    decreases kbits.len(),
{
    reveal(crate::tree::spec_gen_proof);
    reveal(crate::tree::spec_find);
    if map.contains_key(root) && kbits.len() > 0 {
        let cells = spec_cells(map[root], kbits[0]);
        if cells is Some {
            let u = cells->Some_0.0;
            let n = lcp_len(u.bits, kbits);
            if n != kbits.len() && n == u.bits.len() && n != 0 {
                crate::tree::lemma_lcp_bound(u.bits, kbits);
                lemma_proof_exists_iff_found(map, u.hash, kbits.skip(n as int));
            }
        }
    }
}

/// One descent step at a freshly written node: writing `top` and then
/// descending by the key's current bit meets `top`'s pursued child.
#[verifier::rlimit(100)]
#[verifier::spinoff_prover]
proof fn lemma_find_at_new_node<H: Hasher>(
    h: H,
    m: Map<Seq<u8>, Seq<u8>>,
    top: SpecNode,
    pu: SpecUnit,
    kbits: Seq<bool>,
)
    requires
        spec_node_wf(top),
        kbits.len() > 0,
        match top {
            SpecNode::Soft(a) => pu == a,
            SpecNode::Hard(a, b) => if kbits[0] == a.bits[0] {
                pu == a
            } else {
                pu == b
            },
        },
    ensures
        ({
            let out = spec_put_node(h, m, top);
            let n = lcp_len(pu.bits, kbits);
            &&& out.0.contains_key(out.1)
            &&& (n == kbits.len() ==> spec_find(out.0, out.1, kbits)
                == crate::tree::SpecLookup::Found(pu.hash))
            &&& (n != kbits.len() && n == pu.bits.len() ==> spec_find(out.0, out.1, kbits)
                == spec_find(out.0, pu.hash, kbits.skip(n as int)))
            &&& (n != kbits.len() && n != pu.bits.len() ==> spec_find(out.0, out.1, kbits)
                is Missing)
        }),
{
    reveal(crate::tree::spec_find);
    let out = spec_put_node(h, m, top);
    let bytes = crate::node::spec_node_ser(top);
    lemma_node_roundtrip(top);
    assert(out.0[out.1] == bytes);
    assert(spec_node_parse(bytes) == Some(crate::node::spec_node_normal(top)));
    assert(spec_cells(bytes, kbits[0])->Some_0.0 == pu) by {
        match top {
            SpecNode::Soft(a) => {},
            SpecNode::Hard(a, b) => {
                assert(a.bits[0] != b.bits[0]);
            },
        }
    }
    let n = lcp_len(pu.bits, kbits);
    assert(pu.bits.len() > 0);
}

/// A common prefix survives dropping `n` agreed bits from both strings.
proof fn lemma_lcp_skip(a: Seq<bool>, b: Seq<bool>, n: int)
    requires
        0 <= n <= lcp_len(a, b),
    ensures
        lcp_len(a.skip(n), b.skip(n)) == lcp_len(a, b) - n,
{
    crate::tree::lemma_lcp_bound(a, b);
    lemma_lcp_props(a, b);
    let m = lcp_len(a, b) - n;
    assert forall|k: int| 0 <= k < m implies a.skip(n)[k] == b.skip(n)[k] by {
        assert(a[n + k] == b[n + k]);
    }
    if m < a.skip(n).len() && m < b.skip(n).len() {
        assert(a.skip(n)[m] == a[lcp_len(a, b) as int]);
        assert(b.skip(n)[m] == b[lcp_len(a, b) as int]);
    }
    lemma_lcp_char(a.skip(n), b.skip(n), m);
}

/// Cutting the first string at `n` caps the common prefix at `n`.
proof fn lemma_lcp_take(a: Seq<bool>, b: Seq<bool>, n: int)
    requires
        0 <= n <= a.len(),
    ensures
        lcp_len(a.take(n), b) == if n <= lcp_len(a, b) {
            n
        } else {
            lcp_len(a, b) as int
        },
{
    crate::tree::lemma_lcp_bound(a, b);
    lemma_lcp_props(a, b);
    let l = lcp_len(a, b) as int;
    if n <= l {
        assert forall|k: int| 0 <= k < n implies a.take(n)[k] == b[k] by {
            assert(a[k] == b[k]);
        }
        lemma_lcp_char(a.take(n), b, n);
    } else {
        assert forall|k: int| 0 <= k < l implies a.take(n)[k] == b[k] by {
            assert(a[k] == b[k]);
        }
        assert(l < a.len() && l < b.len() ==> a.take(n)[l] != b[l]);
        lemma_lcp_char(a.take(n), b, l);
    }
}

/// Distinct fixed-width keys have distinct bit paths.
pub proof fn lemma_key_bits_injective(k1: Seq<u8>, k2: Seq<u8>)
    requires
        k1.len() == HASH_LEN,
        k2.len() == HASH_LEN,
        k1 != k2,
    ensures
        key_bits(k1) != key_bits(k2),
{
    if key_bits(k1) == key_bits(k2) {
        assert forall|j: int| 0 <= j < 32 implies k1[j] == k2[j] by {
            assert(((k1[j] >> 7u8) & 1 == 1) <==> ((k2[j] >> 7u8) & 1 == 1)) by {
                assert(key_bits(k1)[8 * j + 0] == key_bits(k2)[8 * j + 0]);
                assert((8 * j + 0) / 8 == j && (8 * j + 0) % 8 == 0);
            }
            assert(((k1[j] >> 6u8) & 1 == 1) <==> ((k2[j] >> 6u8) & 1 == 1)) by {
                assert(key_bits(k1)[8 * j + 1] == key_bits(k2)[8 * j + 1]);
                assert((8 * j + 1) / 8 == j && (8 * j + 1) % 8 == 1);
            }
            assert(((k1[j] >> 5u8) & 1 == 1) <==> ((k2[j] >> 5u8) & 1 == 1)) by {
                assert(key_bits(k1)[8 * j + 2] == key_bits(k2)[8 * j + 2]);
                assert((8 * j + 2) / 8 == j && (8 * j + 2) % 8 == 2);
            }
            assert(((k1[j] >> 4u8) & 1 == 1) <==> ((k2[j] >> 4u8) & 1 == 1)) by {
                assert(key_bits(k1)[8 * j + 3] == key_bits(k2)[8 * j + 3]);
                assert((8 * j + 3) / 8 == j && (8 * j + 3) % 8 == 3);
            }
            assert(((k1[j] >> 3u8) & 1 == 1) <==> ((k2[j] >> 3u8) & 1 == 1)) by {
                assert(key_bits(k1)[8 * j + 4] == key_bits(k2)[8 * j + 4]);
                assert((8 * j + 4) / 8 == j && (8 * j + 4) % 8 == 4);
            }
            assert(((k1[j] >> 2u8) & 1 == 1) <==> ((k2[j] >> 2u8) & 1 == 1)) by {
                assert(key_bits(k1)[8 * j + 5] == key_bits(k2)[8 * j + 5]);
                assert((8 * j + 5) / 8 == j && (8 * j + 5) % 8 == 5);
            }
            assert(((k1[j] >> 1u8) & 1 == 1) <==> ((k2[j] >> 1u8) & 1 == 1)) by {
                assert(key_bits(k1)[8 * j + 6] == key_bits(k2)[8 * j + 6]);
                assert((8 * j + 6) / 8 == j && (8 * j + 6) % 8 == 6);
            }
            assert(((k1[j] >> 0u8) & 1 == 1) <==> ((k2[j] >> 0u8) & 1 == 1)) by {
                assert(key_bits(k1)[8 * j + 7] == key_bits(k2)[8 * j + 7]);
                assert((8 * j + 7) / 8 == j && (8 * j + 7) % 8 == 7);
            }
            crate::bits::lemma_byte_ext(k1[j], k2[j]);
        }
        assert(k1 =~= k2);
    }
}

/// Every write an insert makes is a content-addressed entry, so an
/// insert leaves every descent that was readable before it unchanged.
proof fn lemma_put_map_stable<H: Hasher>(
    h: H,
    map: Map<Seq<u8>, Seq<u8>>,
    root: Seq<u8>,
    kstart: int,
    kbits: Seq<bool>,
    leaf: Seq<u8>,
    x: Seq<u8>,
    bb: Seq<bool>,
)
    requires
        digest_injective(h),
        content_addressed(h, map),
        crate::tree::spec_put(h, map, root, kstart, kbits, leaf) is Some,
        !(spec_find(map, x, bb) is Corrupt),
    ensures
        ({
            let out = crate::tree::spec_put(h, map, root, kstart, kbits, leaf)->Some_0;
            &&& content_addressed(h, out.0)
            &&& spec_find(out.0, x, bb) == spec_find(map, x, bb)
        }),
    decreases kbits.len(),
{
    reveal(crate::tree::spec_put);
    let cells = spec_cells(map[root], kbits[0]);
    let u = cells->Some_0.0;
    let sib = cells->Some_0.1;
    let n = lcp_len(u.bits, kbits);
    crate::tree::lemma_lcp_bound(u.bits, kbits);
    if n == 0 {
        let top = SpecNode::Hard(u, SpecUnit { hash: leaf, start: kstart, bits: kbits });
        lemma_ca_put_node(h, map, top);
        lemma_find_insert_stable(h, map, crate::node::spec_node_ser(top), x, bb);
    } else if n == kbits.len() {
        let top = crate::tree::spec_node_of(SpecUnit { hash: leaf, start: kstart, bits: kbits }, sib);
        lemma_ca_put_node(h, map, top);
        lemma_find_insert_stable(h, map, crate::node::spec_node_ser(top), x, bb);
    } else if n == u.bits.len() {
        let sub = crate::tree::spec_put(h, map, u.hash, (kstart + n) % 8, kbits.skip(n as int), leaf);
        lemma_put_map_stable(h, map, u.hash, (kstart + n) % 8, kbits.skip(n as int), leaf, x, bb);
        let m1 = sub->Some_0.0;
        let top = crate::tree::spec_node_of(
            SpecUnit { hash: sub->Some_0.1, start: u.start, bits: u.bits },
            sib,
        );
        lemma_ca_put_node(h, m1, top);
        lemma_find_insert_stable(h, m1, crate::node::spec_node_ser(top), x, bb);
    } else {
        let inner = SpecNode::Hard(
            SpecUnit { hash: u.hash, start: (u.start + n) % 8, bits: u.bits.skip(n as int) },
            SpecUnit { hash: leaf, start: (kstart + n) % 8, bits: kbits.skip(n as int) },
        );
        lemma_ca_put_node(h, map, inner);
        lemma_find_insert_stable(h, map, crate::node::spec_node_ser(inner), x, bb);
        let pin = spec_put_node(h, map, inner);
        let top = crate::tree::spec_node_of(
            SpecUnit { hash: pin.1, start: u.start, bits: u.bits.take(n as int) },
            sib,
        );
        lemma_ca_put_node(h, pin.0, top);
        lemma_find_insert_stable(h, pin.0, crate::node::spec_node_ser(top), x, bb);
    }
}

/// One unfold of a lookup at a node already in the map, kept out of the
/// callers so the parser is only opened where its bytes are raw.
proof fn lemma_find_step(m: Map<Seq<u8>, Seq<u8>>, root: Seq<u8>, kb: Seq<bool>)
    requires
        m.contains_key(root),
        kb.len() > 0,
    ensures
        spec_find(m, root, kb) == (match spec_cells(m[root], kb[0]) {
            None => crate::tree::SpecLookup::Corrupt,
            Some((u, sib)) => {
                let n = lcp_len(u.bits, kb);
                if n == kb.len() {
                    crate::tree::SpecLookup::Found(u.hash)
                } else if n == u.bits.len() {
                    if n == 0 {
                        crate::tree::SpecLookup::Corrupt
                    } else {
                        spec_find(m, u.hash, kb.skip(n as int))
                    }
                } else {
                    crate::tree::SpecLookup::Missing
                }
            },
        }),
{
    reveal(crate::tree::spec_find);
}

/// Insert leaves all other paths untouched: after inserting one key,
/// looking any other same-width key up from the new root reads exactly
/// what it read from the old root. Holds for any collision-free,
/// digest-wide hasher over a content-addressed state.
#[verifier::rlimit(100)]
#[verifier::spinoff_prover]
pub proof fn lemma_put_preserves_other<H: Hasher>(
    h: H,
    map: Map<Seq<u8>, Seq<u8>>,
    root: Seq<u8>,
    kstart: int,
    kbits: Seq<bool>,
    leaf: Seq<u8>,
    k2: Seq<bool>,
)
    requires
        digest_injective(h),
        digest_wide(h),
        content_addressed(h, map),
        crate::tree::spec_put(h, map, root, kstart, kbits, leaf) is Some,
        leaf.len() == HASH_LEN,
        0 <= kstart < 8,
        kbits.len() > 0,
        kstart + kbits.len() <= 0xffff,
        k2.len() == kbits.len(),
        k2 != kbits,
        !(spec_find(map, root, k2) is Corrupt),
    ensures
        ({
            let out = crate::tree::spec_put(h, map, root, kstart, kbits, leaf)->Some_0;
            spec_find(out.0, out.1, k2) == spec_find(map, root, k2)
        }),
    decreases kbits.len(), 2int,
{
    reveal(crate::tree::spec_put);
    reveal(crate::tree::spec_find);
    let bytes = map[root];
    lemma_parse_wf(bytes);
    let cells = spec_cells(bytes, kbits[0]);
    let u = cells->Some_0.0;
    let sib = cells->Some_0.1;
    let n = lcp_len(u.bits, kbits);
    let n2 = lcp_len(u.bits, k2);
    lemma_lcp_props(u.bits, kbits);
    lemma_lcp_props(u.bits, k2);
    lemma_lcp_props(kbits, k2);
    crate::tree::lemma_lcp_bound(u.bits, kbits);
    crate::tree::lemma_lcp_bound(u.bits, k2);
    crate::tree::lemma_lcp_bound(kbits, k2);
    let newunit = SpecUnit { hash: leaf, start: kstart, bits: kbits };
    assert(spec_unit_wf(newunit) && spec_unit_wf(u));
    assert(sib matches Some(s) ==> spec_unit_wf(s) && s.bits[0] != kbits[0]);
    assert(n >= 1 ==> u.bits[0] == kbits[0]);
    let same_dir = k2[0] == kbits[0];
    // what the old lookup pursued: the same unit when the directions
    // agree or the node is Soft, the sibling otherwise
    let cells2 = spec_cells(bytes, k2[0]);
    assert(cells2 is Some);
    let p2 = cells2->Some_0.0;
    assert(same_dir ==> p2 == u && cells2->Some_0.1 == sib);
    if n == 0 {
        // set-aside: the old node is a Soft, since a Hard's pursued
        // child always shares the key's first bit
        assert(sib is None);
        assert(p2 == u);
        assert(u.bits[0] != kbits[0]);
        let top = SpecNode::Hard(u, newunit);
        assert(spec_node_wf(top));
        lemma_ca_put_node(h, map, top);
        let out = spec_put_node(h, map, top);
        if same_dir {
            // the old lookup missed at once; the new one still does
            lemma_find_at_new_node(h, map, top, newunit, k2);
            assert(lcp_len(u.bits, k2) == 0);
            let m2 = lcp_len(kbits, k2);
            assert(m2 < k2.len() && m2 < kbits.len()) by {
                if m2 == k2.len() {
                    assert(kbits =~= k2);
                }
            }
            assert(spec_find(map, root, k2) is Missing);
            assert(spec_find(out.0, out.1, k2) is Missing);
        } else {
            // the old pursued unit is still the pursued unit
            lemma_find_at_new_node(h, map, top, u, k2);
            if n2 == k2.len() {
            } else if n2 == u.bits.len() {
                lemma_find_insert_stable(
                    h,
                    map,
                    crate::node::spec_node_ser(top),
                    u.hash,
                    k2.skip(n2 as int),
                );
            } else {
            }
        }
    } else if n == kbits.len() {
        // replacement: the new leaf takes the pursued slot; any other
        // key either misses on the fresh path or follows the sibling
        let top = crate::tree::spec_node_of(newunit, sib);
        assert(spec_node_wf(top));
        lemma_ca_put_node(h, map, top);
        let out = spec_put_node(h, map, top);
        if same_dir {
            lemma_find_at_new_node(h, map, top, newunit, k2);
            let m2 = lcp_len(kbits, k2);
            assert(m2 < k2.len() && m2 < kbits.len()) by {
                if m2 == k2.len() {
                    assert(kbits =~= k2);
                }
            }
            assert(spec_find(out.0, out.1, k2) is Missing);
            // the old lookup missed as well: the pursued path carries
            // the whole key, and the other key diverges inside it
            assert(n2 == m2) by {
                assert(forall|t: int| 0 <= t < n ==> u.bits[t] == kbits[t]);
                lemma_lcp_char(u.bits, k2, m2 as int);
            }
            assert(spec_find(map, root, k2) is Missing);
        } else {
            match sib {
                None => {
                    // old: a Soft whose path starts with the other bit
                    assert(p2 == u);
                    assert(n2 == 0);
                    assert(spec_find(map, root, k2) is Missing);
                    lemma_find_at_new_node(h, map, top, newunit, k2);
                    let m2 = lcp_len(kbits, k2);
                    assert(m2 == 0);
                    assert(spec_find(out.0, out.1, k2) is Missing);
                },
                Some(s) => {
                    assert(p2 == s);
                    lemma_find_at_new_node(h, map, top, s, k2);
                    let ns = lcp_len(s.bits, k2);
                    if ns == k2.len() {
                    } else if ns == s.bits.len() {
                        lemma_find_insert_stable(
                            h,
                            map,
                            crate::node::spec_node_ser(top),
                            s.hash,
                            k2.skip(ns as int),
                        );
                    } else {
                    }
                },
            }
        }
    } else if n == u.bits.len() {
        lemma_ppo_consume(h, map, root, kstart, kbits, leaf, k2);
    } else {
        lemma_ppo_split(h, map, root, kstart, kbits, leaf, k2);
    }
}

/// The consume-and-descend case of `lemma_put_preserves_other`.
#[verifier::rlimit(100)]
#[verifier::spinoff_prover]
proof fn lemma_ppo_consume<H: Hasher>(
    h: H,
    map: Map<Seq<u8>, Seq<u8>>,
    root: Seq<u8>,
    kstart: int,
    kbits: Seq<bool>,
    leaf: Seq<u8>,
    k2: Seq<bool>,
)
    requires
        digest_injective(h),
        digest_wide(h),
        content_addressed(h, map),
        crate::tree::spec_put(h, map, root, kstart, kbits, leaf) is Some,
        leaf.len() == HASH_LEN,
        0 <= kstart < 8,
        kbits.len() > 0,
        kstart + kbits.len() <= 0xffff,
        k2.len() == kbits.len(),
        k2 != kbits,
        !(spec_find(map, root, k2) is Corrupt),
        ({
            let bytes = map[root];
            let u = spec_cells(bytes, kbits[0])->Some_0.0;
            let n = lcp_len(u.bits, kbits);
            n != 0 && n != kbits.len() && n == u.bits.len()
        }),
    ensures
        ({
            let out = crate::tree::spec_put(h, map, root, kstart, kbits, leaf)->Some_0;
            spec_find(out.0, out.1, k2) == spec_find(map, root, k2)
        }),
    decreases kbits.len(), 1int,
{
    reveal(crate::tree::spec_put);
    let bytes = map[root];
    let u = spec_cells(bytes, kbits[0])->Some_0.0;
    let sib = spec_cells(bytes, kbits[0])->Some_0.1;
    let n = lcp_len(u.bits, kbits);
    let sub = crate::tree::spec_put(h, map, u.hash, (kstart + n) % 8, kbits.skip(n as int), leaf);
    assert(sub is Some);
    let m1 = sub->Some_0.0;
    let h1 = sub->Some_0.1;
    let top = crate::tree::spec_node_of(SpecUnit { hash: h1, start: u.start, bits: u.bits }, sib);
    assert(crate::tree::spec_put(h, map, root, kstart, kbits, leaf) == Some(
        spec_put_node(h, m1, top),
    ));
    assert(h1.len() == HASH_LEN);
    if k2[0] == kbits[0] {
        lemma_ppo_consume_same(h, map, root, kstart, kbits, leaf, k2, m1, h1);
    } else {
        lemma_ppo_consume_other(h, map, root, kstart, kbits, leaf, k2);
    }
}

#[verifier::rlimit(100)]
#[verifier::spinoff_prover]
proof fn lemma_ppo_consume_same<H: Hasher>(
    h: H,
    map: Map<Seq<u8>, Seq<u8>>,
    root: Seq<u8>,
    kstart: int,
    kbits: Seq<bool>,
    leaf: Seq<u8>,
    k2: Seq<bool>,
    m1: Map<Seq<u8>, Seq<u8>>,
    h1: Seq<u8>,
)
    requires
        digest_injective(h),
        digest_wide(h),
        content_addressed(h, map),
        leaf.len() == HASH_LEN,
        0 <= kstart < 8,
        kbits.len() > 0,
        kstart + kbits.len() <= 0xffff,
        k2.len() == kbits.len(),
        k2 != kbits,
        !(spec_find(map, root, k2) is Corrupt),
        ({
            let bytes = map[root];
            let u = spec_cells(bytes, kbits[0])->Some_0.0;
            let n = lcp_len(u.bits, kbits);
            &&& map.contains_key(root)
            &&& spec_cells(bytes, kbits[0]) is Some
            &&& n != 0 && n != kbits.len() && n == u.bits.len()
            &&& h1.len() == HASH_LEN
            &&& crate::tree::spec_put(
                h,
                map,
                u.hash,
                (kstart + n) % 8,
                kbits.skip(n as int),
                leaf,
            ) == Some((m1, h1))
            &&& crate::tree::spec_put(h, map, root, kstart, kbits, leaf) == Some(
                spec_put_node(
                    h,
                    m1,
                    crate::tree::spec_node_of(
                        SpecUnit { hash: h1, start: u.start, bits: u.bits },
                        spec_cells(bytes, kbits[0])->Some_0.1,
                    ),
                ),
            )
        }),
        k2[0] == kbits[0],
    ensures
        ({
            let out = crate::tree::spec_put(h, map, root, kstart, kbits, leaf)->Some_0;
            spec_find(out.0, out.1, k2) == spec_find(map, root, k2)
        }),
    decreases kbits.len(), 0int,
{
    let bytes = map[root];
    lemma_parse_wf(bytes);
    lemma_find_step(map, root, k2);
    let cells = spec_cells(bytes, kbits[0]);
    let u = cells->Some_0.0;
    let sib = cells->Some_0.1;
    let n = lcp_len(u.bits, kbits);
    let n2 = lcp_len(u.bits, k2);
    lemma_lcp_props(u.bits, kbits);
    lemma_lcp_props(u.bits, k2);
    lemma_lcp_props(kbits, k2);
    crate::tree::lemma_lcp_bound(u.bits, kbits);
    crate::tree::lemma_lcp_bound(u.bits, k2);
    crate::tree::lemma_lcp_bound(kbits, k2);
    assert(spec_unit_wf(u));
    assert(sib matches Some(s) ==> spec_unit_wf(s) && s.bits[0] != kbits[0]);
    assert(u.bits[0] == kbits[0]);
    let p2 = spec_cells(bytes, k2[0])->Some_0.0;
    assert(p2 == u);
    let rewired = SpecUnit { hash: h1, start: u.start, bits: u.bits };
    assert(spec_unit_wf(rewired));
    let top = crate::tree::spec_node_of(rewired, sib);
    assert(spec_node_wf(top));
    assert((kstart + n) % 8 + kbits.skip(n as int).len() <= kstart + kbits.len());
    lemma_put_then_find(h, map, u.hash, (kstart + n) % 8, kbits.skip(n as int), leaf);
    lemma_ca_put_node(h, m1, top);
    let out = spec_put_node(h, m1, top);
            lemma_find_at_new_node(h, m1, top, rewired, k2);
            if n2 == k2.len() {
                // the other key cannot end inside the consumed run
                assert(n2 <= n && n < kbits.len());
                assert(false);
            } else if n2 == n {
                // both keys consume this run: compare the subtrees
                assert(k2.skip(n as int) != kbits.skip(n as int)) by {
                    if k2.skip(n as int) == kbits.skip(n as int) {
                        assert forall|t: int| 0 <= t < k2.len() implies k2[t] == kbits[t] by {
                            if t < n {
                                assert(k2[t] == u.bits[t] && kbits[t] == u.bits[t]);
                            } else {
                                assert(k2[t] == k2.skip(n as int)[t - n]);
                                assert(kbits[t] == kbits.skip(n as int)[t - n]);
                            }
                        }
                        assert(k2 =~= kbits);
                    }
                }
                assert(!(spec_find(map, u.hash, k2.skip(n as int)) is Corrupt));
                lemma_put_preserves_other(
                    h,
                    map,
                    u.hash,
                    (kstart + n) % 8,
                    kbits.skip(n as int),
                    leaf,
                    k2.skip(n as int),
                );
                lemma_find_insert_stable(
                    h,
                    m1,
                    crate::node::spec_node_ser(top),
                    h1,
                    k2.skip(n as int),
                );
            } else {
                // diverged inside the run: both lookups miss
                assert(n2 < n);
                assert(spec_find(map, root, k2) is Missing);
                assert(spec_find(out.0, out.1, k2) is Missing);
            }
}

#[verifier::rlimit(100)]
#[verifier::spinoff_prover]
proof fn lemma_ppo_consume_other<H: Hasher>(
    h: H,
    map: Map<Seq<u8>, Seq<u8>>,
    root: Seq<u8>,
    kstart: int,
    kbits: Seq<bool>,
    leaf: Seq<u8>,
    k2: Seq<bool>,
)
    requires
        digest_injective(h),
        digest_wide(h),
        content_addressed(h, map),
        crate::tree::spec_put(h, map, root, kstart, kbits, leaf) is Some,
        leaf.len() == HASH_LEN,
        0 <= kstart < 8,
        kbits.len() > 0,
        kstart + kbits.len() <= 0xffff,
        k2.len() == kbits.len(),
        k2 != kbits,
        !(spec_find(map, root, k2) is Corrupt),
        ({
            let bytes = map[root];
            let u = spec_cells(bytes, kbits[0])->Some_0.0;
            let n = lcp_len(u.bits, kbits);
            n != 0 && n != kbits.len() && n == u.bits.len()
        }),
        k2[0] != kbits[0],
    ensures
        ({
            let out = crate::tree::spec_put(h, map, root, kstart, kbits, leaf)->Some_0;
            spec_find(out.0, out.1, k2) == spec_find(map, root, k2)
        }),
    decreases kbits.len(), 0int,
{
    reveal(crate::tree::spec_put);
    reveal(crate::tree::spec_find);
    let bytes = map[root];
    lemma_parse_wf(bytes);
    let cells = spec_cells(bytes, kbits[0]);
    let u = cells->Some_0.0;
    let sib = cells->Some_0.1;
    let n = lcp_len(u.bits, kbits);
    let n2 = lcp_len(u.bits, k2);
    lemma_lcp_props(u.bits, kbits);
    lemma_lcp_props(u.bits, k2);
    lemma_lcp_props(kbits, k2);
    crate::tree::lemma_lcp_bound(u.bits, kbits);
    crate::tree::lemma_lcp_bound(u.bits, k2);
    crate::tree::lemma_lcp_bound(kbits, k2);
    let newunit = SpecUnit { hash: leaf, start: kstart, bits: kbits };
    assert(spec_unit_wf(newunit) && spec_unit_wf(u));
    assert(sib matches Some(s) ==> spec_unit_wf(s) && s.bits[0] != kbits[0]);
    assert(n >= 1 ==> u.bits[0] == kbits[0]);
    let same_dir = k2[0] == kbits[0];
    let cells2 = spec_cells(bytes, k2[0]);
    assert(cells2 is Some);
    let p2 = cells2->Some_0.0;
    assert(same_dir ==> p2 == u && cells2->Some_0.1 == sib);
    // consume & descend
        let sub = crate::tree::spec_put(
            h,
            map,
            u.hash,
            (kstart + n) % 8,
            kbits.skip(n as int),
            leaf,
        );
        assert(sub is Some);
        let m1 = sub->Some_0.0;
        let h1 = sub->Some_0.1;
        assert((kstart + n) % 8 + kbits.skip(n as int).len() <= kstart + kbits.len());
        let rewired = SpecUnit { hash: h1, start: u.start, bits: u.bits };
        assert(spec_unit_wf(rewired));
        let top = crate::tree::spec_node_of(rewired, sib);
        assert(spec_node_wf(top));
        lemma_put_then_find(h, map, u.hash, (kstart + n) % 8, kbits.skip(n as int), leaf);
        lemma_ca_put_node(h, m1, top);
        let out = spec_put_node(h, m1, top);
        match sib {
                None => {
                    assert(p2 == u);
                    assert(n2 == 0 && n >= 1);
                    assert(spec_find(map, root, k2) is Missing);
                    lemma_find_at_new_node(h, m1, top, rewired, k2);
                    assert(spec_find(out.0, out.1, k2) is Missing);
                },
                Some(s) => {
                    assert(p2 == s);
                    lemma_find_at_new_node(h, m1, top, s, k2);
                    let ns = lcp_len(s.bits, k2);
                    if ns == k2.len() {
                    } else if ns == s.bits.len() {
                        assert(!(spec_find(map, s.hash, k2.skip(ns as int)) is Corrupt));
                        lemma_put_map_stable(
                            h,
                            map,
                            u.hash,
                            (kstart + n) % 8,
                            kbits.skip(n as int),
                            leaf,
                            s.hash,
                            k2.skip(ns as int),
                        );
                        lemma_find_insert_stable(
                            h,
                            m1,
                            crate::node::spec_node_ser(top),
                            s.hash,
                            k2.skip(ns as int),
                        );
                    } else {
                    }
                },
            }
}

/// The split case of `lemma_put_preserves_other`.
proof fn lemma_ppo_split<H: Hasher>(
    h: H,
    map: Map<Seq<u8>, Seq<u8>>,
    root: Seq<u8>,
    kstart: int,
    kbits: Seq<bool>,
    leaf: Seq<u8>,
    k2: Seq<bool>,
)
    requires
        digest_injective(h),
        digest_wide(h),
        content_addressed(h, map),
        crate::tree::spec_put(h, map, root, kstart, kbits, leaf) is Some,
        leaf.len() == HASH_LEN,
        0 <= kstart < 8,
        kbits.len() > 0,
        kstart + kbits.len() <= 0xffff,
        k2.len() == kbits.len(),
        k2 != kbits,
        !(spec_find(map, root, k2) is Corrupt),
        ({
            let bytes = map[root];
            let u = spec_cells(bytes, kbits[0])->Some_0.0;
            let n = lcp_len(u.bits, kbits);
            n != 0 && n != kbits.len() && n != u.bits.len()
        }),
    ensures
        ({
            let out = crate::tree::spec_put(h, map, root, kstart, kbits, leaf)->Some_0;
            spec_find(out.0, out.1, k2) == spec_find(map, root, k2)
        }),
    decreases kbits.len(), 1int,
{
    if k2[0] == kbits[0] {
        lemma_ppo_split_same(h, map, root, kstart, kbits, leaf, k2);
    } else {
        lemma_ppo_split_other(h, map, root, kstart, kbits, leaf, k2);
    }
}

#[verifier::rlimit(100)]
#[verifier::spinoff_prover]
proof fn lemma_ppo_split_same<H: Hasher>(
    h: H,
    map: Map<Seq<u8>, Seq<u8>>,
    root: Seq<u8>,
    kstart: int,
    kbits: Seq<bool>,
    leaf: Seq<u8>,
    k2: Seq<bool>,
)
    requires
        digest_injective(h),
        digest_wide(h),
        content_addressed(h, map),
        crate::tree::spec_put(h, map, root, kstart, kbits, leaf) is Some,
        leaf.len() == HASH_LEN,
        0 <= kstart < 8,
        kbits.len() > 0,
        kstart + kbits.len() <= 0xffff,
        k2.len() == kbits.len(),
        k2 != kbits,
        !(spec_find(map, root, k2) is Corrupt),
        ({
            let bytes = map[root];
            let u = spec_cells(bytes, kbits[0])->Some_0.0;
            let n = lcp_len(u.bits, kbits);
            n != 0 && n != kbits.len() && n != u.bits.len()
        }),
        k2[0] == kbits[0],
    ensures
        ({
            let out = crate::tree::spec_put(h, map, root, kstart, kbits, leaf)->Some_0;
            spec_find(out.0, out.1, k2) == spec_find(map, root, k2)
        }),
    decreases kbits.len(), 0int,
{
    reveal(crate::tree::spec_put);
    let bytes = map[root];
    lemma_parse_wf(bytes);
    lemma_find_step(map, root, k2);
    let cells = spec_cells(bytes, kbits[0]);
    let u = cells->Some_0.0;
    let sib = cells->Some_0.1;
    let n = lcp_len(u.bits, kbits);
    let n2 = lcp_len(u.bits, k2);
    lemma_lcp_props(u.bits, kbits);
    lemma_lcp_props(u.bits, k2);
    lemma_lcp_props(kbits, k2);
    crate::tree::lemma_lcp_bound(u.bits, kbits);
    crate::tree::lemma_lcp_bound(u.bits, k2);
    crate::tree::lemma_lcp_bound(kbits, k2);
    let newunit = SpecUnit { hash: leaf, start: kstart, bits: kbits };
    assert(spec_unit_wf(newunit) && spec_unit_wf(u));
    assert(sib matches Some(s) ==> spec_unit_wf(s) && s.bits[0] != kbits[0]);
    assert(n >= 1 ==> u.bits[0] == kbits[0]);
    let same_dir = k2[0] == kbits[0];
    let cells2 = spec_cells(bytes, k2[0]);
    assert(cells2 is Some);
    let p2 = cells2->Some_0.0;
    assert(same_dir ==> p2 == u && cells2->Some_0.1 == sib);
        // split
        let udrop = SpecUnit {
            hash: u.hash,
            start: (u.start + n) % 8,
            bits: u.bits.skip(n as int),
        };
        let kdrop = SpecUnit {
            hash: leaf,
            start: (kstart + n) % 8,
            bits: kbits.skip(n as int),
        };
        assert((u.start + n) % 8 + u.bits.skip(n as int).len() <= u.start + u.bits.len());
        assert((kstart + n) % 8 + kbits.skip(n as int).len() <= kstart + kbits.len());
        assert(spec_unit_wf(udrop) && spec_unit_wf(kdrop));
        assert(udrop.bits[0] != kdrop.bits[0]) by {
            assert(u.bits[n as int] != kbits[n as int]);
        }
        let inner = SpecNode::Hard(udrop, kdrop);
        assert(spec_node_wf(inner));
        lemma_ca_put_node(h, map, inner);
        let pin = spec_put_node(h, map, inner);
        let m_in = pin.0;
        let d_in = pin.1;
        let uhead = SpecUnit { hash: d_in, start: u.start, bits: u.bits.take(n as int) };
        assert(spec_unit_wf(uhead));
        assert(uhead.bits[0] == kbits[0]);
        let top = crate::tree::spec_node_of(uhead, sib);
        assert(spec_node_wf(top));
        lemma_ca_put_node(h, m_in, top);
        let out = spec_put_node(h, m_in, top);
        let ser_inner = crate::node::spec_node_ser(inner);
        let ser_top = crate::node::spec_node_ser(top);
            lemma_find_at_new_node(h, m_in, top, uhead, k2);
            lemma_lcp_take(u.bits, k2, n as int);
            let nh = lcp_len(uhead.bits, k2);
            if n2 < n {
                // diverged before the cut: both lookups miss
                assert(nh == n2);
                assert(n2 < k2.len() && n2 < uhead.bits.len());
                assert(spec_find(out.0, out.1, k2) is Missing);
                assert(n2 < u.bits.len() && n2 < k2.len());
                assert(spec_find(map, root, k2) is Missing);
            } else {
                // the other key passes the cut and meets the inner node
                assert(nh == n);
                assert(n < k2.len());
                assert(spec_find(out.0, out.1, k2) == spec_find(out.0, d_in, k2.skip(n as int)));
                if k2[n as int] == kbits[n as int] {
                    lemma_find_at_new_node(h, map, inner, kdrop, k2.skip(n as int));
                } else {
                    lemma_find_at_new_node(h, map, inner, udrop, k2.skip(n as int));
                }
                lemma_lcp_skip(u.bits, k2, n as int);
                let nd = lcp_len(udrop.bits, k2.skip(n as int));
                assert(nd == n2 - n);
                if k2[n as int] == kbits[n as int] {
                    // the other key turns toward the fresh leaf side
                    assert(n2 == n);
                    assert(nd == 0);
                    let nk = lcp_len(kdrop.bits, k2.skip(n as int));
                    assert(nk < k2.skip(n as int).len()) by {
                        crate::tree::lemma_lcp_bound(kdrop.bits, k2.skip(n as int));
                        if nk == k2.skip(n as int).len() {
                            lemma_lcp_props(kdrop.bits, k2.skip(n as int));
                            assert forall|t: int| 0 <= t < k2.len() implies k2[t] == kbits[t] by {
                                if t < n {
                                    assert(k2[t] == u.bits[t] && kbits[t] == u.bits[t]);
                                } else {
                                    assert(kdrop.bits[t - n] == k2.skip(n as int)[t - n]);
                                    assert(kdrop.bits[t - n] == kbits.skip(n as int)[t - n]);
                                    assert(kbits.skip(n as int)[t - n] == kbits[t]);
                                    assert(k2.skip(n as int)[t - n] == k2[t]);
                                }
                            }
                            assert(k2 =~= kbits);
                        }
                    }
                    assert(nk < kdrop.bits.len());
                    assert(spec_find(m_in, d_in, k2.skip(n as int)) is Missing);
                    lemma_find_insert_stable(h, m_in, ser_top, d_in, k2.skip(n as int));
                    // the old lookup missed too: it diverged right here
                    assert(n2 < u.bits.len() && n2 < k2.len());
                    assert(spec_find(map, root, k2) is Missing);
                } else {
                    // the other key follows the old run
                    assert(n2 > n);
                    assert(nd >= 1);
                    if n2 == k2.len() {
                        // the other key ends inside the old run: found
                        assert(nd == k2.skip(n as int).len());
                        assert(spec_find(m_in, d_in, k2.skip(n as int))
                            == crate::tree::SpecLookup::Found(u.hash));
                        lemma_find_insert_stable(h, m_in, ser_top, d_in, k2.skip(n as int));
                        assert(spec_find(map, root, k2) == crate::tree::SpecLookup::Found(u.hash));
                    } else if n2 == u.bits.len() {
                        // the other key consumes the old run: descend
                        assert(nd == udrop.bits.len());
                        assert(spec_find(m_in, d_in, k2.skip(n as int)) == spec_find(
                            m_in,
                            u.hash,
                            k2.skip(n as int).skip(nd as int),
                        ));
                        assert(k2.skip(n as int).skip(nd as int) =~= k2.skip(n2 as int));
                        assert(spec_find(map, root, k2) == spec_find(
                            map,
                            u.hash,
                            k2.skip(n2 as int),
                        ));
                        assert(!(spec_find(map, u.hash, k2.skip(n2 as int)) is Corrupt));
                        lemma_find_insert_stable(h, map, ser_inner, u.hash, k2.skip(n2 as int));
                        lemma_find_insert_stable(h, m_in, ser_top, u.hash, k2.skip(n2 as int));
                        lemma_find_insert_stable(h, m_in, ser_top, d_in, k2.skip(n as int));
                    } else {
                        // diverged inside the old run's tail: both miss
                        assert(nd < udrop.bits.len() && nd < k2.skip(n as int).len());
                        assert(spec_find(m_in, d_in, k2.skip(n as int)) is Missing);
                        lemma_find_insert_stable(h, m_in, ser_top, d_in, k2.skip(n as int));
                        assert(n2 < u.bits.len() && n2 < k2.len());
                        assert(spec_find(map, root, k2) is Missing);
                    }
                }
            }
}

#[verifier::rlimit(100)]
#[verifier::spinoff_prover]
proof fn lemma_ppo_split_other<H: Hasher>(
    h: H,
    map: Map<Seq<u8>, Seq<u8>>,
    root: Seq<u8>,
    kstart: int,
    kbits: Seq<bool>,
    leaf: Seq<u8>,
    k2: Seq<bool>,
)
    requires
        digest_injective(h),
        digest_wide(h),
        content_addressed(h, map),
        crate::tree::spec_put(h, map, root, kstart, kbits, leaf) is Some,
        leaf.len() == HASH_LEN,
        0 <= kstart < 8,
        kbits.len() > 0,
        kstart + kbits.len() <= 0xffff,
        k2.len() == kbits.len(),
        k2 != kbits,
        !(spec_find(map, root, k2) is Corrupt),
        ({
            let bytes = map[root];
            let u = spec_cells(bytes, kbits[0])->Some_0.0;
            let n = lcp_len(u.bits, kbits);
            n != 0 && n != kbits.len() && n != u.bits.len()
        }),
        k2[0] != kbits[0],
    ensures
        ({
            let out = crate::tree::spec_put(h, map, root, kstart, kbits, leaf)->Some_0;
            spec_find(out.0, out.1, k2) == spec_find(map, root, k2)
        }),
    decreases kbits.len(), 0int,
{
    reveal(crate::tree::spec_put);
    reveal(crate::tree::spec_find);
    let bytes = map[root];
    lemma_parse_wf(bytes);
    let cells = spec_cells(bytes, kbits[0]);
    let u = cells->Some_0.0;
    let sib = cells->Some_0.1;
    let n = lcp_len(u.bits, kbits);
    let n2 = lcp_len(u.bits, k2);
    lemma_lcp_props(u.bits, kbits);
    lemma_lcp_props(u.bits, k2);
    lemma_lcp_props(kbits, k2);
    crate::tree::lemma_lcp_bound(u.bits, kbits);
    crate::tree::lemma_lcp_bound(u.bits, k2);
    crate::tree::lemma_lcp_bound(kbits, k2);
    let newunit = SpecUnit { hash: leaf, start: kstart, bits: kbits };
    assert(spec_unit_wf(newunit) && spec_unit_wf(u));
    assert(sib matches Some(s) ==> spec_unit_wf(s) && s.bits[0] != kbits[0]);
    assert(n >= 1 ==> u.bits[0] == kbits[0]);
    let same_dir = k2[0] == kbits[0];
    let cells2 = spec_cells(bytes, k2[0]);
    assert(cells2 is Some);
    let p2 = cells2->Some_0.0;
    assert(same_dir ==> p2 == u && cells2->Some_0.1 == sib);
        // split
        let udrop = SpecUnit {
            hash: u.hash,
            start: (u.start + n) % 8,
            bits: u.bits.skip(n as int),
        };
        let kdrop = SpecUnit {
            hash: leaf,
            start: (kstart + n) % 8,
            bits: kbits.skip(n as int),
        };
        assert((u.start + n) % 8 + u.bits.skip(n as int).len() <= u.start + u.bits.len());
        assert((kstart + n) % 8 + kbits.skip(n as int).len() <= kstart + kbits.len());
        assert(spec_unit_wf(udrop) && spec_unit_wf(kdrop));
        assert(udrop.bits[0] != kdrop.bits[0]) by {
            assert(u.bits[n as int] != kbits[n as int]);
        }
        let inner = SpecNode::Hard(udrop, kdrop);
        assert(spec_node_wf(inner));
        lemma_ca_put_node(h, map, inner);
        let pin = spec_put_node(h, map, inner);
        let m_in = pin.0;
        let d_in = pin.1;
        let uhead = SpecUnit { hash: d_in, start: u.start, bits: u.bits.take(n as int) };
        assert(spec_unit_wf(uhead));
        assert(uhead.bits[0] == kbits[0]);
        let top = crate::tree::spec_node_of(uhead, sib);
        assert(spec_node_wf(top));
        lemma_ca_put_node(h, m_in, top);
        let out = spec_put_node(h, m_in, top);
        let ser_inner = crate::node::spec_node_ser(inner);
        let ser_top = crate::node::spec_node_ser(top);
        match sib {
                None => {
                    assert(p2 == u);
                    assert(n2 == 0 && n >= 1);
                    assert(spec_find(map, root, k2) is Missing);
                    lemma_find_at_new_node(h, m_in, top, uhead, k2);
                    assert(lcp_len(uhead.bits, k2) == 0) by {
                        lemma_lcp_take(u.bits, k2, n as int);
                    }
                    assert(spec_find(out.0, out.1, k2) is Missing);
                },
                Some(s) => {
                    assert(p2 == s);
                    lemma_find_at_new_node(h, m_in, top, s, k2);
                    let ns = lcp_len(s.bits, k2);
                    if ns == k2.len() {
                    } else if ns == s.bits.len() {
                        assert(!(spec_find(map, s.hash, k2.skip(ns as int)) is Corrupt));
                        lemma_find_insert_stable(h, map, ser_inner, s.hash, k2.skip(ns as int));
                        lemma_find_insert_stable(h, m_in, ser_top, s.hash, k2.skip(ns as int));
                    } else {
                    }
                },
            }
}

/// Insert leaves every other key untouched: after inserting one key,
/// any other key reads from the new root exactly what it read from the
/// old root, over any content-addressed state and for any
/// collision-free, digest-wide hasher.
pub proof fn lemma_insert_preserves_other_keys<H: Hasher>(
    h: H,
    map: Map<Seq<u8>, Seq<u8>>,
    root: Option<Seq<u8>>,
    key: Seq<u8>,
    leaf: Seq<u8>,
    other: Seq<u8>,
)
    requires
        digest_injective(h),
        digest_wide(h),
        content_addressed(h, map),
        key.len() == HASH_LEN,
        leaf.len() == HASH_LEN,
        other.len() == HASH_LEN,
        other != key,
        spec_insert(h, map, root, key, leaf) is Some,
        !(crate::tree::spec_get(map, root, other) is Corrupt),
    ensures
        ({
            let out = spec_insert(h, map, root, key, leaf)->Some_0;
            crate::tree::spec_get(out.0, Some(out.1), other) == crate::tree::spec_get(
                map,
                root,
                other,
            )
        }),
{
    let kb = key_bits(key);
    let ob = key_bits(other);
    lemma_key_bits_injective(key, other);
    lemma_lcp_props(kb, ob);
    crate::tree::lemma_lcp_bound(kb, ob);
    match root {
        None => {
            let newunit = SpecUnit { hash: leaf, start: 0, bits: kb };
            let top = SpecNode::Soft(newunit);
            assert(spec_node_wf(top));
            lemma_find_at_new_node(h, map, top, newunit, ob);
            let m = lcp_len(kb, ob);
            assert(m < ob.len() && m < kb.len()) by {
                if m == ob.len() {
                    assert(kb =~= ob);
                }
            }
        },
        Some(rt) => {
            lemma_put_preserves_other(h, map, rt, 0, kb, leaf, ob);
        },
    }
}

/// Insert then get, for the inserted key: descending the key's path
/// through the state an insert produced finds exactly the inserted
/// leaf, and the state stays content-addressed. Holds for any
/// collision-free, digest-wide hasher.
#[verifier::rlimit(100)]
#[verifier::spinoff_prover]
pub proof fn lemma_put_then_find<H: Hasher>(
    h: H,
    map: Map<Seq<u8>, Seq<u8>>,
    root: Seq<u8>,
    kstart: int,
    kbits: Seq<bool>,
    leaf: Seq<u8>,
)
    requires
        digest_injective(h),
        digest_wide(h),
        content_addressed(h, map),
        crate::tree::spec_put(h, map, root, kstart, kbits, leaf) is Some,
        leaf.len() == HASH_LEN,
        0 <= kstart < 8,
        kbits.len() > 0,
        kstart + kbits.len() <= 0xffff,
    ensures
        ({
            let out = crate::tree::spec_put(h, map, root, kstart, kbits, leaf)->Some_0;
            &&& content_addressed(h, out.0)
            &&& spec_find(out.0, out.1, kbits) == crate::tree::SpecLookup::Found(leaf)
        }),
    decreases kbits.len(),
{
    reveal(crate::tree::spec_put);
    let bytes = map[root];
    lemma_parse_wf(bytes);
    let cells = spec_cells(bytes, kbits[0]);
    let u = cells->Some_0.0;
    let sib = cells->Some_0.1;
    let n = lcp_len(u.bits, kbits);
    lemma_lcp_props(u.bits, kbits);
    crate::tree::lemma_lcp_bound(u.bits, kbits);
    let newunit = SpecUnit { hash: leaf, start: kstart, bits: kbits };
    assert(spec_unit_wf(newunit));
    assert(spec_unit_wf(u));
    assert(sib matches Some(s) ==> spec_unit_wf(s) && s.bits[0] != kbits[0]);
    assert(n >= 1 ==> u.bits[0] == kbits[0]);
    if n == 0 {
        // set-aside: the top node holds the old child and the new leaf
        let top = SpecNode::Hard(u, newunit);
        assert(u.bits[0] != kbits[0]);
        assert(spec_node_wf(top));
        lemma_ca_put_node(h, map, top);
        lemma_find_at_new_node(h, map, top, newunit, kbits);
        lemma_lcp_char(kbits, kbits, kbits.len() as int);
    } else if n == kbits.len() {
        // replacement: the new leaf takes the pursued slot
        let top = crate::tree::spec_node_of(newunit, sib);
        assert(spec_node_wf(top));
        lemma_ca_put_node(h, map, top);
        lemma_find_at_new_node(h, map, top, newunit, kbits);
        lemma_lcp_char(kbits, kbits, kbits.len() as int);
    } else if n == u.bits.len() {
        // consume & descend: the rewritten level points at the new child
        let sub = crate::tree::spec_put(h, map, u.hash, (kstart + n) % 8, kbits.skip(n as int), leaf);
        assert(sub is Some);
        let m1 = sub->Some_0.0;
        let h1 = sub->Some_0.1;
        assert((kstart + n) % 8 + kbits.skip(n as int).len() <= kstart + kbits.len());
        lemma_put_then_find(h, map, u.hash, (kstart + n) % 8, kbits.skip(n as int), leaf);
        let rewired = SpecUnit { hash: h1, start: u.start, bits: u.bits };
        assert(spec_unit_wf(rewired));
        let top = crate::tree::spec_node_of(rewired, sib);
        assert(spec_node_wf(top));
        lemma_ca_put_node(h, m1, top);
        lemma_find_at_new_node(h, m1, top, rewired, kbits);
        assert(lcp_len(rewired.bits, kbits) == n);
        lemma_find_insert_stable(h, m1, crate::node::spec_node_ser(top), h1, kbits.skip(n as int));
    } else {
        // split: an inner Hard at the divergence, then the shortened run
        let udrop = SpecUnit {
            hash: u.hash,
            start: (u.start + n) % 8,
            bits: u.bits.skip(n as int),
        };
        let kdrop = SpecUnit {
            hash: leaf,
            start: (kstart + n) % 8,
            bits: kbits.skip(n as int),
        };
        assert((u.start + n) % 8 + u.bits.skip(n as int).len() <= u.start + u.bits.len());
        assert((kstart + n) % 8 + kbits.skip(n as int).len() <= kstart + kbits.len());
        assert(spec_unit_wf(udrop) && spec_unit_wf(kdrop));
        assert(udrop.bits[0] != kdrop.bits[0]) by {
            assert(u.bits[n as int] != kbits[n as int]);
        }
        let inner = SpecNode::Hard(udrop, kdrop);
        assert(spec_node_wf(inner));
        lemma_ca_put_node(h, map, inner);
        let pin = spec_put_node(h, map, inner);
        let m_in = pin.0;
        let d_in = pin.1;
        // below the inner node, the fresh leaf child matches the rest
        lemma_find_at_new_node(h, map, inner, kdrop, kbits.skip(n as int));
        lemma_lcp_char(
            kbits.skip(n as int),
            kbits.skip(n as int),
            kbits.skip(n as int).len() as int,
        );
        assert(spec_find(m_in, d_in, kbits.skip(n as int)) == crate::tree::SpecLookup::Found(leaf));
        let uhead = SpecUnit { hash: d_in, start: u.start, bits: u.bits.take(n as int) };
        assert(spec_unit_wf(uhead));
        assert(uhead.bits[0] == kbits[0]);
        let top = crate::tree::spec_node_of(uhead, sib);
        assert(spec_node_wf(top));
        lemma_ca_put_node(h, m_in, top);
        lemma_find_at_new_node(h, m_in, top, uhead, kbits);
        // the shortened run matches the key for exactly its own length
        lemma_lcp_char(u.bits.take(n as int), kbits, n as int);
        lemma_find_insert_stable(h, m_in, crate::node::spec_node_ser(top), d_in, kbits.skip(n as int));
    }
}

/// Insert then get: getting the key just inserted returns the leaf just
/// inserted, over any prior content-addressed state and for any
/// collision-free, digest-wide hasher.
pub proof fn lemma_insert_then_get<H: Hasher>(
    h: H,
    map: Map<Seq<u8>, Seq<u8>>,
    root: Option<Seq<u8>>,
    key: Seq<u8>,
    leaf: Seq<u8>,
)
    requires
        digest_injective(h),
        digest_wide(h),
        content_addressed(h, map),
        key.len() == HASH_LEN,
        leaf.len() == HASH_LEN,
        spec_insert(h, map, root, key, leaf) is Some,
    ensures
        ({
            let out = spec_insert(h, map, root, key, leaf)->Some_0;
            &&& content_addressed(h, out.0)
            &&& crate::tree::spec_get(out.0, Some(out.1), key) == crate::tree::SpecLookup::Found(
                leaf,
            )
        }),
{
    let kb = key_bits(key);
    assert(kb.len() == 256);
    match root {
        None => {
            let newunit = SpecUnit { hash: leaf, start: 0, bits: kb };
            let top = SpecNode::Soft(newunit);
            assert(spec_node_wf(top));
            lemma_ca_put_node(h, map, top);
            lemma_find_at_new_node(h, map, top, newunit, kb);
            lemma_lcp_char(kb, kb, 256);
        },
        Some(rt) => {
            lemma_put_then_find(h, map, rt, 0, kb, leaf);
        },
    }
}

/// Insert, prove, verify: the key just inserted has a Merkle proof, and
/// that proof folds from its leaf back to the new root, over any prior
/// content-addressed state and for any collision-free, digest-wide
/// hasher.
pub proof fn lemma_insert_proof_verifies<H: Hasher>(
    h: H,
    map: Map<Seq<u8>, Seq<u8>>,
    root: Option<Seq<u8>>,
    key: Seq<u8>,
    leaf: Seq<u8>,
)
    requires
        digest_injective(h),
        digest_wide(h),
        content_addressed(h, map),
        key.len() == HASH_LEN,
        leaf.len() == HASH_LEN,
        spec_insert(h, map, root, key, leaf) is Some,
    ensures
        ({
            let out = spec_insert(h, map, root, key, leaf)->Some_0;
            let pf = spec_gen_proof(out.0, out.1, key_bits(key));
            &&& pf matches Some(o) && o is Some
            &&& spec_fold_proof(h, leaf, pf->Some_0->Some_0) == out.1
        }),
{
    let kb = key_bits(key);
    let out = spec_insert(h, map, root, key, leaf)->Some_0;
    lemma_insert_then_get(h, map, root, key, leaf);
    lemma_proof_exists_iff_found(out.0, out.1, kb);
    lemma_generated_proof_verifies(h, out.0, out.1, kb);
}

/// A fold of inserts reads back right: after folding a pair sequence
/// with distinct keys into the tree, each folded key reads its own
/// leaf, and every other key reads exactly what it read before the
/// fold. Over any content-addressed state and for any collision-free,
/// digest-wide hasher.
pub proof fn lemma_inserts_then_get<H: Hasher>(
    h: H,
    map: Map<Seq<u8>, Seq<u8>>,
    root: Option<Seq<u8>>,
    pairs: Seq<(Seq<u8>, Seq<u8>)>,
    k: Seq<u8>,
)
    requires
        digest_injective(h),
        digest_wide(h),
        content_addressed(h, map),
        distinct_keys(pairs),
        forall|i: int| 0 <= i < pairs.len() ==> (#[trigger] pairs[i].1).len() == HASH_LEN,
        k.len() == HASH_LEN,
        spec_inserts(h, map, root, pairs) is Some,
        !(crate::tree::spec_get(map, root, k) is Corrupt),
    ensures
        ({
            let out = spec_inserts(h, map, root, pairs)->Some_0;
            &&& content_addressed(h, out.0)
            &&& (forall|i: int|
                0 <= i < pairs.len() && (#[trigger] pairs[i]).0 == k
                    ==> crate::tree::spec_get(out.0, out.1, k)
                    == crate::tree::SpecLookup::Found(pairs[i].1))
            &&& ((forall|i: int| 0 <= i < pairs.len() ==> (#[trigger] pairs[i]).0 != k)
                ==> crate::tree::spec_get(out.0, out.1, k) == crate::tree::spec_get(map, root, k))
        }),
    decreases pairs.len(),
{
    if pairs.len() == 0 {
    } else {
        let p0 = pairs[0];
        let step = spec_insert(h, map, root, p0.0, p0.1);
        assert(step is Some);
        let m1 = step->Some_0.0;
        let r1 = step->Some_0.1;
        lemma_insert_then_get(h, map, root, p0.0, p0.1);
        assert(content_addressed(h, m1));
        let rest = pairs.skip(1);
        assert(spec_inserts(h, m1, Some(r1), rest) is Some);
        assert(distinct_keys(rest)) by {
            assert(forall|a: int| 0 <= a < rest.len() ==> (#[trigger] rest[a].0).len() == HASH_LEN);
        }
        assert(forall|i: int| 0 <= i < rest.len() ==> (#[trigger] rest[i].1).len() == HASH_LEN);
        if k == p0.0 {
            // the first insert settles this key; distinctness keeps the
            // rest of the fold away from it
            assert(crate::tree::spec_get(m1, Some(r1), k) == crate::tree::SpecLookup::Found(p0.1));
            assert(forall|i: int| 0 <= i < rest.len() ==> (#[trigger] rest[i]).0 != k) by {
                assert(forall|i: int| 0 <= i < rest.len() ==> rest[i] == pairs[i + 1]);
            }
            lemma_inserts_then_get(h, m1, Some(r1), rest, k);
            assert(forall|i: int|
                0 <= i < pairs.len() && (#[trigger] pairs[i]).0 == k ==> i == 0);
        } else {
            lemma_insert_preserves_other_keys(h, map, root, p0.0, p0.1, k);
            assert(crate::tree::spec_get(m1, Some(r1), k) == crate::tree::spec_get(map, root, k));
            lemma_inserts_then_get(h, m1, Some(r1), rest, k);
            assert(forall|i: int|
                0 <= i < pairs.len() && (#[trigger] pairs[i]).0 == k ==> 1 <= i && rest[i - 1]
                    == pairs[i]);
        }
    }
}

/// Folding distinct pairs into the empty tree: every folded key reads
/// its own leaf; every absent key reads nothing and has no Merkle
/// proof, which is the non-inclusion witness.
pub proof fn lemma_inserts_from_empty<H: Hasher>(
    h: H,
    pairs: Seq<(Seq<u8>, Seq<u8>)>,
    k: Seq<u8>,
)
    requires
        digest_injective(h),
        digest_wide(h),
        distinct_keys(pairs),
        forall|i: int| 0 <= i < pairs.len() ==> (#[trigger] pairs[i].1).len() == HASH_LEN,
        k.len() == HASH_LEN,
        spec_inserts(h, Map::empty(), None, pairs) is Some,
    ensures
        ({
            let out = spec_inserts(h, Map::empty(), None, pairs)->Some_0;
            &&& (forall|i: int|
                0 <= i < pairs.len() && (#[trigger] pairs[i]).0 == k ==> crate::tree::spec_get(
                    out.0,
                    out.1,
                    k,
                ) == crate::tree::SpecLookup::Found(pairs[i].1))
            &&& ((forall|i: int| 0 <= i < pairs.len() ==> (#[trigger] pairs[i]).0 != k) ==> {
                &&& crate::tree::spec_get(out.0, out.1, k) is Missing
                &&& (out.1 matches Some(rt) ==> spec_gen_proof(out.0, rt, key_bits(k)) == Some(
                    None::<Seq<(bool, Seq<u8>)>>,
                ))
            })
        }),
{
    let empty_map = Map::<Seq<u8>, Seq<u8>>::empty();
    assert(content_addressed(h, empty_map));
    assert(crate::tree::spec_get(empty_map, None, k) is Missing);
    lemma_inserts_then_get(h, empty_map, None, pairs, k);
    let out = spec_inserts(h, empty_map, None, pairs)->Some_0;
    if forall|i: int| 0 <= i < pairs.len() ==> (#[trigger] pairs[i]).0 != k {
        match out.1 {
            Some(rt) => {
                lemma_proof_exists_iff_found(out.0, rt, key_bits(k));
            },
            None => {},
        }
    }
}

/// Folding distinct pairs into the empty tree, every folded key has a
/// Merkle proof that folds from its own leaf back to the root: the
/// verifier accepts every proof the tree generates for its keys.
pub proof fn lemma_inserts_proofs_verify<H: Hasher>(
    h: H,
    pairs: Seq<(Seq<u8>, Seq<u8>)>,
    i: int,
)
    requires
        digest_injective(h),
        digest_wide(h),
        distinct_keys(pairs),
        forall|j: int| 0 <= j < pairs.len() ==> (#[trigger] pairs[j].1).len() == HASH_LEN,
        0 <= i < pairs.len(),
        spec_inserts(h, Map::empty(), None, pairs) is Some,
    ensures
        ({
            let out = spec_inserts(h, Map::empty(), None, pairs)->Some_0;
            let kb = key_bits(pairs[i].0);
            &&& out.1 is Some
            &&& spec_gen_proof(out.0, out.1->0, kb) matches Some(o) && o is Some
            &&& spec_fold_proof(
                h,
                pairs[i].1,
                spec_gen_proof(out.0, out.1->0, kb)->Some_0->Some_0,
            ) == out.1->0
        }),
{
    let empty_map = Map::<Seq<u8>, Seq<u8>>::empty();
    assert(content_addressed(h, empty_map));
    let k = pairs[i].0;
    assert(crate::tree::spec_get(empty_map, None, k) is Missing);
    lemma_inserts_then_get(h, empty_map, None, pairs, k);
    let out = spec_inserts(h, empty_map, None, pairs)->Some_0;
    assert(crate::tree::spec_get(out.0, out.1, k) == crate::tree::SpecLookup::Found(pairs[i].1));
    let rt = out.1->0;
    let kb = key_bits(k);
    lemma_proof_exists_iff_found(out.0, rt, kb);
    lemma_generated_proof_verifies(h, out.0, rt, kb);
}

/// Insert mirrors lookup readability: the descent of an insert succeeds
/// exactly when a lookup of the same path would not find the state
/// corrupt.
pub proof fn lemma_put_mirrors_lookup<H: Hasher>(
    h: H,
    map: Map<Seq<u8>, Seq<u8>>,
    root: Seq<u8>,
    kstart: int,
    kbits: Seq<bool>,
    leaf: Seq<u8>,
)
    ensures
        crate::tree::spec_put(h, map, root, kstart, kbits, leaf) is Some <==> !(spec_find(
            map,
            root,
            kbits,
        ) is Corrupt),
    decreases kbits.len(),
{
    reveal(crate::tree::spec_put);
    reveal(crate::tree::spec_find);
    if map.contains_key(root) && kbits.len() > 0 {
        let cells = spec_cells(map[root], kbits[0]);
        if cells is Some {
            let u = cells->Some_0.0;
            let n = lcp_len(u.bits, kbits);
            if n != 0 && n != kbits.len() && n == u.bits.len() {
                crate::tree::lemma_lcp_bound(u.bits, kbits);
                lemma_put_mirrors_lookup(h, map, u.hash, (kstart + n) % 8, kbits.skip(n as int), leaf);
            }
        }
    }
}

/// A readable state: looking any fixed-width key up meets no corruption.
pub open spec fn all_keys_readable(map: Map<Seq<u8>, Seq<u8>>, root: Option<Seq<u8>>) -> bool {
    forall|k: Seq<u8>|
        k.len() == HASH_LEN ==> !(#[trigger] crate::tree::spec_get(map, root, k) is Corrupt)
}

/// From a readable, content-addressed state, a fold of fixed-width pairs
/// never fails, and it leaves the state readable and content-addressed.
/// In particular every fold from the empty tree succeeds.
pub proof fn lemma_inserts_succeed<H: Hasher>(
    h: H,
    map: Map<Seq<u8>, Seq<u8>>,
    root: Option<Seq<u8>>,
    pairs: Seq<(Seq<u8>, Seq<u8>)>,
)
    requires
        digest_injective(h),
        digest_wide(h),
        content_addressed(h, map),
        all_keys_readable(map, root),
        forall|i: int| 0 <= i < pairs.len() ==> (#[trigger] pairs[i].0).len() == HASH_LEN,
        forall|i: int| 0 <= i < pairs.len() ==> (#[trigger] pairs[i].1).len() == HASH_LEN,
    ensures
        spec_inserts(h, map, root, pairs) is Some,
        ({
            let out = spec_inserts(h, map, root, pairs)->Some_0;
            &&& content_addressed(h, out.0)
            &&& all_keys_readable(out.0, out.1)
        }),
    decreases pairs.len(),
{
    if pairs.len() == 0 {
    } else {
        let p0 = pairs[0];
        assert(spec_insert(h, map, root, p0.0, p0.1) is Some) by {
            match root {
                None => {},
                Some(rt) => {
                    lemma_put_mirrors_lookup(h, map, rt, 0, key_bits(p0.0), p0.1);
                    assert(!(crate::tree::spec_get(map, root, p0.0) is Corrupt));
                },
            }
        }
        let step = spec_insert(h, map, root, p0.0, p0.1)->Some_0;
        lemma_insert_then_get(h, map, root, p0.0, p0.1);
        assert(all_keys_readable(step.0, Some(step.1))) by {
            assert forall|k: Seq<u8>| k.len() == HASH_LEN implies !(#[trigger] crate::tree::spec_get(
                step.0,
                Some(step.1),
                k,
            ) is Corrupt) by {
                if k == p0.0 {
                } else {
                    lemma_insert_preserves_other_keys(h, map, root, p0.0, p0.1, k);
                }
            }
        }
        lemma_inserts_succeed(h, step.0, Some(step.1), pairs.skip(1));
        assert(forall|i: int| 0 <= i < pairs.skip(1).len() ==> (#[trigger] pairs.skip(1)[i].0).len()
            == HASH_LEN && pairs.skip(1)[i].1.len() == HASH_LEN);
    }
}

/// Removal mirrors lookup outcome for outcome: a removal reports the
/// key absent exactly when a lookup misses it, rewrites or empties the
/// tree exactly when a lookup finds it, and fails exactly when the
/// state is corrupt.
pub proof fn lemma_del_mirrors_lookup<H: Hasher>(
    h: H,
    map: Map<Seq<u8>, Seq<u8>>,
    root: Seq<u8>,
    kbits: Seq<bool>,
)
    ensures
        spec_del(h, map, root, kbits) == Some(SpecDelete::NotPresent) <==> spec_find(
            map,
            root,
            kbits,
        ) is Missing,
        (spec_del(h, map, root, kbits) matches Some(d) && !(d is NotPresent)) <==> spec_find(
            map,
            root,
            kbits,
        ) is Found,
        spec_del(h, map, root, kbits) is None <==> spec_find(map, root, kbits) is Corrupt,
    decreases kbits.len(),
{
    reveal(crate::tree::spec_del);
    reveal(crate::tree::spec_find);
    if map.contains_key(root) && kbits.len() > 0 {
        let cells = spec_cells(map[root], kbits[0]);
        if cells is Some {
            let u = cells->Some_0.0;
            let n = lcp_len(u.bits, kbits);
            if n != kbits.len() && n == u.bits.len() && n != 0 {
                crate::tree::lemma_lcp_bound(u.bits, kbits);
                lemma_del_mirrors_lookup(h, map, u.hash, kbits.skip(n as int));
            }
        }
    }
}

/// After a removal that rewrote the tree, the removed key reads absent
/// from the new root, and the state stays content-addressed.
proof fn lemma_del_then_find<H: Hasher>(
    h: H,
    map: Map<Seq<u8>, Seq<u8>>,
    root: Seq<u8>,
    kbits: Seq<bool>,
)
    requires
        digest_injective(h),
        digest_wide(h),
        content_addressed(h, map),
        spec_del(h, map, root, kbits) matches Some(d) && d is NewRoot,
        kbits.len() > 0,
    ensures
        ({
            let d = spec_del(h, map, root, kbits)->Some_0;
            &&& content_addressed(h, d->NewRoot_map)
            &&& spec_find(d->NewRoot_map, d->NewRoot_root, kbits) is Missing
        }),
    decreases kbits.len(),
{
    reveal(crate::tree::spec_del);
    let bytes = map[root];
    lemma_parse_wf(bytes);
    let cells = spec_cells(bytes, kbits[0]);
    let u = cells->Some_0.0;
    let sib = cells->Some_0.1;
    let n = lcp_len(u.bits, kbits);
    lemma_lcp_props(u.bits, kbits);
    crate::tree::lemma_lcp_bound(u.bits, kbits);
    assert(spec_unit_wf(u));
    assert(sib matches Some(s) ==> spec_unit_wf(s) && s.bits[0] != kbits[0]);
    assert(n >= 1 ==> u.bits[0] == kbits[0]);
    if n == kbits.len() {
        // the sibling is promoted into a Soft node; the removed key's
        // first bit diverges from the sibling's path at once
        let s = sib->Some_0;
        let top = SpecNode::Soft(s);
        assert(spec_node_wf(top));
        lemma_ca_put_node(h, map, top);
        lemma_find_at_new_node(h, map, top, s, kbits);
        lemma_lcp_char(s.bits, kbits, 0);
    } else {
        // consume & descend: what the child reported decides this level
        assert(n == u.bits.len() && n != 0);
        let sub = spec_del(h, map, u.hash, kbits.skip(n as int));
        match sub->Some_0 {
            SpecDelete::NotPresent => {
                assert(false);
            },
            SpecDelete::Empty => {
                let s = sib->Some_0;
                let top = SpecNode::Soft(s);
                assert(spec_node_wf(top));
                lemma_ca_put_node(h, map, top);
                lemma_find_at_new_node(h, map, top, s, kbits);
                lemma_lcp_char(s.bits, kbits, 0);
            },
            SpecDelete::NewRoot { map: m1, root: h1 } => {
                lemma_del_then_find(h, map, u.hash, kbits.skip(n as int));
                let rewired = SpecUnit { hash: h1, start: u.start, bits: u.bits };
                assert(spec_unit_wf(rewired));
                let top = crate::tree::spec_node_of(rewired, sib);
                assert(spec_node_wf(top));
                lemma_ca_put_node(h, m1, top);
                lemma_find_at_new_node(h, m1, top, rewired, kbits);
                assert(lcp_len(rewired.bits, kbits) == n);
                lemma_find_insert_stable(
                    h,
                    m1,
                    crate::node::spec_node_ser(top),
                    h1,
                    kbits.skip(n as int),
                );
            },
        }
    }
}

/// Remove then get: after any removal that reports success, the removed
/// key reads absent, whether the key was never there, was the last one,
/// or left a rewritten tree behind. Holds over any content-addressed
/// state and for any collision-free, digest-wide hasher.
pub proof fn lemma_remove_then_get<H: Hasher>(
    h: H,
    map: Map<Seq<u8>, Seq<u8>>,
    root: Option<Seq<u8>>,
    key: Seq<u8>,
)
    requires
        digest_injective(h),
        digest_wide(h),
        content_addressed(h, map),
        key.len() == HASH_LEN,
        spec_remove(h, map, root, key) is Some,
    ensures
        ({
            let out = spec_remove(h, map, root, key)->Some_0;
            crate::tree::spec_get(out.0, out.1, key) is Missing
        }),
{
    let kb = key_bits(key);
    assert(kb.len() == 256);
    match root {
        None => {},
        Some(rt) => {
            lemma_del_mirrors_lookup(h, map, rt, kb);
            match spec_del(h, map, rt, kb)->Some_0 {
                SpecDelete::NotPresent => {},
                SpecDelete::Empty => {},
                SpecDelete::NewRoot { map: m2, root: r2 } => {
                    lemma_del_then_find(h, map, rt, kb);
                },
            }
        },
    }
}

/// A content-addressed map: every entry is stored under the digest of
/// its bytes, as the tree's write primitive guarantees for every node it
/// emits.
pub open spec fn content_addressed<H: Hasher>(h: H, map: Map<Seq<u8>, Seq<u8>>) -> bool {
    forall|k: Seq<u8>| #[trigger] map.contains_key(k) ==> h.digest_spec(map[k]) == k
}

/// A collision-free hasher: distinct byte strings get distinct digests.
/// This idealizes the collision resistance a cryptographic hasher is
/// chosen for; what rests on it holds up to hash collisions.
pub open spec fn digest_injective<H: Hasher>(h: H) -> bool {
    forall|a: Seq<u8>, b: Seq<u8>|
        #[trigger] h.digest_spec(a) == #[trigger] h.digest_spec(b) ==> a == b
}

/// A digest-wide hasher: every digest is 32 bytes, as the `Hasher`
/// trait's executable contract guarantees of every implementation.
pub open spec fn digest_wide<H: Hasher>(h: H) -> bool {
    forall|b: Seq<u8>| (#[trigger] h.digest_spec(b)).len() == HASH_LEN
}

/// Writing a node under its own digest keeps a map content-addressed.
proof fn lemma_ca_put_node<H: Hasher>(h: H, map: Map<Seq<u8>, Seq<u8>>, n: SpecNode)
    requires
        content_addressed(h, map),
    ensures
        content_addressed(h, spec_put_node(h, map, n).0),
{
}

/// The first bits up to the longest common prefix agree, and the bit
/// just past it differs when both strings go on.
proof fn lemma_lcp_props(a: Seq<bool>, b: Seq<bool>)
    ensures
        forall|k: int| 0 <= k < lcp_len(a, b) ==> a[k] == b[k],
        lcp_len(a, b) < a.len() && lcp_len(a, b) < b.len() ==> a[lcp_len(a, b) as int]
            != b[lcp_len(a, b) as int],
    decreases a.len(),
{
    crate::tree::lemma_lcp_bound(a, b);
    if a.len() > 0 && b.len() > 0 && a[0] == b[0] {
        lemma_lcp_props(a.skip(1), b.skip(1));
        let n = lcp_len(a, b);
        assert forall|k: int| 0 <= k < n implies a[k] == b[k] by {
            if k > 0 {
                assert(a.skip(1)[k - 1] == b.skip(1)[k - 1]);
            }
        }
        if n < a.len() && n < b.len() {
            assert(a.skip(1)[n - 1] != b.skip(1)[n - 1]);
        }
    }
}

/// Writing one content-addressed entry does not disturb any descent that
/// was not already corrupt: an overwrite under a digest key can only
/// rewrite the same bytes.
proof fn lemma_find_insert_stable<H: Hasher>(
    h: H,
    m: Map<Seq<u8>, Seq<u8>>,
    b: Seq<u8>,
    root: Seq<u8>,
    kb: Seq<bool>,
)
    requires
        content_addressed(h, m),
        digest_injective(h),
        !(spec_find(m, root, kb) is Corrupt),
    ensures
        spec_find(m.insert(h.digest_spec(b), b), root, kb) == spec_find(m, root, kb),
    decreases kb.len(),
{
    reveal(crate::tree::spec_find);
    let d = h.digest_spec(b);
    let m2 = m.insert(d, b);
    assert(m.contains_key(root) && kb.len() > 0);
    assert(m2[root] == m[root]) by {
        if root == d {
            assert(h.digest_spec(m[root]) == root);
            assert(m[root] == b);
        }
    }
    let cells = spec_cells(m[root], kb[0]);
    let u = cells->Some_0.0;
    let n = lcp_len(u.bits, kb);
    if cells is Some && n != kb.len() && n == u.bits.len() && n != 0 {
        crate::tree::lemma_lcp_bound(u.bits, kb);
        lemma_find_insert_stable(h, m, b, u.hash, kb.skip(n as int));
    }
}

/// Re-inserting the pursued digest into a node's proof frame restores
/// the node's exact bytes.
proof fn lemma_frame_reconstruct(bytes: Seq<u8>, right: bool)
    requires
        spec_node_parse(bytes) is Some,
    ensures
        ({
            let u = spec_cells(bytes, right)->Some_0.0;
            let f = spec_encode_frame(bytes, right);
            let c = f.1;
            &&& c.len() > 0
            &&& (f.0 ==> c.take(c.len() - 1) + u.hash + c.skip(c.len() - 1) == bytes)
            &&& (!f.0 ==> u.hash + c == bytes)
        }),
{
    let body = bytes.drop_last();
    let n = spec_node_parse(bytes)->Some_0;
    match n {
        SpecNode::Soft(su) => {
            assert(su.hash =~= bytes.take(32));
            assert(bytes.take(32) + bytes.skip(32) =~= bytes);
        },
        SpecNode::Hard(l, r) => {
            let sz = spec_parse_cell_fwd(body)->Some_0.1;
            if right {
                let bs = body.skip(sz);
                assert(r.hash == bs.skip(bs.len() - 32));
                assert(r.hash =~= bytes.subrange(bytes.len() - 33, bytes.len() - 1));
                let f = spec_encode_frame(bytes, right);
                let c = f.1;
                assert(c.len() == bytes.len() - 32);
                assert(c.take(c.len() - 1) =~= bytes.take(bytes.len() - 33));
                assert(c.skip(c.len() - 1) =~= seq![1u8]);
                assert(bytes.last() == 1u8);
                assert(c.take(c.len() - 1) + r.hash + c.skip(c.len() - 1) =~= bytes);
            } else {
                assert(l.hash =~= bytes.take(32));
                assert(bytes.take(32) + bytes.skip(32) =~= bytes);
            }
        },
    }
}

/// Soundness companion of proof generation: folding a generated proof
/// from the leaf the tree holds reconstructs exactly the traversed nodes
/// and lands on the root digest, for any content-addressed state. The
/// verifier therefore accepts every proof the generator emits.
pub proof fn lemma_generated_proof_verifies<H: Hasher>(
    h: H,
    map: Map<Seq<u8>, Seq<u8>>,
    root: Seq<u8>,
    kbits: Seq<bool>,
)
    requires
        content_addressed(h, map),
        spec_gen_proof(map, root, kbits) matches Some(o) && o is Some,
        spec_find(map, root, kbits) is Found,
    ensures
        spec_fold_proof(
            h,
            spec_find(map, root, kbits)->Found_0,
            spec_gen_proof(map, root, kbits)->Some_0->Some_0,
        ) == root,
    decreases kbits.len(),
{
    reveal(crate::tree::spec_gen_proof);
    reveal(crate::tree::spec_find);
    let frames = spec_gen_proof(map, root, kbits)->Some_0->Some_0;
    let leaf = spec_find(map, root, kbits)->Found_0;
    let bytes = map[root];
    let cells = spec_cells(bytes, kbits[0]);
    let u = cells->Some_0.0;
    let n = lcp_len(u.bits, kbits);
    let f = spec_encode_frame(bytes, kbits[0]);
    lemma_frame_reconstruct(bytes, kbits[0]);
    assert(map.contains_key(root));
    if n == kbits.len() {
        assert(leaf == u.hash);
        assert(frames == seq![f]);
        assert(frames[0] == f);
        assert(frames.skip(1) =~= Seq::<(bool, Seq<u8>)>::empty());
        assert(spec_fold_proof(h, leaf, frames.skip(1)) == leaf);
        assert(spec_fold_proof(h, leaf, frames) == h.digest_spec(bytes));
        assert(h.digest_spec(map[root]) == root);
    } else {
        assert(n == u.bits.len() && n != 0);
        let rest = spec_gen_proof(map, u.hash, kbits.skip(n as int))->Some_0->Some_0;
        assert(spec_find(map, u.hash, kbits.skip(n as int)) is Found);
        assert(spec_find(map, u.hash, kbits.skip(n as int))->Found_0 == leaf);
        crate::tree::lemma_lcp_bound(u.bits, kbits);
        lemma_generated_proof_verifies(h, map, u.hash, kbits.skip(n as int));
        assert(spec_fold_proof(h, leaf, rest) == u.hash);
        assert(frames == seq![f] + rest);
        assert(frames[0] == f);
        assert(frames.skip(1) =~= rest);
        assert(spec_fold_proof(h, leaf, frames) == h.digest_spec(bytes));
        assert(h.digest_spec(map[root]) == root);
    }
}

} // verus!
