//! The inner-node record of the tree: a one-child (Soft) or two-child
//! (Hard) node, each child a digest plus a compressed bit-path, with a
//! canonical byte serialization whose digests sit at the outermost
//! positions.
use vstd::prelude::*;

verus! {

use crate::HASH_LEN;
use crate::bits::Bits;
use crate::bits::be_pair_val;
use crate::bits::packed_bytes;
use crate::bits::packed_bit;
use crate::bits::lemma_packed_bytes_bit;
use crate::bits::spec_bits_ser;
use crate::utils::bit_at;
use crate::utils::bits_view;
use crate::utils::nbytes_across;
use crate::utils::spec_nbytes_across;

/// The ghost shape of one child reference: its digest, the bit offset its
/// path is laid out at, and the path bits themselves.
#[verifier::ext_equal]
pub ghost struct SpecUnit {
    pub hash: Seq<u8>,
    pub start: int,
    pub bits: Seq<bool>,
}

/// The ghost shape of a node.
#[verifier::ext_equal]
pub ghost enum SpecNode {
    Soft(SpecUnit),
    Hard(SpecUnit, SpecUnit),
}

/// A well-formed child reference: a digest-wide hash, a nonempty path that
/// starts inside its first byte and whose end tag fits the wire width.
pub open spec fn spec_unit_wf(u: SpecUnit) -> bool {
    &&& u.hash.len() == HASH_LEN
    &&& 0 <= u.start < 8
    &&& u.bits.len() > 0
    &&& u.start + u.bits.len() <= 0xffff
}

/// A well-formed node: well-formed children, and for a Hard node two
/// paths that differ in their first bit.
pub open spec fn spec_node_wf(n: SpecNode) -> bool {
    match n {
        SpecNode::Soft(u) => spec_unit_wf(u),
        SpecNode::Hard(a, b) => spec_unit_wf(a) && spec_unit_wf(b) && a.bits[0] != b.bits[0],
    }
}

/// The serialized form of one child's path.
pub open spec fn spec_unit_bits_ser(u: SpecUnit) -> Seq<u8> {
    spec_bits_ser(u.start, u.bits)
}

/// The canonical serialized node: for a Soft node `hash ‖ path ‖ 0x00`;
/// for a Hard node `left.hash ‖ left.path ‖ right.path ‖ right.hash ‖
/// 0x01`, with the child whose path starts with bit 0 on the left.
pub open spec fn spec_node_ser(n: SpecNode) -> Seq<u8> {
    match n {
        SpecNode::Soft(u) => u.hash + spec_unit_bits_ser(u) + seq![0u8],
        SpecNode::Hard(a, b) => {
            let l = if b.bits.len() > 0 && b.bits[0] {
                a
            } else {
                b
            };
            let r = if b.bits.len() > 0 && b.bits[0] {
                b
            } else {
                a
            };
            l.hash + spec_unit_bits_ser(l) + spec_unit_bits_ser(r) + r.hash + seq![1u8]
        },
    }
}

/// A node with its Hard children put in emit order: path starting with
/// bit 0 first.
pub open spec fn spec_node_normal(n: SpecNode) -> SpecNode {
    match n {
        SpecNode::Soft(u) => n,
        SpecNode::Hard(a, b) => {
            if b.bits.len() > 0 && b.bits[0] {
                n
            } else {
                SpecNode::Hard(b, a)
            }
        },
    }
}

/// Parse one child laid out hash-first: `hash(32) ‖ start(2) ‖ end(2) ‖
/// path`, returning the child and the bytes consumed.
pub open spec fn spec_parse_cell_fwd(bytes: Seq<u8>) -> Option<(SpecUnit, int)> {
    if bytes.len() < 36 {
        None
    } else {
        let s = be_pair_val(bytes, 32);
        let e = be_pair_val(bytes, 34);
        if s < e && s < 8 {
            let nb = spec_nbytes_across(s, e);
            if 36 + nb <= bytes.len() {
                Some(
                    (
                        SpecUnit {
                            hash: bytes.take(32),
                            start: s,
                            bits: bits_view(bytes.subrange(36, 36 + nb), s, e),
                        },
                        36 + nb,
                    ),
                )
            } else {
                None
            }
        } else {
            None
        }
    }
}

/// Parse one child laid out hash-last: `start(2) ‖ end(2) ‖ path ‖
/// hash(32)`, consuming the whole slice.
pub open spec fn spec_parse_cell_back(bytes: Seq<u8>) -> Option<SpecUnit> {
    if bytes.len() < 36 {
        None
    } else {
        let s = be_pair_val(bytes, 0);
        let e = be_pair_val(bytes, 2);
        if s < e && s < 8 {
            let nb = spec_nbytes_across(s, e);
            if 4 + nb + 32 == bytes.len() {
                Some(
                    SpecUnit {
                        hash: bytes.skip(bytes.len() - 32),
                        start: s,
                        bits: bits_view(bytes.subrange(4, 4 + nb), s, e),
                    },
                )
            } else {
                None
            }
        } else {
            None
        }
    }
}

/// Parse a serialized node, dispatching on the trailing tag byte; `None`
/// on any malformed layout.
pub open spec fn spec_node_parse(bytes: Seq<u8>) -> Option<SpecNode> {
    if bytes.len() == 0 {
        None
    } else if bytes.last() == 0u8 {
        let body = bytes.drop_last();
        match spec_parse_cell_fwd(body) {
            Some((u, sz)) => if sz == body.len() {
                Some(SpecNode::Soft(u))
            } else {
                None
            },
            None => None,
        }
    } else if bytes.last() == 1u8 {
        let body = bytes.drop_last();
        match spec_parse_cell_fwd(body) {
            Some((l, sz)) => match spec_parse_cell_back(body.skip(sz)) {
                Some(r) => if !l.bits[0] && r.bits[0] {
                    Some(SpecNode::Hard(l, r))
                } else {
                    None
                },
                None => None,
            },
            None => None,
        }
    } else {
        None
    }
}

/// What the descent sees after decoding a node in direction `right`: the
/// pursued child first, the sibling (if any) second.
pub open spec fn spec_cells(bytes: Seq<u8>, right: bool) -> Option<(SpecUnit, Option<SpecUnit>)> {
    match spec_node_parse(bytes) {
        Some(SpecNode::Soft(u)) => Some((u, None)),
        Some(SpecNode::Hard(l, r)) => if right {
            Some((r, Some(l)))
        } else {
            Some((l, Some(r)))
        },
        None => None,
    }
}

/// A component of a node: a real child or a vacant slot.
pub type Cell = Option<Unit>;

/// One child of a node: a digest together with the bit-path from this node
/// down to that child.
#[derive(Debug, Clone, PartialEq)]
pub struct Unit {
    pub hash: Vec<u8>,
    pub bits: Bits,
}

impl View for Unit {
    type V = SpecUnit;

    open spec fn view(&self) -> SpecUnit {
        SpecUnit { hash: self.hash@, start: self.bits.start as int, bits: self.bits@ }
    }
}

impl Unit {
    /// Well-formed: digest-wide hash and a nonempty, well-formed path.
    pub open spec fn wf(self) -> bool {
        &&& self.hash@.len() == HASH_LEN
        &&& self.bits.wf()
        &&& self.bits@.len() > 0
    }

    /// An identical copy of this child reference.
    pub fn dup(&self) -> (r: Unit)
        ensures
            r@ == self@,
            r.hash@ == self.hash@,
            r.bits.start == self.bits.start,
            r.bits.end == self.bits.end,
            r.bits.path@ == self.bits.path@,
    {
        Unit { hash: self.hash.clone(), bits: self.bits.dup() }
    }
}

/// An inner record of the tree: Soft has a single child, Hard has two.
#[derive(Debug, Clone, PartialEq)]
pub enum Node {
    Soft(Cell),
    Hard(Cell, Cell),
}

impl View for Node {
    type V = SpecNode;

    open spec fn view(&self) -> SpecNode {
        match self {
            Node::Soft(c) => SpecNode::Soft(spec_cell_view(*c)),
            Node::Hard(a, b) => SpecNode::Hard(spec_cell_view(*a), spec_cell_view(*b)),
        }
    }
}

/// The ghost shape of a cell; a vacant slot shows up as an empty unit,
/// which well-formedness rules out.
pub open spec fn spec_cell_view(c: Cell) -> SpecUnit {
    match c {
        Some(u) => u@,
        None => SpecUnit { hash: Seq::empty(), start: 0, bits: Seq::empty() },
    }
}

impl Node {
    /// Well-formed: no vacant slots, well-formed children, and distinct
    /// first bits on a Hard node's two paths.
    pub open spec fn wf(self) -> bool {
        match self {
            Node::Soft(c) => c matches Some(u) && u.wf(),
            Node::Hard(a, b) => {
                &&& a matches Some(ua)
                &&& ua.wf()
                &&& b matches Some(ub)
                &&& ub.wf()
                &&& ua.bits@[0] != ub.bits@[0]
            },
        }
    }

    /// Build a node from one or two children: one child makes a Soft node,
    /// two make a Hard node.
    pub fn new(lc: Cell, rc: Cell) -> (r: Node)
        requires
            lc is Some || rc is Some,
        ensures
            lc is Some && rc is None ==> r == Node::Soft(lc),
            lc is None && rc is Some ==> r == Node::Soft(rc),
            lc is Some && rc is Some ==> r == Node::Hard(lc, rc),
    {
        match (&lc, &rc) {
            (Some(_), None) => Node::Soft(lc),
            (None, Some(_)) => Node::Soft(rc),
            _ => Node::Hard(lc, rc),
        }
    }

    /// Serialize this node into its canonical byte form.
    pub fn to_bytes(&self) -> (r: Result<Vec<u8>, crate::Errors>)
        requires
            self.wf(),
        ensures
            r matches Ok(v) && v@ == spec_node_ser(self@),
    {
        match self {
            Node::Soft(c) => {
                let u = c.as_ref().unwrap();
                let mut out: Vec<u8> = Vec::new();
                out.extend_from_slice(u.hash.as_slice());
                let bb = match u.bits.to_bytes() {
                    Ok(v) => v,
                    Err(e) => {
                        return Err(e);
                    },
                };
                out.extend_from_slice(bb.as_slice());
                out.push(0u8);
                proof {
                    assert(out@ =~= spec_node_ser(self@));
                }
                Ok(out)
            },
            Node::Hard(a, b) => {
                let ua = a.as_ref().unwrap();
                let ub = b.as_ref().unwrap();
                let swap: bool = !ub.bits.first();
                let (lu, ru) = if swap {
                    (ub, ua)
                } else {
                    (ua, ub)
                };
                let mut out: Vec<u8> = Vec::new();
                out.extend_from_slice(lu.hash.as_slice());
                let lb = match lu.bits.to_bytes() {
                    Ok(v) => v,
                    Err(e) => {
                        return Err(e);
                    },
                };
                out.extend_from_slice(lb.as_slice());
                let rb = match ru.bits.to_bytes() {
                    Ok(v) => v,
                    Err(e) => {
                        return Err(e);
                    },
                };
                out.extend_from_slice(rb.as_slice());
                out.extend_from_slice(ru.hash.as_slice());
                out.push(1u8);
                proof {
                    assert(out@ =~= spec_node_ser(self@));
                }
                Ok(out)
            },
        }
    }
    /// Construct the two descent cells by deserializing a node: the
    /// pursued child (per the `right` direction) first, the sibling
    /// second; for a Soft node the second cell is vacant.
    pub fn cells_from_bytes(bytes: &[u8], right: bool) -> (r: Result<(Cell, Cell), crate::Errors>)
        ensures
            r matches Ok(c) ==> {
                &&& spec_cells(bytes@, right) matches Some(sc)
                &&& c.0 matches Some(u) && u.wf() && u@ == sc.0
                &&& (sc.1 is None <==> c.1 is None)
                &&& (sc.1 matches Some(su) ==> c.1 matches Some(u1) && u1.wf() && u1@ == su)
            },
            r is Err <==> spec_node_parse(bytes@) is None,
    {
        match Node::from_bytes(bytes) {
            Ok(Node::Soft(cell)) => Ok((cell, None)),
            Ok(Node::Hard(lc, rc)) => {
                if right {
                    Ok((rc, lc))
                } else {
                    Ok((lc, rc))
                }
            },
            Err(e) => Err(e),
        }
    }

    /// Construct a node by deserializing its canonical byte form; a
    /// malformed tag or layout is a decode error.
    pub fn from_bytes(bytes: &[u8]) -> (r: Result<Node, crate::Errors>)
        ensures
            r matches Ok(n) ==> n.wf() && spec_node_parse(bytes@) == Some(n@),
            r is Err <==> spec_node_parse(bytes@) is None,
    {
        let l: usize = bytes.len();
        if l == 0 {
            return Err(crate::Errors::new("node decode: empty buffer"));
        }
        let tag: u8 = bytes[l - 1];
        let body: &[u8] = vstd::slice::slice_subrange(bytes, 0, l - 1);
        proof {
            assert(body@ =~= bytes@.drop_last());
        }
        if tag == 0x00 {
            let (u, sz) = match parse_unit_front(body) {
                Ok(p) => p,
                Err(e) => {
                    return Err(e);
                },
            };
            if sz != l - 1 {
                return Err(crate::Errors::new("node decode: trailing bytes"));
            }
            Ok(Node::Soft(Some(u)))
        } else if tag == 0x01 {
            let (lu, sz) = match parse_unit_front(body) {
                Ok(p) => p,
                Err(e) => {
                    return Err(e);
                },
            };
            let back: &[u8] = vstd::slice::slice_subrange(body, sz, l - 1);
            proof {
                assert(back@ =~= bytes@.drop_last().skip(sz as int));
            }
            let ru = match parse_unit_back(back) {
                Ok(u) => u,
                Err(e) => {
                    return Err(e);
                },
            };
            if lu.bits.first() {
                return Err(crate::Errors::new("node decode: left path starts with 1"));
            }
            if !ru.bits.first() {
                return Err(crate::Errors::new("node decode: right path starts with 0"));
            }
            Ok(Node::Hard(Some(lu), Some(ru)))
        } else {
            Err(crate::Errors::new("node decode: unknown tag"))
        }
    }
}

/// Parse one child laid out hash-first from the head of a slice.
fn parse_unit_front(bytes: &[u8]) -> (r: Result<(Unit, usize), crate::Errors>)
    ensures
        r matches Ok(p) ==> {
            &&& spec_parse_cell_fwd(bytes@) == Some((p.0@, p.1 as int))
            &&& p.0.wf()
            &&& 36 <= p.1 <= bytes@.len()
        },
        r is Err <==> spec_parse_cell_fwd(bytes@) is None,
{
    let l: usize = bytes.len();
    if l < 36 {
        return Err(crate::Errors::new("cell decode: buffer too short"));
    }
    let s: u16 = (bytes[32] as u16) * 256 + (bytes[33] as u16);
    let e: u16 = (bytes[34] as u16) * 256 + (bytes[35] as u16);
    if !(s < e && s < 8) {
        return Err(crate::Errors::new("cell decode: bad bit range"));
    }
    let nb: usize = nbytes_across(s, e) as usize;
    if l - 36 < nb {
        return Err(crate::Errors::new("cell decode: path truncated"));
    }
    let hash: Vec<u8> = vstd::slice::slice_to_vec(vstd::slice::slice_subrange(bytes, 0, 32));
    let path: Vec<u8> = vstd::slice::slice_to_vec(vstd::slice::slice_subrange(bytes, 36, 36 + nb));
    let bits = Bits { path, start: s, end: e };
    proof {
        assert(8 * spec_nbytes_across(s as int, e as int) >= e as int);
    }
    Ok((Unit { hash, bits }, 36 + nb))
}

/// Parse one child laid out hash-last, consuming the whole slice.
fn parse_unit_back(bytes: &[u8]) -> (r: Result<Unit, crate::Errors>)
    ensures
        r matches Ok(u) ==> spec_parse_cell_back(bytes@) == Some(u@) && u.wf(),
        r is Err <==> spec_parse_cell_back(bytes@) is None,
{
    let l: usize = bytes.len();
    if l < 36 {
        return Err(crate::Errors::new("cell decode: buffer too short"));
    }
    let s: u16 = (bytes[0] as u16) * 256 + (bytes[1] as u16);
    let e: u16 = (bytes[2] as u16) * 256 + (bytes[3] as u16);
    if !(s < e && s < 8) {
        return Err(crate::Errors::new("cell decode: bad bit range"));
    }
    let nb: usize = nbytes_across(s, e) as usize;
    if l - 36 != nb {
        return Err(crate::Errors::new("cell decode: size mismatch"));
    }
    let hash: Vec<u8> = vstd::slice::slice_to_vec(vstd::slice::slice_subrange(bytes, l - 32, l));
    let path: Vec<u8> = vstd::slice::slice_to_vec(vstd::slice::slice_subrange(bytes, 4, 4 + nb));
    let bits = Bits { path, start: s, end: e };
    proof {
        assert(8 * spec_nbytes_across(s as int, e as int) >= e as int);
    }
    Ok(Unit { hash, bits })
}

/// For a path starting inside its first byte, the byte count of the
/// packed form is the bytes the end tag rounds up to.
pub proof fn lemma_nbytes_of_packed(s: int, e: int)
    requires
        0 <= s < 8,
        s <= e,
    ensures
        spec_nbytes_across(s, e) == (e + 7) / 8,
        8 * spec_nbytes_across(s, e) >= e,
{
}

/// Parsing the packed bytes of a well-formed path hands the bits back.
proof fn lemma_packed_roundtrip(u: SpecUnit)
    requires
        spec_unit_wf(u),
    ensures
        bits_view(packed_bytes(u.start, u.bits), u.start, u.start + u.bits.len()) == u.bits,
{
    let e = u.start + u.bits.len();
    let packed = packed_bytes(u.start, u.bits);
    lemma_nbytes_of_packed(u.start, e);
    assert forall|k: int| 0 <= k < u.bits.len() implies bits_view(packed, u.start, e)[k]
        == u.bits[k] by {
        lemma_packed_bytes_bit(u.start, u.bits, u.start + k);
        assert(packed_bit(u.start, u.bits, u.start + k) == u.bits[k]);
    }
    assert(bits_view(packed, u.start, e) =~= u.bits);
}

/// A serialized child parses back, hash-first, from the head of any
/// longer buffer.
proof fn lemma_parse_cell_fwd_of_ser(u: SpecUnit, rest: Seq<u8>)
    requires
        spec_unit_wf(u),
    ensures
        ({
            let whole = u.hash + spec_unit_bits_ser(u) + rest;
            let nb = spec_nbytes_across(u.start, u.start + u.bits.len());
            spec_parse_cell_fwd(whole) == Some((u, 36 + nb))
        }),
{
    let e = u.start + u.bits.len();
    let bs = spec_unit_bits_ser(u);
    let whole = u.hash + bs + rest;
    lemma_nbytes_of_packed(u.start, e);
    let nb = spec_nbytes_across(u.start, e);
    assert(bs.len() == 4 + nb);
    assert(whole.len() == 36 + nb + rest.len());
    assert(whole[32] == bs[0] && whole[33] == bs[1] && whole[34] == bs[2] && whole[35] == bs[3]);
    assert(bs[0] == (u.start / 256) as u8 && bs[1] == (u.start % 256) as u8);
    assert(bs[2] == (e / 256) as u8 && bs[3] == (e % 256) as u8);
    assert(be_pair_val(whole, 32) == u.start);
    assert(be_pair_val(whole, 34) == e) by {
        assert(0 <= e / 256 < 256);
        assert((e / 256) as u8 == e / 256 && (e % 256) as u8 == e % 256);
    }
    assert(whole.take(32) =~= u.hash);
    assert(whole.subrange(36, 36 + nb) =~= packed_bytes(u.start, u.bits));
    lemma_packed_roundtrip(u);
    let parsed = spec_parse_cell_fwd(whole);
    assert(parsed matches Some(p) && p.0 =~= u && p.1 == 36 + nb);
}

/// A serialized child parses back, hash-last, from exactly its own bytes.
proof fn lemma_parse_cell_back_of_ser(u: SpecUnit)
    requires
        spec_unit_wf(u),
    ensures
        spec_parse_cell_back(spec_unit_bits_ser(u) + u.hash) == Some(u),
{
    let e = u.start + u.bits.len();
    let bs = spec_unit_bits_ser(u);
    let whole = bs + u.hash;
    lemma_nbytes_of_packed(u.start, e);
    let nb = spec_nbytes_across(u.start, e);
    assert(bs.len() == 4 + nb);
    assert(whole.len() == 36 + nb);
    assert(whole[0] == bs[0] && whole[1] == bs[1] && whole[2] == bs[2] && whole[3] == bs[3]);
    assert(be_pair_val(whole, 0) == u.start);
    assert(be_pair_val(whole, 2) == e) by {
        assert(0 <= e / 256 < 256);
        assert((e / 256) as u8 == e / 256 && (e % 256) as u8 == e % 256);
    }
    assert(whole.skip(whole.len() - 32) =~= u.hash);
    assert(whole.subrange(4, 4 + nb) =~= packed_bytes(u.start, u.bits));
    lemma_packed_roundtrip(u);
    let parsed = spec_parse_cell_back(whole);
    assert(parsed matches Some(p) && p =~= u);
}

/// Whatever parses is well-formed, and a parsed Hard node has its
/// children in emit order: first bits 0 then 1.
pub proof fn lemma_parse_wf(bytes: Seq<u8>)
    ensures
        spec_node_parse(bytes) matches Some(n) ==> spec_node_wf(n) && (n matches SpecNode::Hard(
            l,
            r,
        ) ==> !l.bits[0] && r.bits[0]),
{
    if spec_node_parse(bytes) matches Some(n) {
        let body = bytes.drop_last();
        if bytes.last() == 0u8 {
            let p = spec_parse_cell_fwd(body);
            assert(p matches Some(q) && spec_unit_wf(q.0)) by {
                lemma_parse_cell_fwd_wf(body);
            }
        } else {
            let p = spec_parse_cell_fwd(body);
            assert(p matches Some(q) && spec_unit_wf(q.0)) by {
                lemma_parse_cell_fwd_wf(body);
            }
            let sz = p->Some_0.1;
            assert(spec_parse_cell_back(body.skip(sz)) matches Some(u) && spec_unit_wf(u)) by {
                lemma_parse_cell_back_wf(body.skip(sz));
            }
        }
    }
}

proof fn lemma_parse_cell_fwd_wf(bytes: Seq<u8>)
    ensures
        spec_parse_cell_fwd(bytes) matches Some(p) ==> spec_unit_wf(p.0) && p.0.bits.len()
            == be_pair_val(bytes, 34) - be_pair_val(bytes, 32),
{
    if spec_parse_cell_fwd(bytes) matches Some(p) {
        let s = be_pair_val(bytes, 32);
        let e = be_pair_val(bytes, 34);
        assert(0 <= s && e <= 255 * 256 + 255);
        lemma_nbytes_of_packed(s, e);
    }
}

proof fn lemma_parse_cell_back_wf(bytes: Seq<u8>)
    ensures
        spec_parse_cell_back(bytes) matches Some(u) ==> spec_unit_wf(u),
{
    if spec_parse_cell_back(bytes) matches Some(u) {
        let s = be_pair_val(bytes, 0);
        let e = be_pair_val(bytes, 2);
        assert(0 <= s && e <= 255 * 256 + 255);
        lemma_nbytes_of_packed(s, e);
    }
}

/// Round trip: parsing a well-formed node's canonical bytes returns the
/// node, with its Hard children in emit order.
pub proof fn lemma_node_roundtrip(n: SpecNode)
    requires
        spec_node_wf(n),
    ensures
        spec_node_parse(spec_node_ser(n)) == Some(spec_node_normal(n)),
{
    match n {
        SpecNode::Soft(u) => {
            lemma_node_roundtrip_soft(u);
        },
        SpecNode::Hard(a, b) => {
            let l = if b.bits.len() > 0 && b.bits[0] {
                a
            } else {
                b
            };
            let r = if b.bits.len() > 0 && b.bits[0] {
                b
            } else {
                a
            };
            assert(!l.bits[0] && r.bits[0]);
            lemma_node_roundtrip_hard(l, r);
            assert(spec_node_ser(n) == spec_node_ser(SpecNode::Hard(l, r)));
            assert(spec_node_normal(n) == SpecNode::Hard(l, r));
        },
    }
}

proof fn lemma_node_roundtrip_soft(u: SpecUnit)
    requires
        spec_unit_wf(u),
    ensures
        spec_node_parse(spec_node_ser(SpecNode::Soft(u))) == Some(SpecNode::Soft(u)),
{
    let bs = spec_unit_bits_ser(u);
    let ser = u.hash + bs + seq![0u8];
    lemma_nbytes_of_packed(u.start, u.start + u.bits.len());
    let nb = spec_nbytes_across(u.start, u.start + u.bits.len());
    assert(ser.last() == 0u8);
    assert(ser.drop_last() =~= u.hash + bs + Seq::<u8>::empty());
    lemma_parse_cell_fwd_of_ser(u, Seq::empty());
    assert(ser.drop_last().len() == 36 + nb);
    assert(spec_node_parse(ser) == Some(SpecNode::Soft(u)));
}

#[verifier::rlimit(100)]
proof fn lemma_node_roundtrip_hard(l: SpecUnit, r: SpecUnit)
    requires
        spec_unit_wf(l),
        spec_unit_wf(r),
        !l.bits[0],
        r.bits[0],
    ensures
        spec_node_parse(spec_node_ser(SpecNode::Hard(l, r))) == Some(SpecNode::Hard(l, r)),
{
    let lbs = spec_unit_bits_ser(l);
    let rbs = spec_unit_bits_ser(r);
    let ser = spec_node_ser(SpecNode::Hard(l, r));
    assert(ser == l.hash + lbs + rbs + r.hash + seq![1u8]);
    lemma_nbytes_of_packed(l.start, l.start + l.bits.len());
    lemma_nbytes_of_packed(r.start, r.start + r.bits.len());
    let nbl = spec_nbytes_across(l.start, l.start + l.bits.len());
    assert(ser.last() == 1u8);
    let body = ser.drop_last();
    assert(body =~= l.hash + lbs + (rbs + r.hash));
    lemma_parse_cell_fwd_of_ser(l, rbs + r.hash);
    assert(spec_parse_cell_fwd(body) == Some((l, 36 + nbl)));
    assert(body.skip(36 + nbl) =~= rbs + r.hash);
    lemma_parse_cell_back_of_ser(r);
    assert(spec_node_parse(ser) == Some(SpecNode::Hard(l, r)));
}

} // verus!
