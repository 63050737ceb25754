//! A bit-slice view over a byte buffer: a half-open bit range together with
//! the bytes that hold it, with prefix/suffix splits, longest-common-prefix,
//! and a canonical length-tagged serialization.
use vstd::prelude::*;

verus! {

use crate::BitsLen;
use crate::utils::bit;
use crate::utils::bit_at;
use crate::utils::bits_view;
use crate::utils::len_lcp;
use crate::utils::nbytes_across;
use crate::utils::spec_nbytes_across;

/// Whether the bit at offset `i` of the packed byte form lies inside the
/// range and is set.
pub open spec fn packed_bit(start: int, bits: Seq<bool>, i: int) -> bool {
    start <= i < start + bits.len() && bits[i - start]
}

/// Byte `j` of the packed byte form: the eight bits at offsets
/// `8j .. 8j+8`, weighted MSB-first, with out-of-range bits zero.
pub open spec fn packed_byte(start: int, bits: Seq<bool>, j: int) -> u8 {
    ((if packed_bit(start, bits, 8 * j) {
        128int
    } else {
        0int
    }) + (if packed_bit(start, bits, 8 * j + 1) {
        64int
    } else {
        0int
    }) + (if packed_bit(start, bits, 8 * j + 2) {
        32int
    } else {
        0int
    }) + (if packed_bit(start, bits, 8 * j + 3) {
        16int
    } else {
        0int
    }) + (if packed_bit(start, bits, 8 * j + 4) {
        8int
    } else {
        0int
    }) + (if packed_bit(start, bits, 8 * j + 5) {
        4int
    } else {
        0int
    }) + (if packed_bit(start, bits, 8 * j + 6) {
        2int
    } else {
        0int
    }) + (if packed_bit(start, bits, 8 * j + 7) {
        1int
    } else {
        0int
    })) as u8
}

/// The packed byte form of a bit sequence laid out at bit offset `start`:
/// the minimal byte string holding bit positions `start .. start + len`,
/// with the padding bits on both ends masked to zero.
pub open spec fn packed_bytes(start: int, bits: Seq<bool>) -> Seq<u8> {
    Seq::new(((start + bits.len() + 7) / 8) as nat, |j: int| packed_byte(start, bits, j))
}

/// A 16-bit big-endian length tag.
pub open spec fn be16(x: int) -> Seq<u8> {
    seq![(x / 256) as u8, (x % 256) as u8]
}

/// The canonical serialized form of a bit slice: big-endian `start` and
/// `end` tags followed by the packed byte form.
pub open spec fn spec_bits_ser(start: int, bits: Seq<bool>) -> Seq<u8> {
    be16(start) + be16(start + bits.len()) + packed_bytes(start, bits)
}

/// A bit of the packed byte form reads back as `packed_bit` says.
pub proof fn lemma_packed_bytes_bit(start: int, bits: Seq<bool>, i: int)
    requires
        0 <= start < 8,
        0 <= i < 8 * ((start + bits.len() + 7) / 8),
    ensures
        bit_at(packed_bytes(start, bits), i) == packed_bit(start, bits, i),
{
    let j = i / 8;
    let r = i % 8;
    let v = packed_byte(start, bits, j);
    lemma_u8_from_weighted_bits(
        v,
        packed_bit(start, bits, 8 * j),
        packed_bit(start, bits, 8 * j + 1),
        packed_bit(start, bits, 8 * j + 2),
        packed_bit(start, bits, 8 * j + 3),
        packed_bit(start, bits, 8 * j + 4),
        packed_bit(start, bits, 8 * j + 5),
        packed_bit(start, bits, 8 * j + 6),
        packed_bit(start, bits, 8 * j + 7),
    );
    assert(packed_bytes(start, bits)[j] == v);
    assert(8 * j + r == i);
}

/// A byte assembled from eight weighted bools hands each bool back under
/// the matching shift.
proof fn lemma_u8_from_weighted_bits(
    v: u8,
    b0: bool,
    b1: bool,
    b2: bool,
    b3: bool,
    b4: bool,
    b5: bool,
    b6: bool,
    b7: bool,
)
    requires
        v as int == (if b0 {
            128int
        } else {
            0int
        }) + (if b1 {
            64int
        } else {
            0int
        }) + (if b2 {
            32int
        } else {
            0int
        }) + (if b3 {
            16int
        } else {
            0int
        }) + (if b4 {
            8int
        } else {
            0int
        }) + (if b5 {
            4int
        } else {
            0int
        }) + (if b6 {
            2int
        } else {
            0int
        }) + (if b7 {
            1int
        } else {
            0int
        }),
    ensures
        ((v >> 7u8) & 1 == 1) == b0,
        ((v >> 6u8) & 1 == 1) == b1,
        ((v >> 5u8) & 1 == 1) == b2,
        ((v >> 4u8) & 1 == 1) == b3,
        ((v >> 3u8) & 1 == 1) == b4,
        ((v >> 2u8) & 1 == 1) == b5,
        ((v >> 1u8) & 1 == 1) == b6,
        ((v >> 0u8) & 1 == 1) == b7,
{
    let x0: u8 = if b0 {
        1
    } else {
        0
    };
    let x1: u8 = if b1 {
        1
    } else {
        0
    };
    let x2: u8 = if b2 {
        1
    } else {
        0
    };
    let x3: u8 = if b3 {
        1
    } else {
        0
    };
    let x4: u8 = if b4 {
        1
    } else {
        0
    };
    let x5: u8 = if b5 {
        1
    } else {
        0
    };
    let x6: u8 = if b6 {
        1
    } else {
        0
    };
    let x7: u8 = if b7 {
        1
    } else {
        0
    };
    assert((x0 <= 1 && x1 <= 1 && x2 <= 1 && x3 <= 1 && x4 <= 1 && x5 <= 1 && x6 <= 1 && x7 <= 1
        && v == x0 * 128 + x1 * 64 + x2 * 32 + x3 * 16 + x4 * 8 + x5 * 4 + x6 * 2 + x7) ==> (((v
        >> 7u8) & 1 == 1) == (x0 == 1) && ((v >> 6u8) & 1 == 1) == (x1 == 1) && ((v >> 5u8) & 1
        == 1) == (x2 == 1) && ((v >> 4u8) & 1 == 1) == (x3 == 1) && ((v >> 3u8) & 1 == 1) == (x4
        == 1) && ((v >> 2u8) & 1 == 1) == (x5 == 1) && ((v >> 1u8) & 1 == 1) == (x6 == 1) && ((v
        >> 0u8) & 1 == 1) == (x7 == 1))) by (bit_vector);
}

/// Masking a byte keeps exactly the bit positions `lo <= r < hi`, MSB-first.
proof fn lemma_mask_byte_bits(x: u8, lo: u8, hi: u8, y: u8)
    requires
        lo <= 7,
        1 <= hi <= 8,
        y == x & (0xffu8 >> lo) & (if hi == 8 {
            0xffu8
        } else {
            !(0xffu8 >> hi)
        }),
    ensures
        ((y >> 7u8) & 1 == 1) <==> (lo == 0 && 0 < hi && (x >> 7u8) & 1 == 1),
        ((y >> 6u8) & 1 == 1) <==> (lo <= 1 && 1 < hi && (x >> 6u8) & 1 == 1),
        ((y >> 5u8) & 1 == 1) <==> (lo <= 2 && 2 < hi && (x >> 5u8) & 1 == 1),
        ((y >> 4u8) & 1 == 1) <==> (lo <= 3 && 3 < hi && (x >> 4u8) & 1 == 1),
        ((y >> 3u8) & 1 == 1) <==> (lo <= 4 && 4 < hi && (x >> 3u8) & 1 == 1),
        ((y >> 2u8) & 1 == 1) <==> (lo <= 5 && 5 < hi && (x >> 2u8) & 1 == 1),
        ((y >> 1u8) & 1 == 1) <==> (lo <= 6 && 6 < hi && (x >> 1u8) & 1 == 1),
        ((y >> 0u8) & 1 == 1) <==> (lo <= 7 && 7 < hi && (x >> 0u8) & 1 == 1),
{
    assert((lo <= 7 && 1 <= hi && hi <= 8 && y == x & (0xffu8 >> lo) & (if hi == 8 {
        0xffu8
    } else {
        !(0xffu8 >> hi)
    })) ==> ((((y >> 7u8) & 1 == 1) <==> (lo == 0 && 0 < hi && (x >> 7u8) & 1 == 1)) && (((y
        >> 6u8) & 1 == 1) <==> (lo <= 1 && 1 < hi && (x >> 6u8) & 1 == 1)) && (((y >> 5u8) & 1
        == 1) <==> (lo <= 2 && 2 < hi && (x >> 5u8) & 1 == 1)) && (((y >> 4u8) & 1 == 1) <==> (lo
        <= 3 && 3 < hi && (x >> 4u8) & 1 == 1)) && (((y >> 3u8) & 1 == 1) <==> (lo <= 4 && 4 < hi
        && (x >> 3u8) & 1 == 1)) && (((y >> 2u8) & 1 == 1) <==> (lo <= 5 && 5 < hi && (x >> 2u8) & 1
        == 1)) && (((y >> 1u8) & 1 == 1) <==> (lo <= 6 && 6 < hi && (x >> 1u8) & 1 == 1)) && (((y
        >> 0u8) & 1 == 1) <==> (lo <= 7 && 7 < hi && (x >> 0u8) & 1 == 1)))) by (bit_vector);
}

/// Two bytes with the same eight bits are the same byte.
pub proof fn lemma_byte_ext(a: u8, b: u8)
    requires
        ((a >> 7u8) & 1 == 1) <==> ((b >> 7u8) & 1 == 1),
        ((a >> 6u8) & 1 == 1) <==> ((b >> 6u8) & 1 == 1),
        ((a >> 5u8) & 1 == 1) <==> ((b >> 5u8) & 1 == 1),
        ((a >> 4u8) & 1 == 1) <==> ((b >> 4u8) & 1 == 1),
        ((a >> 3u8) & 1 == 1) <==> ((b >> 3u8) & 1 == 1),
        ((a >> 2u8) & 1 == 1) <==> ((b >> 2u8) & 1 == 1),
        ((a >> 1u8) & 1 == 1) <==> ((b >> 1u8) & 1 == 1),
        ((a >> 0u8) & 1 == 1) <==> ((b >> 0u8) & 1 == 1),
    ensures
        a == b,
{
    assert(((((a >> 7u8) & 1 == 1) <==> ((b >> 7u8) & 1 == 1)) && (((a >> 6u8) & 1 == 1) <==> ((b
        >> 6u8) & 1 == 1)) && (((a >> 5u8) & 1 == 1) <==> ((b >> 5u8) & 1 == 1)) && (((a >> 4u8) & 1
        == 1) <==> ((b >> 4u8) & 1 == 1)) && (((a >> 3u8) & 1 == 1) <==> ((b >> 3u8) & 1 == 1)) && ((
    (a >> 2u8) & 1 == 1) <==> ((b >> 2u8) & 1 == 1)) && (((a >> 1u8) & 1 == 1) <==> ((b >> 1u8) & 1
        == 1)) && (((a >> 0u8) & 1 == 1) <==> ((b >> 0u8) & 1 == 1))) ==> a == b) by (bit_vector);
}

/// A `BitVec`-like slice of a byte buffer: the buffer plus a half-open bit
/// range `[start, end)` into it.
#[derive(Debug, Clone, PartialEq)]
pub struct Bits {
    pub path: Vec<u8>,
    pub start: BitsLen,
    pub end: BitsLen,
}

impl View for Bits {
    type V = Seq<bool>;

    /// The logical bit sequence the slice denotes.
    open spec fn view(&self) -> Seq<bool> {
        bits_view(self.path@, self.start as int, self.end as int)
    }
}

impl Bits {
    /// Well-formed: the range lies inside the buffer and starts inside the
    /// first byte.
    pub open spec fn wf(self) -> bool {
        &&& self.start <= self.end
        &&& self.end as int <= 8 * self.path@.len()
        &&& self.start < 8
    }

    /// The canonical serialized form of this slice.
    pub open spec fn ser(self) -> Seq<u8> {
        spec_bits_ser(self.start as int, self@)
    }

    /// View a whole byte buffer as bits.
    pub fn new(bytes: &[u8]) -> (r: Bits)
        requires
            bytes@.len() <= 8191,
        ensures
            r.wf(),
            r.path@ == bytes@,
            r.start == 0,
            r.end as int == 8 * bytes@.len(),
            r@ == bits_view(bytes@, 0, 8 * bytes@.len() as int),
    {
        let mut path: Vec<u8> = Vec::new();
        let mut i: usize = 0;
        let n: usize = bytes.len();
        while i < n
            invariant
                i <= n,
                n == bytes@.len(),
                path@ == bytes@.take(i as int),
            decreases n - i,
        {
            path.push(bytes[i]);
            proof {
                assert(path@ =~= bytes@.take(i + 1));
            }
            i = i + 1;
        }
        proof {
            assert(path@ =~= bytes@);
        }
        Bits { path, start: 0, end: (n as u16) * 8 }
    }

    /// An identical copy of this slice.
    pub fn dup(&self) -> (r: Bits)
        ensures
            r.path@ == self.path@,
            r.start == self.start,
            r.end == self.end,
            r@ == self@,
    {
        Bits { path: self.path.clone(), start: self.start, end: self.end }
    }

    /// Length of the slice, in bits.
    pub fn len(&self) -> (r: BitsLen)
        requires
            self.start <= self.end,
        ensures
            r == self.end - self.start,
            r as int == self@.len(),
    {
        self.end - self.start
    }

    /// Whether the slice holds no bits.
    pub fn is_empty(&self) -> (r: bool)
        requires
            self.wf(),
        ensures
            r <==> self@.len() == 0,
    {
        self.end - self.start == 0 || self.path.len() == 0
    }

    /// The very first bit.
    pub fn first(&self) -> (r: bool)
        requires
            self.wf(),
            self@.len() > 0,
        ensures
            r == self@[0],
    {
        bit(self.path.as_slice(), self.start as usize)
    }

    /// The first `n` bits; the buffer is cut down to the bytes that hold
    /// them.
    pub fn take(&self, n: BitsLen) -> (r: Bits)
        requires
            self.wf(),
            n as int <= self@.len(),
        ensures
            r.wf(),
            r.start == self.start,
            r.end == self.start + n,
            r@ == self@.take(n as int),
            r.path@ == self.path@.take(spec_nbytes_across(self.start as int, self.start + n)),
    {
        let x: u16 = self.start + n;
        let q: u16 = nbytes_across(self.start, x);
        let mut path: Vec<u8> = Vec::new();
        let mut i: usize = 0;
        while i < q as usize
            invariant
                i <= q as usize,
                q as int <= self.path@.len(),
                path@ == self.path@.take(i as int),
            decreases q as usize - i,
        {
            path.push(self.path[i]);
            proof {
                assert(path@ =~= self.path@.take(i + 1));
            }
            i = i + 1;
        }
        let r = Bits { path, start: self.start, end: x };
        proof {
            assert(r.path@ =~= self.path@.take(q as int));
            assert forall|k: int| 0 <= k < n as int implies r@[k] == self@[k] by {
                let pos = self.start + k;
                assert(pos / 8 < q as int);
                assert(r.path@[pos / 8] == self.path@[pos / 8]);
            }
            assert(r@ =~= self@.take(n as int));
        }
        r
    }

    /// The slice with the first `n` bits dropped; the buffer is advanced by
    /// the whole bytes that the drop crosses.
    pub fn drop(&self, n: BitsLen) -> (r: Bits)
        requires
            self.wf(),
            n as int <= self@.len(),
        ensures
            r.wf(),
            r.start == (self.start + n) % 8,
            r.end == self.end - 8 * ((self.start + n) / 8),
            r.path@ == self.path@.skip((self.start + n) as int / 8),
            r@ == self@.skip(n as int),
    {
        let x: u16 = self.start + n;
        let q: u16 = x / 8;
        let mut path: Vec<u8> = Vec::new();
        let mut i: usize = q as usize;
        let l: usize = self.path.len();
        while i < l
            invariant
                q as usize <= i <= l,
                l == self.path@.len(),
                path@ == self.path@.subrange(q as int, i as int),
            decreases l - i,
        {
            path.push(self.path[i]);
            proof {
                assert(path@ =~= self.path@.subrange(q as int, i + 1));
            }
            i = i + 1;
        }
        let r = Bits { path, start: x % 8, end: self.end - 8 * q };
        proof {
            assert(r.path@ =~= self.path@.skip(q as int));
            assert forall|k: int| 0 <= k < r@.len() implies r@[k] == self@.skip(n as int)[k] by {
                let pos = r.start + k;
                assert(r.path@[pos / 8] == self.path@[pos / 8 + q]);
                assert((pos + 8 * q) / 8 == pos / 8 + q);
                assert((pos + 8 * q) % 8 == pos % 8);
                assert(bit_at(r.path@, pos) == bit_at(self.path@, pos + 8 * q));
                assert(pos + 8 * q == self.start + n + k);
            }
            assert(r@ =~= self@.skip(n as int));
        }
        r
    }

    /// Length of the longest common prefix of two slices.
    pub fn len_common_bits(a: &Self, b: &Self) -> (r: BitsLen)
        requires
            a.wf(),
            b.wf(),
        ensures
            r as int <= a@.len(),
            r as int <= b@.len(),
            forall|k: int| 0 <= k < r ==> a@[k] == b@[k],
            (r as int) < a@.len() && (r as int) < b@.len() ==> a@[r as int] != b@[r as int],
    {
        len_lcp(a.path.as_slice(), &(a.start..a.end), b.path.as_slice(), &(b.start..b.end))
    }

    /// Serialize: both range tags big-endian, then the packed bytes with
    /// the padding bits outside the range masked to zero.
    pub fn to_bytes(&self) -> (r: Result<Vec<u8>, crate::Errors>)
        requires
            self.wf(),
        ensures
            r matches Ok(v) && v@ == self.ser(),
    {
        let mut out: Vec<u8> = Vec::new();
        out.push((self.start / 256) as u8);
        out.push((self.start % 256) as u8);
        out.push((self.end / 256) as u8);
        out.push((self.end % 256) as u8);
        let q: u16 = nbytes_across(self.start, self.end);
        let mut j: usize = 0;
        let ghost bits = self@;
        proof {
            assert(q as int == (self.start + bits.len() + 7) / 8);
        }
        while j < q as usize
            invariant
                j <= q as usize,
                q as int <= self.path@.len(),
                q as int == (self.start as int + bits.len() + 7) / 8,
                bits == self@,
                self.wf(),
                out@.len() == 4 + j,
                out@[0] == (self.start as int / 256) as u8,
                out@[1] == (self.start as int % 256) as u8,
                out@[2] == (self.end as int / 256) as u8,
                out@[3] == (self.end as int % 256) as u8,
                forall|k: int| 4 <= k < out@.len() ==> out@[k] == self.path@[k - 4],
            decreases q as usize - j,
        {
            out.push(self.path[j]);
            j = j + 1;
        }
        // mask the padding bits of the first and last packed bytes to zero
        if q > 0 {
            let ghost base = out@;
            let r0: u8 = (self.start % 8) as u8;
            let m0: u8 = 0xffu8 >> r0;
            let cur0: u8 = out[4];
            out[4] = cur0 & m0;
            let r1: u8 = (self.end % 8) as u8;
            let m1: u8 = if r1 == 0 {
                0xffu8
            } else {
                0xffu8 << ((8 - r1) as u8)
            };
            let last: usize = out.len() - 1;
            let cur1: u8 = out[last];
            out[last] = cur1 & m1;
            proof {
                let qi = q as int;
                let r0i = self.start as int % 8;
                let r1i = self.end as int % 8;
                assert(forall|z: u8| #[trigger] (z & 0xffu8) == z) by (bit_vector);
                let mid = base.update(4, (base[4] & m0) as u8);
                assert(out@ =~= mid.update(4 + qi - 1, (mid[4 + qi - 1] & m1) as u8));
                assert forall|j: int| 0 <= j < qi implies out@[4 + j] == (self.path@[j] & (if j
                    == 0 {
                    0xffu8 >> (r0i as u8)
                } else {
                    0xffu8
                }) & (if j == qi - 1 && r1i != 0 {
                    0xffu8 << ((8 - r1i) as u8)
                } else {
                    0xffu8
                })) by {
                    let x = self.path@[j];
                    if j == 0 && j == qi - 1 {
                        assert(out@[4 + j] == (x & m0) & m1);
                    } else if j == 0 {
                        assert(out@[4 + j] == x & m0);
                        assert(x & m0 == (x & m0) & 0xffu8);
                    } else if j == qi - 1 {
                        assert(out@[4 + j] == x & m1);
                        assert(x & m1 == (x & 0xffu8) & m1);
                    } else {
                        assert(out@[4 + j] == x);
                        assert(x == (x & 0xffu8) & 0xffu8);
                    }
                }
            }
        }
        proof {
            lemma_bits_to_bytes_packed(self.path@, self.start as int, self.end as int, out@);
            assert(out@ =~= self.ser());
        }
        Ok(out)
    }

    /// Construct a slice by deserializing its canonical byte form.
    pub fn from_bytes(bytes: &[u8]) -> (r: Bits)
        requires
            valid_bits_encoding(bytes@),
        ensures
            r.wf(),
            r.start as int == be_pair_val(bytes@, 0),
            r.end as int == be_pair_val(bytes@, 2),
            r.path@ == bytes@.skip(4),
            r@ == bits_view(bytes@.skip(4), be_pair_val(bytes@, 0), be_pair_val(bytes@, 2)),
    {
        let start: u16 = (bytes[0] as u16) * 256 + (bytes[1] as u16);
        let end: u16 = (bytes[2] as u16) * 256 + (bytes[3] as u16);
        let mut path: Vec<u8> = Vec::new();
        let mut i: usize = 4;
        let l: usize = bytes.len();
        while i < l
            invariant
                4 <= i <= l,
                l == bytes@.len(),
                path@ == bytes@.subrange(4, i as int),
            decreases l - i,
        {
            path.push(bytes[i]);
            proof {
                assert(path@ =~= bytes@.subrange(4, i + 1));
            }
            i = i + 1;
        }
        proof {
            assert(path@ =~= bytes@.skip(4));
        }
        Bits { path, start, end }
    }
}

/// Big-endian 16-bit value at byte offset `at`.
pub open spec fn be_pair_val(bytes: Seq<u8>, at: int) -> int {
    bytes[at] * 256 + bytes[at + 1]
}

/// What `Bits::from_bytes` accepts: room for the two tags and a range that
/// fits the remaining bytes and starts inside the first of them.
pub open spec fn valid_bits_encoding(bytes: Seq<u8>) -> bool {
    &&& bytes.len() >= 4
    &&& be_pair_val(bytes, 0) <= be_pair_val(bytes, 2)
    &&& be_pair_val(bytes, 0) < 8
    &&& be_pair_val(bytes, 2) <= 8 * (bytes.len() - 4)
}

/// Round trip: the canonical byte form of a well-formed slice is a valid
/// encoding and decodes back to the same bit range and the same logical
/// bit sequence; only masked padding bits of the byte form may differ
/// from the original buffer.
pub proof fn lemma_bits_roundtrip(b: Bits)
    requires
        b.wf(),
    ensures
        valid_bits_encoding(b.ser()),
        be_pair_val(b.ser(), 0) == b.start,
        be_pair_val(b.ser(), 2) == b.end,
        bits_view(b.ser().skip(4), b.start as int, b.end as int) == b@,
{
    let ser = b.ser();
    let s = b.start as int;
    let e = b.end as int;
    let len = b@.len();
    let packed = packed_bytes(s, b@);
    let q = (s + len + 7) / 8;
    assert(ser.len() == 4 + q);
    assert(ser[0] == (s / 256) as u8 && ser[1] == (s % 256) as u8);
    assert(ser[2] == (e / 256) as u8 && ser[3] == (e % 256) as u8);
    assert(be_pair_val(ser, 0) == s);
    assert(be_pair_val(ser, 2) == e) by {
        assert(0 <= e / 256 < 256);
        assert((e / 256) as u8 == e / 256 && (e % 256) as u8 == e % 256);
    }
    assert(ser.skip(4) =~= packed);
    assert(e <= 8 * q);
    assert forall|k: int| 0 <= k < len implies bits_view(packed, s, e)[k] == b@[k] by {
        lemma_packed_bytes_bit(s, b@, s + k);
        assert(packed_bit(s, b@, s + k) == b@[k]);
    }
    assert(bits_view(packed, s, e) =~= b@);
}

/// The bytes that `to_bytes` assembles are exactly the packed byte form.
proof fn lemma_bits_to_bytes_packed(path: Seq<u8>, start: int, end: int, out: Seq<u8>)
    requires
        0 <= start < 8,
        start <= end,
        end <= 8 * path.len(),
        out.len() == 4 + spec_nbytes_across(start, end),
        out[0] == (start / 256) as u8,
        out[1] == (start % 256) as u8,
        out[2] == (end / 256) as u8,
        out[3] == (end % 256) as u8,
        ({
            let q = spec_nbytes_across(start, end);
            let r0 = start % 8;
            let r1 = end % 8;
            forall|j: int|
                0 <= j < q ==> out[4 + j] == (path[j] & (if j == 0 {
                    0xffu8 >> (r0 as u8)
                } else {
                    0xffu8
                }) & (if j == q - 1 && r1 != 0 {
                    0xffu8 << ((8 - r1) as u8)
                } else {
                    0xffu8
                }))
        }),
    ensures
        out == spec_bits_ser(start, bits_view(path, start, end)),
{
    let bits = bits_view(path, start, end);
    let q = spec_nbytes_across(start, end);
    assert(q == (start + bits.len() + 7) / 8);
    assert forall|j: int| 0 <= j < q implies out[4 + j] == packed_byte(start, bits, j) by {
        let lo: u8 = if j == 0 {
            start as u8
        } else {
            0
        };
        let hi: u8 = if j == q - 1 && end % 8 != 0 {
            (end - 8 * j) as u8
        } else {
            8
        };
        let x = path[j];
        let y = out[4 + j];
        assert(0xffu8 >> 0u8 == 0xffu8) by (bit_vector);
        // line the masks up with the `lo`/`hi` bounds
        if j == q - 1 && end % 8 != 0 {
            assert(hi == end - 8 * j);
            assert(1 <= hi <= 7);
            let e8: u8 = (end % 8) as u8;
            assert((0xffu8 << ((8 - e8) as u8)) == !(0xffu8 >> e8)) by (bit_vector)
                requires
                    1 <= e8 <= 7,
            ;
            assert(e8 == hi) by {
                assert(end % 8 == (8 * j + hi) % 8);
                assert((8 * j + hi) % 8 == hi % 8);
            }
        }
        assert(y == x & (0xffu8 >> lo) & (if hi == 8 {
            0xffu8
        } else {
            !(0xffu8 >> hi)
        }));
        lemma_mask_byte_bits(x, lo, hi, y);
        let pb = packed_byte(start, bits, j);
        lemma_u8_from_weighted_bits(
            pb,
            packed_bit(start, bits, 8 * j),
            packed_bit(start, bits, 8 * j + 1),
            packed_bit(start, bits, 8 * j + 2),
            packed_bit(start, bits, 8 * j + 3),
            packed_bit(start, bits, 8 * j + 4),
            packed_bit(start, bits, 8 * j + 5),
            packed_bit(start, bits, 8 * j + 6),
            packed_bit(start, bits, 8 * j + 7),
        );
        assert forall|r: int| 0 <= r < 8 implies #[trigger] packed_bit(start, bits, 8 * j + r)
            == (lo <= r < hi && bit_at(path, 8 * j + r)) by {
            let i = 8 * j + r;
            assert(packed_bit(start, bits, i) == (start <= i < end && bit_at(path, i)));
            assert(lo <= r < hi <==> start <= i < end);
        }
        assert forall|r: int| 0 <= r < 8 implies #[trigger] bit_at(path, 8 * j + r) == ((x >> ((7
            - r) as u8)) & 1 == 1) by {
            let i = 8 * j + r;
            assert(i / 8 == j);
            assert(i % 8 == r);
        }
        assert(packed_bit(start, bits, 8 * j + 0) == (lo <= 0 < hi && ((x >> 7u8) & 1 == 1)));
        assert(packed_bit(start, bits, 8 * j + 1) == (lo <= 1 < hi && ((x >> 6u8) & 1 == 1)));
        assert(packed_bit(start, bits, 8 * j + 2) == (lo <= 2 < hi && ((x >> 5u8) & 1 == 1)));
        assert(packed_bit(start, bits, 8 * j + 3) == (lo <= 3 < hi && ((x >> 4u8) & 1 == 1)));
        assert(packed_bit(start, bits, 8 * j + 4) == (lo <= 4 < hi && ((x >> 3u8) & 1 == 1)));
        assert(packed_bit(start, bits, 8 * j + 5) == (lo <= 5 < hi && ((x >> 2u8) & 1 == 1)));
        assert(packed_bit(start, bits, 8 * j + 6) == (lo <= 6 < hi && ((x >> 1u8) & 1 == 1)));
        assert(packed_bit(start, bits, 8 * j + 7) == (lo <= 7 < hi && ((x >> 0u8) & 1 == 1)));
        lemma_byte_ext(y, pb);
    }
    assert(out =~= spec_bits_ser(start, bits));
}

} // verus!
