//! Bit- and byte-level helpers: single-bit access, bit-range byte counts,
//! big-endian integer codecs, and conversions between bytes and bit vectors.
use vstd::prelude::*;

verus! {

use crate::HASH_LEN;

/// The bit of `bytes` at position `i`, counted MSB-first from the start of
/// the buffer.
pub open spec fn bit_at(bytes: Seq<u8>, i: int) -> bool {
    (bytes[i / 8] >> ((7 - (i % 8)) as u8)) & 1 == 1
}

/// The logical bit sequence of the half-open bit range `[start, end)`
/// over `bytes`.
pub open spec fn bits_view(bytes: Seq<u8>, start: int, end: int) -> Seq<bool> {
    Seq::new((end - start) as nat, |k: int| bit_at(bytes, start + k))
}

/// Big-endian value of a byte string.
pub open spec fn be_val(s: Seq<u8>) -> nat
    decreases s.len(),
{
    if s.len() == 0 {
        0
    } else {
        be_val(s.drop_last()) * 256 + s.last() as nat
    }
}

/// 256 raised to `n`; the exclusive upper bound of `be_val` on `n` bytes.
pub open spec fn pow256(n: nat) -> nat
    decreases n,
{
    if n == 0 {
        1
    } else {
        256 * pow256((n - 1) as nat)
    }
}

pub proof fn lemma_be_val_bound(s: Seq<u8>)
    ensures
        be_val(s) < pow256(s.len()),
    decreases s.len(),
{
    if s.len() > 0 {
        lemma_be_val_bound(s.drop_last());
    }
}

pub proof fn lemma_pow256_mono(m: nat, n: nat)
    requires
        m <= n,
    ensures
        pow256(m) <= pow256(n),
    decreases n,
{
    if m < n {
        lemma_pow256_mono(m, (n - 1) as nat);
    }
}

/// Get the `i`-th bit of a bytes slice, index starting from 0 at the most
/// significant bit of the first byte.
pub fn bit(bytes: &[u8], i: usize) -> (r: bool)
    requires
        i < 8 * bytes@.len(),
    ensures
        r == bit_at(bytes@, i as int),
{
    let q: usize = i / 8;
    let r8: u8 = (i % 8) as u8;
    (bytes[q] >> (7 - r8)) & 0x01 == 0x01
}

/// Number of bytes spanned by the bit range `[start, end)` when the bytes
/// holding the range are counted from the byte containing `start`, rounded
/// down to a byte boundary.
pub open spec fn spec_nbytes_across(start: int, end: int) -> int {
    let n = (end - (start - start % 8)) / 8;
    if end % 8 == 0 {
        n
    } else {
        n + 1
    }
}

/// The required length in bytes for the bit range `[start, end)`.
pub fn nbytes_across(start: u16, end: u16) -> (r: u16)
    requires
        start <= end,
    ensures
        r as int == spec_nbytes_across(start as int, end as int),
        r as int <= (end as int + 7) / 8,
{
    let n: u16 = (end - (start - start % 8)) / 8;
    if end % 8 == 0 {
        n
    } else {
        n + 1
    }
}

/// Convert big-endian bytes into a decimal number.
pub fn bytes_to_int(bytes: &[u8]) -> (r: u64)
    requires
        bytes@.len() <= 8,
    ensures
        r == be_val(bytes@),
{
    let l: usize = bytes.len();
    let mut sum: u64 = 0;
    let mut i: usize = 0;
    proof {
        assert(bytes@.take(0) =~= Seq::<u8>::empty());
    }
    while i < l
        invariant
            i <= l,
            l == bytes@.len() <= 8,
            sum == be_val(bytes@.take(i as int)),
            sum < pow256(i as nat),
        decreases l - i,
    {
        proof {
            lemma_pow256_mono(i as nat + 1, 8);
            assert(pow256(8) == 0x1_0000_0000_0000_0000) by {
                reveal_with_fuel(pow256, 9);
            }
            assert(bytes@.take(i + 1).drop_last() =~= bytes@.take(i as int));
            assert(bytes@.take(i + 1).last() == bytes@[i as int]);
        }
        sum = sum * 256 + bytes[i] as u64;
        i = i + 1;
    }
    proof {
        assert(bytes@.take(l as int) =~= bytes@);
    }
    sum
}

/// Get a compressed big-endian byte form (leading zero bytes removed) of a
/// number; zero itself is one zero byte.
pub fn int_to_bytes(number: u64) -> (r: Vec<u8>)
    ensures
        be_val(r@) == number,
        1 <= r@.len() <= 8,
        r@.len() > 1 ==> r@[0] != 0,
        number > 0 ==> r@[0] != 0,
{
    if number == 0 {
        let out: Vec<u8> = vec![0u8];
        proof {
            assert(out@ =~= seq![0u8]);
            assert(out@.drop_last() =~= Seq::<u8>::empty());
            assert(be_val(Seq::<u8>::empty()) == 0);
            assert(be_val(out@) == 0);
        }
        return out;
    }
    let mut out: Vec<u8> = Vec::new();
    let mut n: u64 = number;
    proof {
        assert(pow256(8) == 0x1_0000_0000_0000_0000) by {
            reveal_with_fuel(pow256, 9);
        }
        assert(out@.len() == 0);
        assert(pow256(0) == 1);
        assert(be_val(out@) + n * pow256(out@.len()) == number) by (nonlinear_arith)
            requires
                be_val(out@) == 0,
                pow256(out@.len()) == 1,
                n == number,
        ;
    }
    while n > 0
        invariant
            be_val(out@) + n * pow256(out@.len()) == number,
            n < pow256((8 - out@.len()) as nat),
            out@.len() <= 8,
            n == 0 ==> out@.len() > 0 && out@[0] != 0,
            number > 0,
        decreases n,
    {
        let b: u8 = (n % 256) as u8;
        let ghost prev = out@;
        let ghost prev_n = n;
        out.insert(0, b);
        n = n / 256;
        proof {
            lemma_be_val_cons(b, prev);
            assert(out@ =~= seq![b].add(prev));
            assert(out@.drop_first() =~= prev);
            // prev_n = 256 * n + b, so the be_val accounting is preserved
            assert(be_val(out@) == b * pow256(prev.len()) + be_val(prev));
            assert(prev_n * pow256(prev.len()) == (256 * (prev_n / 256) + prev_n % 256) * pow256(
                prev.len(),
            ));
            assert((256 * (prev_n / 256) + prev_n % 256) * pow256(prev.len()) == 256 * (prev_n
                / 256) * pow256(prev.len()) + (prev_n % 256) * pow256(prev.len()))
                by (nonlinear_arith);
            assert(256 * (prev_n / 256) * pow256(prev.len()) == (prev_n / 256) * (256 * pow256(
                prev.len(),
            ))) by (nonlinear_arith);
            assert(256 * pow256(prev.len()) == pow256(out@.len()));
            // bound on the shrinking remainder
            assert(prev_n < pow256((8 - prev.len()) as nat));
            assert(pow256((8 - prev.len()) as nat) == 256 * pow256((8 - out@.len()) as nat));
            assert(prev_n / 256 < pow256((8 - out@.len()) as nat)) by (nonlinear_arith)
                requires
                    prev_n < 256 * pow256((8 - out@.len()) as nat),
            ;
        }
    }
    out
}

/// Prepending one byte contributes its value at the current width.
pub proof fn lemma_be_val_cons(b: u8, s: Seq<u8>)
    ensures
        be_val(seq![b].add(s)) == b * pow256(s.len()) + be_val(s),
    decreases s.len(),
{
    let whole = seq![b].add(s);
    if s.len() == 0 {
        assert(whole =~= seq![b]);
        assert(whole.drop_last() =~= Seq::<u8>::empty());
        assert(be_val(Seq::<u8>::empty()) == 0);
        assert(pow256(0) == 1);
        assert(be_val(whole) == b);
    } else {
        let p1 = pow256((s.len() - 1) as nat);
        assert(whole.drop_last() =~= seq![b].add(s.drop_last()));
        lemma_be_val_cons(b, s.drop_last());
        assert(whole.last() == s.last());
        assert(be_val(whole) == (b * p1 + be_val(s.drop_last())) * 256 + s.last() as nat);
        assert(be_val(s) == be_val(s.drop_last()) * 256 + s.last() as nat);
        assert(pow256(s.len()) == 256 * p1);
        assert((b * p1 + be_val(s.drop_last())) * 256 == b * (256 * p1) + be_val(s.drop_last())
            * 256) by (nonlinear_arith);
    }
}

/// Shift offsets for a bit range moved forward by `n` bits: the byte shift
/// and the resulting range, for a prefix (`tail == true`) or a suffix
/// (`tail == false`) split.
pub fn offsets(range: &core::ops::Range<u16>, n: u16, tail: bool) -> (r: (u16, core::ops::Range<
    u16,
>))
    requires
        range.start <= range.end,
        n <= range.end - range.start,
    ensures
        tail ==> r.0 as int == spec_nbytes_across(range.start as int, range.start + n) && r.1.start
            == range.start && r.1.end == range.start + n,
        !tail ==> r.0 == (range.start + n) / 8 && r.1.start == (range.start + n) % 8 && r.1.end
            == range.end - 8 * ((range.start + n) / 8),
{
    let x: u16 = range.start + n;
    if tail {
        (nbytes_across(range.start, x), range.start..x)
    } else {
        (x / 8, (x % 8)..(range.end - 8 * (x / 8)))
    }
}

/// Lexicographic, MSB-to-MSB order over byte strings; on a common prefix the
/// shorter string comes first.
#[verifier::opaque]
pub open spec fn lex_le(a: Seq<u8>, b: Seq<u8>) -> bool {
    ||| (a.len() <= b.len() && a =~= b.take(a.len() as int))
    ||| (exists|i: int|
        0 <= i < a.len() && i < b.len() && a[i] < b[i] && (forall|j: int|
            0 <= j < i ==> a[j] == b[j]))
}

/// `lex_le` is reflexive.
pub proof fn lemma_lex_refl(a: Seq<u8>)
    ensures
        lex_le(a, a),
{
    reveal(lex_le);
    assert(a =~= a.take(a.len() as int));
}

/// `lex_le` is total on equal-length strings.
pub proof fn lemma_lex_total(a: Seq<u8>, b: Seq<u8>)
    requires
        a.len() == b.len(),
    ensures
        lex_le(a, b) || lex_le(b, a),
{
    lemma_lex_total_rec(a, b, 0);
}

proof fn lemma_lex_total_rec(a: Seq<u8>, b: Seq<u8>, k: int)
    requires
        a.len() == b.len(),
        0 <= k <= a.len(),
        forall|j: int| 0 <= j < k ==> a[j] == b[j],
    ensures
        lex_le(a, b) || lex_le(b, a),
    decreases a.len() - k,
{
    reveal(lex_le);
    if k == a.len() {
        assert(a =~= b.take(a.len() as int));
    } else if a[k] < b[k] {
        assert(lex_le(a, b));
    } else if b[k] < a[k] {
        assert(lex_le(b, a));
    } else {
        lemma_lex_total_rec(a, b, k + 1);
    }
}

/// `lex_le` both ways means equality, on equal-length strings.
pub proof fn lemma_lex_antisym(a: Seq<u8>, b: Seq<u8>)
    requires
        a.len() == b.len(),
        lex_le(a, b),
        lex_le(b, a),
    ensures
        a == b,
{
    reveal(lex_le);
    if a =~= b.take(a.len() as int) {
        assert(a =~= b);
    } else if b =~= a.take(b.len() as int) {
        assert(a =~= b);
    } else {
        let i1 = choose|i: int|
            0 <= i < a.len() && i < b.len() && a[i] < b[i] && (forall|j: int|
                0 <= j < i ==> a[j] == b[j]);
        let i2 = choose|i: int|
            0 <= i < b.len() && i < a.len() && b[i] < a[i] && (forall|j: int|
                0 <= j < i ==> b[j] == a[j]);
        assert(false);
    }
}

/// `lex_le` is transitive.
pub proof fn lemma_lex_trans(a: Seq<u8>, b: Seq<u8>, c: Seq<u8>)
    requires
        a.len() == b.len(),
        b.len() == c.len(),
        lex_le(a, b),
        lex_le(b, c),
    ensures
        lex_le(a, c),
{
    reveal(lex_le);
    if a =~= b.take(a.len() as int) {
        assert(a =~= b);
    } else if b =~= c.take(b.len() as int) {
        assert(b =~= c);
    } else {
        let i1 = choose|i: int|
            0 <= i < a.len() && i < b.len() && a[i] < b[i] && (forall|j: int|
                0 <= j < i ==> a[j] == b[j]);
        let i2 = choose|i: int|
            0 <= i < b.len() && i < c.len() && b[i] < c[i] && (forall|j: int|
                0 <= j < i ==> b[j] == c[j]);
        if i1 < i2 {
            assert(0 <= i1 < a.len() && i1 < c.len() && a[i1] < c[i1] && (forall|j: int|
                0 <= j < i1 ==> a[j] == c[j]));
        } else if i2 < i1 {
            assert(0 <= i2 < a.len() && i2 < c.len() && a[i2] < c[i2] && (forall|j: int|
                0 <= j < i2 ==> a[j] == c[j]));
        } else {
            assert(0 <= i1 < a.len() && i1 < c.len() && a[i1] < c[i1] && (forall|j: int|
                0 <= j < i1 ==> a[j] == c[j]));
        }
    }
}

/// Get the length of the longest common prefix of the bits of two ranged
/// byte slices.
pub fn len_lcp(a: &[u8], m: &core::ops::Range<u16>, b: &[u8], n: &core::ops::Range<u16>) -> (r:
    u16)
    requires
        m.start <= m.end,
        m.end as int <= 8 * a@.len(),
        n.start <= n.end,
        n.end as int <= 8 * b@.len(),
    ensures
        r <= m.end - m.start,
        r <= n.end - n.start,
        forall|k: int|
            0 <= k < r ==> bits_view(a@, m.start as int, m.end as int)[k] == bits_view(
                b@,
                n.start as int,
                n.end as int,
            )[k],
        r < m.end - m.start && r < n.end - n.start ==> bits_view(
            a@,
            m.start as int,
            m.end as int,
        )[r as int] != bits_view(b@, n.start as int, n.end as int)[r as int],
{
    let la: u16 = m.end - m.start;
    let lb: u16 = n.end - n.start;
    let lim: u16 = if la < lb {
        la
    } else {
        lb
    };
    let mut i: u16 = 0;
    while i < lim
        invariant
            i <= lim,
            lim <= la,
            lim <= lb,
            la == m.end - m.start,
            lb == n.end - n.start,
            m.start <= m.end,
            m.end as int <= 8 * a@.len(),
            n.start <= n.end,
            n.end as int <= 8 * b@.len(),
            forall|k: int|
                0 <= k < i ==> bits_view(a@, m.start as int, m.end as int)[k] == bits_view(
                    b@,
                    n.start as int,
                    n.end as int,
                )[k],
        ensures
            i <= lim,
            forall|k: int|
                0 <= k < i ==> bits_view(a@, m.start as int, m.end as int)[k] == bits_view(
                    b@,
                    n.start as int,
                    n.end as int,
                )[k],
            i < lim ==> bits_view(a@, m.start as int, m.end as int)[i as int] != bits_view(
                b@,
                n.start as int,
                n.end as int,
            )[i as int],
        decreases lim - i,
    {
        let ba: bool = bit(a, m.start as usize + i as usize);
        let bb: bool = bit(b, n.start as usize + i as usize);
        if ba != bb {
            break ;
        }
        i = i + 1;
    }
    i
}

/// The sort order used by `get_sorted_indices`: ascending lexicographic, or
/// descending when `reverse` is set.
pub open spec fn ord_le(a: Seq<u8>, b: Seq<u8>, reverse: bool) -> bool {
    if reverse {
        lex_le(b, a)
    } else {
        lex_le(a, b)
    }
}

/// Lexicographic comparison of two fixed-length byte arrays.
pub fn hash_le(a: &crate::Hash, b: &crate::Hash) -> (r: bool)
    ensures
        r == lex_le(a@, b@),
{
    let mut i: usize = 0;
    while i < 32
        invariant
            i <= 32,
            forall|j: int| 0 <= j < i ==> a@[j] == b@[j],
        ensures
            i == 32 || a@[i as int] != b@[i as int],
            i < 32 ==> (forall|j: int| 0 <= j < i ==> a@[j] == b@[j]),
            i == 32 ==> (forall|j: int| 0 <= j < i ==> a@[j] == b@[j]),
        decreases 32 - i,
    {
        if a[i] != b[i] {
            break ;
        }
        i = i + 1;
    }
    if i == 32 {
        proof {
            reveal(lex_le);
            assert(a@ =~= b@.take(32));
        }
        true
    } else if a[i] < b[i] {
        proof {
            reveal(lex_le);
            let w = i as int;
            assert(0 <= w < a@.len() && w < b@.len() && a@[w] < b@[w] && (forall|j: int|
                0 <= j < w ==> a@[j] == b@[j]));
        }
        true
    } else {
        proof {
            reveal(lex_le);
            assert(!(a@ =~= b@.take(a@.len() as int)));
        }
        false
    }
}

/// Byte-for-byte equality of two fixed-length byte arrays.
pub fn hash_eq(a: &crate::Hash, b: &crate::Hash) -> (r: bool)
    ensures
        r <==> a@ == b@,
{
    let mut i: usize = 0;
    while i < 32
        invariant
            i <= 32,
            forall|j: int| 0 <= j < i ==> a@[j] == b@[j],
        ensures
            i == 32 ==> (forall|j: int| 0 <= j < 32 ==> a@[j] == b@[j]),
            i < 32 ==> a@[i as int] != b@[i as int],
        decreases 32 - i,
    {
        if a[i] != b[i] {
            break ;
        }
        i = i + 1;
    }
    if i == 32 {
        proof {
            assert(a@ =~= b@);
        }
        true
    } else {
        false
    }
}

fn key_le(a: &crate::Hash, b: &crate::Hash, reverse: bool) -> (r: bool)
    ensures
        r == ord_le(a@, b@, reverse),
{
    if reverse {
        hash_le(b, a)
    } else {
        hash_le(a, b)
    }
}

/// Get the indices that sort a slice of keys, ascending by default or
/// descending with `reverse`: a permutation of `0..len` through which the
/// keys read in order.
#[verifier::rlimit(60)]
pub fn get_sorted_indices(slice: &[crate::Hash], reverse: bool) -> (r: Vec<usize>)
    ensures
        r@.len() == slice@.len(),
        forall|i: int| 0 <= i < r@.len() ==> r@[i] < slice@.len(),
        forall|i: int, j: int| 0 <= i < j < r@.len() ==> r@[i] != r@[j],
        forall|i: int, j: int|
            0 <= i <= j < r@.len() ==> ord_le(
                slice@[r@[i] as int]@,
                slice@[r@[j] as int]@,
                reverse,
            ),
{
    let n: usize = slice.len();
    let mut idx: Vec<usize> = Vec::new();
    let mut k: usize = 0;
    while k < n
        invariant
            idx@.len() == k,
            k <= n,
            forall|p: int| 0 <= p < k ==> idx@[p] == p,
        decreases n - k,
    {
        idx.push(k);
        k = k + 1;
    }
    let mut i: usize = 0;
    while i < n
        invariant
            n == slice@.len(),
            idx@.len() == n,
            i <= n,
            forall|p: int| 0 <= p < n ==> idx@[p] < n,
            forall|p: int, q: int| 0 <= p < q < n ==> idx@[p] != idx@[q],
            forall|p: int, q: int|
                0 <= p <= q < i ==> ord_le(
                    slice@[idx@[p] as int]@,
                    slice@[idx@[q] as int]@,
                    reverse,
                ),
            forall|p: int, q: int|
                0 <= p < i <= q < n ==> ord_le(
                    slice@[idx@[p] as int]@,
                    slice@[idx@[q] as int]@,
                    reverse,
                ),
        decreases n - i,
    {
        let mut m: usize = i;
        let mut j: usize = i + 1;
        proof {
            lemma_lex_refl(slice@[idx@[i as int] as int]@);
        }
        while j < n
            invariant
                n == slice@.len(),
                idx@.len() == n,
                i < n,
                i <= m < j <= n,
                forall|p: int| 0 <= p < n ==> idx@[p] < n,
                forall|q: int|
                    i <= q < j ==> ord_le(
                        slice@[idx@[m as int] as int]@,
                        slice@[idx@[q] as int]@,
                        reverse,
                    ),
            decreases n - j,
        {
            let t_j: usize = idx[j];
            let t_m: usize = idx[m];
            if key_le(&slice[t_j], &slice[t_m], reverse) {
                proof {
                    let kj = slice@[idx@[j as int] as int]@;
                    let km = slice@[idx@[m as int] as int]@;
                    assert forall|q: int| i <= q < j + 1 implies ord_le(
                        kj,
                        slice@[idx@[q] as int]@,
                        reverse,
                    ) by {
                        if q < j {
                            let kq = slice@[idx@[q] as int]@;
                            if reverse {
                                lemma_lex_trans(kq, km, kj);
                            } else {
                                lemma_lex_trans(kj, km, kq);
                            }
                        } else {
                            lemma_lex_refl(kj);
                        }
                    }
                }
                m = j;
            } else {
                proof {
                    lemma_lex_total(slice@[idx@[j as int] as int]@, slice@[idx@[m as int] as int]@);
                }
            }
            j = j + 1;
        }
        let vi: usize = idx[i];
        let vm: usize = idx[m];
        let ghost old_idx = idx@;
        idx[i] = vm;
        idx[m] = vi;
        proof {
            assert(idx@ =~= old_idx.update(i as int, old_idx[m as int]).update(
                m as int,
                old_idx[i as int],
            ));
        }
        i = i + 1;
    }
    idx
}

/// MSB-first value of a bit string.
pub open spec fn bits_val(bits: Seq<bool>) -> nat
    decreases bits.len(),
{
    if bits.len() == 0 {
        0
    } else {
        bits_val(bits.drop_last()) * 2 + (if bits.last() {
            1nat
        } else {
            0nat
        })
    }
}

proof fn lemma_bits_val_bound(bits: Seq<bool>)
    ensures
        bits_val(bits) < vstd::arithmetic::power2::pow2(bits.len()),
    decreases bits.len(),
{
    if bits.len() > 0 {
        lemma_bits_val_bound(bits.drop_last());
        assert(vstd::arithmetic::power2::pow2(bits.len()) == 2 * vstd::arithmetic::power2::pow2(
            (bits.len() - 1) as nat,
        )) by {
            vstd::arithmetic::power2::lemma_pow2_adds(1, (bits.len() - 1) as nat);
            vstd::arithmetic::power2::lemma2_to64();
        }
    } else {
        vstd::arithmetic::power2::lemma2_to64();
    }
}

/// Convert a slice of bits into a number.
pub fn bits_to_usize(bits: &[bool]) -> (r: usize)
    requires
        bits@.len() <= 32,
    ensures
        r == bits_val(bits@),
{
    let l: usize = bits.len();
    let mut sum: usize = 0;
    let mut i: usize = 0;
    proof {
        assert(bits@.take(0) =~= Seq::<bool>::empty());
    }
    while i < l
        invariant
            i <= l,
            l == bits@.len() <= 32,
            sum == bits_val(bits@.take(i as int)),
        decreases l - i,
    {
        proof {
            lemma_bits_val_bound(bits@.take(i as int));
            vstd::arithmetic::power2::lemma_pow2_strictly_increases(i as nat, 33);
            vstd::arithmetic::power2::lemma2_to64();
            assert(bits@.take(i + 1).drop_last() =~= bits@.take(i as int));
            assert(bits@.take(i + 1).last() == bits@[i as int]);
        }
        sum = sum * 2 + (if bits[i] {
            1
        } else {
            0
        });
        i = i + 1;
    }
    proof {
        assert(bits@.take(l as int) =~= bits@);
    }
    sum
}

/// Convert a byte slice plus a bit range into the bits of that range.
pub fn bytes_to_slicebit(bytes: &[u8], range: &core::ops::Range<usize>) -> (r: Vec<bool>)
    requires
        range.start <= range.end,
        range.end <= 8 * bytes@.len(),
    ensures
        r@ == bits_view(bytes@, range.start as int, range.end as int),
{
    let mut out: Vec<bool> = Vec::new();
    let mut x: usize = range.start;
    while x < range.end
        invariant
            range.start <= x <= range.end,
            range.end <= 8 * bytes@.len(),
            out@.len() == x - range.start,
            forall|k: int| 0 <= k < out@.len() ==> out@[k] == bit_at(bytes@, range.start + k),
        decreases range.end - x,
    {
        out.push(bit(bytes, x));
        x = x + 1;
    }
    proof {
        assert(out@ =~= bits_view(bytes@, range.start as int, range.end as int));
    }
    out
}

/// Convert a byte slice into its full bit sequence.
pub fn bytes_to_bits(bytes: &[u8]) -> (r: Vec<bool>)
    requires
        8 * bytes@.len() <= usize::MAX,
    ensures
        r@ == bits_view(bytes@, 0, 8 * bytes@.len() as int),
{
    bytes_to_slicebit(bytes, &(0..8 * bytes.len()))
}

/// The number of leading zero bits that pad a bit string of length `len`
/// up to a whole number of bytes.
pub open spec fn front_pad(len: int) -> int {
    (8 - len % 8) % 8
}

/// Convert a slice of bits into bytes; the bits are aligned to the end, and
/// the leading padding bits of the first byte are zero.
#[verifier::rlimit(60)]
pub fn bits_to_bytes(bits: &[bool]) -> (r: Vec<u8>)
    requires
        bits@.len() + 7 <= usize::MAX,
    ensures
        r@.len() == (bits@.len() + 7) / 8,
        forall|k: int|
            0 <= k < bits@.len() ==> bit_at(r@, front_pad(bits@.len() as int) + k) == bits@[k],
        forall|p: int| 0 <= p < front_pad(bits@.len() as int) ==> bit_at(r@, p) == false,
{
    let l: usize = bits.len();
    let pad: usize = (8 - l % 8) % 8;
    let mut padded: Vec<bool> = Vec::new();
    let mut p: usize = 0;
    while p < pad
        invariant
            p <= pad,
            padded@.len() == p,
            forall|k: int| 0 <= k < p ==> padded@[k] == false,
        decreases pad - p,
    {
        padded.push(false);
        p = p + 1;
    }
    let mut t: usize = 0;
    while t < l
        invariant
            t <= l,
            l == bits@.len(),
            pad == front_pad(l as int),
            padded@.len() == pad + t,
            forall|k: int| 0 <= k < pad ==> padded@[k] == false,
            forall|k: int| 0 <= k < t ==> padded@[pad + k] == bits@[k],
        decreases l - t,
    {
        padded.push(bits[t]);
        t = t + 1;
    }
    let total: usize = padded.len();
    let mut out: Vec<u8> = Vec::new();
    let mut j: usize = 0;
    proof {
        assert(total % 8 == 0);
    }
    while j < total / 8
        invariant
            total == padded@.len(),
            total % 8 == 0,
            total <= usize::MAX,
            j <= total / 8,
            out@.len() == j,
            forall|q: int| 0 <= q < 8 * j ==> bit_at(out@, q) == padded@[q],
        decreases total / 8 - j,
    {
        let base: usize = 8 * j;
        let b0: bool = padded[base];
        let b1: bool = padded[base + 1];
        let b2: bool = padded[base + 2];
        let b3: bool = padded[base + 3];
        let b4: bool = padded[base + 4];
        let b5: bool = padded[base + 5];
        let b6: bool = padded[base + 6];
        let b7: bool = padded[base + 7];
        let v: u8 = (if b0 {
            128
        } else {
            0
        }) + (if b1 {
            64
        } else {
            0
        }) + (if b2 {
            32
        } else {
            0
        }) + (if b3 {
            16
        } else {
            0
        }) + (if b4 {
            8
        } else {
            0
        }) + (if b5 {
            4
        } else {
            0
        }) + (if b6 {
            2
        } else {
            0
        }) + (if b7 {
            1
        } else {
            0
        });
        let ghost prev = out@;
        out.push(v);
        proof {
            lemma_byte_of_bits(v, b0, b1, b2, b3, b4, b5, b6, b7);
            assert forall|q: int| 0 <= q < 8 * (j + 1) implies bit_at(out@, q) == padded@[q] by {
                if q < 8 * j {
                    assert(out@[q / 8] == prev[q / 8]);
                } else {
                    assert(q / 8 == j as int);
                    assert(out@[q / 8] == v);
                }
            }
        }
        j = j + 1;
    }
    proof {
        assert(out@.len() == (bits@.len() + 7) / 8);
        assert forall|k: int| 0 <= k < bits@.len() implies bit_at(
            out@,
            front_pad(bits@.len() as int) + k,
        ) == bits@[k] by {
            assert(bit_at(out@, pad + k) == padded@[pad + k]);
        }
    }
    out
}

/// The eight bits of a byte assembled from its weighted bool digits.
proof fn lemma_byte_of_bits(
    v: u8,
    b0: bool,
    b1: bool,
    b2: bool,
    b3: bool,
    b4: bool,
    b5: bool,
    b6: bool,
    b7: bool,
)
    requires
        v == (if b0 {
            128int
        } else {
            0int
        }) + (if b1 {
            64int
        } else {
            0int
        }) + (if b2 {
            32int
        } else {
            0int
        }) + (if b3 {
            16int
        } else {
            0int
        }) + (if b4 {
            8int
        } else {
            0int
        }) + (if b5 {
            4int
        } else {
            0int
        }) + (if b6 {
            2int
        } else {
            0int
        }) + (if b7 {
            1int
        } else {
            0int
        }),
    ensures
        ((v >> 7u8) & 1 == 1) == b0,
        ((v >> 6u8) & 1 == 1) == b1,
        ((v >> 5u8) & 1 == 1) == b2,
        ((v >> 4u8) & 1 == 1) == b3,
        ((v >> 3u8) & 1 == 1) == b4,
        ((v >> 2u8) & 1 == 1) == b5,
        ((v >> 1u8) & 1 == 1) == b6,
        ((v >> 0u8) & 1 == 1) == b7,
{
    let x0: u8 = if b0 {
        1
    } else {
        0
    };
    let x1: u8 = if b1 {
        1
    } else {
        0
    };
    let x2: u8 = if b2 {
        1
    } else {
        0
    };
    let x3: u8 = if b3 {
        1
    } else {
        0
    };
    let x4: u8 = if b4 {
        1
    } else {
        0
    };
    let x5: u8 = if b5 {
        1
    } else {
        0
    };
    let x6: u8 = if b6 {
        1
    } else {
        0
    };
    let x7: u8 = if b7 {
        1
    } else {
        0
    };
    assert(v == x0 * 128 + x1 * 64 + x2 * 32 + x3 * 16 + x4 * 8 + x5 * 4 + x6 * 2 + x7);
    assert((x0 <= 1 && x1 <= 1 && x2 <= 1 && x3 <= 1 && x4 <= 1 && x5 <= 1 && x6 <= 1 && x7 <= 1
        && v == x0 * 128 + x1 * 64 + x2 * 32 + x3 * 16 + x4 * 8 + x5 * 4 + x6 * 2 + x7) ==> (((v
        >> 7u8) & 1 == 1) == (x0 == 1) && ((v >> 6u8) & 1 == 1) == (x1 == 1) && ((v >> 5u8) & 1
        == 1) == (x2 == 1) && ((v >> 4u8) & 1 == 1) == (x3 == 1) && ((v >> 3u8) & 1 == 1) == (x4
        == 1) && ((v >> 2u8) & 1 == 1) == (x5 == 1) && ((v >> 1u8) & 1 == 1) == (x6 == 1) && ((v
        >> 0u8) & 1 == 1) == (x7 == 1))) by (bit_vector);
}

/// Relies on `rand::random`: one byte drawn from the thread-local generator.
#[verifier::external_body]
pub fn random_byte() -> u8 {
    rand::random::<u8>()
}

/// Generate random bytes of the given length.
pub fn random_bytes(n: usize) -> (r: Vec<u8>)
    ensures
        r@.len() == n,
{
    let mut out: Vec<u8> = Vec::new();
    let mut i: usize = 0;
    while i < n
        invariant
            out@.len() == i,
            i <= n,
        decreases n - i,
    {
        out.push(random_byte());
        i = i + 1;
    }
    out
}

/// Generate a random fixed-length byte array.
pub fn random_hash() -> crate::Hash {
    let bytes = random_bytes(HASH_LEN);
    slice_to_hash(bytes.as_slice())
}

/// Generate a vector of random fixed-length byte arrays.
pub fn random_hashes(n: usize) -> (r: Vec<crate::Hash>)
    ensures
        r@.len() == n,
{
    let mut out: Vec<crate::Hash> = Vec::new();
    let mut i: usize = 0;
    while i < n
        invariant
            out@.len() == i,
            i <= n,
        decreases n - i,
    {
        out.push(random_hash());
        i = i + 1;
    }
    out
}

/// Relies on `rand::Rng::gen_range` over the thread-local generator: a
/// uniform index strictly below the bound.
#[verifier::external_body]
fn rand_index(n: usize) -> (r: usize)
    requires
        n > 0,
    ensures
        r < n,
{
    let mut rng = rand::thread_rng();
    rand::Rng::gen_range(&mut rng, 0..n)
}

/// Swapping two positions of a sequence keeps its multiset of elements.
proof fn lemma_swap_multiset<A>(s: Seq<A>, i: int, j: int)
    requires
        0 <= i < s.len(),
        0 <= j < s.len(),
    ensures
        s.update(i, s[j]).update(j, s[i]).to_multiset() == s.to_multiset(),
{
    let t = s.update(i, s[j]).update(j, s[i]);
    if i == j {
        assert(t =~= s);
    } else {
        let lo = if i < j {
            i
        } else {
            j
        };
        let hi = if i < j {
            j
        } else {
            i
        };
        let a = s.subrange(0, lo);
        let b = s.subrange(lo + 1, hi);
        let c = s.subrange(hi + 1, s.len() as int);
        assert(s =~= a + seq![s[lo]] + b + seq![s[hi]] + c);
        assert(t =~= a + seq![s[hi]] + b + seq![s[lo]] + c);
        vstd::seq_lib::lemma_multiset_commutative(a + seq![s[lo]] + b + seq![s[hi]], c);
        vstd::seq_lib::lemma_multiset_commutative(a + seq![s[lo]] + b, seq![s[hi]]);
        vstd::seq_lib::lemma_multiset_commutative(a + seq![s[lo]], b);
        vstd::seq_lib::lemma_multiset_commutative(a, seq![s[lo]]);
        vstd::seq_lib::lemma_multiset_commutative(a + seq![s[hi]] + b + seq![s[lo]], c);
        vstd::seq_lib::lemma_multiset_commutative(a + seq![s[hi]] + b, seq![s[lo]]);
        vstd::seq_lib::lemma_multiset_commutative(a + seq![s[hi]], b);
        vstd::seq_lib::lemma_multiset_commutative(a, seq![s[hi]]);
        assert(s.to_multiset() =~= t.to_multiset());
    }
}

/// Shuffle a vector in place; the elements are kept, only their order moves.
pub fn shuffle<T: Copy>(values: &mut Vec<T>)
    ensures
        final (values)@.to_multiset() == old(values)@.to_multiset(),
        final (values)@.len() == old(values)@.len(),
{
    let s: usize = values.len();
    if s == 0 {
        return ;
    }
    let mut i: usize = 0;
    while i < s
        invariant
            s == values@.len(),
            i <= s,
            values@.to_multiset() == old(values)@.to_multiset(),
        decreases s - i,
    {
        let q: usize = rand_index(s);
        let a: T = values[i];
        let b: T = values[q];
        let ghost before = values@;
        values[i] = b;
        values[q] = a;
        proof {
            lemma_swap_multiset(before, i as int, q as int);
            assert(values@ =~= before.update(i as int, before[q as int]).update(
                q as int,
                before[i as int],
            ));
        }
        i = i + 1;
    }
}

/// Get a fixed-length byte array from a slice of the same length.
pub fn slice_to_hash(slice: &[u8]) -> (r: crate::Hash)
    requires
        slice@.len() == HASH_LEN,
    ensures
        r@ == slice@,
{
    let mut hash: crate::Hash = [0u8; 32];
    let mut i: usize = 0;
    while i < 32
        invariant
            i <= 32,
            slice@.len() == 32,
            forall|j: int| 0 <= j < i ==> hash@[j] == slice@[j],
        decreases 32 - i,
    {
        hash[i] = slice[i];
        i = i + 1;
    }
    proof {
        assert(hash@ =~= slice@);
    }
    hash
}

} // verus!
