use monotree::Bits;
use monotree::Errors;
use monotree::Node;
use monotree::Unit;

fn sample_key(first: u8) -> [u8; 32] {
    let mut k = [0u8; 32];
    k[0] = first;
    for i in 1..32 {
        k[i] = (i as u8).wrapping_mul(37).wrapping_add(first);
    }
    k
}

#[test]
fn bits_new_covers_whole_buffer() {
    let key = sample_key(0xa5);
    let bits = Bits::new(&key);
    assert_eq!(bits.start, 0);
    assert_eq!(bits.end, 256);
    assert_eq!(bits.len(), 256);
    assert!(!bits.is_empty());
    // 0xa5 = 1010_0101: the first bit is set
    assert_eq!(bits.first(), true);
}

#[test]
fn bits_take_drop_split_the_range() {
    let key = sample_key(0x0f);
    let bits = Bits::new(&key);
    let head = bits.take(13);
    let tail = bits.drop(13);
    assert_eq!(head.len(), 13);
    assert_eq!(tail.len(), 243);
    assert_eq!(head.start, 0);
    assert_eq!(head.end, 13);
    assert_eq!(tail.start, 5);
    assert_eq!(tail.end, 248);
    // 0x0f = 0000_1111: bit 4 of the suffix starts the one-run
    assert_eq!(head.first(), false);
    assert_eq!(bits.drop(4).first(), true);
}

#[test]
fn bits_roundtrip_preserves_bit_sequence() {
    let key = sample_key(0xc3);
    let bits = Bits::new(&key).drop(13).take(100);
    let encoded = bits.to_bytes().unwrap();
    let decoded = Bits::from_bytes(&encoded);
    assert_eq!(decoded.start, bits.start);
    assert_eq!(decoded.end, bits.end);
    assert_eq!(decoded.len(), bits.len());
    // the byte form is canonical: re-encoding is the identity
    assert_eq!(decoded.to_bytes().unwrap(), encoded);
    // and the logical bits are untouched
    for n in [0u16, 1, 7, 8, 50, 99] {
        assert_eq!(decoded.drop(n).first(), bits.drop(n).first());
    }
}

#[test]
fn bits_encoding_masks_out_of_range_bits() {
    let bytes = [0xffu8, 0xff];
    let bits = Bits::new(&bytes).drop(3).take(7);
    let encoded = bits.to_bytes().unwrap();
    // start 3, end 10: two tag pairs then two masked bytes
    assert_eq!(encoded, vec![0x00, 0x03, 0x00, 0x0a, 0x1f, 0xc0]);
}

#[test]
fn bits_len_common_bits_finds_divergence() {
    let a = Bits::new(&[0b1010_1010u8]);
    let b = Bits::new(&[0b1010_0010u8]);
    assert_eq!(Bits::len_common_bits(&a, &b), 4);
    assert_eq!(Bits::len_common_bits(&a, &a), 8);
}

#[test]
fn node_soft_roundtrips() {
    let key = sample_key(0x11);
    let leaf = sample_key(0x77);
    let node = Node::Soft(Some(Unit { hash: leaf.to_vec(), bits: Bits::new(&key) }));
    let bytes = node.to_bytes().unwrap();
    assert_eq!(*bytes.last().unwrap(), 0x00);
    assert_eq!(&bytes[..32], &leaf[..]);
    let back = Node::from_bytes(&bytes).unwrap();
    assert_eq!(back, node);
}

#[test]
fn node_hard_roundtrips_and_orders_children() {
    let k0 = sample_key(0x00);
    let k1 = sample_key(0x80);
    let v0 = sample_key(0xaa);
    let v1 = sample_key(0xbb);
    let left = Unit { hash: v0.to_vec(), bits: Bits::new(&k0) };
    let right = Unit { hash: v1.to_vec(), bits: Bits::new(&k1) };
    let node = Node::Hard(Some(left.clone()), Some(right.clone()));
    let bytes = node.to_bytes().unwrap();
    assert_eq!(*bytes.last().unwrap(), 0x01);
    // left hash leads, right hash trails
    assert_eq!(&bytes[..32], &v0[..]);
    assert_eq!(&bytes[bytes.len() - 33..bytes.len() - 1], &v1[..]);
    // the swapped construction serializes identically
    let swapped = Node::Hard(Some(right), Some(left));
    assert_eq!(swapped.to_bytes().unwrap(), bytes);
    let back = Node::from_bytes(&bytes).unwrap();
    assert_eq!(back, node);
}

#[test]
fn node_decode_rejects_malformed_buffers() {
    assert!(Node::from_bytes(&[]).is_err());
    // unknown tag byte
    assert!(Node::from_bytes(&[0x05]).is_err());
    // truncated body under a Soft tag
    assert!(Node::from_bytes(&[0x01, 0x02, 0x00]).is_err());
    // corrupting the tag of a valid node breaks decoding
    let key = sample_key(0x42);
    let leaf = sample_key(0x24);
    let node = Node::Soft(Some(Unit { hash: leaf.to_vec(), bits: Bits::new(&key) }));
    let mut bytes = node.to_bytes().unwrap();
    let last = bytes.len() - 1;
    bytes[last] = 0x07;
    assert!(Node::from_bytes(&bytes).is_err());
}

#[test]
fn errors_carry_their_description() {
    let e = Errors::new("something went sideways");
    assert_eq!(e.message(), "something went sideways");
}
