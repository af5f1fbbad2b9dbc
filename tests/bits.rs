use hloo::bits::Bits;
use std::cmp::Ordering;

#[test]
fn iter_works_correctly() {
    let bits = Bits::new(
        vec![
            0b10101010101010101010101010101010u64,
            0b10101010101010101010101010101010u64,
        ],
        32,
    );
    let res: Vec<_> = bits.iter().into_iter().enumerate().collect();
    assert_eq!(res.len(), 64);
    assert!(
        res.iter().all(|(i, v)| (i % 2 == 0 && *v) || (i % 2 != 0 && !*v)),
        "bits.iter does not produce expected result"
    );

    let reconstructed = Bits::from_bits(&res.into_iter().map(|(_, v)| v).collect::<Vec<_>>(), 32);
    assert_eq!(reconstructed.data, bits.data, "bits.from_iter is unable to reconstruct bits");
}

#[test]
fn get_and_set_bits_msb_first() {
    let mut bits = Bits::zeros(2, 8);
    bits.set(0, true);
    bits.set(15, true);
    assert_eq!(bits.data, vec![0b1000_0000, 0b0000_0001]);
    assert!(bits.get(0));
    assert!(!bits.get(1));
    assert!(bits.get(15));
    bits.set(0, false);
    assert_eq!(bits.data, vec![0, 1]);
}

#[test]
fn byte_decoders() {
    let raw = [0x01u8, 0x02, 0x03, 0x04, 0x05, 0x06, 0x07, 0x08];
    let be = Bits::from_be_bytes(&raw, 32);
    assert_eq!(be.data, vec![0x0102_0304, 0x0506_0708]);
    let le = Bits::from_le_bytes(&raw, 32);
    assert_eq!(le.data, vec![0x0403_0201, 0x0807_0605]);
    let be64 = Bits::from_be_bytes(&raw, 64);
    assert_eq!(be64.data, vec![0x0102_0304_0506_0708]);
    let le16 = Bits::from_le_bytes(&raw, 16);
    assert_eq!(le16.data, vec![0x0201, 0x0403, 0x0605, 0x0807]);
}

#[test]
fn word_order_is_lexicographic() {
    let a = Bits::new(vec![1, 5], 32);
    let b = Bits::new(vec![2, 0], 32);
    assert_eq!(a.cmp_words(&b), Ordering::Less);
    assert_eq!(b.cmp_words(&a), Ordering::Greater);
    assert_eq!(a.cmp_words(&a.duplicate()), Ordering::Equal);
    assert!(a.eq_words(&a.duplicate()));
    assert!(!a.eq_words(&b));
}

#[test]
fn little_endian_bytes_round_trip() {
    let b = Bits::new(vec![0x0403_0201, 0x0807_0605], 32);
    let bytes = b.to_le_bytes();
    assert_eq!(bytes, vec![1, 2, 3, 4, 5, 6, 7, 8]);
    assert_eq!(Bits::from_le_bytes(&bytes, 32).data, b.data);
    let b16 = Bits::new(vec![0xBEEF, 0x0001], 16);
    assert_eq!(b16.to_le_bytes(), vec![0xEF, 0xBE, 0x01, 0x00]);
}
