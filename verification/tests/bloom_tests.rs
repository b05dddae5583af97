use bloomfilter::bloom::Bloom;
use bloomfilter::bloom::BloomError;

#[test]
fn insert_and_contains() {
    let mut bloom = Bloom::new(2, 10);
    bloom.insert("hello".as_bytes());
    bloom.insert("world".as_bytes());

    assert!(bloom.may_contain("hello".as_bytes()));
    assert!(bloom.may_contain("world".as_bytes()));
    assert!(!bloom.may_contain("rust".as_bytes()));
}

#[test]
fn encode_decode() {
    let mut bloom = Bloom::new(2, 10);
    bloom.insert("hello".as_bytes());
    bloom.insert("world".as_bytes());

    let mut buf = Vec::new();
    bloom.encode(&mut buf);

    let bloom = Bloom::decode(&buf).unwrap();
    assert!(bloom.may_contain("hello".as_bytes()));
    assert!(bloom.may_contain("world".as_bytes()));
    assert!(!bloom.may_contain("rust".as_bytes()));
}

#[test]
fn empty_filter_rejects_every_key() {
    let bloom = Bloom::new(2, 10);
    assert!(!bloom.may_contain("hello".as_bytes()));
    assert!(!bloom.may_contain("".as_bytes()));
    assert!(!bloom.may_contain(&[0]));
    assert!(!bloom.may_contain(&[0xFF; 100]));
}

#[test]
fn inserted_keys_survive_later_inserts() {
    let mut bloom = Bloom::new(8, 10);
    let keys: Vec<String> = (0..8).map(|i| format!("key-{}", i)).collect();
    for (i, key) in keys.iter().enumerate() {
        bloom.insert(key.as_bytes());
        for earlier in &keys[..=i] {
            assert!(bloom.may_contain(earlier.as_bytes()));
        }
    }
    for key in &keys {
        assert!(bloom.may_contain(key.as_bytes()));
    }
}

#[test]
fn minimum_size_floor() {
    // Zero entries and zero bits-per-key still give the 64-bit floor:
    // 8 bytes of bit array, plus the checksum and the k byte.
    let bloom = Bloom::new(0, 0);
    let mut buf = Vec::new();
    bloom.encode(&mut buf);
    assert_eq!(buf.len(), 4 + 8 + 1);
}

#[test]
fn k_clamped_to_one() {
    // bits_per_key = 0 rounds to 0 and is clamped up to 1; the k byte is
    // the last byte of the encoding.
    let bloom = Bloom::new(10, 0);
    let mut buf = Vec::new();
    bloom.encode(&mut buf);
    assert_eq!(*buf.last().unwrap(), 1);
}

#[test]
fn k_clamped_to_thirty() {
    // A very large bits_per_key is clamped down to 30.
    let bloom = Bloom::new(10, 1000);
    let mut buf = Vec::new();
    bloom.encode(&mut buf);
    assert_eq!(*buf.last().unwrap(), 30);
}

#[test]
fn k_rounds_to_nearest() {
    // bits_per_key = 10 gives k = round(6.9) = 7.
    let bloom = Bloom::new(2, 10);
    let mut buf = Vec::new();
    bloom.encode(&mut buf);
    assert_eq!(*buf.last().unwrap(), 7);
}

#[test]
fn encoding_carries_crc32_of_payload() {
    let mut bloom = Bloom::new(2, 10);
    bloom.insert("hello".as_bytes());

    let mut buf = Vec::new();
    bloom.encode(&mut buf);

    let stored = u32::from_be_bytes([buf[0], buf[1], buf[2], buf[3]]);
    assert_eq!(stored, crc32fast::hash(&buf[4..]));
}

#[test]
fn every_single_bit_flip_is_detected() {
    let mut bloom = Bloom::new(2, 10);
    bloom.insert("hello".as_bytes());
    bloom.insert("world".as_bytes());

    let mut buf = Vec::new();
    bloom.encode(&mut buf);

    for i in 0..buf.len() {
        for bit in 0..8 {
            let mut corrupt = buf.clone();
            corrupt[i] ^= 1 << bit;
            assert!(matches!(
                Bloom::decode(&corrupt),
                Err(BloomError::Crc32NotMatch)
            ));
        }
    }
}

#[test]
fn decode_accepts_only_the_matching_checksum() {
    let bloom = Bloom::new(2, 10);
    let mut buf = Vec::new();
    bloom.encode(&mut buf);

    assert!(Bloom::decode(&buf).is_ok());

    let mut wrong = buf.clone();
    wrong[0] = wrong[0].wrapping_add(1);
    assert_eq!(Bloom::decode(&wrong).unwrap_err(), BloomError::Crc32NotMatch);
}

#[test]
fn decoded_filter_accepts_further_inserts() {
    let mut bloom = Bloom::new(4, 10);
    bloom.insert("hello".as_bytes());

    let mut buf = Vec::new();
    bloom.encode(&mut buf);

    let mut again = Bloom::decode(&buf).unwrap();
    again.insert("world".as_bytes());
    assert!(again.may_contain("hello".as_bytes()));
    assert!(again.may_contain("world".as_bytes()));
}
