use prime_sieve::serializer::{
    bytes_for_page, deserialize_buf, deserialize_to_vec, deserialize_u64, serialize_primes,
    serialize_u64,
};

#[test]
fn serialize_u64_is_little_endian() {
    assert_eq!(serialize_u64(0x0102030405060708), [8, 7, 6, 5, 4, 3, 2, 1]);
    assert_eq!(serialize_u64(0), [0; 8]);
    assert_eq!(serialize_u64(u64::MAX), [255; 8]);
    assert_eq!(serialize_u64(257), [1, 1, 0, 0, 0, 0, 0, 0]);
}

#[test]
fn deserialize_u64_reads_little_endian() {
    assert_eq!(deserialize_u64([8, 7, 6, 5, 4, 3, 2, 1]), 0x0102030405060708);
    assert_eq!(deserialize_u64([255; 8]), u64::MAX);
    assert_eq!(deserialize_u64([2, 0, 0, 0, 0, 0, 0, 0]), 2);
}

#[test]
fn serialize_round_trip() {
    for n in [0u64, 1, 2, 11, 65537, 4294967295, 1 << 40, u64::MAX - 1] {
        assert_eq!(deserialize_u64(serialize_u64(n)), n);
    }
    let bytes = [9, 200, 13, 0, 77, 1, 255, 3];
    assert_eq!(serialize_u64(deserialize_u64(bytes)), bytes);
}

#[test]
fn deserialize_buf_ignores_partial_word() {
    let mut buf: Vec<u8> = Vec::new();
    buf.extend_from_slice(&serialize_u64(2));
    buf.extend_from_slice(&serialize_u64(1_000_003));
    buf.push(7);
    assert_eq!(deserialize_buf(&buf, 17), vec![2, 1_000_003]);
    assert_eq!(deserialize_buf(&buf, 15), vec![2]);
    assert_eq!(deserialize_buf(&buf, 0), Vec::<u64>::new());
}

#[test]
fn deserialize_to_vec_appends() {
    let mut out = vec![5u64];
    let buf = serialize_u64(7);
    deserialize_to_vec(&buf, 8, &mut out);
    assert_eq!(out, vec![5, 7]);
}

#[test]
fn serialize_primes_round_trip() {
    let primes = vec![2u64, 3, 5, 7, 11, 4294967291];
    let bytes = serialize_primes(&primes);
    assert_eq!(bytes.len(), 48);
    assert_eq!(&bytes[8..16], &[3, 0, 0, 0, 0, 0, 0, 0]);
    assert_eq!(deserialize_buf(&bytes, bytes.len()), primes);
    assert!(serialize_primes(&vec![]).is_empty());
}

#[test]
fn bytes_for_page_cuts_at_page_end() {
    assert_eq!(bytes_for_page(0, 16, 64), 16);
    assert_eq!(bytes_for_page(56, 16, 64), 8);
    assert_eq!(bytes_for_page(63, 0, 64), 0);
}
