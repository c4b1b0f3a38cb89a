use rfstore::keys::{
    bytes_eq, bytes_lt, clone_bytes, data_key, decode_u64, encode_u64, hard_state_key, origin_key,
    raft_log_key, DATA_PREFIX, LOCAL_PREFIX, RAFT_LOG_INFIX,
};

#[test]
fn encode_decode_round_trip() {
    for v in [0u64, 1, 255, 256, 0xdead_beef, u64::MAX] {
        let b = encode_u64(v);
        assert_eq!(b.len(), 8);
        assert_eq!(decode_u64(&b, 0), v);
    }
}

#[test]
fn encode_is_big_endian() {
    let b = encode_u64(0x0102_0304_0506_0708);
    assert_eq!(b, vec![1, 2, 3, 4, 5, 6, 7, 8]);
}

#[test]
fn data_key_round_trip() {
    let k = vec![10u8, 20, 30];
    let d = data_key(&k);
    assert_eq!(d[0], DATA_PREFIX);
    assert_eq!(origin_key(&d), k);
}

#[test]
fn raft_log_key_layout() {
    let k = raft_log_key(7, 3);
    assert_eq!(k.len(), 18);
    assert_eq!(k[0], LOCAL_PREFIX);
    assert_eq!(k[1], RAFT_LOG_INFIX);
    assert_eq!(decode_u64(&k, 2), 7);
    assert_eq!(decode_u64(&k, 10), 3);
    assert_ne!(raft_log_key(7, 3), raft_log_key(7, 4));
    assert_ne!(raft_log_key(7, 3), raft_log_key(8, 3));
    assert_ne!(raft_log_key(7, 3), hard_state_key(7));
}

#[test]
fn lexicographic_order() {
    let a = vec![1u8, 2];
    let b = vec![1u8, 2, 0];
    let c = vec![1u8, 3];
    assert!(bytes_lt(&a, &b));
    assert!(bytes_lt(&b, &c));
    assert!(bytes_lt(&a, &c));
    assert!(!bytes_lt(&c, &a));
    assert!(!bytes_lt(&a, &a));
    assert!(bytes_lt(&vec![], &a));
    assert!(!bytes_lt(&a, &vec![]));
}

#[test]
fn byte_equality_and_copy() {
    let a = vec![5u8, 6, 7];
    let b = clone_bytes(&a);
    assert!(bytes_eq(&a, &b));
    assert!(!bytes_eq(&a, &vec![5u8, 6]));
    assert!(!bytes_eq(&a, &vec![5u8, 6, 8]));
}
