use sakuhiki::bytes;

#[test]
fn lt_orders_a_prefix_first() {
    assert!(bytes::lt(b"ab", b"abc"));
    assert!(!bytes::lt(b"abc", b"ab"));
    assert!(!bytes::lt(b"abc", b"abc"));
    assert!(bytes::lt(b"abc", b"abd"));
    assert!(bytes::lt(b"", b"\x00"));
    assert!(!bytes::lt(b"", b""));
}

#[test]
fn lt_compares_bytes_as_unsigned() {
    assert!(bytes::lt(&[0x7F], &[0x80]));
    assert!(bytes::lt(&[0x00, 0xFF], &[0x01]));
    assert!(!bytes::lt(&[0xFF], &[0x00, 0xFF]));
}

#[test]
fn lt_agrees_with_the_order_of_slices() {
    let samples: Vec<Vec<u8>> = vec![
        vec![],
        vec![0],
        vec![0, 0],
        vec![0, 1],
        vec![1],
        vec![1, 0],
        vec![1, 255],
        vec![2],
        vec![255],
        vec![255, 255],
    ];
    for a in &samples {
        for b in &samples {
            assert_eq!(bytes::lt(a, b), a < b);
            assert_eq!(bytes::eq(a, b), a == b);
        }
    }
}

#[test]
fn eq_needs_the_same_length() {
    assert!(bytes::eq(b"", b""));
    assert!(bytes::eq(b"abc", b"abc"));
    assert!(!bytes::eq(b"abc", b"ab"));
    assert!(!bytes::eq(b"abc", b"abd"));
}

#[test]
fn starts_with_tells_prefixes() {
    assert!(bytes::starts_with(b"abc", b""));
    assert!(bytes::starts_with(b"abc", b"ab"));
    assert!(bytes::starts_with(b"abc", b"abc"));
    assert!(!bytes::starts_with(b"abc", b"abcd"));
    assert!(!bytes::starts_with(b"abc", b"b"));
}

#[test]
fn to_vec_copies() {
    assert_eq!(bytes::to_vec(b"abc"), b"abc".to_vec());
    assert_eq!(bytes::to_vec(b""), Vec::<u8>::new());
}
