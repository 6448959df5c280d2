use sodg::Hex;

#[test]
fn short_data_stays_inline() {
    let h = Hex::from_vec(vec![1, 2, 3]);
    assert!(matches!(h, Hex::Bytes(_, 3)));
    assert_eq!(3, h.len());
    assert_eq!(2, h.byte_at(1));
    assert_eq!(vec![1, 2, 3], h.to_vec());
}

#[test]
fn long_data_goes_to_the_heap() {
    let bytes: Vec<u8> = (0..30).collect();
    let h = Hex::from_vec(bytes.clone());
    assert!(matches!(h, Hex::Vector(_)));
    assert_eq!(30, h.len());
    assert_eq!(bytes, h.to_vec());
}

#[test]
fn equality_ignores_the_form() {
    let inline = Hex::from_vec(vec![7, 8]);
    let heap = Hex::Vector(vec![7, 8]);
    assert_eq!(inline, heap);
    assert_ne!(inline, Hex::Vector(vec![7, 9]));
    assert_ne!(inline, Hex::Vector(vec![7]));
}

#[test]
fn text_bytes_and_emptiness() {
    let h = Hex::from_str_bytes("hello");
    assert_eq!(b"hello".to_vec(), h.to_vec());
    assert!(!h.is_empty());
    assert!(Hex::empty().is_empty());
    assert_eq!(h, h.duplicate());
    assert_eq!(Hex::from_slice(&[1, 2]), Hex::from_vec(vec![1, 2]));
}
