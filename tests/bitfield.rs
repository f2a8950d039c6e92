use beacon_core::bitfield::BooleanBitfield;

#[test]
fn test_bitfield_set() {
    let mut b = BooleanBitfield::new();
    b.set_bit(&0, &false);
    assert_eq!(b.to_be_vec(), [0]);

    b = BooleanBitfield::new();
    b.set_bit(&7, &true);
    assert_eq!(b.to_be_vec(), [128]);
    b.set_bit(&7, &false);
    assert_eq!(b.to_be_vec(), [0]);

    b = BooleanBitfield::new();
    b.set_bit(&7, &true);
    b.set_bit(&0, &true);
    assert_eq!(b.to_be_vec(), [129]);
    b.set_bit(&7, &false);
    assert_eq!(b.to_be_vec(), [1]);

    b = BooleanBitfield::new();
    b.set_bit(&8, &true);
    assert_eq!(b.to_be_vec(), [1, 0]);
    b.set_bit(&8, &false);
    assert_eq!(b.to_be_vec(), [0, 0]);

    b = BooleanBitfield::new();
    b.set_bit(&15, &true);
    assert_eq!(b.to_be_vec(), [128, 0]);
    b.set_bit(&15, &false);
    assert_eq!(b.to_be_vec(), [0, 0]);

    b = BooleanBitfield::new();
    b.set_bit(&8, &true);
    b.set_bit(&15, &true);
    assert_eq!(b.to_be_vec(), [129, 0]);
    b.set_bit(&15, &false);
    assert_eq!(b.to_be_vec(), [1, 0]);
}

#[test]
fn test_bitfield_get() {
    let test_nums = vec![0, 8, 15, 42, 1337];
    for i in test_nums {
        let mut b = BooleanBitfield::new();
        assert_eq!(b.get_bit(&i), false);
        b.set_bit(&i, &true);
        assert_eq!(b.get_bit(&i), true);
        b.set_bit(&i, &true);
    }
}

#[test]
fn bitfield_with_capacity_starts_empty() {
    let b = BooleanBitfield::with_capacity(16);
    assert_eq!(b.to_be_vec(), Vec::<u8>::new());
    assert_eq!(b.get_bit(&3), false);
}

#[test]
fn bitfield_bytes_round_trip() {
    let b = BooleanBitfield::from_bytes(vec![5, 0, 128]);
    assert_eq!(b.to_bytes(), vec![5, 0, 128]);
    assert_eq!(b.byte_len(), 3);
    assert!(b.get_bit(&0));
    assert!(!b.get_bit(&1));
    assert!(b.get_bit(&2));
    assert!(b.get_bit(&23));
}
