use taper::slot_value::SlotValue;

#[test]
fn test_roundtrip() {
    let data: Vec<u8> = vec![1, 2, 3, 4, 5];
    let ptr = data.as_ptr() as usize as u64;

    let mut sv = SlotValue::empty();
    sv.set_ptr(ptr);
    assert_eq!(sv.get_ptr(), ptr);
}

#[test]
fn test_empty() {
    let sv = SlotValue::empty();
    assert!(sv.is_empty());
    assert_eq!(sv.get_ptr(), 0);
}

#[test]
fn test_non_empty() {
    let data = vec![42u8; 16];
    let mut sv = SlotValue::empty();
    sv.set_ptr(data.as_ptr() as usize as u64);
    assert!(!sv.is_empty());
}

#[test]
fn test_multiple_pointers() {
    let allocs: Vec<Vec<u8>> = (0..10).map(|i| vec![i; 64]).collect();
    for alloc in &allocs {
        let mut sv = SlotValue::empty();
        sv.set_ptr(alloc.as_ptr() as usize as u64);
        assert_eq!(sv.get_ptr(), alloc.as_ptr() as usize as u64);
    }
}

#[test]
fn addresses_are_sign_extended() {
    let mut sv = SlotValue::default();
    sv.set_ptr(0xffff_8000_0000_1234);
    assert_eq!(sv.bytes, [0x34, 0x12, 0, 0, 0, 0x80]);
    assert_eq!(sv.get_ptr(), 0xffff_8000_0000_1234);
    assert_eq!(sv.get_ptr_mut(), 0xffff_8000_0000_1234);
    assert_eq!(sv.low_bits(), 0x8000_0000_1234);

    sv.set_ptr(0x7fff_ffff_ffff);
    assert_eq!(sv.get_ptr(), 0x7fff_ffff_ffff);
}

#[test]
fn other_addresses_lose_their_high_bits() {
    let mut sv = SlotValue::empty();
    sv.set_ptr(0x0001_0000_0000_0007);
    assert_eq!(sv.get_ptr(), 7);
    sv.set_ptr(0x1234_8000_0000_0000);
    assert_eq!(sv.get_ptr(), 0xffff_8000_0000_0000);
}

#[test]
fn values_describe_their_address() {
    let mut sv = SlotValue::empty();
    assert_eq!(sv.describe(), "SlotValue(0x0)");
    sv.set_ptr(0x7f00_dead_beef);
    assert_eq!(sv.describe(), "SlotValue(0x7f00deadbeef)");
}
