use taper::bitmask::broadcast_byte;
use taper::bitmask::BitMask;

#[test]
fn test_match_tag_no_match() {
    // All slots are empty.
    let tags = broadcast_byte(0x80);
    let mask = BitMask::match_tag(tags, 0x2A);
    assert!(!mask.any());
    assert_eq!(mask.count(), 0);
}

#[test]
fn test_match_tag_single_match() {
    let mut tags_bytes = [0x80u8; 8];
    tags_bytes[0] = 0x2A;
    let tags = u64::from_le_bytes(tags_bytes);
    let mask = BitMask::match_tag(tags, 0x2A);
    assert!(mask.any());
    assert_eq!(mask.count(), 1);
    assert_eq!(mask.lowest(), 0);
}

#[test]
fn test_match_tag_multiple_matches() {
    let mut tags_bytes = [0x80u8; 8];
    tags_bytes[0] = 0x3D;
    tags_bytes[3] = 0x3D;
    tags_bytes[7] = 0x3D;
    let tags = u64::from_le_bytes(tags_bytes);
    let mask = BitMask::match_tag(tags, 0x3D);
    assert_eq!(mask.count(), 3);

    let indices: Vec<u8> = mask.indices();
    assert_eq!(indices, vec![0, 3, 7]);
}

#[test]
fn test_match_empty() {
    let mut tags_bytes = [0x80u8; 8];
    tags_bytes[0] = 0x2A;
    tags_bytes[1] = 0x3F;
    let tags = u64::from_le_bytes(tags_bytes);
    let mask = BitMask::match_empty(tags);
    assert_eq!(mask.count(), 6);
}

#[test]
fn test_iterator() {
    let mut tags_bytes = [0x80u8; 8];
    tags_bytes[1] = 0x42;
    tags_bytes[5] = 0x42;
    let tags = u64::from_le_bytes(tags_bytes);
    let mask = BitMask::match_tag(tags, 0x42);

    let indices: Vec<u8> = mask.indices();
    assert_eq!(indices, vec![1, 5]);
}

#[test]
fn test_advance() {
    let mut tags_bytes = [0x80u8; 8];
    tags_bytes[2] = 0x11;
    tags_bytes[6] = 0x11;
    let tags = u64::from_le_bytes(tags_bytes);
    let mut mask = BitMask::match_tag(tags, 0x11);

    assert_eq!(mask.lowest(), 2);
    mask = mask.advance();
    assert_eq!(mask.lowest(), 6);
    mask = mask.advance();
    assert!(!mask.any());
}

#[test]
fn next_takes_slots_in_order() {
    let tags = u64::from_le_bytes([9, 0x80, 9, 0x80, 9, 0x80, 0x80, 9]);
    let mut mask = BitMask::match_tag(tags, 9);
    assert_eq!(mask.next(), Some(0));
    assert_eq!(mask.next(), Some(2));
    assert_eq!(mask.next(), Some(4));
    assert_eq!(mask.next(), Some(7));
    assert_eq!(mask.next(), None);
    assert_eq!(mask.next(), None);
}

#[test]
fn neighbouring_tags_do_not_match() {
    // A tag that differs in its lowest bit lies right above a match.
    let tags = u64::from_le_bytes([0x12, 0x13, 0x12, 0x13, 0x80, 0x80, 0x13, 0x12]);
    assert_eq!(BitMask::match_tag(tags, 0x12).indices(), vec![0, 2, 7]);
    assert_eq!(BitMask::match_tag(tags, 0x13).indices(), vec![1, 3, 6]);
    let tags = u64::from_le_bytes([0x80, 0x81, 0x80, 0, 0, 0, 0, 0]);
    assert_eq!(BitMask::match_empty(tags).indices(), vec![0, 2]);
}

#[test]
fn raw_words_show_the_selected_slots() {
    assert_eq!(BitMask::empty().raw(), 0);
    assert!(!BitMask::empty().any());
    let tags = u64::from_le_bytes([1, 2, 1, 2, 2, 2, 2, 1]);
    let mask = BitMask::match_tag(tags, 1);
    assert_eq!(mask.raw(), 0x8000_0000_0080_0080);
    assert_eq!(broadcast_byte(0xab), 0xabab_abab_abab_abab);
    assert_eq!(BitMask::match_tag(broadcast_byte(0), 0).count(), 8);
    assert_eq!(BitMask::match_tag(broadcast_byte(0xff), 0xff).count(), 8);
}

#[test]
fn every_tag_is_matched_exactly() {
    for tag in 0..=255u8 {
        for other in 0..=255u8 {
            let tags = u64::from_le_bytes([tag, other, tag, other, other, tag, tag, other]);
            let expected: Vec<u8> =
                if tag == other { (0..8).collect() } else { vec![0, 2, 5, 6] };
            assert_eq!(BitMask::match_tag(tags, tag).indices(), expected);
        }
    }
}
