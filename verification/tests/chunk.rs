use taper::chunk::Chunk;
use taper::chunk::EmplaceResult;
use taper::chunk::CHUNK_SLOTS;
use taper::chunk::TAG_EMPTY;

#[test]
fn test_new_chunk_is_empty() {
    let chunk = Chunk::new();
    assert_eq!(chunk.occupied_count(), 0);
    assert!(!chunk.is_full());
}

#[test]
fn test_emplace_new() {
    let mut chunk = Chunk::new();
    let hash: u64 = 0x7A3F1B02C4E89F30;
    let tag = ((hash >> 16) & 0x7F) as u8;

    let result = chunk.try_emplace(hash, tag);
    assert_eq!(result, EmplaceResult::New(0));
    assert_eq!(chunk.tags[0], tag);
    assert_eq!(chunk.keys[0], hash);
    assert_eq!(chunk.occupied_count(), 1);
}

#[test]
fn test_emplace_existing() {
    let mut chunk = Chunk::new();
    let hash: u64 = 0x7A3F1B02C4E89F30;
    let tag = ((hash >> 16) & 0x7F) as u8;

    let r1 = chunk.try_emplace(hash, tag);
    assert_eq!(r1, EmplaceResult::New(0));

    let r2 = chunk.try_emplace(hash, tag);
    assert_eq!(r2, EmplaceResult::Existing(0));
}

#[test]
fn test_emplace_different_hashes() {
    let mut chunk = Chunk::new();

    let hash1: u64 = 0x1111111111111111;
    let tag1 = ((hash1 >> 16) & 0x7F) as u8;
    let hash2: u64 = 0x2222222222222222;
    let tag2 = ((hash2 >> 16) & 0x7F) as u8;

    let r1 = chunk.try_emplace(hash1, tag1);
    assert_eq!(r1, EmplaceResult::New(0));

    let r2 = chunk.try_emplace(hash2, tag2);
    assert_eq!(r2, EmplaceResult::New(1));

    assert_eq!(chunk.occupied_count(), 2);
}

#[test]
fn test_emplace_full_chunk() {
    let mut chunk = Chunk::new();

    for i in 0..8u64 {
        let hash = i * 0x1000_0000_0000 + 0x0100_0000;
        let tag = ((hash >> 16) & 0x7F) as u8;
        let result = chunk.try_emplace(hash, tag);
        assert_eq!(result, EmplaceResult::New(i as u8));
    }

    assert!(chunk.is_full());

    let hash = 0xDEAD_BEEF_CAFE_BABE;
    let tag = ((hash >> 16) & 0x7F) as u8;
    let result = chunk.try_emplace(hash, tag);
    assert_eq!(result, EmplaceResult::Full);
}

#[test]
fn test_same_tag_different_hash() {
    let mut chunk = Chunk::new();

    let hash1: u64 = 0x00_2A_0000_0000_0001;
    let hash2: u64 = 0x00_2A_0000_0000_0002;
    let tag = 0x2A;

    let r1 = chunk.try_emplace(hash1, tag);
    assert_eq!(r1, EmplaceResult::New(0));

    let r2 = chunk.try_emplace(hash2, tag);
    assert_eq!(r2, EmplaceResult::New(1));
}

#[test]
fn full_key_comparison_decides_between_equal_hashes() {
    let mut chunk = Chunk::default();
    let (hash, tag) = (77u64, 3u8);
    assert_eq!(chunk.try_emplace_with_cmp(hash, tag, &|_slot| true), EmplaceResult::New(0));
    assert_eq!(chunk.try_emplace_with_cmp(hash, tag, &|_slot| false), EmplaceResult::New(1));
    assert_eq!(chunk.try_emplace_with_cmp(hash, tag, &|slot| slot == 1), EmplaceResult::Existing(1));
    assert_eq!(chunk.try_emplace_with_cmp(hash, tag, &|_slot| true), EmplaceResult::Existing(0));
    for slot in 2..8u8 {
        assert_eq!(chunk.try_emplace_with_cmp(hash, tag, &|_| false), EmplaceResult::New(slot));
    }
    assert_eq!(chunk.try_emplace_with_cmp(hash, tag, &|_slot| false), EmplaceResult::Full);
    assert_eq!(chunk.occupied_count(), CHUNK_SLOTS);
}

#[test]
fn tags_are_read_as_one_word() {
    let mut chunk = Chunk::new();
    chunk.tags = [1, 2, 3, 4, 5, 6, 7, TAG_EMPTY];
    assert_eq!(chunk.tags_u64(), 0x8007_0605_0403_0201);
    assert_eq!(chunk.occupied_count(), 7);
    assert!(!chunk.is_full());
    assert_eq!(chunk.first_empty(), Some(7));
    assert_eq!(chunk.claim(5, 9), Some(7));
    assert_eq!(chunk.claim(5, 9), None);
    assert_eq!(chunk.find(5, 9), Some(7));
    assert_eq!(chunk.find(6, 9), None);
    assert_eq!(chunk.find_where(5, 9, &|value| value.is_empty()), Some(7));
    assert_eq!(chunk.find_where(5, 9, &|value| !value.is_empty()), None);
    assert_eq!(taper::chunk::extract_tag(0x00ff_0000), 0x7f);
}

#[test]
fn a_chunk_fills_two_cache_lines() {
    assert_eq!(std::mem::size_of::<Chunk>(), 128);
    assert_eq!(std::mem::size_of::<taper::slot_value::SlotValue>(), 6);
}

#[test]
fn only_slots_with_the_tag_and_the_hash_are_compared() {
    let mut chunk = Chunk::new();
    chunk.try_emplace(1 << 16, 1);
    chunk.try_emplace(2 << 16, 2);
    chunk.try_emplace((1 << 16) + 5, 1);
    let result = chunk.try_emplace_with_cmp((1 << 16) + 5, 1, &|slot| {
        assert_eq!(slot, 2);
        true
    });
    assert_eq!(result, EmplaceResult::Existing(2));
    let result = chunk.try_emplace_with_cmp(3 << 16, 3, &|_| panic!("no slot has the hash"));
    assert_eq!(result, EmplaceResult::New(3));
}

#[test]
fn a_comparison_that_accepts_all_acts_as_none() {
    let mut plain = Chunk::new();
    let mut compared = Chunk::new();
    for hash in [1u64 << 16, 2 << 16, 1 << 16, 3 << 16, 2 << 16] {
        let tag = ((hash >> 16) & 0x7f) as u8;
        assert_eq!(
            plain.try_emplace(hash, tag),
            compared.try_emplace_with_cmp(hash, tag, &|_| true)
        );
    }
}
