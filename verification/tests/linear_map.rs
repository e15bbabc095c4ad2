use taper::linear_map::TaperHashMap;

#[test]
fn test_new() {
    let map = TaperHashMap::new(64);
    assert_eq!(map.len(), 0);
    assert!(map.is_empty());
    assert!(map.capacity() >= 64);
}

#[test]
fn test_emplace_batch_basic() {
    let mut map = TaperHashMap::new(64);
    let hashes = vec![0x1111u64, 0x2222, 0x1111, 0x3333, 0x2222];

    let mut new_count = 0;
    let mut existing_count = 0;

    let update_list = map.emplace_batch(
        &hashes,
        &mut |_row_idx, _sv| {
            new_count += 1;
        },
        &mut |_row_idx, _sv| {
            existing_count += 1;
        },
    );

    assert_eq!(new_count, 3);
    assert_eq!(existing_count, 2);
    assert_eq!(map.len(), 3);
    assert_eq!(update_list.len(), 2);
}

#[test]
fn test_emplace_batch_all_unique() {
    let mut map = TaperHashMap::new(64);
    let hashes: Vec<u64> = (0..20).map(|i| i * 0x10000_0001).collect();

    let mut new_count = 0;
    let update_list = map.emplace_batch(&hashes, &mut |_, _| new_count += 1, &mut |_, _| {});

    assert_eq!(new_count, 20);
    assert_eq!(map.len(), 20);
    assert!(update_list.is_empty());
}

#[test]
fn test_emplace_batch_triggers_expand() {
    let mut map = TaperHashMap::new(8);
    let hashes: Vec<u64> = (0..100).map(|i| i * 0x10000_0001).collect();

    let mut new_count = 0;
    map.emplace_batch(&hashes, &mut |_, _| new_count += 1, &mut |_, _| {});

    assert_eq!(new_count, 100);
    assert_eq!(map.len(), 100);
    assert!(map.capacity() >= 100);
}

#[test]
fn test_emplace_single_new() {
    let mut map = TaperHashMap::new(64);
    let hash = 0xABCD_EF01_2345_6789u64;

    let mut was_new = false;
    map.emplace(hash, &|_sv| false, &mut |_sv| was_new = true, &mut |_sv| {});

    assert!(was_new);
    assert_eq!(map.len(), 1);
}

#[test]
fn test_emplace_single_match() {
    let mut map = TaperHashMap::new(64);
    let hash = 0xABCD_EF01_2345_6789u64;

    map.emplace_batch(&[hash], &mut |_, _| {}, &mut |_, _| {});
    assert_eq!(map.len(), 1);

    let mut was_match = false;
    map.emplace(hash, &|_sv| true, &mut |_sv| {}, &mut |_sv| was_match = true);

    assert!(was_match);
    assert_eq!(map.len(), 1);
}

#[test]
fn test_iter() {
    let mut map = TaperHashMap::new(64);
    let hashes = vec![0x1111u64, 0x2222, 0x3333];
    map.emplace_batch(&hashes, &mut |_, _| {}, &mut |_, _| {});

    let collected: Vec<u64> = map.iter().into_iter().map(|(h, _)| h).collect();
    assert_eq!(collected.len(), 3);
    for h in &hashes {
        assert!(collected.contains(h));
    }
}

#[test]
fn test_high_load_factor() {
    let mut map = TaperHashMap::new(16);
    let hashes: Vec<u64> = (0..500).map(|i| i * 7919 + 42).collect();

    map.emplace_batch(&hashes, &mut |_, _| {}, &mut |_, _| {});
    assert_eq!(map.len(), 500);

    let mut existing_count = 0;
    let update_list =
        map.emplace_batch(&hashes, &mut |_, _| {}, &mut |_, _| existing_count += 1);

    assert_eq!(existing_count, 500);
    assert_eq!(update_list.len(), 500);
    assert_eq!(map.len(), 500);
}

#[test]
fn test_put_get_basic() {
    let mut map = TaperHashMap::new(64);
    map.put(42, 100);
    map.put(99, 200);

    assert_eq!(map.get(42), Some(100));
    assert_eq!(map.get(99), Some(200));
    assert_eq!(map.get(1), None);
}

#[test]
fn test_put_overwrite() {
    let mut map = TaperHashMap::new(64);
    map.put(42, 100);
    assert_eq!(map.get(42), Some(100));

    map.put(42, 999);
    assert_eq!(map.get(42), Some(999));
    assert_eq!(map.len(), 1);
}

#[test]
fn test_put_get_many() {
    let mut map = TaperHashMap::new(16);
    for i in 0..1000u64 {
        map.put(i * 7919 + 1, i);
    }
    assert_eq!(map.len(), 1000);

    for i in 0..1000u64 {
        assert_eq!(map.get(i * 7919 + 1), Some(i));
    }
    assert_eq!(map.get(0xDEAD), None);
}

#[test]
fn test_put_get_max_value() {
    let mut map = TaperHashMap::new(64);
    let max_48bit: u64 = (1u64 << 48) - 1;
    map.put(1, max_48bit);
    assert_eq!(map.get(1), Some(max_48bit));
}

#[test]
fn capacities_are_powers_of_two_of_chunks() {
    assert_eq!(TaperHashMap::new(0).capacity(), 32);
    assert_eq!(TaperHashMap::new(32).capacity(), 32);
    assert_eq!(TaperHashMap::new(33).capacity(), 64);
    assert_eq!(TaperHashMap::new(1000).capacity(), 1024);
}

#[test]
fn the_table_doubles_beyond_nine_tenths() {
    let mut map = TaperHashMap::new(32);
    for key in 0..28 {
        map.put(key, key);
    }
    assert_eq!(map.capacity(), 32);
    map.put(28, 28);
    assert_eq!(map.capacity(), 64);
    assert_eq!(map.len(), 29);
    for key in 0..29 {
        assert_eq!(map.get(key), Some(key));
    }
}

#[test]
fn a_batch_grows_the_table_once_to_fit() {
    let mut map = TaperHashMap::new(32);
    let hashes: Vec<u64> = (0..200).collect();
    map.emplace_batch(&hashes, &mut |_, _| {}, &mut |_, _| {});
    assert_eq!(map.capacity(), 256);
    // 58 rows are more than nine tenths of 64 slots.
    let mut map = TaperHashMap::new(32);
    let hashes: Vec<u64> = (0..58).collect();
    map.emplace_batch(&hashes, &mut |_, _| {}, &mut |_, _| {});
    assert_eq!(map.capacity(), 128);
    assert_eq!(map.len(), 58);
    // 57 rows are not.
    let mut map = TaperHashMap::new(32);
    map.emplace_batch(&hashes[..57], &mut |_, _| {}, &mut |_, _| {});
    assert_eq!(map.capacity(), 64);
    assert_eq!(map.len(), 57);
}

#[test]
fn equal_hashes_with_different_keys_survive_growth_of_the_linear_table() {
    let mut map = TaperHashMap::new(8);
    map.emplace(1, &|_| false, &mut |value| value.set_ptr(10), &mut |_| {});
    map.emplace(1, &|_| false, &mut |value| value.set_ptr(20), &mut |_| {});
    // Growth by a batch, by single rows and by plain keys.
    let hashes: Vec<u64> = (100..140).collect();
    map.emplace_batch(&hashes, &mut |_, _| {}, &mut |_, _| {});
    assert_eq!(map.capacity(), 64);
    for hash in 200..240 {
        map.emplace(hash, &|_| false, &mut |_| {}, &mut |_| {});
    }
    assert_eq!(map.capacity(), 128);
    for key in 300..360 {
        map.put(key, key);
    }
    assert_eq!(map.capacity(), 256);
    assert_eq!(map.len(), 2 + 40 + 40 + 60);
    let mut values: Vec<u64> =
        map.iter().iter().filter(|(hash, _)| *hash == 1).map(|(_, v)| v.get_ptr()).collect();
    values.sort();
    assert_eq!(values, vec![10, 20]);
    let mut matched = Vec::new();
    map.emplace(
        1,
        &|value| value.get_ptr() == 20,
        &mut |_| panic!("the key is there"),
        &mut |value| matched.push(value.get_ptr()),
    );
    assert_eq!(matched, vec![20]);
}

#[test]
fn a_repeated_batch_has_no_new_rows() {
    let mut map = TaperHashMap::new(16);
    let hashes: Vec<u64> = (0..500).map(|i| i * 7919 + 42).collect();
    map.emplace_batch(&hashes, &mut |row, value| value.set_ptr(row as u64), &mut |_, _| {
        panic!("no row is there yet")
    });
    let mut seen = Vec::new();
    let updates = map.emplace_batch(
        &hashes,
        &mut |_, _| panic!("every row is there"),
        &mut |row, value| seen.push((row, value.get_ptr())),
    );
    assert_eq!(updates, (0..500).collect::<Vec<usize>>());
    assert_eq!(seen, (0..500).map(|row| (row, row as u64)).collect::<Vec<_>>());
    assert_eq!(map.len(), 500);
}

#[test]
fn only_the_callback_of_the_outcome_runs() {
    let mut map = TaperHashMap::new(64);
    map.emplace_batch(&[42], &mut |_, value| value.set_ptr(0xAA), &mut |_, _| {});
    map.put(43, 0xCC);
    let mut filled = 0;
    map.emplace(
        42,
        &|value| {
            assert_eq!(value.get_ptr(), 0xAA);
            false
        },
        &mut |value| {
            filled += 1;
            value.set_ptr(0xBB);
        },
        &mut |_| panic!("no key agrees"),
    );
    assert_eq!(filled, 1);
    let mut met = 0;
    map.emplace(42, &|_| true, &mut |_| panic!("a key agrees"), &mut |value| {
        met += 1;
        assert_eq!(value.get_ptr(), 0xAA);
    });
    assert_eq!(met, 1);
    assert_eq!(map.len(), 3);
}

#[test]
fn a_batch_adds_one_entry_for_each_new_row() {
    let mut map = TaperHashMap::new(32);
    map.put(7, 1);
    map.put(8, 2);
    let mut before: Vec<(u64, u64)> = map.iter().iter().map(|(h, v)| (*h, v.get_ptr())).collect();
    let hashes = [9u64, 7, 9, 10, 8, 10];
    map.emplace_batch(&hashes, &mut |row, value| value.set_ptr(50 + row as u64), &mut |_, _| {});
    before.extend([(9, 50), (10, 53)]);
    before.sort();
    let mut after: Vec<(u64, u64)> = map.iter().iter().map(|(h, v)| (*h, v.get_ptr())).collect();
    after.sort();
    assert_eq!(after, before);
}

#[test]
fn chunks_stay_a_power_of_two() {
    let mut map = TaperHashMap::new(40);
    for key in 0..1000 {
        map.put(key, key);
        assert_eq!(map.capacity() % 8, 0);
        assert!((map.capacity() / 8).is_power_of_two());
    }
}

#[test]
fn values_beyond_48_bits_are_cut() {
    let mut map = TaperHashMap::new(8);
    map.put(5, 0xffff_8000_0000_0001);
    assert_eq!(map.get(5), Some(0x8000_0000_0001));
}

#[test]
fn hashes_of_one_chunk_spill_into_the_next() {
    let mut map = TaperHashMap::new(32);
    let keys: Vec<u64> = (0..20).map(|i| i * 4 + 3).collect();
    for &key in &keys {
        map.put(key, key * 10);
    }
    assert_eq!(map.capacity(), 32);
    for &key in &keys {
        assert_eq!(map.get(key), Some(key * 10));
    }
    assert_eq!(map.get(83), None);
    assert_eq!(map.iter().len(), 20);
}

#[test]
fn batch_rows_get_and_keep_their_values() {
    let mut map = TaperHashMap::new(64);
    let hashes = [7u64, 8, 7, 9];
    let mut seen = Vec::new();
    let updates = map.emplace_batch(
        &hashes,
        &mut |row, value| {
            assert!(value.is_empty());
            value.set_ptr(100 + row as u64);
        },
        &mut |row, value| seen.push((row, value.get_ptr())),
    );
    assert_eq!(updates, vec![2]);
    assert_eq!(seen, vec![(2, 100)]);
    assert_eq!(map.get(7), Some(100));
    assert_eq!(map.get(8), Some(101));
    assert_eq!(map.get(9), Some(103));
}

#[test]
fn different_full_keys_share_a_hash() {
    let mut map = TaperHashMap::new(64);
    map.emplace(5, &|_| false, &mut |value| value.set_ptr(1), &mut |_| {});
    map.emplace(5, &|value| value.get_ptr() == 2, &mut |value| value.set_ptr(2), &mut |_| {});
    let mut matched = Vec::new();
    map.emplace(
        5,
        &|value| value.get_ptr() == 2,
        &mut |_| {},
        &mut |value| matched.push(value.get_ptr()),
    );
    assert_eq!(matched, vec![2]);
    assert_eq!(map.len(), 2);
    assert_eq!(map.get(5), Some(1));
    let values: Vec<u64> = map.iter().iter().map(|(_, value)| value.get_ptr()).collect();
    assert_eq!(values, vec![1, 2]);
}

#[test]
fn entries_lie_in_the_first_chunk_with_an_empty_slot() {
    let mut map = TaperHashMap::new(32);
    // Four chunks: the ninth hash of chunk three goes on to chunk zero.
    let hashes: Vec<u64> = (0..9).map(|i| 4 * i + 3).collect();
    map.emplace_batch(&hashes, &mut |_, _| {}, &mut |_, _| {});
    map.put(0, 1);
    map.put(3, 2);
    let listed: Vec<u64> = map.iter().iter().map(|(hash, _)| *hash).collect();
    assert_eq!(listed, vec![35, 0, 3, 7, 11, 15, 19, 23, 27, 31]);
    assert_eq!(map.get(3), Some(2));
}
