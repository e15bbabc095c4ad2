use taper::triangular_map::TaperHashMap;

#[test]
fn test_basic_insert_and_find() {
    let mut map = TaperHashMap::new();
    let hashes = vec![42u64, 77, 42, 42, 77, 63];

    let mut new_count = 0;
    let update_list = map.emplace_batch(
        &hashes,
        &mut |_row, _slot| {
            new_count += 1;
        },
        &mut |_row, _slot| {},
    );

    assert_eq!(new_count, 3);
    assert_eq!(update_list.len(), 3);
    assert_eq!(map.len(), 3);
}

#[test]
fn test_collision_repair() {
    let mut map = TaperHashMap::new();

    map.emplace_batch(
        &[42],
        &mut |_, slot| {
            slot.bytes = [0xAA; 6];
        },
        &mut |_, _| {},
    );

    let mut created_new = false;
    map.emplace(
        42,
        &|slot| slot.bytes == [0xAA; 6],
        &mut |slot| {
            slot.bytes = [0xBB; 6];
            created_new = true;
        },
        &mut |_| {},
    );
    assert!(!created_new);
}

#[test]
fn capacities_follow_the_request() {
    assert_eq!(TaperHashMap::new().capacity(), 128);
    assert_eq!(TaperHashMap::with_capacity(0).capacity(), 8);
    assert_eq!(TaperHashMap::with_capacity(9).capacity(), 16);
    assert_eq!(TaperHashMap::with_capacity(100).capacity(), 128);
    assert_eq!(TaperHashMap::new().len(), 0);
}

#[test]
fn a_batch_checks_for_growth_before_each_row() {
    let mut map = TaperHashMap::with_capacity(16);
    let hashes: Vec<u64> = (0..15).collect();
    map.emplace_batch(&hashes, &mut |_, _| {}, &mut |_, _| {});
    assert_eq!(map.capacity(), 16);
    assert_eq!(map.len(), 15);
    // 15 of 16 slots are taken, so even a known hash grows the table.
    let updates = map.emplace_batch(&[3], &mut |_, _| {}, &mut |_, _| {});
    assert_eq!(updates, vec![0]);
    assert_eq!(map.capacity(), 32);
    assert_eq!(map.len(), 15);
}

#[test]
fn colliding_hashes_are_found_along_their_probe_sequence() {
    let mut map = TaperHashMap::with_capacity(128);
    let hashes: Vec<u64> = (0..60).map(|i| i * 16).collect();
    map.emplace_batch(&hashes, &mut |row, slot| slot.set_ptr(1 + row as u64), &mut |_, _| {});
    assert_eq!(map.capacity(), 128);
    let wanted: Vec<u64> = (0..64).map(|i| i * 16).collect();
    let mut found = Vec::new();
    let mut missed = Vec::new();
    map.probe_batch(
        &wanted,
        &mut |row, slot| found.push((row, slot.get_ptr())),
        &mut |row| missed.push(row),
    );
    assert_eq!(found, (0..60).map(|i| (i, 1 + i as u64)).collect::<Vec<_>>());
    assert_eq!(missed, vec![60, 61, 62, 63]);
    assert_eq!(map.len(), 60);
}

#[test]
fn growth_keeps_every_value() {
    let mut map = TaperHashMap::with_capacity(8);
    let hashes: Vec<u64> = (0..1000).map(|i| i * 7919 + 1).collect();
    map.emplace_batch(&hashes, &mut |row, slot| slot.set_ptr(row as u64), &mut |_, _| {});
    assert_eq!(map.len(), 1000);
    let mut found = Vec::new();
    map.probe_batch(&hashes, &mut |_, slot| found.push(slot.get_ptr()), &mut |_| {});
    assert_eq!(found, (0..1000).collect::<Vec<u64>>());
}

#[test]
fn equal_hashes_with_different_keys_survive_growth() {
    let mut map = TaperHashMap::with_capacity(8);
    for key in 1..=3u64 {
        map.emplace(
            9,
            &|slot| slot.get_ptr() == key,
            &mut |slot| slot.set_ptr(key),
            &mut |_| {},
        );
    }
    assert_eq!(map.len(), 3);
    let hashes: Vec<u64> = (100..120).collect();
    map.emplace_batch(&hashes, &mut |_, _| {}, &mut |_, _| {});
    assert_eq!(map.len(), 23);
    assert_eq!(map.capacity(), 32);
    for key in 1..=3u64 {
        let mut matched = Vec::new();
        map.emplace(
            9,
            &|slot| slot.get_ptr() == key,
            &mut |_| {},
            &mut |slot| matched.push(slot.get_ptr()),
        );
        assert_eq!(matched, vec![key]);
    }
    assert_eq!(map.len(), 23);
}

#[test]
fn emplacing_one_row_never_grows_the_table() {
    let mut map = TaperHashMap::with_capacity(8);
    for hash in 0..8u64 {
        map.emplace(hash, &|_| true, &mut |slot| slot.set_ptr(hash), &mut |_| {});
    }
    assert_eq!(map.capacity(), 8);
    assert_eq!(map.len(), 8);
    let mut matched = false;
    map.emplace(5, &|_| true, &mut |_| {}, &mut |_| matched = true);
    assert!(matched);
}

#[test]
fn a_probe_hands_each_row_to_one_callback() {
    let mut map = TaperHashMap::new();
    let hashes: Vec<u64> = (0..17).map(|i| 16 * i).collect();
    map.emplace_batch(&hashes, &mut |row, value| value.set_ptr(row as u64), &mut |_, _| {
        panic!("no row is there yet")
    });
    let mut found = Vec::new();
    map.probe_batch(&[256], &mut |row, value| found.push((row, value.get_ptr())), &mut |_| {
        panic!("the hash is there")
    });
    assert_eq!(found, vec![(0, 16)]);
    let mut missed = Vec::new();
    map.probe_batch(&[1, 272], &mut |_, _| panic!("no hash is there"), &mut |row| {
        missed.push(row)
    });
    assert_eq!(missed, vec![0, 1]);
    assert_eq!(map.len(), 17);
}

#[test]
fn a_repeated_batch_only_meets_known_rows() {
    let mut map = TaperHashMap::with_capacity(16);
    let hashes: Vec<u64> = (0..200).map(|i| i * 7919 + 42).collect();
    map.emplace_batch(&hashes, &mut |row, value| value.set_ptr(row as u64), &mut |_, _| {});
    let mut seen = Vec::new();
    let updates = map.emplace_batch(
        &hashes,
        &mut |_, _| panic!("every row is there"),
        &mut |row, value| seen.push((row, value.get_ptr())),
    );
    assert_eq!(updates, (0..200).collect::<Vec<usize>>());
    assert_eq!(seen, (0..200).map(|row| (row, row as u64)).collect::<Vec<_>>());
    assert_eq!(map.len(), 200);
    assert!((map.capacity() / 8).is_power_of_two());
}

#[test]
fn a_single_row_runs_the_callback_of_its_outcome() {
    let mut map = TaperHashMap::new();
    map.emplace(5, &|_| panic!("no value is there"), &mut |value| value.set_ptr(1), &mut |_| {
        panic!("no key agrees")
    });
    map.emplace(5, &|value| value.get_ptr() == 2, &mut |value| value.set_ptr(2), &mut |_| {
        panic!("no key agrees")
    });
    let mut matched = Vec::new();
    map.emplace(
        5,
        &|value| value.get_ptr() == 2,
        &mut |_| panic!("a key agrees"),
        &mut |value| matched.push(value.get_ptr()),
    );
    assert_eq!(matched, vec![2]);
    assert_eq!(map.len(), 2);
}

#[test]
fn a_row_meets_the_first_value_of_the_grown_table() {
    let mut map = TaperHashMap::with_capacity(16);
    // Ten values of one hash fill chunk one and go on to chunk zero.
    for number in 0..10 {
        map.emplace(1, &|_| false, &mut |value| value.set_ptr(number), &mut |_| {});
    }
    let first = |map: &TaperHashMap| {
        let mut met = Vec::new();
        map.probe_batch(&[1], &mut |_, value| met.push(value.get_ptr()), &mut |_| {});
        met[0]
    };
    assert_eq!(first(&map), 0);
    // The fifteenth entry loads the table, so that the row after it grows it. In
    // table order, chunk zero with the last two values comes first.
    let mut hashes: Vec<u64> = vec![1];
    hashes.extend(100..105);
    hashes.push(1);
    let mut met = Vec::new();
    map.emplace_batch(&hashes, &mut |_, _| {}, &mut |row, value| met.push((row, value.get_ptr())));
    assert_eq!(map.capacity(), 32);
    assert_eq!(met, vec![(0, 0), (6, 8)]);
    assert_eq!(first(&map), 8);
    assert_eq!(map.len(), 15);
}
