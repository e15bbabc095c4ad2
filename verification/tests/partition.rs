use rand::Rng;
use rand::SeedableRng;
use taper::error::DaftError;
use taper::partition::plan_partitions;
use taper::record_batch::RecordBatch;

fn names(list: &[&str]) -> Vec<String> {
    list.iter().map(|name| name.to_string()).collect()
}

fn batch(rows: usize) -> RecordBatch<i64> {
    let ids: Vec<i64> = (0..rows as i64).collect();
    let squares: Vec<i64> = ids.iter().map(|i| i * i).collect();
    RecordBatch::new(names(&["id", "square"]), vec![ids, squares], rows)
}

fn ids(batch: &RecordBatch<i64>) -> Vec<i64> {
    batch.columns()[0].clone()
}

#[test]
fn rows_go_to_their_targets_in_order() {
    let batch = batch(6);
    let targets = [Some(2), Some(0), Some(2), Some(1), Some(0), Some(2)];
    let parts = batch.partition_by_index(&targets, 4).unwrap();
    assert_eq!(parts.len(), 4);
    assert_eq!(ids(&parts[0]), vec![1, 4]);
    assert_eq!(ids(&parts[1]), vec![3]);
    assert_eq!(ids(&parts[2]), vec![0, 2, 5]);
    assert_eq!(ids(&parts[3]), Vec::<i64>::new());
    assert_eq!(parts[2].columns()[1], vec![0, 4, 25]);
    assert_eq!(parts[3].columns().len(), 2);
    assert_eq!(parts.iter().map(|p| p.len()).sum::<usize>(), 6);
}

#[test]
fn wrong_targets_are_refused() {
    let batch = batch(3);
    match batch.partition_by_index(&[Some(0), None], 2) {
        Err(DaftError::ValueError(text)) => {
            assert_eq!(text, "Mismatch of length of table and targets, 3 vs 2")
        }
        _ => panic!("lengths differ"),
    }
    match batch.partition_by_index(&[None, Some(9), None], 2) {
        Err(DaftError::ComputeError(text)) => {
            assert_eq!(text, "target array can not contain nulls, contains 2 nulls")
        }
        _ => panic!("targets are null"),
    }
    match batch.partition_by_index(&[Some(1), Some(12), Some(9)], 2) {
        Err(DaftError::ComputeError(text)) => assert_eq!(
            text,
            "idx in target array is out of bounds, target idx 12 out of 2 partitions"
        ),
        _ => panic!("a target is no partition"),
    }
    assert!(batch.partition_by_index(&[Some(0), Some(1), Some(0)], 2).is_ok());
}

#[test]
fn plans_gather_partition_after_partition() {
    let (offsets, order) = plan_partitions(&[1, 0, 1, 3, 0], 4);
    assert_eq!(offsets, vec![0, 2, 4, 4, 5]);
    assert_eq!(order, vec![1, 4, 0, 2, 3]);
}

#[test]
fn hashes_are_taken_modulo_the_partitions() {
    let batch = batch(5);
    let parts = batch.partition_by_hash(&[10, 11, 12, 13, 10], 3).unwrap();
    assert_eq!(ids(&parts[0]), vec![2]);
    assert_eq!(ids(&parts[1]), vec![0, 3, 4]);
    assert_eq!(ids(&parts[2]), vec![1]);
    match batch.partition_by_hash(&[1, 2, 3, 4, 5], 0) {
        Err(DaftError::ValueError(text)) => {
            assert_eq!(text, "Can not partition a Table by 0 partitions")
        }
        _ => panic!("no partitions"),
    }
    match batch.partition_by_hash(&[1, 2], 3) {
        Err(DaftError::ValueError(text)) => {
            assert_eq!(text, "Mismatch of length of table and targets, 5 vs 2")
        }
        _ => panic!("lengths differ"),
    }
}

#[test]
fn random_partitions_follow_the_seed() {
    let batch = batch(1000);
    let parts = batch.partition_by_random(7, 99).unwrap();
    let range = rand::distr::Uniform::try_from(0..7u64).unwrap();
    let draws: Vec<u64> =
        rand::rngs::StdRng::seed_from_u64(99).sample_iter(&range).take(1000).collect();
    for p in 0..7u64 {
        let expected: Vec<i64> =
            (0..1000).filter(|&i| draws[i as usize] == p).collect();
        assert_eq!(ids(&parts[p as usize]), expected);
        assert!(!expected.is_empty());
    }
    let again = batch.partition_by_random(7, 99).unwrap();
    assert_eq!(ids(&parts[3]), ids(&again[3]));
    let other = batch.partition_by_random(7, 100).unwrap();
    assert_ne!(ids(&parts[3]), ids(&other[3]));
    match batch.partition_by_random(0, 1) {
        Err(DaftError::ValueError(text)) => {
            assert_eq!(text, "Can not partition a Table by 0 partitions")
        }
        _ => panic!("no partitions"),
    }
}

#[test]
fn ranges_have_one_partition_more_than_boundaries() {
    let batch = batch(4);
    let whole = batch.partition_by_range(0, &[]).unwrap();
    assert_eq!(whole.len(), 1);
    assert_eq!(ids(&whole[0]), vec![0, 1, 2, 3]);
    let parts = batch.partition_by_range(2, &[Some(0), Some(2), Some(1), Some(2)]).unwrap();
    assert_eq!(parts.len(), 3);
    assert_eq!(ids(&parts[2]), vec![1, 3]);
    assert!(batch.partition_by_range(2, &[Some(0), Some(3), Some(1), Some(2)]).is_err());
}

#[test]
fn groups_come_with_their_keys() {
    let batch = batch(5);
    let keys = RecordBatch::new(names(&["key"]), vec![vec![7i64, 8, 7, 9, 8]], 5);
    let groups = [vec![0u64, 2], vec![1, 4], vec![3]];
    let (parts, part_keys) = batch.partition_by_value(&keys, &[0, 1, 3], &groups).unwrap();
    assert_eq!(part_keys.columns()[0], vec![7, 8, 9]);
    assert_eq!(ids(&parts[0]), vec![0, 2]);
    assert_eq!(ids(&parts[1]), vec![1, 4]);
    assert_eq!(parts[2].columns()[1], vec![9]);
    assert_eq!(part_keys.names(), &names(&["key"]));
    assert_eq!(parts[2].names(), &names(&["id", "square"]));
    assert_eq!(parts.iter().map(|part| part.len()).sum::<usize>(), batch.len());
    let whole = parts;

    let (parts, part_keys) =
        batch.partition_by_value_projected(&keys, &[0, 1, 3], &groups, &[1]).unwrap();
    assert_eq!(part_keys.len(), 3);
    assert_eq!(parts[1].columns().len(), 1);
    assert_eq!(parts[1].columns()[0], vec![1, 16]);
    for (part, whole) in parts.iter().zip(&whole) {
        let picked = whole.get_columns(&[1]);
        assert_eq!(part.names(), &names(&["square"]));
        assert_eq!(part.names(), picked.names());
        assert_eq!(part.columns(), picked.columns());
    }
}

#[test]
fn batches_are_taken_sliced_and_joined() {
    let batch = batch(6);
    assert_eq!(ids(&batch.take(&[5, 0, 5])), vec![5, 0, 5]);
    assert_eq!(ids(&batch.slice(2, 4)), vec![2, 3]);
    assert_eq!(batch.slice(2, 2).len(), 0);
    assert_eq!(batch.get_columns(&[1, 0, 1]).columns().len(), 3);
    assert_eq!(batch.get_columns(&[1, 0, 1]).names(), &names(&["square", "id", "square"]));
    assert_eq!(batch.slice(2, 4).names(), batch.names());
    assert_eq!(batch.take(&[1]).names(), batch.names());
    assert_eq!(batch.copy().names(), batch.names());
    assert_eq!(ids(&batch.copy()), ids(&batch));
    let joined = RecordBatch::concat(&[batch.slice(3, 6), batch.slice(0, 1)], batch.names());
    assert_eq!(joined.names(), batch.names());
    assert_eq!(ids(&joined), vec![3, 4, 5, 0]);
    assert_eq!(joined.len(), 4);
    let none: RecordBatch<i64> = RecordBatch::empty(&names(&["a", "b", "c"]));
    assert_eq!(none.names(), &names(&["a", "b", "c"]));
    assert_eq!(none.len(), 0);
    assert_eq!(none.columns().len(), 3);
}
