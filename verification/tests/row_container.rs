use taper::row_container::RowContainer;

#[test]
fn test_row_container_basic() {
    // 2 key columns: i64 (8B) + i64 (8B), agg state: i64 (8B)
    let mut rc = RowContainer::new(&[8, 8], 8);

    let row = rc.new_row();
    rc.write_value::<i64>(row, 0, 12345);
    rc.write_value::<i64>(row, 1, 67890);

    assert_eq!(rc.read_value::<i64>(row, 0), 12345);
    assert_eq!(rc.read_value::<i64>(row, 1), 67890);
    assert!(!rc.is_null(row, 0));
}

#[test]
fn columns_lie_one_after_the_other() {
    let rc = RowContainer::new(&[8, 4, 1], 16);
    assert_eq!(rc.column_at(0).null_byte, 0);
    assert_eq!(rc.column_at(0).offset, 1);
    assert_eq!(rc.column_at(1).null_byte, 9);
    assert_eq!(rc.column_at(1).offset, 10);
    assert_eq!(rc.column_at(2).null_byte, 14);
    assert_eq!(rc.column_at(2).offset, 15);
    assert_eq!(rc.column_at(2).null_mask, 1);
    assert_eq!(rc.agg_state_offset(), 16);
    assert_eq!(rc.row_size(), 32);
    assert_eq!(rc.num_rows(), 0);
}

#[test]
fn values_of_other_rows_and_columns_stay() {
    let mut rc = RowContainer::new(&[8, 4, 2, 1, 8, 4], 0);
    let first = rc.new_row();
    let second = rc.new_row();
    assert_eq!(first, 0);
    assert_eq!(second, rc.row_size());
    assert_eq!(rc.num_rows(), 2);
    for row in [first, second] {
        rc.write_value::<i64>(row, 0, -5 - row as i64);
        rc.write_value::<u32>(row, 1, 0xdead_beef);
        rc.write_value::<u16>(row, 2, 0xabcd);
        rc.write_value::<u8>(row, 3, 7);
        rc.write_value::<u64>(row, 4, u64::MAX - row as u64);
        rc.write_value::<i32>(row, 5, i32::MIN);
    }
    for row in [first, second] {
        assert_eq!(rc.read_value::<i64>(row, 0), -5 - row as i64);
        assert_eq!(rc.read_value::<u32>(row, 1), 0xdead_beef);
        assert_eq!(rc.read_value::<u16>(row, 2), 0xabcd);
        assert_eq!(rc.read_value::<u8>(row, 3), 7);
        assert_eq!(rc.read_value::<u64>(row, 4), u64::MAX - row as u64);
        assert_eq!(rc.read_value::<i32>(row, 5), i32::MIN);
    }
}

#[test]
fn null_flags_are_set_and_cleared() {
    let mut rc = RowContainer::new(&[8, 8], 8);
    let row = rc.new_row();
    let other = rc.new_row();
    rc.write_value::<i64>(row, 1, 99);
    rc.set_null(row, 1);
    assert!(rc.is_null(row, 1));
    assert!(!rc.is_null(row, 0));
    assert!(!rc.is_null(other, 1));
    assert_eq!(rc.read_value::<i64>(row, 1), 99);
    rc.set_null(row, 1);
    assert!(rc.is_null(row, 1));
    rc.clear_null(row, 1);
    assert!(!rc.is_null(row, 1));
    assert_eq!(rc.read_value::<i64>(row, 1), 99);
    assert_eq!(rc.read_value::<i64>(other, 0), 0);
}

#[test]
fn integers_of_every_width_are_read_back() {
    let mut rc = RowContainer::new(&[1, 2, 16, 16], 0);
    let row = rc.new_row();
    rc.write_value::<i8>(row, 0, -100);
    rc.write_value::<i16>(row, 1, -30_000);
    rc.write_value::<u128>(row, 2, u128::MAX - 5);
    rc.write_value::<i128>(row, 3, i128::MIN + 7);
    assert_eq!(rc.read_value::<i8>(row, 0), -100);
    assert_eq!(rc.read_value::<i16>(row, 1), -30_000);
    assert_eq!(rc.read_value::<u128>(row, 2), u128::MAX - 5);
    assert_eq!(rc.read_value::<i128>(row, 3), i128::MIN + 7);
}
