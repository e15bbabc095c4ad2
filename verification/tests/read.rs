use std::sync::Arc;
use taper::error::DaftError;
use taper::read::all_or_first_error;
use taper::read::check_per_file_len;
use taper::read::check_uri_type;
use taper::read::collect_batches;
use taper::read::is_nullable;
use taper::read::make_source;
use taper::read::num_parallel;
use taper::read::pyarrow_fields;
use taper::read::pyarrow_supported;
use taper::read::restore_order;
use taper::read::results_kept;
use taper::read::single_opts_for;
use taper::read::sort_by_index;
use taper::read::statistics_table;
use taper::read::timeout_error;
use taper::read::timeout_millis;
use taper::read::uris_to_read;
use taper::read::DeclaredField;
use taper::read::FileStatistics;
use taper::read::ParquetBulkReadOptions;
use taper::read::ParquetReadOptions;
use taper::read::ParquetSchemaInferenceOptions;
use taper::read::ParquetSource;
use taper::read::PerFileOptions;
use taper::read::RowBudget;
use taper::read::StringEncoding;
use taper::read::TimeUnit;
use taper::read::UriType;
use taper::record_batch::RecordBatch;

type Single = ParquetReadOptions<&'static str, &'static str, u32>;
type Bulk = ParquetBulkReadOptions<&'static str, &'static str, u32>;

#[test]
fn encodings_have_names() {
    assert_eq!(StringEncoding::from_str("utf-8"), Ok(StringEncoding::Utf8));
    assert_eq!(StringEncoding::from_str("raw"), Ok(StringEncoding::Raw));
    assert_eq!(
        StringEncoding::from_str("UTF-8"),
        Err(DaftError::ValueError("Unrecognized string encoding: UTF-8".to_string()))
    );
    assert_eq!(StringEncoding::default(), StringEncoding::Utf8);
}

#[test]
fn schema_options_default_to_nanoseconds() {
    let options = ParquetSchemaInferenceOptions::new(None);
    assert_eq!(options.coerce_int96_timestamp_unit, TimeUnit::Nanoseconds);
    assert_eq!(options, ParquetSchemaInferenceOptions::default());
    let options = ParquetSchemaInferenceOptions::new(Some(TimeUnit::Seconds));
    assert_eq!(options.coerce_int96_timestamp_unit, TimeUnit::Seconds);
    let options =
        ParquetSchemaInferenceOptions::from_python(Some(TimeUnit::Milliseconds), "raw").unwrap();
    assert_eq!(options.coerce_int96_timestamp_unit, TimeUnit::Milliseconds);
    assert_eq!(options.string_encoding, StringEncoding::Raw);
    assert_eq!(
        ParquetSchemaInferenceOptions::from_python(None, "latin-1"),
        Err(DaftError::ValueError("Unrecognized string encoding: latin-1".to_string()))
    );
}

#[test]
fn local_files_lose_their_scheme() {
    assert_eq!(
        make_source("file:///tmp/a", true, "file:///tmp/a", Some("/tmp/a")),
        ParquetSource::Local { path: "/tmp/a".to_string() }
    );
    assert_eq!(
        make_source("~/a", true, "/home/me/a", None),
        ParquetSource::Local { path: "/home/me/a".to_string() }
    );
    assert_eq!(
        make_source("s3://bucket/a", false, "s3://bucket/a", None),
        ParquetSource::Url { uri: "s3://bucket/a".to_string() }
    );
}

#[test]
fn per_file_options_are_for_all_files_or_none() {
    let none: [PerFileOptions<u32>; 0] = [];
    assert!(check_per_file_len(&none, 5).is_ok());
    let two = [PerFileOptions::<u32>::default(), PerFileOptions::default()];
    assert!(check_per_file_len(&two, 2).is_ok());
    assert_eq!(
        check_per_file_len(&two, 12),
        Err(DaftError::ValueError(
            "Mismatch of length of `uris` and `per_file`. 12 vs 2".to_string()
        ))
    );
}

#[test]
fn single_options_merge_common_and_per_file_ones() {
    let bulk: Bulk = ParquetBulkReadOptions {
        columns: Some(vec!["a".to_string(), "b".to_string()]),
        start_offset: Some(3),
        num_rows: Some(10),
        predicate: Some(Arc::new("a < 1")),
        schema_infer: ParquetSchemaInferenceOptions::new(Some(TimeUnit::Microseconds)),
        field_id_mapping: Some(Arc::new("mapping")),
        batch_size: Some(64),
        num_parallel_tasks: 4,
        per_file: vec![
            PerFileOptions::default(),
            PerFileOptions {
                row_groups: Some(vec![1, 2]),
                delete_rows: Some(vec![5]),
                metadata: Some(Arc::new(77)),
            },
        ],
    };
    let single = single_opts_for(&bulk, 1);
    assert_eq!(single.columns, Some(vec!["a".to_string(), "b".to_string()]));
    assert_eq!(single.start_offset, Some(3));
    assert_eq!(single.num_rows, Some(10));
    assert_eq!(single.row_groups, Some(vec![1, 2]));
    assert_eq!(single.predicate, Some(Arc::new("a < 1")));
    assert_eq!(single.schema_infer.coerce_int96_timestamp_unit, TimeUnit::Microseconds);
    assert_eq!(single.field_id_mapping, Some(Arc::new("mapping")));
    assert_eq!(single.delete_rows, Some(vec![5]));
    assert_eq!(single.batch_size, Some(64));
    assert_eq!(single.metadata, Some(Arc::new(77)));
    for i in [0, 2, 9] {
        let single = single_opts_for(&bulk, i);
        assert_eq!(single.row_groups, None);
        assert_eq!(single.delete_rows, None);
        assert!(single.metadata.is_none());
        assert_eq!(single.num_rows, Some(10));
    }
    let bulk = Bulk::default();
    assert_eq!(bulk.num_parallel_tasks, 0);
    assert!(bulk.per_file.is_empty());
}

#[test]
fn at_least_one_file_is_read_at_a_time() {
    assert_eq!(num_parallel(0), 1);
    assert_eq!(num_parallel(1), 1);
    assert_eq!(num_parallel(8), 8);
}

#[test]
fn files_without_batches_keep_their_columns() {
    let names: Vec<String> = ["a", "b", "c", "d"].iter().map(|name| name.to_string()).collect();
    let none: RecordBatch<i32> = collect_batches(&[], &names);
    assert_eq!(none.len(), 0);
    assert_eq!(none.columns().len(), 4);
    assert_eq!(none.names(), &names);
    let batches = [
        RecordBatch::new(vec!["a".to_string()], vec![vec![1, 2]], 2),
        RecordBatch::new(vec!["a".to_string()], vec![vec![3]], 1),
    ];
    let all = collect_batches(&batches, &names[..1]);
    assert_eq!(all.names(), &names[..1]);
    assert_eq!(all.columns()[0], vec![1, 2, 3]);
}

#[test]
fn a_limit_stops_a_bulk_read() {
    let files = [Some(4), None, Some(4), Some(4), Some(4)];
    assert_eq!(results_kept(None, &files), 5);
    assert_eq!(results_kept(Some(0), &files), 0);
    assert_eq!(results_kept(Some(1), &files), 1);
    assert_eq!(results_kept(Some(4), &files), 1);
    assert_eq!(results_kept(Some(5), &files), 3);
    assert_eq!(results_kept(Some(9), &files), 4);
    assert_eq!(results_kept(Some(100), &files), 5);
    assert_eq!(results_kept(Some(usize::MAX), &files), 0);
}

#[test]
fn a_budget_is_spent_by_rows() {
    let mut budget = RowBudget::new(Some(5));
    assert!(budget.spend(Some(3)));
    assert_eq!(budget.remaining, Some(2));
    assert!(budget.spend(None));
    assert_eq!(budget.remaining, Some(2));
    assert!(budget.spend(Some(10)));
    assert_eq!(budget.remaining, Some(-8));
    assert!(!budget.spend(Some(1)));
    assert!(!budget.spend(None));
    assert_eq!(budget.remaining, Some(-8));
    let mut budget = RowBudget::new(None);
    assert!(budget.spend(Some(usize::MAX / 4)));
    assert_eq!(budget.remaining, None);
}

#[test]
fn the_first_error_wins() {
    let fine: Vec<Result<u8, &str>> = vec![Ok(1), Ok(2)];
    assert_eq!(all_or_first_error(fine), Ok(vec![1, 2]));
    let broken: Vec<Result<u8, &str>> = vec![Ok(1), Err("a"), Ok(2), Err("b")];
    assert_eq!(all_or_first_error(broken), Err("a"));
}

#[test]
fn results_come_back_in_file_order() {
    assert_eq!(restore_order(vec![(2, "c"), (0, "a"), (3, "d"), (1, "b")]), vec![
        "a", "b", "c", "d"
    ]);
    assert_eq!(sort_by_index(vec![(1, "x"), (0, "y"), (1, "z")]), vec![
        (0, "y"),
        (1, "x"),
        (1, "z")
    ]);
    assert_eq!(restore_order(Vec::<(usize, u8)>::new()), Vec::<u8>::new());
}

fn field(name: &str, nullable: bool) -> DeclaredField {
    DeclaredField { name: name.to_string(), nullable }
}

#[test]
fn nullability_comes_from_the_file() {
    let schema = [field("a", false), field("b", true), field("a", true)];
    assert!(!is_nullable(Some(&schema), "a"));
    assert!(is_nullable(Some(&schema), "b"));
    assert!(is_nullable(Some(&schema), "c"));
    assert!(is_nullable(None, "a"));
    let fields = pyarrow_fields(&["b".to_string(), "a".to_string()], Some(&schema));
    assert_eq!(fields, vec![field("b", true), field("a", false)]);
}

#[test]
fn pyarrow_reads_filter_nothing() {
    let mut options = Single::default();
    assert!(pyarrow_supported(&options));
    options.batch_size = Some(1);
    assert!(!pyarrow_supported(&options));
    let options = Single { delete_rows: Some(vec![]), ..Single::default() };
    assert!(!pyarrow_supported(&options));
    let options = Single { predicate: Some(Arc::new("p")), ..Single::default() };
    assert!(!pyarrow_supported(&options));
}

#[test]
fn timeouts_are_in_milliseconds() {
    assert_eq!(timeout_millis(None), None);
    assert_eq!(timeout_millis(Some(1500)), Some(1500));
    assert_eq!(timeout_millis(Some(-1)), Some(u64::MAX));
    assert_eq!(
        timeout_error("a.parquet", 1500),
        DaftError::FileReadTimeout { path: "a.parquet".to_string(), duration_ms: 1500 }
    );
}

#[test]
fn statistics_need_text_uris() {
    assert!(check_uri_type(&UriType::Utf8).is_ok());
    assert_eq!(
        check_uri_type(&UriType::Other("Int64".to_string())),
        Err(DaftError::ValueError("Expected Utf8 Datatype, got Int64".to_string()))
    );
}

#[test]
fn statistics_have_nulls_where_there_is_no_file() {
    let uris = [Some("a".to_string()), None, Some("b".to_string()), None];
    assert_eq!(uris_to_read(&uris), vec!["a".to_string(), "b".to_string()]);
    let table = statistics_table(
        &UriType::Utf8,
        &uris,
        vec![
            Ok(FileStatistics { num_rows: 100, num_row_groups: 2, version: 1 }),
            Ok(FileStatistics { num_rows: 7, num_row_groups: 1, version: 2 }),
        ],
    )
    .unwrap();
    assert_eq!(table.uris, uris);
    assert_eq!(table.row_count, vec![Some(100), None, Some(7), None]);
    assert_eq!(table.row_group_count, vec![Some(2), None, Some(1), None]);
    assert_eq!(table.version, vec![Some(1), None, Some(2), None]);

    let empty = statistics_table(&UriType::Utf8, &[], Vec::new()).unwrap();
    assert!(empty.uris.is_empty() && empty.version.is_empty());
}

#[test]
fn statistics_fail_with_the_first_file_that_fails() {
    let uris = [Some("a".to_string()), None, Some("b".to_string()), Some("c".to_string())];
    let error = |text: &str| DaftError::ComputeError(text.to_string());
    let results = vec![
        Ok(FileStatistics { num_rows: 1, num_row_groups: 1, version: 1 }),
        Err(error("b")),
        Err(error("c")),
    ];
    assert_eq!(statistics_table(&UriType::Utf8, &uris, results), Err(error("b")));
    assert_eq!(
        statistics_table(&UriType::Other("Int64".to_string()), &uris, Vec::new()),
        Err(DaftError::ValueError("Expected Utf8 Datatype, got Int64".to_string()))
    );
}
