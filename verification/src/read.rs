//! Options and decisions of reading parquet files, one or many at a time.
//!
//! The reads themselves are made by the caller, who asks here what to read and
//! hands the results back.

use std::sync::Arc;

use vstd::prelude::*;

use crate::error::DaftError;
use crate::record_batch::RecordBatch;
use crate::text::same_text;
use crate::text::write_decimal;

verus! {

/// The unit of a timestamp.
#[derive(Debug, Clone, Copy, PartialEq, Eq, Structural)]
pub enum TimeUnit {
    Nanoseconds,
    Microseconds,
    Milliseconds,
    Seconds,
}

/// How byte arrays that are marked as strings are decoded.
#[derive(Debug, Clone, Copy, PartialEq, Eq, Structural)]
pub enum StringEncoding {
    /// As bytes, without validation.
    Raw,
    /// As text, with UTF-8 validation.
    Utf8,
}

impl Default for StringEncoding {
    fn default() -> (encoding: Self)
        ensures
            encoding == StringEncoding::Utf8,
    {
        StringEncoding::Utf8
    }
}

/// The message about an unknown string encoding.
pub open spec fn encoding_message(name: Seq<char>) -> Seq<char> {
    "Unrecognized string encoding: "@ + name
}

impl StringEncoding {
    /// The encoding of a name: `utf-8` or `raw`.
    pub fn from_str(value: &str) -> (result: Result<Self, DaftError>)
        ensures
            match result {
                Ok(StringEncoding::Utf8) => value@ == "utf-8"@,
                Ok(StringEncoding::Raw) => value@ == "raw"@,
                Err(error) => {
                    &&& value@ != "utf-8"@
                    &&& value@ != "raw"@
                    &&& error matches DaftError::ValueError(text)
                    &&& text@ == encoding_message(value@)
                },
            },
    {
        if same_text(value, "utf-8") {
            Ok(StringEncoding::Utf8)
        } else if same_text(value, "raw") {
            Ok(StringEncoding::Raw)
        } else {
            Err(
                DaftError::ValueError("Unrecognized string encoding: ".to_owned().concat(value)),
            )
        }
    }
}

/// How the schema of a file is inferred.
#[derive(Debug, Clone, Copy, PartialEq, Eq, Structural)]
pub struct ParquetSchemaInferenceOptions {
    pub coerce_int96_timestamp_unit: TimeUnit,
    pub string_encoding: StringEncoding,
}

impl ParquetSchemaInferenceOptions {
    /// The options for this timestamp unit, nanoseconds by default.
    #[must_use]
    pub fn new(coerce_int96_timestamp_unit: Option<TimeUnit>) -> (options: Self)
        ensures
            options == (ParquetSchemaInferenceOptions {
                coerce_int96_timestamp_unit: match coerce_int96_timestamp_unit {
                    Some(unit) => unit,
                    None => TimeUnit::Nanoseconds,
                },
                string_encoding: StringEncoding::Utf8,
            }),
    {
        ParquetSchemaInferenceOptions {
            coerce_int96_timestamp_unit: match coerce_int96_timestamp_unit {
                Some(unit) => unit,
                None => TimeUnit::Nanoseconds,
            },
            string_encoding: StringEncoding::Utf8,
        }
    }

    /// The options for this timestamp unit, nanoseconds by default, and this
    /// name of a string encoding.
    pub fn from_python(
        coerce_int96_timestamp_unit: Option<TimeUnit>,
        string_encoding: &str,
    ) -> (result: Result<Self, DaftError>)
        ensures
            match result {
                Ok(options) => {
                    &&& options.coerce_int96_timestamp_unit == match coerce_int96_timestamp_unit {
                        Some(unit) => unit,
                        None => TimeUnit::Nanoseconds,
                    }
                    &&& match options.string_encoding {
                        StringEncoding::Utf8 => string_encoding@ == "utf-8"@,
                        StringEncoding::Raw => string_encoding@ == "raw"@,
                    }
                },
                Err(error) => {
                    &&& string_encoding@ != "utf-8"@
                    &&& string_encoding@ != "raw"@
                    &&& error matches DaftError::ValueError(text)
                    &&& text@ == encoding_message(string_encoding@)
                },
            },
    {
        match StringEncoding::from_str(string_encoding) {
            Ok(encoding) => {
                let options: Self = Self::new(coerce_int96_timestamp_unit);
                Ok(
                    ParquetSchemaInferenceOptions {
                        coerce_int96_timestamp_unit: options.coerce_int96_timestamp_unit,
                        string_encoding: encoding,
                    },
                )
            },
            Err(error) => Err(error),
        }
    }
}

impl Default for ParquetSchemaInferenceOptions {
    fn default() -> (options: Self)
        ensures
            options == (ParquetSchemaInferenceOptions {
                coerce_int96_timestamp_unit: TimeUnit::Nanoseconds,
                string_encoding: StringEncoding::Utf8,
            }),
    {
        ParquetSchemaInferenceOptions::new(None)
    }
}

/// Projection, pushdown and decode options for one file. `P` is a predicate, `F`
/// a mapping of field identifiers and `M` the metadata of a file.
pub struct ParquetReadOptions<P, F, M> {
    pub columns: Option<Vec<String>>,
    pub start_offset: Option<usize>,
    pub num_rows: Option<usize>,
    pub row_groups: Option<Vec<i64>>,
    pub predicate: Option<Arc<P>>,
    pub schema_infer: ParquetSchemaInferenceOptions,
    pub field_id_mapping: Option<Arc<F>>,
    pub delete_rows: Option<Vec<i64>>,
    pub batch_size: Option<usize>,
    pub metadata: Option<Arc<M>>,
}

/// What is overridden for one file of a bulk read.
pub struct PerFileOptions<M> {
    pub row_groups: Option<Vec<i64>>,
    pub delete_rows: Option<Vec<i64>>,
    pub metadata: Option<Arc<M>>,
}

/// Options for a bulk read. `per_file` is empty or has an entry for each file.
pub struct ParquetBulkReadOptions<P, F, M> {
    pub columns: Option<Vec<String>>,
    pub start_offset: Option<usize>,
    pub num_rows: Option<usize>,
    pub predicate: Option<Arc<P>>,
    pub schema_infer: ParquetSchemaInferenceOptions,
    pub field_id_mapping: Option<Arc<F>>,
    pub batch_size: Option<usize>,
    pub num_parallel_tasks: usize,
    pub per_file: Vec<PerFileOptions<M>>,
}

impl<P, F, M> Default for ParquetReadOptions<P, F, M> {
    fn default() -> (options: Self)
        ensures
            options.columns is None,
            options.start_offset is None,
            options.num_rows is None,
            options.row_groups is None,
            options.predicate is None,
            options.schema_infer == (ParquetSchemaInferenceOptions {
                coerce_int96_timestamp_unit: TimeUnit::Nanoseconds,
                string_encoding: StringEncoding::Utf8,
            }),
            options.field_id_mapping is None,
            options.delete_rows is None,
            options.batch_size is None,
            options.metadata is None,
    {
        ParquetReadOptions {
            columns: None,
            start_offset: None,
            num_rows: None,
            row_groups: None,
            predicate: None,
            schema_infer: ParquetSchemaInferenceOptions::new(None),
            field_id_mapping: None,
            delete_rows: None,
            batch_size: None,
            metadata: None,
        }
    }
}

impl<M> Default for PerFileOptions<M> {
    fn default() -> (options: Self)
        ensures
            options.row_groups is None,
            options.delete_rows is None,
            options.metadata is None,
    {
        PerFileOptions { row_groups: None, delete_rows: None, metadata: None }
    }
}

impl<P, F, M> Default for ParquetBulkReadOptions<P, F, M> {
    fn default() -> (options: Self)
        ensures
            options.columns is None,
            options.start_offset is None,
            options.num_rows is None,
            options.predicate is None,
            options.schema_infer == (ParquetSchemaInferenceOptions {
                coerce_int96_timestamp_unit: TimeUnit::Nanoseconds,
                string_encoding: StringEncoding::Utf8,
            }),
            options.field_id_mapping is None,
            options.batch_size is None,
            options.num_parallel_tasks == 0,
            options.per_file@.len() == 0,
    {
        ParquetBulkReadOptions {
            columns: None,
            start_offset: None,
            num_rows: None,
            predicate: None,
            schema_infer: ParquetSchemaInferenceOptions::new(None),
            field_id_mapping: None,
            batch_size: None,
            num_parallel_tasks: 0,
            per_file: Vec::new(),
        }
    }
}

/// Where a file is read from.
#[derive(Debug, PartialEq, Eq)]
pub enum ParquetSource {
    /// A path on this machine.
    Local { path: String },
    /// Anything else that a URI can name.
    Url { uri: String },
}

/// The source of a URI. `fixed_uri` is the URI as it was parsed, `is_file` tells
/// whether it names a local file, and `stripped` is its path without a scheme,
/// where it has one.
pub fn make_source(uri: &str, is_file: bool, fixed_uri: &str, stripped: Option<&str>) -> (source:
    ParquetSource)
    ensures
        match source {
            ParquetSource::Local { path } => {
                &&& is_file
                &&& path@ == match stripped {
                    Some(text) => text@,
                    None => fixed_uri@,
                }
            },
            ParquetSource::Url { uri: target } => !is_file && target@ == uri@,
        },
{
    if is_file {
        match stripped {
            Some(path) => ParquetSource::Local { path: path.to_owned() },
            None => ParquetSource::Local { path: fixed_uri.to_owned() },
        }
    } else {
        ParquetSource::Url { uri: uri.to_owned() }
    }
}

/// The message about a list of per-file options of the wrong length.
pub open spec fn per_file_message(uris: nat, per_file: nat) -> Seq<char> {
    "Mismatch of length of `uris` and `per_file`. "@ + crate::text::decimal(uris) + " vs "@
        + crate::text::decimal(per_file)
}

/// Checks that there are options for every file or for none.
pub fn check_per_file_len<M>(per_file: &[PerFileOptions<M>], uris_len: usize) -> (result: Result<
    (),
    DaftError,
>)
    ensures
        match result {
            Ok(()) => per_file@.len() == 0 || per_file@.len() == uris_len,
            Err(error) => {
                &&& per_file@.len() != 0
                &&& per_file@.len() != uris_len
                &&& error matches DaftError::ValueError(text)
                &&& text@ == per_file_message(uris_len as nat, per_file@.len())
            },
        },
{
    let n: usize = per_file.len();
    if n != 0 && n != uris_len {
        let text: String = "Mismatch of length of `uris` and `per_file`. ".to_owned().concat(
            write_decimal(uris_len as u64).as_str(),
        ).concat(" vs ").concat(write_decimal(n as u64).as_str());
        return Err(DaftError::ValueError(text));
    }
    Ok(())
}

/// Whether two optional lists hold the same numbers.
pub open spec fn same_numbers(a: Option<Vec<i64>>, b: Option<Vec<i64>>) -> bool {
    match (a, b) {
        (Some(x), Some(y)) => x@ == y@,
        (None, None) => true,
        _ => false,
    }
}

/// Whether two optional lists hold the same names.
pub open spec fn same_names(a: Option<Vec<String>>, b: Option<Vec<String>>) -> bool {
    match (a, b) {
        (Some(x), Some(y)) => {
            &&& x@.len() == y@.len()
            &&& forall|i: int| 0 <= i < x@.len() ==> (#[trigger] x@[i])@ == y@[i]@
        },
        (None, None) => true,
        _ => false,
    }
}

fn copy_numbers(numbers: &Option<Vec<i64>>) -> (copy: Option<Vec<i64>>)
    ensures
        same_numbers(copy, *numbers),
{
    match numbers {
        Some(list) => {
            let copy: Vec<i64> = list.clone();
            assert(copy@ =~= list@);
            Some(copy)
        },
        None => None,
    }
}

fn copy_names(names: &Option<Vec<String>>) -> (copy: Option<Vec<String>>)
    ensures
        same_names(copy, *names),
{
    match names {
        Some(list) => {
            let mut copy: Vec<String> = Vec::new();
            let mut i: usize = 0;
            while i < list.len()
                invariant
                    i <= list@.len(),
                    copy@.len() == i,
                    forall|j: int| 0 <= j < i ==> (#[trigger] copy@[j])@ == list@[j]@,
                decreases list@.len() - i,
            {
                copy.push(list[i].clone());
                i = i + 1;
            }
            Some(copy)
        },
        None => None,
    }
}

/// The options for the `i`-th file of a bulk read: what is common to all files,
/// and what is overridden for this one.
pub fn single_opts_for<P, F, M>(opts: &ParquetBulkReadOptions<P, F, M>, i: usize) -> (single:
    ParquetReadOptions<P, F, M>)
    ensures
        same_names(single.columns, opts.columns),
        single.start_offset == opts.start_offset,
        single.num_rows == opts.num_rows,
        single.predicate == opts.predicate,
        single.schema_infer == opts.schema_infer,
        single.field_id_mapping == opts.field_id_mapping,
        single.batch_size == opts.batch_size,
        i < opts.per_file@.len() ==> {
            &&& same_numbers(single.row_groups, opts.per_file@[i as int].row_groups)
            &&& same_numbers(single.delete_rows, opts.per_file@[i as int].delete_rows)
            &&& single.metadata == opts.per_file@[i as int].metadata
        },
        i >= opts.per_file@.len() ==> {
            &&& single.row_groups is None
            &&& single.delete_rows is None
            &&& single.metadata is None
        },
{
    let per: PerFileOptions<M> = if i < opts.per_file.len() {
        PerFileOptions {
            row_groups: copy_numbers(&opts.per_file[i].row_groups),
            delete_rows: copy_numbers(&opts.per_file[i].delete_rows),
            metadata: match &opts.per_file[i].metadata {
                Some(metadata) => Some(metadata.clone()),
                None => None,
            },
        }
    } else {
        PerFileOptions::default()
    };
    ParquetReadOptions {
        columns: copy_names(&opts.columns),
        start_offset: opts.start_offset,
        num_rows: opts.num_rows,
        row_groups: per.row_groups,
        predicate: match &opts.predicate {
            Some(predicate) => Some(predicate.clone()),
            None => None,
        },
        schema_infer: opts.schema_infer,
        field_id_mapping: match &opts.field_id_mapping {
            Some(mapping) => Some(mapping.clone()),
            None => None,
        },
        delete_rows: per.delete_rows,
        batch_size: opts.batch_size,
        metadata: per.metadata,
    }
}

/// The number of files that are read at a time: at least one.
pub fn num_parallel(num_parallel_tasks: usize) -> (n: usize)
    ensures
        n == if num_parallel_tasks == 0 {
            1
        } else {
            num_parallel_tasks
        },
{
    if num_parallel_tasks == 0 {
        1
    } else {
        num_parallel_tasks
    }
}

/// The batches of one file as a single batch; one of the same columns without
/// rows where the file gave no batch.
pub fn collect_batches<T: Copy>(batches: &[RecordBatch<T>], names: &[String]) -> (batch:
    RecordBatch<T>)
    requires
        forall|b: int|
            0 <= b < batches@.len() ==> (#[trigger] batches@[b]).fields()
                == crate::record_batch::texts(names@),
        crate::record_batch::rows_of(batches@) <= usize::MAX,
    ensures
        batch.rows() == crate::record_batch::rows_of(batches@),
        batch.fields() == crate::record_batch::texts(names@),
        batch.cols() == crate::record_batch::concatenated(batches@, names@.len()),
        batch.rows() == crate::record_batch::rows_before(batches@, batches@.len() as int),
        forall|b: int, c: int, r: int|
            0 <= b < batches@.len() && 0 <= c < names@.len() && 0 <= r < batches@[b].rows()
                ==> batch.cols()[c][crate::record_batch::rows_before(batches@, b) + r]
                == #[trigger] batches@[b].cols()[c][r],
{
    if batches.len() == 0 {
        assert(batches@ =~= Seq::empty());
        return RecordBatch::empty(names);
    }
    RecordBatch::concat(batches, names)
}

/// How many rows a bulk read is still to deliver. Without a limit, any number.
#[derive(Debug, Clone, Copy, PartialEq, Eq, Structural)]
pub struct RowBudget {
    pub remaining: Option<i64>,
}

impl RowBudget {
    /// Whether the result of another file is wanted.
    pub open spec fn wants_more(self) -> bool {
        match self.remaining {
            Some(left) => left > 0,
            None => true,
        }
    }

    /// The budget after a result: `rows` is the number of rows that a file gave,
    /// or nothing where it could not be read.
    pub open spec fn after(self, rows: Option<usize>) -> Self {
        match (self.remaining, rows) {
            (Some(left), Some(n)) => RowBudget { remaining: Some((left - n) as i64) },
            _ => self,
        }
    }

    /// The budget of a limit. A limit beyond `i64::MAX` wraps around and leaves
    /// no budget.
    pub fn new(num_rows: Option<usize>) -> (budget: Self)
        ensures
            match num_rows {
                Some(n) => {
                    &&& budget.remaining is Some
                    &&& n <= i64::MAX ==> budget.remaining->0 == n
                    &&& n > i64::MAX ==> budget.remaining->0 == n - 0x1_0000_0000_0000_0000
                },
                None => budget.remaining is None,
            },
    {
        match num_rows {
            Some(n) => {
                let wide: u64 = n as u64;
                assert(wide > 0x7fff_ffff_ffff_ffffu64 ==> (wide as i64) == wide
                    - 0x1_0000_0000_0000_0000) by (bit_vector);
                #[verifier::truncate]
                let limit: i64 = wide as i64;
                RowBudget { remaining: Some(limit) }
            },
            None => RowBudget { remaining: None },
        }
    }

    /// Takes the result of the next file in, and tells whether it is kept.
    /// Once a result is turned down the budget stays as it is.
    pub fn spend(&mut self, rows: Option<usize>) -> (kept: bool)
        requires
            rows matches Some(n) ==> n <= i64::MAX,
        ensures
            kept <==> old(self).wants_more(),
            *final(self) == if kept {
                old(self).after(rows)
            } else {
                *old(self)
            },
            kept && rows is Some && old(self).remaining is Some ==> final(self).remaining == Some(
                (old(self).remaining->0 - rows->0) as i64,
            ) && old(self).remaining->0 - rows->0 >= i64::MIN,
    {
        match self.remaining {
            Some(left) => {
                if left <= 0 {
                    return false;
                }
                match rows {
                    Some(n) => {
                        self.remaining = Some(left - n as i64);
                    },
                    None => {},
                }
                true
            },
            None => true,
        }
    }
}

/// The rows of the first `n` results; a file that could not be read gives none.
pub open spec fn rows_read(results: Seq<Option<usize>>, n: int) -> int
    decreases n,
{
    if n <= 0 {
        0
    } else {
        rows_read(results, n - 1) + (match results[n - 1] {
            Some(rows) => rows as int,
            None => 0,
        })
    }
}

/// How many results a bulk read with this limit keeps.
pub fn results_kept(num_rows: Option<usize>, results: &[Option<usize>]) -> (kept: usize)
    requires
        forall|i: int|
            0 <= i < results@.len() ==> ((#[trigger] results@[i]) matches Some(n) ==> n
                <= i64::MAX),
    ensures
        kept <= results@.len(),
        match num_rows {
            Some(limit) => {
                &&& limit > i64::MAX ==> kept == 0
                // All results, or just enough of them.
                &&& limit <= i64::MAX ==> {
                    &&& kept == results@.len() || rows_read(results@, kept as int) >= limit
                    &&& forall|k: int|
                        0 <= k < kept ==> #[trigger] rows_read(results@, k) < limit
                }
            },
            None => kept == results@.len(),
        },
{
    let mut budget: RowBudget = RowBudget::new(num_rows);
    let mut i: usize = 0;
    while i < results.len()
        invariant
            i <= results@.len(),
            forall|i: int|
                0 <= i < results@.len() ==> ((#[trigger] results@[i]) matches Some(n) ==> n
                    <= i64::MAX),
            match num_rows {
                Some(limit) => {
                    &&& budget.remaining is Some
                    &&& limit > i64::MAX ==> budget.remaining->0 <= 0 && i == 0
                    &&& limit <= i64::MAX ==> {
                        &&& budget.remaining->0 == limit - rows_read(results@, i as int)
                        &&& forall|k: int|
                            0 <= k < i ==> #[trigger] rows_read(results@, k) < limit
                    }
                },
                None => budget.remaining is None,
            },
        decreases results@.len() - i,
    {
        let rows: Option<usize> = results[i];
        assert(results@[i as int] matches Some(n) ==> n <= i64::MAX);
        if !budget.spend(rows) {
            return i;
        }
        i = i + 1;
    }
    i
}

/// All values, or the first error among the results.
pub fn all_or_first_error<T, E>(results: Vec<Result<T, E>>) -> (all: Result<Vec<T>, E>)
    ensures
        match all {
            Ok(values) => {
                &&& values@.len() == results@.len()
                &&& forall|i: int|
                    0 <= i < results@.len() ==> #[trigger] results@[i] == Ok::<T, E>(values@[i])
            },
            Err(error) => exists|i: int|
                {
                    &&& 0 <= i < results@.len()
                    &&& #[trigger] results@[i] == Err::<T, E>(error)
                    &&& forall|j: int| 0 <= j < i ==> (#[trigger] results@[j]) is Ok
                },
        },
{
    let ghost all = results@;
    let mut values: Vec<T> = Vec::new();
    for result in it: results
        invariant
            it.seq() == all,
            values@.len() == it.index(),
            forall|i: int|
                0 <= i < values@.len() ==> #[trigger] all[i] == Ok::<T, E>(values@[i]),
    {
        match result {
            Ok(value) => {
                values.push(value);
            },
            Err(error) => {
                assert(all[it.index() as int] == Err::<T, E>(error));
                return Err(error);
            },
        }
    }
    Ok(values)
}

/// The entries with this index, in their order.
pub open spec fn with_index<V>(entries: Seq<(usize, V)>, index: usize) -> Seq<V>
    decreases entries.len(),
{
    if entries.len() == 0 {
        Seq::empty()
    } else {
        let rest = with_index(entries.drop_last(), index);
        if entries.last().0 == index {
            rest.push(entries.last().1)
        } else {
            rest
        }
    }
}

/// Whether `sorted` are the entries in ascending order of their indices, those
/// with the same index in the order in which they came.
pub open spec fn sorted_from<V>(sorted: Seq<(usize, V)>, entries: Seq<(usize, V)>) -> bool {
    &&& sorted.len() == entries.len()
    &&& forall|i: int, j: int| 0 <= i < j < sorted.len() ==> sorted[i].0 <= sorted[j].0
    &&& forall|index: usize| #[trigger] with_index(sorted, index) == with_index(entries, index)
}

proof fn lemma_with_index_add<V>(a: Seq<(usize, V)>, b: Seq<(usize, V)>, index: usize)
    ensures
        with_index(a + b, index) == with_index(a, index) + with_index(b, index),
    decreases b.len(),
{
    if b.len() == 0 {
        assert(a + b =~= a);
        assert(with_index(a, index) + with_index(b, index) =~= with_index(a, index));
    } else {
        lemma_with_index_add(a, b.drop_last(), index);
        assert((a + b).drop_last() =~= a + b.drop_last());
        assert((a + b).last() == b.last());
        if b.last().0 == index {
            assert(with_index(a, index) + with_index(b.drop_last(), index).push(b.last().1) =~= (
            with_index(a, index) + with_index(b.drop_last(), index)).push(b.last().1));
        }
    }
}

proof fn lemma_with_index_none<V>(entries: Seq<(usize, V)>, index: usize)
    requires
        forall|i: int| 0 <= i < entries.len() ==> (#[trigger] entries[i]).0 != index,
    ensures
        with_index(entries, index) == Seq::<V>::empty(),
    decreases entries.len(),
{
    if entries.len() > 0 {
        assert forall|i: int| 0 <= i < entries.drop_last().len() implies (
        #[trigger] entries.drop_last()[i]).0 != index by {
            assert(entries[i].0 != index);
        }
        lemma_with_index_none(entries.drop_last(), index);
        assert(entries[entries.len() - 1].0 != index);
    }
}

/// Putting an entry behind all those with a lower or the same index, and before
/// all with a higher one, keeps the order.
proof fn lemma_inserted<V>(
    sorted: Seq<(usize, V)>,
    entries: Seq<(usize, V)>,
    at: int,
    entry: (usize, V),
)
    requires
        sorted_from(sorted, entries),
        0 <= at <= sorted.len(),
        forall|i: int| 0 <= i < at ==> (#[trigger] sorted[i]).0 <= entry.0,
        forall|i: int| at <= i < sorted.len() ==> (#[trigger] sorted[i]).0 > entry.0,
    ensures
        sorted_from(sorted.insert(at, entry), entries.push(entry)),
{
    let after = sorted.insert(at, entry);
    let (front, back) = (sorted.take(at), sorted.skip(at));
    assert(sorted =~= front + back);
    assert(after =~= front.push(entry) + back);
    assert(entries.push(entry).drop_last() =~= entries);
    assert(front.push(entry).drop_last() =~= front);
    assert forall|index: usize| #[trigger] with_index(after, index) == with_index(
        entries.push(entry),
        index,
    ) by {
        lemma_with_index_add(front, back, index);
        lemma_with_index_add(front.push(entry), back, index);
        assert(with_index(sorted, index) == with_index(entries, index));
        if index == entry.0 {
            assert forall|i: int| 0 <= i < back.len() implies (#[trigger] back[i]).0 != index by {
                assert(sorted[at + i].0 > entry.0);
            }
            lemma_with_index_none(back, index);
            assert(with_index(front, index) + Seq::<V>::empty() =~= with_index(front, index));
            assert(with_index(front.push(entry), index) + Seq::<V>::empty() =~= with_index(
                front.push(entry),
                index,
            ));
        }
    }
    assert forall|i: int, j: int| 0 <= i < j < after.len() implies after[i].0 <= after[j].0 by {
        assert(i < at ==> after[i] == sorted[i]);
        assert(j < at ==> after[j] == sorted[j]);
        assert(i > at ==> after[i] == sorted[i - 1]);
        assert(j > at ==> after[j] == sorted[j - 1]);
    }
}

/// Sorts results by the index of their file.
pub fn sort_by_index<V>(entries: Vec<(usize, V)>) -> (sorted: Vec<(usize, V)>)
    ensures
        sorted_from(sorted@, entries@),
{
    let ghost all = entries@;
    let mut sorted: Vec<(usize, V)> = Vec::new();
    proof {
        assert(all.take(0) =~= Seq::empty());
    }
    for entry in it: entries
        invariant
            it.seq() == all,
            sorted@.len() == it.index(),
            sorted_from(sorted@, all.take(it.index() as int)),
    {
        let ghost done = all.take(it.index() as int);
        let mut at: usize = sorted.len();
        while at > 0 && sorted[at - 1].0 > entry.0
            invariant
                at <= sorted@.len(),
                sorted_from(sorted@, done),
                forall|i: int| at <= i < sorted@.len() ==> (#[trigger] sorted@[i]).0 > entry.0,
            decreases at,
        {
            at = at - 1;
        }
        proof {
            assert forall|i: int| 0 <= i < at implies (#[trigger] sorted@[i]).0 <= entry.0 by {
                assert(sorted@[i].0 <= sorted@[at - 1].0);
            }
            lemma_inserted(sorted@, done, at as int, entry);
            assert(done.push(entry) =~= all.take(it.index() + 1));
        }
        sorted.insert(at, entry);
    }
    assert(all.take(all.len() as int) =~= all);
    sorted
}

/// The values of results in the order of their files.
pub fn restore_order<V>(entries: Vec<(usize, V)>) -> (values: Vec<V>)
    ensures
        exists|sorted: Seq<(usize, V)>| #[trigger]
            sorted_from(sorted, entries@) && values@ == sorted.map(|i: int, entry: (usize, V)| entry.1),
{
    let sorted: Vec<(usize, V)> = sort_by_index(entries);
    let ghost all = sorted@;
    let mut values: Vec<V> = Vec::new();
    for entry in it: sorted
        invariant
            it.seq() == all,
            values@.len() == it.index(),
            forall|i: int| 0 <= i < values@.len() ==> #[trigger] values@[i] == all[i].1,
    {
        values.push(entry.1);
    }
    assert(values@ =~= all.map(|i: int, entry: (usize, V)| entry.1));
    values
}

/// An entry gives a value of its index.
proof fn lemma_with_index_has<V>(entries: Seq<(usize, V)>, i: int)
    requires
        0 <= i < entries.len(),
    ensures
        with_index(entries, entries[i].0).contains(entries[i].1),
{
    let index = entries[i].0;
    let (front, back) = (entries.take(i), entries.skip(i + 1));
    let middle = front.push(entries[i]);
    assert(entries =~= middle + back);
    lemma_with_index_add(middle, back, index);
    assert(middle.drop_last() =~= front);
    let k = with_index(front, index).len() as int;
    assert(with_index(entries, index)[k] == entries[i].1);
}

/// Two entries with the same index give two values of it.
proof fn lemma_with_index_two<V>(entries: Seq<(usize, V)>, i: int, j: int)
    requires
        0 <= i < j < entries.len(),
        entries[i].0 == entries[j].0,
    ensures
        with_index(entries, entries[i].0).len() >= 2,
{
    let index = entries[i].0;
    let (front, back) = (entries.take(j), entries.skip(j));
    assert(entries =~= front + back);
    lemma_with_index_add(front, back, index);
    lemma_with_index_has(front, i);
    lemma_with_index_has(back, 0);
    assert(front[i] == entries[i] && back[0] == entries[j]);
}

/// Where all indices differ, an index has at most one value, that of its entry.
proof fn lemma_with_index_one<V>(entries: Seq<(usize, V)>, index: usize)
    requires
        forall|i: int, j: int| 0 <= i < j < entries.len() ==> entries[i].0 != entries[j].0,
    ensures
        with_index(entries, index).len() <= 1,
        with_index(entries, index).len() == 1 ==> exists|i: int|
            0 <= i < entries.len() && #[trigger] entries[i] == (index, with_index(entries, index)[0]),
    decreases entries.len(),
{
    if entries.len() > 0 {
        let rest = entries.drop_last();
        let last = entries.len() - 1;
        lemma_with_index_one(rest, index);
        if entries.last().0 == index {
            assert forall|i: int| 0 <= i < rest.len() implies (#[trigger] rest[i]).0 != index by {
                assert(entries[i].0 != entries[last].0);
            }
            lemma_with_index_none(rest, index);
            assert(entries[last] == (index, with_index(entries, index)[0]));
        } else if with_index(rest, index).len() == 1 {
            let i = choose|i: int|
                0 <= i < rest.len() && #[trigger] rest[i] == (index, with_index(rest, index)[0]);
            assert(entries[i] == (index, with_index(entries, index)[0]));
        }
    }
}

/// Where each of `n` files gave one result, sorting puts the result of each file
/// at its place.
pub proof fn law_restored_in_file_order<V>(sorted: Seq<(usize, V)>, entries: Seq<(usize, V)>)
    requires
        sorted_from(sorted, entries),
        forall|i: int| 0 <= i < entries.len() ==> (#[trigger] entries[i]).0 < entries.len(),
        forall|i: int, j: int| 0 <= i < j < entries.len() ==> entries[i].0 != entries[j].0,
    ensures
        forall|i: int| 0 <= i < entries.len() ==> sorted[entries[i].0 as int] == #[trigger] entries[i],
{
    let n = entries.len() as int;
    assert forall|i: int| 0 <= i < n implies entries.contains(#[trigger] sorted[i]) by {
        let index = sorted[i].0;
        lemma_with_index_has(sorted, i);
        lemma_with_index_one(entries, index);
        assert(with_index(sorted, index) == with_index(entries, index));
        let k = choose|k: int|
            0 <= k < n && #[trigger] entries[k] == (index, with_index(entries, index)[0]);
        assert(entries[k] == sorted[i]);
    }
    assert forall|i: int, j: int| 0 <= i < j < n implies sorted[i].0 < sorted[j].0 by {
        if sorted[i].0 == sorted[j].0 {
            lemma_with_index_two(sorted, i, j);
            lemma_with_index_one(entries, sorted[i].0);
            assert(with_index(sorted, sorted[i].0) == with_index(entries, sorted[i].0));
        }
    }
    assert forall|i: int| 0 <= i < n implies (#[trigger] sorted[i]).0 < n by {
        assert(entries.contains(sorted[i]));
        let k = choose|k: int| 0 <= k < n && entries[k] == sorted[i];
        assert(entries[k].0 < n);
    }
    lemma_strictly_ascending(sorted, n);
    assert forall|i: int| 0 <= i < n implies sorted[entries[i].0 as int] == #[trigger] entries[i] by {
        let index = entries[i].0;
        assert(sorted[index as int].0 == index);
        lemma_with_index_has(sorted, index as int);
        lemma_with_index_has(entries, i);
        lemma_with_index_one(entries, index);
        assert(with_index(sorted, index) == with_index(entries, index));
    }
}

proof fn lemma_strictly_ascending<V>(sorted: Seq<(usize, V)>, n: int)
    requires
        sorted.len() == n,
        forall|i: int, j: int| 0 <= i < j < n ==> sorted[i].0 < sorted[j].0,
        forall|i: int| 0 <= i < n ==> (#[trigger] sorted[i]).0 < n,
    ensures
        forall|i: int| 0 <= i < n ==> (#[trigger] sorted[i]).0 == i,
{
    assert forall|i: int| 0 <= i < n implies (#[trigger] sorted[i]).0 == i by {
        lemma_ascending_from_below(sorted, n, i);
        lemma_ascending_from_above(sorted, n, i);
    }
}

proof fn lemma_ascending_from_below<V>(sorted: Seq<(usize, V)>, n: int, i: int)
    requires
        sorted.len() == n,
        forall|i: int, j: int| 0 <= i < j < n ==> sorted[i].0 < sorted[j].0,
        0 <= i < n,
    ensures
        sorted[i].0 >= i,
    decreases i,
{
    if i > 0 {
        lemma_ascending_from_below(sorted, n, i - 1);
        assert(sorted[i - 1].0 < sorted[i].0);
    }
}

proof fn lemma_ascending_from_above<V>(sorted: Seq<(usize, V)>, n: int, i: int)
    requires
        sorted.len() == n,
        forall|i: int, j: int| 0 <= i < j < n ==> sorted[i].0 < sorted[j].0,
        forall|i: int| 0 <= i < n ==> (#[trigger] sorted[i]).0 < n,
        0 <= i < n,
    ensures
        sorted[i].0 <= i,
    decreases n - i,
{
    if i < n - 1 {
        lemma_ascending_from_above(sorted, n, i + 1);
        assert(sorted[i].0 < sorted[i + 1].0);
    }
}

/// A field of the schema that a file declares.
#[derive(Debug, PartialEq, Eq)]
pub struct DeclaredField {
    pub name: String,
    pub nullable: bool,
}

/// Whether field `i` is the first of this name.
pub open spec fn first_named(fields: Seq<DeclaredField>, name: Seq<char>, i: int) -> bool {
    &&& 0 <= i < fields.len()
    &&& fields[i].name@ == name
    &&& forall|j: int| 0 <= j < i ==> (#[trigger] fields[j]).name@ != name
}

/// The fields of a schema; none where no schema could be read.
pub open spec fn declared(schema: Option<&[DeclaredField]>) -> Seq<DeclaredField> {
    match schema {
        Some(fields) => fields@,
        None => Seq::empty(),
    }
}

/// Whether a column may hold nulls: what the first field of its name declares,
/// and yes where none has its name.
pub open spec fn column_nullable(fields: Seq<DeclaredField>, name: Seq<char>) -> bool {
    forall|i: int| #[trigger] first_named(fields, name, i) ==> fields[i].nullable
}

/// Whether a column may hold nulls.
pub fn is_nullable(schema: Option<&[DeclaredField]>, name: &str) -> (nullable: bool)
    ensures
        nullable == column_nullable(declared(schema), name@),
{
    match schema {
        Some(fields) => {
            let mut i: usize = 0;
            while i < fields.len()
                invariant
                    i <= fields@.len(),
                    schema == Some(fields),
                    forall|j: int| 0 <= j < i ==> (#[trigger] fields@[j]).name@ != name@,
                decreases fields@.len() - i,
            {
                if same_text(fields[i].name.as_str(), name) {
                    assert(first_named(fields@, name@, i as int));
                    let nullable: bool = fields[i].nullable;
                    proof {
                        assert forall|k: int| #[trigger]
                            first_named(fields@, name@, k) implies fields@[k].nullable
                            == nullable by {
                            if k < i {
                                assert(fields@[k].name@ != name@);
                            } else if k > i {
                                assert(fields@[i as int].name@ != name@);
                            }
                        }
                    }
                    return nullable;
                }
                i = i + 1;
            }
            true
        },
        None => true,
    }
}

/// The fields of the columns of a batch: each with its name and whether the file
/// declares that it may hold nulls.
pub fn pyarrow_fields(names: &[String], schema: Option<&[DeclaredField]>) -> (fields: Vec<
    DeclaredField,
>)
    ensures
        fields@.len() == names@.len(),
        forall|c: int|
            0 <= c < names@.len() ==> {
                &&& (#[trigger] fields@[c]).name@ == names@[c]@
                &&& fields@[c].nullable == column_nullable(declared(schema), names@[c]@)
            },
{
    let mut fields: Vec<DeclaredField> = Vec::new();
    let mut c: usize = 0;
    while c < names.len()
        invariant
            c <= names@.len(),
            fields@.len() == c,
            forall|b: int|
                0 <= b < c ==> {
                    &&& (#[trigger] fields@[b]).name@ == names@[b]@
                    &&& fields@[b].nullable == column_nullable(declared(schema), names@[b]@)
                },
        decreases names@.len() - c,
    {
        let nullable: bool = is_nullable(schema, names[c].as_str());
        fields.push(DeclaredField { name: names[c].clone(), nullable });
        c = c + 1;
    }
    fields
}

/// Whether a read can be handed to pyarrow: it filters no rows and sets no batch
/// size.
pub fn pyarrow_supported<P, F, M>(opts: &ParquetReadOptions<P, F, M>) -> (supported: bool)
    ensures
        supported <==> opts.predicate is None && opts.delete_rows is None && opts.batch_size
            is None,
{
    opts.predicate.is_none() && opts.delete_rows.is_none() && opts.batch_size.is_none()
}

/// The time that a file may take, in milliseconds. A negative time wraps around
/// to a very long one.
pub fn timeout_millis(file_timeout_ms: Option<i64>) -> (millis: Option<u64>)
    ensures
        match file_timeout_ms {
            Some(ms) => millis == Some(
                (if ms >= 0 {
                    ms as int
                } else {
                    ms + 0x1_0000_0000_0000_0000
                }) as u64,
            ),
            None => millis is None,
        },
{
    match file_timeout_ms {
        Some(ms) => {
            assert(ms < 0 ==> ms as u64 == ms + 0x1_0000_0000_0000_0000) by (bit_vector);
            Some(ms as u64)
        },
        None => None,
    }
}

/// The error of a file that was not read in time.
pub fn timeout_error(uri: &str, duration_ms: i64) -> (error: DaftError)
    ensures
        error matches DaftError::FileReadTimeout { path, duration_ms: ms } && path@ == uri@ && ms
            == duration_ms,
{
    DaftError::FileReadTimeout { path: uri.to_owned(), duration_ms }
}

/// The type of a column of URIs.
#[derive(Debug, PartialEq, Eq)]
pub enum UriType {
    Utf8,
    Other(String),
}

/// The message about URIs that are no text.
pub open spec fn uri_type_message(name: Seq<char>) -> Seq<char> {
    "Expected Utf8 Datatype, got "@ + name
}

/// Checks that URIs are text.
pub fn check_uri_type(uri_type: &UriType) -> (result: Result<(), DaftError>)
    ensures
        match result {
            Ok(()) => uri_type is Utf8,
            Err(error) => {
                &&& uri_type matches UriType::Other(name)
                &&& error matches DaftError::ValueError(text)
                &&& text@ == uri_type_message(name@)
            },
        },
{
    match uri_type {
        UriType::Utf8 => Ok(()),
        UriType::Other(name) => Err(
            DaftError::ValueError("Expected Utf8 Datatype, got ".to_owned().concat(name.as_str())),
        ),
    }
}

/// What the footer of a file tells.
#[derive(Debug, Clone, Copy, PartialEq, Eq, Structural)]
pub struct FileStatistics {
    pub num_rows: usize,
    pub num_row_groups: usize,
    pub version: i32,
}

/// A table of statistics, column by column. A null URI has nulls.
#[derive(Debug, PartialEq, Eq)]
pub struct StatisticsTable {
    pub uris: Vec<Option<String>>,
    pub row_count: Vec<Option<u64>>,
    pub row_group_count: Vec<Option<u64>>,
    pub version: Vec<Option<i32>>,
}

/// The URIs among the first `n` that are not null, in their order.
pub open spec fn given_uris(uris: Seq<Option<String>>, n: int) -> Seq<Seq<char>>
    decreases n,
{
    if n <= 0 {
        Seq::empty()
    } else {
        match uris[n - 1] {
            Some(uri) => given_uris(uris, n - 1).push(uri@),
            None => given_uris(uris, n - 1),
        }
    }
}

/// The files whose statistics are to be read: those of the URIs that are not
/// null.
pub fn uris_to_read(uris: &[Option<String>]) -> (given: Vec<String>)
    ensures
        crate::record_batch::texts(given@) == given_uris(uris@, uris@.len() as int),
{
    let mut given: Vec<String> = Vec::new();
    let mut i: usize = 0;
    assert(crate::record_batch::texts(given@) =~= given_uris(uris@, 0));
    while i < uris.len()
        invariant
            i <= uris@.len(),
            crate::record_batch::texts(given@) == given_uris(uris@, i as int),
        decreases uris@.len() - i,
    {
        let ghost before = given@;
        if let Some(uri) = &uris[i] {
            let copy: String = uri.clone();
            given.push(copy);
            assert(crate::record_batch::texts(given@) =~= crate::record_batch::texts(before).push(
                uri@,
            ));
        }
        i = i + 1;
    }
    given
}

impl StatisticsTable {
    /// Whether row `i` holds a URI and what the footer of its file tells; `file`
    /// is nothing where the URI is null.
    pub open spec fn has_row(
        self,
        i: int,
        uri: Option<String>,
        file: Option<FileStatistics>,
    ) -> bool {
        &&& match (uri, self.uris@[i]) {
            (Some(given), Some(kept)) => kept@ == given@,
            (None, None) => true,
            _ => false,
        }
        &&& match file {
            Some(file) => {
                &&& self.row_count@[i] == Some(file.num_rows as u64)
                &&& self.row_group_count@[i] == Some(file.num_row_groups as u64)
                &&& self.version@[i] == Some(file.version)
            },
            None => {
                &&& self.row_count@[i] is None
                &&& self.row_group_count@[i] is None
                &&& self.version@[i] is None
            },
        }
    }

    /// Whether each of the first `n` rows holds its URI and what was read of its
    /// file. `reads` are those of the URIs that are not null.
    pub open spec fn has_rows(
        self,
        uris: Seq<Option<String>>,
        reads: Seq<Result<FileStatistics, DaftError>>,
        n: int,
    ) -> bool {
        &&& self.uris@.len() == n
        &&& self.row_count@.len() == n
        &&& self.row_group_count@.len() == n
        &&& self.version@.len() == n
        &&& forall|i: int|
            0 <= i < n ==> self.has_row(
                i,
                #[trigger] uris[i],
                match uris[i] {
                    Some(uri) => Some(reads[given_uris(uris, i).len() as int]->Ok_0),
                    None => None,
                },
            )
    }

    fn push_row(&mut self, uri: &Option<String>, file: Option<FileStatistics>)
        ensures
            final(self).uris@.len() == old(self).uris@.len() + 1,
            final(self).uris@.drop_last() == old(self).uris@,
            final(self).row_count@.len() == old(self).row_count@.len() + 1,
            final(self).row_count@.drop_last() == old(self).row_count@,
            final(self).row_group_count@.len() == old(self).row_group_count@.len() + 1,
            final(self).row_group_count@.drop_last() == old(self).row_group_count@,
            final(self).version@.len() == old(self).version@.len() + 1,
            final(self).version@.drop_last() == old(self).version@,
            old(self).uris@.len() == old(self).row_count@.len() == old(self).row_group_count@.len()
                == old(self).version@.len() ==> final(self).has_row(
                old(self).uris@.len() as int,
                *uri,
                file,
            ),
    {
        match uri {
            Some(uri) => {
                let copy: String = uri.clone();
                self.uris.push(Some(copy));
            },
            None => self.uris.push(None),
        }
        match file {
            Some(file) => {
                self.row_count.push(Some(file.num_rows as u64));
                self.row_group_count.push(Some(file.num_row_groups as u64));
                self.version.push(Some(file.version));
            },
            None => {
                self.row_count.push(None);
                self.row_group_count.push(None);
                self.version.push(None);
            },
        }
        assert(self.uris@.drop_last() =~= old(self).uris@);
        assert(self.row_count@.drop_last() =~= old(self).row_count@);
        assert(self.row_group_count@.drop_last() =~= old(self).row_group_count@);
        assert(self.version@.drop_last() =~= old(self).version@);
    }
}

proof fn lemma_given_uris_monotone(uris: Seq<Option<String>>, m: int, n: int)
    requires
        0 <= m <= n,
    ensures
        given_uris(uris, m).len() <= given_uris(uris, n).len(),
    decreases n,
{
    if m < n {
        lemma_given_uris_monotone(uris, m, n - 1);
    }
}

/// How many URIs in front of row `i` are not null.
pub open spec fn given_before(uris: Seq<Option<String>>, i: int) -> nat {
    uris.take(i).filter(|uri: Option<String>| uri is Some).len()
}

/// The URIs to read are those that are not null, each at the place that the number
/// of such URIs in front of its row gives, and no others.
pub proof fn law_given_uris(uris: Seq<Option<String>>, n: int)
    requires
        0 <= n <= uris.len(),
    ensures
        given_uris(uris, n).len() == given_before(uris, n),
        forall|i: int|
            0 <= i < n && (#[trigger] uris[i]) is Some ==> {
                &&& given_before(uris, i) < given_uris(uris, n).len()
                &&& given_uris(uris, n)[given_before(uris, i) as int] == uris[i]->0@
            },
    decreases n,
{
    reveal(Seq::filter);
    if n > 0 {
        law_given_uris(uris, n - 1);
        assert(uris.take(n).drop_last() =~= uris.take(n - 1));
        assert(uris.take(n).last() == uris[n - 1]);
    }
}

/// A table of statistics has one row for each URI, with the URI and what was read of
/// its file; the reads come in the order of the URIs that are not null, and a null
/// URI has nulls.
pub proof fn law_statistics_rows(
    table: StatisticsTable,
    uris: Seq<Option<String>>,
    reads: Seq<Result<FileStatistics, DaftError>>,
)
    requires
        table.has_rows(uris, reads, uris.len() as int),
    ensures
        table.uris@.len() == uris.len(),
        table.row_count@.len() == uris.len(),
        table.row_group_count@.len() == uris.len(),
        table.version@.len() == uris.len(),
        forall|i: int|
            0 <= i < uris.len() ==> match #[trigger] uris[i] {
                Some(uri) => {
                    let file = reads[given_before(uris, i) as int]->Ok_0;
                    &&& table.uris@[i] is Some
                    &&& table.uris@[i]->0@ == uri@
                    &&& table.row_count@[i] == Some(file.num_rows as u64)
                    &&& table.row_group_count@[i] == Some(file.num_row_groups as u64)
                    &&& table.version@[i] == Some(file.version)
                },
                None => {
                    &&& table.uris@[i] is None
                    &&& table.row_count@[i] is None
                    &&& table.row_group_count@[i] is None
                    &&& table.version@[i] is None
                },
            },
{
    assert forall|i: int| 0 <= i < uris.len() implies given_uris(uris, i).len()
        == #[trigger] given_before(uris, i) by {
        law_given_uris(uris, i);
    }
    assert forall|i: int| 0 <= i < uris.len() implies match #[trigger] uris[i] {
        Some(uri) => {
            let file = reads[given_before(uris, i) as int]->Ok_0;
            &&& table.uris@[i] is Some
            &&& table.uris@[i]->0@ == uri@
            &&& table.row_count@[i] == Some(file.num_rows as u64)
            &&& table.row_group_count@[i] == Some(file.num_row_groups as u64)
            &&& table.version@[i] == Some(file.version)
        },
        None => {
            &&& table.uris@[i] is None
            &&& table.row_count@[i] is None
            &&& table.row_group_count@[i] is None
            &&& table.version@[i] is None
        },
    } by {
        assert(given_uris(uris, i).len() == given_before(uris, i));
    }
}

/// The table of the statistics of files.
///
/// `results` are the reads of the files of the URIs that are not null, in their
/// order. Fails if the URIs are no text, and with the first read that failed.
pub fn statistics_table(
    uri_type: &UriType,
    uris: &[Option<String>],
    results: Vec<Result<FileStatistics, DaftError>>,
) -> (table: Result<StatisticsTable, DaftError>)
    requires
        uri_type is Utf8 ==> results@.len() == given_uris(uris@, uris@.len() as int).len(),
    ensures
        uri_type matches UriType::Other(name) ==> (table matches Err(DaftError::ValueError(text))
            && text@ == uri_type_message(name@)),
        uri_type is Utf8 ==> match table {
            Ok(rows) => {
                &&& forall|k: int| 0 <= k < results@.len() ==> (#[trigger] results@[k]) is Ok
                &&& rows.has_rows(uris@, results@, uris@.len() as int)
            },
            Err(error) => exists|k: int|
                {
                    &&& 0 <= k < results@.len()
                    &&& #[trigger] results@[k] == Err::<FileStatistics, DaftError>(error)
                    &&& forall|j: int| 0 <= j < k ==> (#[trigger] results@[j]) is Ok
                },
        },
{
    match check_uri_type(uri_type) {
        Ok(()) => {},
        Err(error) => return Err(error),
    }
    let ghost reads = results@;
    let files: Vec<FileStatistics> = match all_or_first_error(results) {
        Ok(files) => files,
        Err(error) => return Err(error),
    };
    let mut table: StatisticsTable = StatisticsTable {
        uris: Vec::new(),
        row_count: Vec::new(),
        row_group_count: Vec::new(),
        version: Vec::new(),
    };
    let mut next: usize = 0;
    let mut i: usize = 0;
    while i < uris.len()
        invariant
            i <= uris@.len(),
            next == given_uris(uris@, i as int).len(),
            files@.len() == given_uris(uris@, uris@.len() as int).len(),
            files@.len() == reads.len(),
            forall|k: int|
                0 <= k < files@.len() ==> #[trigger] reads[k] == Ok::<FileStatistics, DaftError>(
                    files@[k],
                ),
            table.has_rows(uris@, reads, i as int),
        decreases uris@.len() - i,
    {
        let ghost before = table;
        proof {
            lemma_given_uris_monotone(uris@, i + 1, uris@.len() as int);
        }
        match &uris[i] {
            Some(_) => {
                assert(reads[next as int] == Ok::<FileStatistics, DaftError>(files@[next as int]));
                table.push_row(&uris[i], Some(files[next]));
                next = next + 1;
            },
            None => table.push_row(&uris[i], None),
        }
        proof {
            assert forall|j: int| 0 <= j < i + 1 implies table.has_row(
                j,
                #[trigger] uris@[j],
                match uris@[j] {
                    Some(uri) => Some(reads[given_uris(uris@, j).len() as int]->Ok_0),
                    None => None,
                },
            ) by {
                if j < i {
                    assert(table.uris@.drop_last()[j] == table.uris@[j]);
                    assert(table.row_count@.drop_last()[j] == table.row_count@[j]);
                    assert(table.row_group_count@.drop_last()[j] == table.row_group_count@[j]);
                    assert(table.version@.drop_last()[j] == table.version@[j]);
                    assert(before.has_row(
                        j,
                        uris@[j],
                        match uris@[j] {
                            Some(uri) => Some(reads[given_uris(uris@, j).len() as int]->Ok_0),
                            None => None,
                        },
                    ));
                }
            }
        }
        i = i + 1;
    }
    assert(table.has_rows(uris@, reads, uris@.len() as int));
    Ok(table)
}

/// The rows that were read are those of all results together; a file that could not
/// be read gives none.
pub proof fn law_rows_read_is_a_sum(results: Seq<Option<usize>>, n: int)
    requires
        0 <= n <= results.len(),
    ensures
        rows_read(results, n) == results.take(n).fold_left(
            0int,
            |sum: int, rows: Option<usize>|
                sum + (match rows {
                    Some(count) => count as int,
                    None => 0int,
                }),
        ),
    decreases n,
{
    if n > 0 {
        law_rows_read_is_a_sum(results, n - 1);
        assert(results.take(n).drop_last() =~= results.take(n - 1));
        assert(results.take(n).last() == results[n - 1]);
    }
}

/// A budget wants more exactly while rows are left or there is no limit, and a
/// result takes its rows off.
pub proof fn law_budget(left: i64, rows: usize)
    requires
        left > 0,
        rows <= i64::MAX,
    ensures
        (RowBudget { remaining: Some(left) }).wants_more(),
        !(RowBudget { remaining: Some(0) }).wants_more(),
        (RowBudget { remaining: None }).wants_more(),
        (RowBudget { remaining: Some(left) }).after(Some(rows)) == (RowBudget {
            remaining: Some((left - rows) as i64),
        }),
        (RowBudget { remaining: Some(left) }).after(None) == (RowBudget { remaining: Some(left) }),
        (RowBudget { remaining: None }).after(Some(rows)) == (RowBudget { remaining: None }),
        rows >= left ==> !(RowBudget { remaining: Some(left) }).after(Some(rows)).wants_more(),
        rows < left ==> (RowBudget { remaining: Some(left) }).after(Some(rows)).wants_more(),
{
}

proof fn lemma_with_index_count<V>(entries: Seq<(usize, V)>, index: usize, value: V)
    ensures
        with_index(entries, index).to_multiset().count(value) == entries.to_multiset().count(
            (index, value),
        ),
    decreases entries.len(),
{
    broadcast use vstd::seq_lib::group_to_multiset_ensures;

    if entries.len() > 0 {
        let rest = entries.drop_last();
        lemma_with_index_count(rest, index, value);
        assert(entries =~= rest.push(entries.last()));
        assert(entries.to_multiset() =~= rest.to_multiset().insert(entries.last()));
        if entries.last().0 == index {
            let values = with_index(rest, index);
            assert(values.push(entries.last().1).to_multiset() =~= values.to_multiset().insert(
                entries.last().1,
            ));
        }
    } else {
        assert(with_index(entries, index).to_multiset() =~= vstd::multiset::Multiset::empty());
        assert(entries.to_multiset() =~= vstd::multiset::Multiset::empty());
    }
}

/// Sorting by index keeps every entry, each as often, and puts them in ascending
/// order of their indices.
pub proof fn law_sorting_keeps_every_entry<V>(sorted: Seq<(usize, V)>, entries: Seq<(usize, V)>)
    requires
        sorted_from(sorted, entries),
    ensures
        sorted.to_multiset() == entries.to_multiset(),
        sorted.len() == entries.len(),
        forall|i: int, j: int| 0 <= i < j < sorted.len() ==> sorted[i].0 <= sorted[j].0,
{
    assert forall|entry: (usize, V)| #[trigger]
        sorted.to_multiset().count(entry) == entries.to_multiset().count(entry) by {
        lemma_with_index_count(sorted, entry.0, entry.1);
        lemma_with_index_count(entries, entry.0, entry.1);
        assert(with_index(sorted, entry.0) == with_index(entries, entry.0));
    }
    assert(sorted.to_multiset() =~= entries.to_multiset());
}

/// A column may hold nulls exactly if no declared field has its name, or the first
/// that has it may.
pub proof fn law_nullable_columns(fields: Seq<DeclaredField>, name: Seq<char>)
    ensures
        (forall|i: int| 0 <= i < fields.len() ==> (#[trigger] fields[i]).name@ != name)
            ==> column_nullable(fields, name),
        forall|i: int|
            0 <= i < fields.len() && (#[trigger] fields[i]).name@ == name && (forall|j: int|
                0 <= j < i ==> (#[trigger] fields[j]).name@ != name) ==> column_nullable(
                fields,
                name,
            ) == fields[i].nullable,
{
    assert forall|i: int|
        0 <= i < fields.len() && (#[trigger] fields[i]).name@ == name && (forall|j: int|
            0 <= j < i ==> (#[trigger] fields[j]).name@ != name) implies column_nullable(
        fields,
        name,
    ) == fields[i].nullable by {
        assert(first_named(fields, name, i));
        assert forall|k: int| #[trigger] first_named(fields, name, k) implies k == i by {
            if k < i {
                assert(fields[k].name@ != name);
            } else if i < k {
                assert(fields[i].name@ != name);
            }
        }
    }
}

/// Lists are the same exactly if both are absent, or both are there and hold the same
/// things at every place.
pub proof fn law_same_lists(
    a: Vec<i64>,
    b: Vec<i64>,
    names: Vec<String>,
    others: Vec<String>,
)
    ensures
        same_numbers(Some(a), Some(b)) <==> a@ == b@,
        same_numbers(None, None) && !same_numbers(Some(a), None) && !same_numbers(None, Some(b)),
        same_names(Some(names), Some(others)) <==> crate::record_batch::texts(names@)
            == crate::record_batch::texts(others@),
        same_names(None, None) && !same_names(Some(names), None) && !same_names(
            None,
            Some(others),
        ),
{
    let (x, y) = (crate::record_batch::texts(names@), crate::record_batch::texts(others@));
    if x == y {
        assert(x.len() == names@.len() && y.len() == others@.len());
        assert forall|i: int| 0 <= i < names@.len() implies (#[trigger] names@[i])@
            == others@[i]@ by {
            assert(x[i] == names@[i]@);
            assert(y[i] == others@[i]@);
        }
    }
    if same_names(Some(names), Some(others)) {
        assert(x =~= y);
    }
}

} // verus!
