//! Rows of fixed-width columns with aggregation state behind them.
//!
//! A row lies in one byte pool and is named by the offset at which it starts.
//! Each key column is a null byte followed by the bytes of its value.

use vstd::bytes::*;
use vstd::prelude::*;

verus! {

/// Values with a fixed number of bytes that a row can hold.
pub trait FixedWidth: Copy {
    /// The number of bytes.
    spec fn width() -> nat;

    /// The bytes of a value.
    spec fn encoded(self) -> Seq<u8>;

    /// The value of `width` bytes.
    spec fn decoded(bytes: Seq<u8>) -> Self;

    /// The bytes of a value give the value back.
    proof fn law_round_trip(self)
        ensures
            self.encoded().len() == Self::width(),
            Self::decoded(self.encoded()) == self,
    ;

    /// The number of bytes.
    fn size() -> (n: usize)
        ensures
            n == Self::width(),
    ;

    /// The bytes of a value.
    fn to_row_bytes(self) -> (bytes: Vec<u8>)
        ensures
            bytes@ == self.encoded(),
    ;

    /// The value of `width` bytes.
    fn from_row_bytes(bytes: &[u8]) -> (value: Self)
        requires
            bytes@.len() == Self::width(),
        ensures
            value == Self::decoded(bytes@),
    ;
}

impl FixedWidth for u8 {
    open spec fn width() -> nat {
        1
    }

    open spec fn encoded(self) -> Seq<u8> {
        seq![self]
    }

    open spec fn decoded(bytes: Seq<u8>) -> Self {
        bytes[0]
    }

    proof fn law_round_trip(self) {
    }

    fn size() -> (n: usize) {
        1
    }

    fn to_row_bytes(self) -> (bytes: Vec<u8>) {
        vec![self]
    }

    fn from_row_bytes(bytes: &[u8]) -> (value: Self) {
        bytes[0]
    }
}

impl FixedWidth for u16 {
    open spec fn width() -> nat {
        2
    }

    open spec fn encoded(self) -> Seq<u8> {
        spec_u16_to_le_bytes(self)
    }

    open spec fn decoded(bytes: Seq<u8>) -> Self {
        spec_u16_from_le_bytes(bytes)
    }

    proof fn law_round_trip(self) {
        lemma_auto_spec_u16_to_from_le_bytes();
        assert(spec_u16_to_le_bytes(self).len() == 2);
    }

    fn size() -> (n: usize) {
        2
    }

    fn to_row_bytes(self) -> (bytes: Vec<u8>) {
        u16_to_le_bytes(self)
    }

    fn from_row_bytes(bytes: &[u8]) -> (value: Self) {
        u16_from_le_bytes(bytes)
    }
}

impl FixedWidth for u32 {
    open spec fn width() -> nat {
        4
    }

    open spec fn encoded(self) -> Seq<u8> {
        spec_u32_to_le_bytes(self)
    }

    open spec fn decoded(bytes: Seq<u8>) -> Self {
        spec_u32_from_le_bytes(bytes)
    }

    proof fn law_round_trip(self) {
        lemma_auto_spec_u32_to_from_le_bytes();
        assert(spec_u32_to_le_bytes(self).len() == 4);
    }

    fn size() -> (n: usize) {
        4
    }

    fn to_row_bytes(self) -> (bytes: Vec<u8>) {
        u32_to_le_bytes(self)
    }

    fn from_row_bytes(bytes: &[u8]) -> (value: Self) {
        u32_from_le_bytes(bytes)
    }
}

impl FixedWidth for u64 {
    open spec fn width() -> nat {
        8
    }

    open spec fn encoded(self) -> Seq<u8> {
        spec_u64_to_le_bytes(self)
    }

    open spec fn decoded(bytes: Seq<u8>) -> Self {
        spec_u64_from_le_bytes(bytes)
    }

    proof fn law_round_trip(self) {
        lemma_auto_spec_u64_to_from_le_bytes();
    }

    fn size() -> (n: usize) {
        8
    }

    fn to_row_bytes(self) -> (bytes: Vec<u8>) {
        u64_to_le_bytes(self)
    }

    fn from_row_bytes(bytes: &[u8]) -> (value: Self) {
        u64_from_le_bytes(bytes)
    }
}

impl FixedWidth for u128 {
    open spec fn width() -> nat {
        16
    }

    open spec fn encoded(self) -> Seq<u8> {
        spec_u128_to_le_bytes(self)
    }

    open spec fn decoded(bytes: Seq<u8>) -> Self {
        spec_u128_from_le_bytes(bytes)
    }

    proof fn law_round_trip(self) {
        lemma_auto_spec_u128_to_from_le_bytes();
        assert(spec_u128_to_le_bytes(self).len() == 16);
    }

    fn size() -> (n: usize) {
        16
    }

    fn to_row_bytes(self) -> (bytes: Vec<u8>) {
        u128_to_le_bytes(self)
    }

    fn from_row_bytes(bytes: &[u8]) -> (value: Self) {
        u128_from_le_bytes(bytes)
    }
}

impl FixedWidth for i8 {
    open spec fn width() -> nat {
        1
    }

    open spec fn encoded(self) -> Seq<u8> {
        seq![self as u8]
    }

    open spec fn decoded(bytes: Seq<u8>) -> Self {
        bytes[0] as i8
    }

    proof fn law_round_trip(self) {
        assert((self as u8) as i8 == self) by (bit_vector);
    }

    fn size() -> (n: usize) {
        1
    }

    fn to_row_bytes(self) -> (bytes: Vec<u8>) {
        vec![self as u8]
    }

    fn from_row_bytes(bytes: &[u8]) -> (value: Self) {
        bytes[0] as i8
    }
}

impl FixedWidth for i16 {
    open spec fn width() -> nat {
        2
    }

    open spec fn encoded(self) -> Seq<u8> {
        spec_u16_to_le_bytes(self as u16)
    }

    open spec fn decoded(bytes: Seq<u8>) -> Self {
        spec_u16_from_le_bytes(bytes) as i16
    }

    proof fn law_round_trip(self) {
        lemma_auto_spec_u16_to_from_le_bytes();
        assert(spec_u16_to_le_bytes(self as u16).len() == 2);
        assert((self as u16) as i16 == self) by (bit_vector);
    }

    fn size() -> (n: usize) {
        2
    }

    fn to_row_bytes(self) -> (bytes: Vec<u8>) {
        u16_to_le_bytes(self as u16)
    }

    fn from_row_bytes(bytes: &[u8]) -> (value: Self) {
        u16_from_le_bytes(bytes) as i16
    }
}

impl FixedWidth for i32 {
    open spec fn width() -> nat {
        4
    }

    open spec fn encoded(self) -> Seq<u8> {
        spec_u32_to_le_bytes(self as u32)
    }

    open spec fn decoded(bytes: Seq<u8>) -> Self {
        spec_u32_from_le_bytes(bytes) as i32
    }

    proof fn law_round_trip(self) {
        lemma_auto_spec_u32_to_from_le_bytes();
        assert(spec_u32_to_le_bytes(self as u32).len() == 4);
        assert((self as u32) as i32 == self) by (bit_vector);
    }

    fn size() -> (n: usize) {
        4
    }

    fn to_row_bytes(self) -> (bytes: Vec<u8>) {
        u32_to_le_bytes(self as u32)
    }

    fn from_row_bytes(bytes: &[u8]) -> (value: Self) {
        u32_from_le_bytes(bytes) as i32
    }
}

impl FixedWidth for i64 {
    open spec fn width() -> nat {
        8
    }

    open spec fn encoded(self) -> Seq<u8> {
        spec_u64_to_le_bytes(self as u64)
    }

    open spec fn decoded(bytes: Seq<u8>) -> Self {
        spec_u64_from_le_bytes(bytes) as i64
    }

    proof fn law_round_trip(self) {
        lemma_auto_spec_u64_to_from_le_bytes();
        assert((self as u64) as i64 == self) by (bit_vector);
    }

    fn size() -> (n: usize) {
        8
    }

    fn to_row_bytes(self) -> (bytes: Vec<u8>) {
        u64_to_le_bytes(self as u64)
    }

    fn from_row_bytes(bytes: &[u8]) -> (value: Self) {
        u64_from_le_bytes(bytes) as i64
    }
}

impl FixedWidth for i128 {
    open spec fn width() -> nat {
        16
    }

    open spec fn encoded(self) -> Seq<u8> {
        spec_u128_to_le_bytes(self as u128)
    }

    open spec fn decoded(bytes: Seq<u8>) -> Self {
        spec_u128_from_le_bytes(bytes) as i128
    }

    proof fn law_round_trip(self) {
        lemma_auto_spec_u128_to_from_le_bytes();
        assert(spec_u128_to_le_bytes(self as u128).len() == 16);
        assert((self as u128) as i128 == self) by (bit_vector);
    }

    fn size() -> (n: usize) {
        16
    }

    fn to_row_bytes(self) -> (bytes: Vec<u8>) {
        u128_to_le_bytes(self as u128)
    }

    fn from_row_bytes(bytes: &[u8]) -> (value: Self) {
        u128_from_le_bytes(bytes) as i128
    }
}

/// Where a column lies in a row.
pub struct ColumnMeta {
    pub offset: usize,
    pub null_byte: usize,
    pub null_mask: u8,
}

/// Where column `i` starts: each column before it takes its bytes and a null
/// byte.
pub open spec fn column_start(key_sizes: Seq<usize>, i: int) -> int
    decreases i,
{
    if i <= 0 {
        0
    } else {
        column_start(key_sizes, i - 1) + 1 + key_sizes[i - 1]
    }
}

/// `bytes` with those from `at` on replaced by `patch`.
pub open spec fn patched(bytes: Seq<u8>, at: int, patch: Seq<u8>) -> Seq<u8> {
    Seq::new(
        bytes.len(),
        |i: int|
            if at <= i < at + patch.len() {
                patch[i - at]
            } else {
                bytes[i]
            },
    )
}

/// A pool of rows with the same layout.
pub struct RowContainer {
    pool: Vec<u8>,
    row_size: usize,
    columns: Vec<ColumnMeta>,
    agg_state_offset: usize,
    num_rows: usize,
    next_offset: usize,
}

impl RowContainer {
    /// The invariant: the pool is made of whole rows, and the columns lie one
    /// after the other in front of the aggregation state.
    pub closed spec fn well_formed(self) -> bool {
        &&& self.pool@.len() == self.num_rows * self.row_size
        &&& self.next_offset == self.pool@.len()
        &&& self.pool@.len() <= isize::MAX
        &&& self.agg_state_offset <= self.row_size
        &&& forall|i: int|
            0 <= i < self.columns@.len() ==> {
                &&& (#[trigger] self.columns@[i]).null_mask == 1
                &&& self.columns@[i].offset == self.columns@[i].null_byte + 1
                &&& self.columns@[i].offset <= self.agg_state_offset
            }
    }

    /// The bytes of all rows.
    pub closed spec fn bytes(self) -> Seq<u8> {
        self.pool@
    }

    /// The number of key columns.
    pub closed spec fn num_columns(self) -> int {
        self.columns@.len() as int
    }

    /// Where a column lies in a row.
    pub closed spec fn column(self, i: int) -> ColumnMeta {
        self.columns@[i]
    }

    /// The number of bytes of a row.
    pub closed spec fn size_of_row(self) -> int {
        self.row_size as int
    }

    /// The number of bytes of a row in front of the aggregation state.
    pub closed spec fn size_of_keys(self) -> int {
        self.agg_state_offset as int
    }

    /// The number of rows.
    pub closed spec fn rows(self) -> int {
        self.num_rows as int
    }

    /// Whether the two containers lay their rows out in the same way.
    pub open spec fn same_layout(self, other: Self) -> bool {
        &&& other.num_columns() == self.num_columns()
        &&& forall|i: int|
            0 <= i < self.num_columns() ==> #[trigger] other.column(i) == self.column(i)
        &&& other.size_of_row() == self.size_of_row()
        &&& other.size_of_keys() == self.size_of_keys()
    }

    /// Whether a row starts at this offset.
    pub open spec fn is_row(self, row: int) -> bool {
        exists|k: int| 0 <= k < self.rows() && row == #[trigger] (k * self.size_of_row())
    }

    /// Whether a value of `width` bytes in a column ends within its row.
    pub open spec fn fits(self, col: int, width: nat) -> bool {
        &&& 0 <= col < self.num_columns()
        &&& self.column(col).offset + width <= self.size_of_row()
    }

    /// The value in a column of a row.
    pub open spec fn value<T: FixedWidth>(self, row: int, col: int) -> T {
        T::decoded(
            self.bytes().subrange(
                row + self.column(col).offset,
                row + self.column(col).offset + T::width(),
            ),
        )
    }

    /// Whether a column of a row is null.
    pub open spec fn null(self, row: int, col: int) -> bool {
        self.bytes()[row + self.column(col).null_byte] & 1 != 0
    }

    proof fn lemma_row_within(self, row: int)
        requires
            self.well_formed(),
            self.is_row(row),
        ensures
            0 <= row,
            row + self.row_size <= self.pool@.len(),
    {
        let k = choose|k: int| 0 <= k < self.rows() && row == #[trigger] (k * self.size_of_row());
        let n = self.num_rows as int;
        let size = self.row_size as int;
        assert(0 <= k * size && k * size + size <= n * size) by (nonlinear_arith)
            requires
                0 <= k < n,
                0 <= size,
        ;
    }

    /// A container of rows with these key columns and this much aggregation
    /// state.
    pub fn new(key_sizes: &[usize], agg_state_size: usize) -> (container: Self)
        requires
            (column_start(key_sizes@, key_sizes@.len() as int) + agg_state_size) * 1024
                <= isize::MAX,
        ensures
            container.well_formed(),
            container.rows() == 0,
            container.bytes() == Seq::<u8>::empty(),
            container.num_columns() == key_sizes@.len(),
            forall|i: int|
                0 <= i < key_sizes@.len() ==> #[trigger] container.column(i) == (ColumnMeta {
                    offset: (column_start(key_sizes@, i) + 1) as usize,
                    null_byte: column_start(key_sizes@, i) as usize,
                    null_mask: 1,
                }),
            forall|i: int|
                0 <= i < key_sizes@.len() ==> 0 <= #[trigger] column_start(key_sizes@, i)
                    <= usize::MAX - 1,
            container.size_of_keys() == column_start(key_sizes@, key_sizes@.len() as int),
            container.size_of_row() == container.size_of_keys() + agg_state_size,
    {
        let mut offset: usize = 0;
        let mut columns: Vec<ColumnMeta> = Vec::new();
        let mut i: usize = 0;
        while i < key_sizes.len()
            invariant
                i <= key_sizes@.len(),
                column_start(key_sizes@, key_sizes@.len() as int) * 1024 <= isize::MAX,
                offset == column_start(key_sizes@, i as int),
                columns@.len() == i,
                forall|j: int|
                    0 <= j < i ==> {
                        &&& #[trigger] columns@[j] == (ColumnMeta {
                            offset: (column_start(key_sizes@, j) + 1) as usize,
                            null_byte: column_start(key_sizes@, j) as usize,
                            null_mask: 1,
                        })
                        &&& 0 <= column_start(key_sizes@, j)
                        &&& column_start(key_sizes@, j) + 1 <= offset
                    },
            decreases key_sizes@.len() - i,
        {
            proof {
                lemma_column_start_monotone(key_sizes@, i + 1, key_sizes@.len() as int);
            }
            columns.push(ColumnMeta { offset: offset + 1, null_byte: offset, null_mask: 1 });
            offset = offset + (1 + key_sizes[i]);
            i = i + 1;
        }
        let row_size: usize = offset + agg_state_size;
        proof {
            assert forall|i: int| 0 <= i < key_sizes@.len() implies 0 <= #[trigger] column_start(
                key_sizes@,
                i,
            ) <= usize::MAX - 1 by {
                assert(columns@[i].null_mask == 1);
            }
            assert forall|i: int| 0 <= i < columns@.len() implies {
                &&& (#[trigger] columns@[i]).null_mask == 1
                &&& columns@[i].offset == columns@[i].null_byte + 1
                &&& columns@[i].offset <= offset
            } by {
                assert(0 <= column_start(key_sizes@, i) <= usize::MAX - 1);
            }
            assert(0 * row_size == 0) by (nonlinear_arith);
        }
        RowContainer {
            pool: Vec::with_capacity(row_size * 1024),
            row_size,
            columns,
            agg_state_offset: offset,
            num_rows: 0,
            next_offset: 0,
        }
    }

    /// Adds a row of zero bytes and returns where it starts.
    pub fn new_row(&mut self) -> (row: usize)
        requires
            old(self).well_formed(),
            old(self).bytes().len() + old(self).size_of_row() <= isize::MAX,
            old(self).rows() < usize::MAX,
        ensures
            final(self).well_formed(),
            old(self).same_layout(*final(self)),
            final(self).rows() == old(self).rows() + 1,
            row == old(self).rows() * old(self).size_of_row(),
            row == old(self).bytes().len(),
            final(self).is_row(row as int),
            final(self).bytes() == old(self).bytes() + Seq::new(
                old(self).size_of_row() as nat,
                |i: int| 0u8,
            ),
            forall|col: int|
                0 <= col < final(self).num_columns() ==> !#[trigger] final(self).null(
                    row as int,
                    col,
                ),
    {
        let start: usize = self.next_offset;
        self.pool.resize(start + self.row_size, 0);
        self.next_offset = start + self.row_size;
        self.num_rows = self.num_rows + 1;
        proof {
            let (n, size) = (old(self).num_rows as int, self.row_size as int);
            assert((n + 1) * size == n * size + size) by (nonlinear_arith);
            assert(start == old(self).rows() * self.size_of_row());
            assert(self.is_row(start as int));
            assert forall|i: int| 0 <= i < old(self).pool@.len() implies self.pool@[i] == old(
                self,
            ).pool@[i] by {
                assert(self.pool@.subrange(0, old(self).pool@.len() as int)[i] == self.pool@[i]);
            }
            assert(self.bytes() =~= old(self).bytes() + Seq::new(
                old(self).size_of_row() as nat,
                |i: int| 0u8,
            ));
            assert(0u8 & 1u8 == 0) by (bit_vector);
            assert forall|col: int| 0 <= col < self.num_columns() implies !#[trigger] self.null(
                start as int,
                col,
            ) by {
                assert(self.columns@[col].null_mask == 1);
            }
        }
        start
    }

    /// Reads a value from a column of a row.
    pub fn read_value<T: FixedWidth>(&self, row: usize, col_idx: usize) -> (value: T)
        requires
            self.well_formed(),
            self.is_row(row as int),
            self.fits(col_idx as int, T::width()),
        ensures
            value == self.value::<T>(row as int, col_idx as int),
    {
        proof {
            self.lemma_row_within(row as int);
        }
        let at: usize = row + self.columns[col_idx].offset;
        let field: &[u8] = vstd::slice::slice_subrange(
            self.pool.as_slice(),
            at,
            at + T::size(),
        );
        T::from_row_bytes(field)
    }

    /// Writes a value to a column of a row.
    pub fn write_value<T: FixedWidth>(&mut self, row: usize, col_idx: usize, val: T)
        requires
            old(self).well_formed(),
            old(self).is_row(row as int),
            old(self).fits(col_idx as int, T::width()),
        ensures
            final(self).well_formed(),
            old(self).same_layout(*final(self)),
            final(self).rows() == old(self).rows(),
            final(self).bytes() == patched(
                old(self).bytes(),
                row + old(self).column(col_idx as int).offset,
                val.encoded(),
            ),
            final(self).value::<T>(row as int, col_idx as int) == val,
    {
        proof {
            self.lemma_row_within(row as int);
            val.law_round_trip();
        }
        let at: usize = row + self.columns[col_idx].offset;
        let field: Vec<u8> = val.to_row_bytes();
        let ghost before = *self;
        let mut i: usize = 0;
        while i < field.len()
            invariant
                i <= field@.len(),
                field@ == val.encoded(),
                at + field@.len() <= before.pool@.len(),
                before.pool@.len() <= usize::MAX,
                self.pool@ == patched(before.pool@, at as int, field@.take(i as int)),
                self.row_size == before.row_size,
                self.columns@ == before.columns@,
                self.agg_state_offset == before.agg_state_offset,
                self.num_rows == before.num_rows,
                self.next_offset == before.next_offset,
            decreases field@.len() - i,
        {
            let byte: u8 = field[i];
            self.pool.set(at + i, byte);
            i = i + 1;
            assert(self.pool@ =~= patched(before.pool@, at as int, field@.take(i as int)));
        }
        proof {
            assert(field@.take(i as int) =~= field@);
            assert(self.bytes().subrange(at as int, at + T::width()) =~= val.encoded());
        }
    }

    /// Whether a column of a row is null.
    pub fn is_null(&self, row: usize, col_idx: usize) -> (null: bool)
        requires
            self.well_formed(),
            self.is_row(row as int),
            col_idx < self.num_columns(),
        ensures
            null == self.null(row as int, col_idx as int),
    {
        proof {
            self.lemma_row_within(row as int);
        }
        let col: &ColumnMeta = &self.columns[col_idx];
        self.pool[row + col.null_byte] & col.null_mask != 0
    }

    /// Marks a column of a row as null.
    pub fn set_null(&mut self, row: usize, col_idx: usize)
        requires
            old(self).well_formed(),
            old(self).is_row(row as int),
            col_idx < old(self).num_columns(),
        ensures
            final(self).well_formed(),
            old(self).same_layout(*final(self)),
            final(self).rows() == old(self).rows(),
            final(self).null(row as int, col_idx as int),
            ({
                let at = row + old(self).column(col_idx as int).null_byte;
                final(self).bytes() == old(self).bytes().update(at, old(self).bytes()[at] | 1)
            }),
    {
        proof {
            self.lemma_row_within(row as int);
        }
        let at: usize = row + self.columns[col_idx].null_byte;
        let flags: u8 = self.pool[at];
        let mask: u8 = self.columns[col_idx].null_mask;
        assert((flags | 1u8) & 1u8 != 0) by (bit_vector);
        self.pool.set(at, flags | mask);
    }

    /// Marks a column of a row as not null.
    pub fn clear_null(&mut self, row: usize, col_idx: usize)
        requires
            old(self).well_formed(),
            old(self).is_row(row as int),
            col_idx < old(self).num_columns(),
        ensures
            final(self).well_formed(),
            old(self).same_layout(*final(self)),
            final(self).rows() == old(self).rows(),
            !final(self).null(row as int, col_idx as int),
            ({
                let at = row + old(self).column(col_idx as int).null_byte;
                final(self).bytes() == old(self).bytes().update(at, old(self).bytes()[at] & 0xfe)
            }),
    {
        proof {
            self.lemma_row_within(row as int);
        }
        let at: usize = row + self.columns[col_idx].null_byte;
        let flags: u8 = self.pool[at];
        let mask: u8 = self.columns[col_idx].null_mask;
        assert(!1u8 == 0xfeu8 && (flags & 0xfeu8) & 1u8 == 0) by (bit_vector);
        self.pool.set(at, flags & !mask);
    }

    /// Where the aggregation state starts in a row.
    pub fn agg_state_offset(&self) -> (offset: usize)
        ensures
            offset == self.size_of_keys(),
    {
        self.agg_state_offset
    }

    /// The number of bytes of a row.
    pub fn row_size(&self) -> (size: usize)
        ensures
            size == self.size_of_row(),
    {
        self.row_size
    }

    /// The number of rows.
    pub fn num_rows(&self) -> (rows: usize)
        ensures
            rows == self.rows(),
    {
        self.num_rows
    }

    /// Where a column lies in a row.
    pub fn column_at(&self, col_idx: usize) -> (column: &ColumnMeta)
        requires
            col_idx < self.num_columns(),
        ensures
            *column == self.column(col_idx as int),
    {
        &self.columns[col_idx]
    }
}

proof fn lemma_column_start_monotone(key_sizes: Seq<usize>, i: int, j: int)
    requires
        0 <= i <= j <= key_sizes.len(),
    ensures
        0 <= column_start(key_sizes, i) <= column_start(key_sizes, j),
    decreases j,
{
    if i < j {
        lemma_column_start_monotone(key_sizes, i, j - 1);
    } else if 0 < j {
        lemma_column_start_monotone(key_sizes, 0, j - 1);
    }
}

/// The columns of a layout do not overlap, and the aggregation state follows
/// them.
pub proof fn law_columns_are_apart(key_sizes: Seq<usize>, i: int, j: int)
    requires
        0 <= i < j <= key_sizes.len(),
    ensures
        column_start(key_sizes, i) + 1 + key_sizes[i] <= column_start(key_sizes, j),
{
    lemma_column_start_monotone(key_sizes, i + 1, j);
}

impl RowContainer {
    /// Writing to a column leaves every other row, and every column that does
    /// not overlap what was written, as it was.
    pub proof fn law_write_is_local<U: FixedWidth>(
        self,
        after: Self,
        row: int,
        col: int,
        written: Seq<u8>,
        row2: int,
        col2: int,
    )
        requires
            self.well_formed(),
            self.same_layout(after),
            after.bytes() == patched(self.bytes(), row + self.column(col).offset, written),
            self.is_row(row),
            self.is_row(row2),
            self.fits(col, written.len()),
            self.fits(col2, U::width()),
            ({
                ||| row != row2
                ||| self.column(col).offset + written.len() <= self.column(col2).null_byte
                ||| self.column(col2).offset + U::width() <= self.column(col).null_byte
            }),
        ensures
            after.value::<U>(row2, col2) == self.value::<U>(row2, col2),
            after.null(row2, col2) == self.null(row2, col2),
    {
        self.lemma_row_within(row);
        self.lemma_row_within(row2);
        assert(self.columns@[col].null_mask == 1);
        assert(self.columns@[col2].null_mask == 1);
        if row != row2 {
            let size = self.size_of_row();
            let k = choose|k: int| 0 <= k < self.rows() && row == #[trigger] (k * size);
            let k2 = choose|k: int| 0 <= k < self.rows() && row2 == #[trigger] (k * size);
            assert(k < k2 ==> k * size + size <= k2 * size) by (nonlinear_arith)
                requires
                    0 <= size,
            ;
            assert(k2 < k ==> k2 * size + size <= k * size) by (nonlinear_arith)
                requires
                    0 <= size,
            ;
        }
        let from = row2 + self.column(col2).offset;
        assert(after.bytes().subrange(from, from + U::width()) =~= self.bytes().subrange(
            from,
            from + U::width(),
        ));
    }

    /// Adding a row leaves the others as they were.
    pub proof fn law_new_row_is_local<U: FixedWidth>(self, after: Self, row: int, col: int)
        requires
            self.well_formed(),
            self.same_layout(after),
            self.bytes().is_prefix_of(after.bytes()),
            self.is_row(row),
            self.fits(col, U::width()),
        ensures
            after.value::<U>(row, col) == self.value::<U>(row, col),
            after.null(row, col) == self.null(row, col),
    {
        self.lemma_row_within(row);
        assert(self.columns@[col].null_mask == 1);
        let from = row + self.column(col).offset;
        assert(after.bytes().subrange(from, from + U::width()) =~= self.bytes().subrange(
            from,
            from + U::width(),
        ));
    }
}

/// A column starts behind the bytes of the columns in front of it and a null byte for
/// each of them.
pub proof fn law_column_start_is_a_sum(key_sizes: Seq<usize>, i: int)
    requires
        0 <= i <= key_sizes.len(),
    ensures
        column_start(key_sizes, i) == i + key_sizes.take(i).fold_left(
            0int,
            |sum: int, size: usize| sum + size,
        ),
    decreases i,
{
    if i > 0 {
        law_column_start_is_a_sum(key_sizes, i - 1);
        assert(key_sizes.take(i).drop_last() =~= key_sizes.take(i - 1));
        assert(key_sizes.take(i).last() == key_sizes[i - 1]);
    }
}

/// Patched bytes are the patch where it lies, and the bytes that were there elsewhere.
pub proof fn law_patched_bytes(bytes: Seq<u8>, at: int, patch: Seq<u8>)
    requires
        0 <= at,
        at + patch.len() <= bytes.len(),
    ensures
        patched(bytes, at, patch) == bytes.take(at) + patch + bytes.skip(at + patch.len()),
{
    assert(patched(bytes, at, patch) =~= bytes.take(at) + patch + bytes.skip(at + patch.len()));
}

} // verus!
