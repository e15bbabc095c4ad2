//! A batch of rows.

use vstd::prelude::*;

verus! {

/// The columns made of the listed rows, in the order of the list.
pub open spec fn picked<T>(columns: Seq<Seq<T>>, rows: Seq<int>) -> Seq<Seq<T>> {
    Seq::new(
        columns.len(),
        |c: int| Seq::new(rows.len(), |k: int| columns[c][rows[k]]),
    )
}

/// Row numbers as integers.
pub open spec fn row_numbers(rows: Seq<u64>) -> Seq<int> {
    Seq::new(rows.len(), |k: int| rows[k] as int)
}

/// The listed columns, in the order of the list.
pub open spec fn projected<T>(columns: Seq<Seq<T>>, projection: Seq<usize>) -> Seq<Seq<T>> {
    Seq::new(projection.len(), |k: int| columns[projection[k] as int])
}

/// Names as sequences of characters.
pub open spec fn texts(names: Seq<String>) -> Seq<Seq<char>> {
    Seq::new(names.len(), |c: int| names[c]@)
}

/// The columns of batches, one after the other.
pub open spec fn concatenated<T>(batches: Seq<RecordBatch<T>>, columns: nat) -> Seq<Seq<T>>
    decreases batches.len(),
{
    if batches.len() == 0 {
        Seq::new(columns, |c: int| Seq::empty())
    } else {
        let front = concatenated(batches.drop_last(), columns);
        Seq::new(columns, |c: int| front[c] + batches.last().cols()[c])
    }
}

/// The number of rows of batches.
pub open spec fn rows_of<T>(batches: Seq<RecordBatch<T>>) -> int
    decreases batches.len(),
{
    if batches.len() == 0 {
        0
    } else {
        rows_of(batches.drop_last()) + batches.last().rows()
    }
}

/// A batch of rows, column by column, each under its name.
pub struct RecordBatch<T> {
    names: Vec<String>,
    columns: Vec<Vec<T>>,
    num_rows: usize,
}

impl<T> RecordBatch<T> {
    #[verifier::type_invariant]
    spec fn well_formed(self) -> bool {
        &&& self.names@.len() == self.columns@.len()
        &&& forall|c: int|
            0 <= c < self.columns@.len() ==> (#[trigger] self.columns@[c])@.len() == self.num_rows
    }

    /// The names of the columns.
    pub closed spec fn fields(self) -> Seq<Seq<char>> {
        texts(self.names@)
    }

    /// The columns.
    pub closed spec fn cols(self) -> Seq<Seq<T>> {
        Seq::new(self.columns@.len(), |c: int| self.columns@[c]@)
    }

    /// The number of rows.
    pub closed spec fn rows(self) -> int {
        self.num_rows as int
    }
}

impl<T: Copy> RecordBatch<T> {
    /// A batch of columns of `num_rows` values each, under their names.
    pub fn new(names: Vec<String>, columns: Vec<Vec<T>>, num_rows: usize) -> (batch: Self)
        requires
            names@.len() == columns@.len(),
            forall|c: int| 0 <= c < columns@.len() ==> (#[trigger] columns@[c])@.len() == num_rows,
        ensures
            batch.rows() == num_rows,
            batch.fields() == texts(names@),
            batch.cols() == Seq::new(columns@.len(), |c: int| columns@[c]@),
    {
        RecordBatch { names, columns, num_rows }
    }

    /// The number of rows.
    pub fn len(&self) -> (n: usize)
        ensures
            n == self.rows(),
    {
        self.num_rows
    }

    /// The names of the columns.
    pub fn names(&self) -> (names: &Vec<String>)
        ensures
            self.fields() == texts(names@),
            names@.len() == self.cols().len(),
    {
        proof {
            use_type_invariant(self);
        }
        &self.names
    }

    /// The columns.
    pub fn columns(&self) -> (columns: &Vec<Vec<T>>)
        ensures
            columns@.len() == self.fields().len(),
            self.cols() == Seq::new(columns@.len(), |c: int| columns@[c]@),
            forall|c: int|
                0 <= c < columns@.len() ==> (#[trigger] columns@[c])@.len() == self.rows(),
    {
        proof {
            use_type_invariant(self);
        }
        &self.columns
    }

    /// The listed rows, in the order of the list.
    pub fn take(&self, rows: &[u64]) -> (batch: Self)
        requires
            forall|k: int| 0 <= k < rows@.len() ==> (#[trigger] rows@[k]) < self.rows(),
        ensures
            batch.rows() == rows@.len(),
            batch.fields() == self.fields(),
            batch.cols() == picked(self.cols(), row_numbers(rows@)),
    {
        proof {
            use_type_invariant(self);
        }
        let ghost wanted = picked(self.cols(), row_numbers(rows@));
        let mut columns: Vec<Vec<T>> = Vec::new();
        let mut c: usize = 0;
        while c < self.columns.len()
            invariant
                c <= self.columns@.len(),
                self.well_formed(),
                forall|k: int| 0 <= k < rows@.len() ==> (#[trigger] rows@[k]) < self.rows(),
                wanted == picked(self.cols(), row_numbers(rows@)),
                columns@.len() == c,
                forall|b: int| 0 <= b < c ==> (#[trigger] columns@[b])@ == wanted[b],
            decreases self.columns@.len() - c,
        {
            let mut column: Vec<T> = Vec::new();
            let mut k: usize = 0;
            assert(self.columns@[c as int]@.len() == self.num_rows);
            while k < rows.len()
                invariant
                    c < self.columns@.len(),
                    self.columns@[c as int]@.len() == self.num_rows,
                    k <= rows@.len(),
                    forall|k: int| 0 <= k < rows@.len() ==> (#[trigger] rows@[k]) < self.rows(),
                    column@.len() == k,
                    forall|j: int|
                        0 <= j < k ==> #[trigger] column@[j]
                            == self.columns@[c as int]@[rows@[j] as int],
                decreases rows@.len() - k,
            {
                assert(rows@[k as int] < self.rows());
                let row: usize = rows[k] as usize;
                column.push(self.columns[c][row]);
                k = k + 1;
            }
            assert(column@ =~= wanted[c as int]);
            columns.push(column);
            c = c + 1;
        }
        let names: Vec<String> = copied_names(self.names.as_slice());
        let batch: Self = RecordBatch { names, columns, num_rows: rows.len() };
        assert(batch.cols() =~= wanted);
        batch
    }

    /// The rows from `start` to `end`.
    pub fn slice(&self, start: usize, end: usize) -> (batch: Self)
        requires
            start <= end <= self.rows(),
        ensures
            batch.rows() == end - start,
            batch.fields() == self.fields(),
            batch.cols() == Seq::new(
                self.cols().len(),
                |c: int| self.cols()[c].subrange(start as int, end as int),
            ),
    {
        proof {
            use_type_invariant(self);
        }
        let ghost wanted = Seq::new(
            self.cols().len(),
            |c: int| self.cols()[c].subrange(start as int, end as int),
        );
        let mut columns: Vec<Vec<T>> = Vec::new();
        let mut c: usize = 0;
        while c < self.columns.len()
            invariant
                c <= self.columns@.len(),
                self.well_formed(),
                start <= end <= self.num_rows,
                wanted == Seq::new(
                    self.cols().len(),
                    |c: int| self.cols()[c].subrange(start as int, end as int),
                ),
                columns@.len() == c,
                forall|b: int| 0 <= b < c ==> (#[trigger] columns@[b])@ == wanted[b],
            decreases self.columns@.len() - c,
        {
            let mut column: Vec<T> = Vec::new();
            let mut k: usize = start;
            assert(self.columns@[c as int]@.len() == self.num_rows);
            while k < end
                invariant
                    c < self.columns@.len(),
                    self.columns@[c as int]@.len() == self.num_rows,
                    start <= k <= end <= self.num_rows,
                    column@ == self.columns@[c as int]@.subrange(start as int, k as int),
                decreases end - k,
            {
                column.push(self.columns[c][k]);
                k = k + 1;
                assert(column@ =~= self.columns@[c as int]@.subrange(start as int, k as int));
            }
            assert(column@ =~= wanted[c as int]);
            columns.push(column);
            c = c + 1;
        }
        let names: Vec<String> = copied_names(self.names.as_slice());
        let batch: Self = RecordBatch { names, columns, num_rows: end - start };
        assert(batch.cols() =~= wanted);
        batch
    }

    /// The listed columns, in the order of the list.
    pub fn get_columns(&self, projection: &[usize]) -> (batch: Self)
        requires
            forall|k: int| 0 <= k < projection@.len() ==> (#[trigger] projection@[k])
                < self.cols().len(),
        ensures
            batch.rows() == self.rows(),
            batch.fields() == projected(self.fields(), projection@),
            batch.cols() == projected(self.cols(), projection@),
    {
        proof {
            use_type_invariant(self);
        }
        let ghost wanted = projected(self.cols(), projection@);
        let mut names: Vec<String> = Vec::new();
        let mut columns: Vec<Vec<T>> = Vec::new();
        let mut k: usize = 0;
        while k < projection.len()
            invariant
                k <= projection@.len(),
                self.well_formed(),
                forall|k: int| 0 <= k < projection@.len() ==> (#[trigger] projection@[k])
                    < self.cols().len(),
                wanted == projected(self.cols(), projection@),
                names@.len() == k,
                forall|b: int|
                    0 <= b < k ==> (#[trigger] names@[b])@ == self.fields()[projection@[b] as int],
                columns@.len() == k,
                forall|b: int|
                    0 <= b < k ==> (#[trigger] columns@[b])@ == wanted[b] && columns@[b]@.len()
                        == self.num_rows,
            decreases projection@.len() - k,
        {
            assert(projection@[k as int] < self.cols().len());
            let source: usize = projection[k];
            assert(self.columns@[source as int]@.len() == self.num_rows);
            let name: String = self.names[source].clone();
            names.push(name);
            let column: Vec<T> = copied(&self.columns[source]);
            columns.push(column);
            k = k + 1;
        }
        let batch: Self = RecordBatch { names, columns, num_rows: self.num_rows };
        assert(batch.fields() =~= projected(self.fields(), projection@));
        assert(batch.cols() =~= wanted);
        batch
    }

    /// The same batch once more.
    pub fn copy(&self) -> (batch: Self)
        ensures
            batch.rows() == self.rows(),
            batch.fields() == self.fields(),
            batch.cols() == self.cols(),
    {
        proof {
            use_type_invariant(self);
        }
        let mut columns: Vec<Vec<T>> = Vec::new();
        let mut c: usize = 0;
        while c < self.columns.len()
            invariant
                c <= self.columns@.len(),
                columns@.len() == c,
                forall|b: int| 0 <= b < c ==> (#[trigger] columns@[b])@ == self.columns@[b]@,
            decreases self.columns@.len() - c,
        {
            columns.push(copied(&self.columns[c]));
            c = c + 1;
        }
        proof {
            assert forall|b: int| 0 <= b < columns@.len() implies (#[trigger] columns@[b])@.len()
                == self.num_rows by {
                assert(self.columns@[b]@.len() == self.num_rows);
            }
        }
        let names: Vec<String> = copied_names(self.names.as_slice());
        let batch: Self = RecordBatch { names, columns, num_rows: self.num_rows };
        assert(batch.cols() =~= self.cols());
        batch
    }

    /// A batch of columns of these names, without rows.
    pub fn empty(names: &[String]) -> (batch: Self)
        ensures
            batch.rows() == 0,
            batch.fields() == texts(names@),
            batch.cols() == concatenated(Seq::<Self>::empty(), names@.len()),
    {
        let num_columns: usize = names.len();
        let mut columns: Vec<Vec<T>> = Vec::new();
        let mut c: usize = 0;
        while c < num_columns
            invariant
                c <= num_columns,
                columns@.len() == c,
                forall|b: int| 0 <= b < c ==> (#[trigger] columns@[b])@ == Seq::<T>::empty(),
            decreases num_columns - c,
        {
            columns.push(Vec::new());
            c = c + 1;
        }
        let batch: Self = RecordBatch { names: copied_names(names), columns, num_rows: 0 };
        assert(batch.cols() =~= concatenated(Seq::<Self>::empty(), names@.len()));
        batch
    }

    /// The rows of all batches, one batch after the other, whose columns have
    /// these names.
    pub fn concat(batches: &[Self], names: &[String]) -> (batch: Self)
        requires
            forall|b: int| 0 <= b < batches@.len() ==> (#[trigger] batches@[b]).fields() == texts(
                names@,
            ),
            rows_of(batches@) <= usize::MAX,
        ensures
            batch.rows() == rows_of(batches@),
            batch.fields() == texts(names@),
            batch.cols() == concatenated(batches@, names@.len()),
            batch.rows() == rows_before(batches@, batches@.len() as int),
            batch.cols().len() == names@.len(),
            forall|b: int, c: int, r: int|
                0 <= b < batches@.len() && 0 <= c < names@.len() && 0 <= r < batches@[b].rows()
                    ==> batch.cols()[c][rows_before(batches@, b) + r]
                    == #[trigger] batches@[b].cols()[c][r],
    {
        let mut batch: Self = Self::empty(names);
        let mut i: usize = 0;
        assert(batches@.take(0) =~= Seq::<Self>::empty());
        while i < batches.len()
            invariant
                i <= batches@.len(),
                forall|b: int|
                    0 <= b < batches@.len() ==> (#[trigger] batches@[b]).fields() == texts(names@),
                rows_of(batches@) <= usize::MAX,
                batch.fields() == texts(names@),
                batch.rows() == rows_of(batches@.take(i as int)),
                batch.cols() == concatenated(batches@.take(i as int), names@.len()),
                forall|b: int, c: int|
                    0 <= b < i && 0 <= c < names@.len() ==> (#[trigger] batches@[b].cols()[c]).len()
                        == batches@[b].rows(),
            decreases batches@.len() - i,
        {
            proof {
                assert(batches@.take(i + 1).drop_last() =~= batches@.take(i as int));
                lemma_rows_of_monotone(batches@, i + 1);
                assert(batches@[i as int].fields() == texts(names@));
            }
            proof {
                let this = &batches@[i as int];
                assert(this.fields().len() == names@.len());
            }
            let joined: &Self = &batches[i];
            proof {
                use_type_invariant(joined);
                assert(joined.fields().len() == joined.names@.len());
            }
            let next: Self = batch.append(joined);
            assert(next.cols() =~= concatenated(batches@.take(i + 1), names@.len()));
            batch = next;
            i = i + 1;
        }
        proof {
            assert(batches@.take(i as int) =~= batches@);
            law_joined_rows(batches@, names@.len());
        }
        batch
    }

    /// The rows of two batches.
    fn append(&self, other: &Self) -> (batch: Self)
        requires
            self.fields() == other.fields(),
            self.rows() + other.rows() <= usize::MAX,
        ensures
            batch.rows() == self.rows() + other.rows(),
            batch.fields() == self.fields(),
            batch.cols() == Seq::new(
                self.cols().len(),
                |c: int| self.cols()[c] + other.cols()[c],
            ),
    {
        proof {
            use_type_invariant(self);
            use_type_invariant(other);
            assert(self.fields().len() == self.names@.len());
            assert(other.fields().len() == other.names@.len());
        }
        let ghost wanted = Seq::new(
            self.cols().len(),
            |c: int| self.cols()[c] + other.cols()[c],
        );
        let mut columns: Vec<Vec<T>> = Vec::new();
        let mut c: usize = 0;
        while c < self.columns.len()
            invariant
                c <= self.columns@.len(),
                self.well_formed(),
                other.well_formed(),
                self.cols().len() == other.cols().len(),
                wanted == Seq::new(
                    self.cols().len(),
                    |c: int| self.cols()[c] + other.cols()[c],
                ),
                columns@.len() == c,
                forall|b: int|
                    0 <= b < c ==> (#[trigger] columns@[b])@ == wanted[b] && columns@[b]@.len()
                        == self.rows() + other.rows(),
            decreases self.columns@.len() - c,
        {
            let mut column: Vec<T> = copied(&self.columns[c]);
            let mut tail: Vec<T> = copied(&other.columns[c]);
            assert(self.columns@[c as int]@.len() == self.num_rows);
            assert(other.columns@[c as int]@.len() == other.num_rows);
            column.append(&mut tail);
            columns.push(column);
            c = c + 1;
        }
        let names: Vec<String> = copied_names(self.names.as_slice());
        let num_rows: usize = self.num_rows + other.num_rows;
        let batch: Self = RecordBatch { names, columns, num_rows };
        assert(batch.cols() =~= wanted);
        batch
    }
}

/// A copy of a column.
fn copied<T: Copy>(column: &Vec<T>) -> (copy: Vec<T>)
    ensures
        copy@ == column@,
{
    let mut copy: Vec<T> = Vec::new();
    let mut i: usize = 0;
    while i < column.len()
        invariant
            i <= column@.len(),
            copy@ == column@.take(i as int),
        decreases column@.len() - i,
    {
        copy.push(column[i]);
        i = i + 1;
        assert(copy@ =~= column@.take(i as int));
    }
    assert(column@.take(i as int) =~= column@);
    copy
}

/// A copy of names.
fn copied_names(names: &[String]) -> (copy: Vec<String>)
    ensures
        copy@.len() == names@.len(),
        texts(copy@) == texts(names@),
{
    let mut copy: Vec<String> = Vec::new();
    let mut i: usize = 0;
    while i < names.len()
        invariant
            i <= names@.len(),
            copy@.len() == i,
            forall|b: int| 0 <= b < i ==> (#[trigger] copy@[b])@ == names@[b]@,
        decreases names@.len() - i,
    {
        let name: String = names[i].clone();
        copy.push(name);
        i = i + 1;
    }
    assert(texts(copy@) =~= texts(names@));
    copy
}

/// The number of rows of the batches in front of batch `b`.
pub open spec fn rows_before<T>(batches: Seq<RecordBatch<T>>, b: int) -> int {
    batches.take(b).fold_left(0int, |sum: int, batch: RecordBatch<T>| sum + batch.rows())
}

/// Joined batches hold every row of every batch: as many as all of them together,
/// and row `r` of batch `b` behind the rows of the batches in front of it.
pub proof fn law_joined_rows<T>(batches: Seq<RecordBatch<T>>, columns: nat)
    requires
        forall|b: int, c: int|
            0 <= b < batches.len() && 0 <= c < columns ==> (#[trigger] batches[b].cols()[c]).len()
                == batches[b].rows(),
    ensures
        rows_of(batches) == rows_before(batches, batches.len() as int),
        concatenated(batches, columns).len() == columns,
        forall|c: int|
            0 <= c < columns ==> (#[trigger] concatenated(batches, columns)[c]).len() == rows_of(
                batches,
            ),
        forall|b: int, c: int, r: int|
            0 <= b < batches.len() && 0 <= c < columns && 0 <= r < batches[b].rows()
                ==> concatenated(batches, columns)[c][rows_before(batches, b) + r]
                == #[trigger] batches[b].cols()[c][r],
    decreases batches.len(),
{
    let n = batches.len() as int;
    assert(batches.take(n) =~= batches);
    if n > 0 {
        let front = batches.drop_last();
        let joined = concatenated(batches, columns);
        assert forall|b: int, c: int| 0 <= b < front.len() && 0 <= c < columns implies (
        #[trigger] front[b].cols()[c]).len() == front[b].rows() by {
            assert(batches[b].cols()[c].len() == batches[b].rows());
        }
        law_joined_rows(front, columns);
        assert(batches.take(n - 1) =~= front);
        assert(front.take(n - 1) =~= front);
        assert forall|c: int| 0 <= c < columns implies (#[trigger] joined[c]).len() == rows_of(
            batches,
        ) by {
            assert(batches[n - 1].cols()[c].len() == batches[n - 1].rows());
            assert(concatenated(front, columns)[c].len() == rows_of(front));
        }
        assert forall|b: int, c: int, r: int|
            0 <= b < n && 0 <= c < columns && 0 <= r < batches[b].rows() implies joined[c][
            rows_before(batches, b) + r] == #[trigger] batches[b].cols()[c][r] by {
            assert(batches[b].cols()[c].len() == batches[b].rows());
            assert(concatenated(front, columns)[c].len() == rows_of(front));
            if b < n - 1 {
                assert(front.take(b) =~= batches.take(b));
                assert(front[b].cols()[c][r] == batches[b].cols()[c][r]);
                lemma_rows_before(front, b);
                lemma_rows_before(front, b + 1);
                lemma_rows_before_step(front, b);
                lemma_rows_before_monotone(front, b + 1, n - 1);
            }
        }
    }
}

proof fn lemma_rows_before<T>(batches: Seq<RecordBatch<T>>, b: int)
    requires
        0 <= b <= batches.len(),
    ensures
        rows_before(batches, b) >= 0,
    decreases b,
{
    if b > 0 {
        lemma_rows_before(batches, b - 1);
        lemma_rows_before_step(batches, b - 1);
    }
}

proof fn lemma_rows_before_step<T>(batches: Seq<RecordBatch<T>>, b: int)
    requires
        0 <= b < batches.len(),
    ensures
        rows_before(batches, b + 1) == rows_before(batches, b) + batches[b].rows(),
{
    assert(batches.take(b + 1).drop_last() =~= batches.take(b));
    assert(batches.take(b + 1).last() == batches[b]);
}

proof fn lemma_rows_before_monotone<T>(batches: Seq<RecordBatch<T>>, a: int, b: int)
    requires
        0 <= a <= b <= batches.len(),
    ensures
        rows_before(batches, a) <= rows_before(batches, b),
    decreases b,
{
    if a < b {
        lemma_rows_before_monotone(batches, a, b - 1);
        lemma_rows_before_step(batches, b - 1);
    }
}

/// Names are taken whole, each at its place.
pub proof fn law_names_are_taken_whole(names: Seq<String>)
    ensures
        texts(names).len() == names.len(),
        forall|c: int| 0 <= c < names.len() ==> #[trigger] texts(names)[c] == names[c]@,
{
}

/// Row `k` of picked rows is the row that is listed there, in every column.
pub proof fn law_picked_rows<T>(columns: Seq<Seq<T>>, rows: Seq<u64>)
    ensures
        picked(columns, row_numbers(rows)).len() == columns.len(),
        forall|c: int|
            0 <= c < columns.len() ==> (#[trigger] picked(columns, row_numbers(rows))[c]).len()
                == rows.len(),
        forall|c: int, k: int|
            0 <= c < columns.len() && 0 <= k < rows.len() ==> #[trigger] picked(
                columns,
                row_numbers(rows),
            )[c][k] == columns[c][rows[k] as int],
{
}

/// Column `k` of projected columns is the column that is listed there.
pub proof fn law_projected_columns<T>(columns: Seq<Seq<T>>, projection: Seq<usize>)
    ensures
        projected(columns, projection).len() == projection.len(),
        forall|k: int|
            0 <= k < projection.len() ==> #[trigger] projected(columns, projection)[k]
                == columns[projection[k] as int],
{
}

proof fn lemma_rows_of_monotone<T>(batches: Seq<RecordBatch<T>>, n: int)
    requires
        0 <= n <= batches.len(),
    ensures
        0 <= rows_of(batches.take(n)) <= rows_of(batches),
    decreases batches.len(),
{
    if n < batches.len() {
        lemma_rows_of_monotone(batches.drop_last(), n);
        assert(batches.drop_last().take(n) =~= batches.take(n));
    } else {
        assert(batches.take(n) =~= batches);
        if n > 0 {
            lemma_rows_of_monotone(batches.drop_last(), n - 1);
        }
    }
}

} // verus!
