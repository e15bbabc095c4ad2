//! Row selections for profiling a parquet reader, and the data they run on.

use vstd::prelude::*;

use crate::random::draw_bool;
use crate::random::draw_i64;
use crate::random::draw_run;
use crate::text::same_text;

verus! {

/// The number of rows of the profiled file.
pub const NUM_ROWS: usize = 100_000_000;

/// The number of rows that the reader returns at a time.
pub const BATCH_SIZE: usize = 8192;

/// The number of rows that the writer is handed at a time.
pub const WRITE_CHUNK: usize = 100_000;

/// The seed of the profiled data.
pub const DATA_SEED: u64 = 42;

/// A run of rows that are all read or all skipped.
#[derive(Debug, Clone, Copy, PartialEq, Eq, Structural)]
pub struct RowSelector {
    pub row_count: usize,
    pub skip: bool,
}

impl RowSelector {
    /// A run of rows to read.
    pub fn select(row_count: usize) -> (selector: Self)
        ensures
            selector == (RowSelector { row_count, skip: false }),
    {
        RowSelector { row_count, skip: false }
    }

    /// A run of rows to skip.
    pub fn skip(row_count: usize) -> (selector: Self)
        ensures
            selector == (RowSelector { row_count, skip: true }),
    {
        RowSelector { row_count, skip: true }
    }
}

/// The number of rows that selectors go over.
pub open spec fn total_rows(selectors: Seq<RowSelector>) -> int
    decreases selectors.len(),
{
    if selectors.len() == 0 {
        0
    } else {
        total_rows(selectors.drop_last()) + selectors.last().row_count
    }
}

/// The number of rows that selectors read.
pub open spec fn read_rows(selectors: Seq<RowSelector>) -> int
    decreases selectors.len(),
{
    if selectors.len() == 0 {
        0
    } else {
        read_rows(selectors.drop_last()) + (if selectors.last().skip {
            0int
        } else {
            selectors.last().row_count as int
        })
    }
}

/// The selector for a drawn run: no longer than the rows that are left.
pub open spec fn selector_for(remaining: usize, is_select: bool, drawn: usize) -> RowSelector {
    RowSelector {
        row_count: if drawn < remaining {
            drawn
        } else {
            remaining
        },
        skip: !is_select,
    }
}

/// Where a selection stands: the rows that are left, and whether the next run is
/// read.
#[derive(Debug, Clone, Copy, PartialEq, Eq, Structural)]
pub struct SelectionState {
    pub remaining: usize,
    pub is_select: bool,
}

/// Takes a drawn run off the rows that are left: returns its selector, no longer
/// than those rows, and turns to the other kind of run.
pub fn next_selector(state: &mut SelectionState, drawn: usize) -> (selector: RowSelector)
    ensures
        selector == selector_for(old(state).remaining, old(state).is_select, drawn),
        final(state).remaining == old(state).remaining - selector.row_count,
        final(state).is_select == !old(state).is_select,
{
    let run: usize = if drawn < state.remaining {
        drawn
    } else {
        state.remaining
    };
    let selector: RowSelector = if state.is_select {
        RowSelector::select(run)
    } else {
        RowSelector::skip(run)
    };
    state.remaining = state.remaining - run;
    state.is_select = !state.is_select;
    selector
}

/// The selectors that a generator in this state gives for the rows that are
/// left.
pub open spec fn selectors_from(
    remaining: usize,
    max_run: usize,
    is_select: bool,
    state: u64,
    bits: u32,
) -> Seq<RowSelector>
    decreases remaining,
{
    let (drawn, next) = crate::random::run_draw(state, max_run, bits);
    let selector = selector_for(remaining, is_select, drawn);
    if remaining == 0 || selector.row_count == 0 {
        Seq::empty()
    } else {
        seq![selector] + selectors_from(
            (remaining - selector.row_count) as usize,
            max_run,
            !is_select,
            next,
            bits,
        )
    }
}

/// The selectors that a seed gives for `n` rows.
pub open spec fn random_selectors(n: usize, max_run: usize, seed: u64, bits: u32) -> Seq<
    RowSelector,
> {
    let (first, state) = crate::random::bool_draw(seed);
    selectors_from(n, max_run, first, state, bits)
}

/// Runs of random length up to `max_run`, read and skipped in turn, over `n`
/// rows.
pub fn build_random_selectors(n: usize, max_run: usize, seed: u64) -> (selectors: Vec<RowSelector>)
    requires
        max_run >= 1 || n == 0,
    ensures
        selectors@ == random_selectors(n, max_run, seed, usize::BITS),
        total_rows(selectors@) == n,
        forall|i: int|
            0 <= i < selectors@.len() ==> 1 <= (#[trigger] selectors@[i]).row_count <= max_run,
        forall|i: int|
            0 <= i < selectors@.len() ==> ((#[trigger] selectors@[i]).skip == (i % 2 == 1)) == (
            crate::random::bool_draw(seed).0),
{
    let (first, start): (bool, u64) = draw_bool(seed);
    let mut selection: SelectionState = SelectionState { remaining: n, is_select: first };
    let mut state: u64 = start;
    let mut selectors: Vec<RowSelector> = Vec::new();
    proof {
        assert(selectors@ + selectors_from(n, max_run, first, start, usize::BITS)
            =~= selectors_from(n, max_run, first, start, usize::BITS));
    }
    while selection.remaining > 0
        invariant
            selection.remaining <= n,
            max_run >= 1 || n == 0,
            (first, start) == crate::random::bool_draw(seed),
            selectors@ + selectors_from(
                selection.remaining,
                max_run,
                selection.is_select,
                state,
                usize::BITS,
            ) == selectors_from(n, max_run, first, start, usize::BITS),
            total_rows(selectors@) == n - selection.remaining,
            selection.is_select == (first == (selectors@.len() % 2 == 0)),
            forall|i: int|
                0 <= i < selectors@.len() ==> 1 <= (#[trigger] selectors@[i]).row_count <= max_run,
            forall|i: int|
                0 <= i < selectors@.len() ==> ((#[trigger] selectors@[i]).skip == (i % 2 == 1))
                    == first,
        decreases selection.remaining,
    {
        let (drawn, next): (usize, u64) = draw_run(state, max_run);
        let selector: RowSelector = next_selector(&mut selection, drawn);
        let ghost before = selectors@;
        proof {
            let rest = selectors_from(
                selection.remaining,
                max_run,
                selection.is_select,
                next,
                usize::BITS,
            );
            assert(before + (seq![selector] + rest) =~= before.push(selector) + rest);
            assert(before.push(selector).drop_last() =~= before);
        }
        selectors.push(selector);
        state = next;
    }
    proof {
        assert(selectors@ + Seq::empty() =~= selectors@);
    }
    selectors
}

/// A selection to profile.
#[derive(Debug, Clone, Copy, PartialEq, Eq, Structural)]
pub enum Case {
    /// Every row is read.
    ReadAll,
    /// Every row is skipped.
    SkipAll,
    /// Random runs are read and skipped in turn.
    Random { max_run: usize, seed: u64 },
}

/// The selection of a name.
pub open spec fn case_named(name: Seq<char>) -> Option<Case> {
    if name == "read_all"@ {
        Some(Case::ReadAll)
    } else if name == "skip_all"@ {
        Some(Case::SkipAll)
    } else if name == "case7"@ {
        Some(Case::Random { max_run: 20_000, seed: 123 })
    } else if name == "case8"@ {
        Some(Case::Random { max_run: 2_000, seed: 123 })
    } else if name == "case9"@ {
        Some(Case::Random { max_run: 200, seed: 456 })
    } else if name == "case10"@ {
        Some(Case::Random { max_run: 20, seed: 456 })
    } else if name == "case11"@ {
        Some(Case::Random { max_run: 5, seed: 789 })
    } else {
        None
    }
}

/// The selection of a name.
pub fn find_case(name: &str) -> (case: Option<Case>)
    ensures
        case == case_named(name@),
{
    if same_text(name, "read_all") {
        Some(Case::ReadAll)
    } else if same_text(name, "skip_all") {
        Some(Case::SkipAll)
    } else if same_text(name, "case7") {
        Some(Case::Random { max_run: 20_000, seed: 123 })
    } else if same_text(name, "case8") {
        Some(Case::Random { max_run: 2_000, seed: 123 })
    } else if same_text(name, "case9") {
        Some(Case::Random { max_run: 200, seed: 456 })
    } else if same_text(name, "case10") {
        Some(Case::Random { max_run: 20, seed: 456 })
    } else if same_text(name, "case11") {
        Some(Case::Random { max_run: 5, seed: 789 })
    } else {
        None
    }
}

/// The selectors of a selection over `n` rows.
pub open spec fn case_selectors(case: Case, n: usize, bits: u32) -> Seq<RowSelector> {
    match case {
        Case::ReadAll => seq![RowSelector { row_count: n, skip: false }],
        Case::SkipAll => seq![RowSelector { row_count: n, skip: true }],
        Case::Random { max_run, seed } => random_selectors(n, max_run, seed, bits),
    }
}

/// The selectors of a named selection over the profiled file.
pub fn build_case(case_name: &str) -> (selectors: Vec<RowSelector>)
    requires
        case_named(case_name@) is Some,
    ensures
        selectors@ == case_selectors(case_named(case_name@)->0, NUM_ROWS, usize::BITS),
        total_rows(selectors@) == NUM_ROWS,
{
    let case: Option<Case> = find_case(case_name);
    let mut selectors: Vec<RowSelector> = Vec::new();
    proof {
        reveal_with_fuel(total_rows, 2);
    }
    match case {
        Some(Case::ReadAll) => {
            selectors.push(RowSelector::select(NUM_ROWS));
        },
        Some(Case::SkipAll) => {
            selectors.push(RowSelector::skip(NUM_ROWS));
        },
        Some(Case::Random { max_run, seed }) => {
            return build_random_selectors(NUM_ROWS, max_run, seed);
        },
        None => {},
    }
    assert(selectors@.drop_last() =~= Seq::empty());
    selectors
}

/// The number of rows that selectors read.
pub fn selected_rows(selectors: &[RowSelector]) -> (rows: usize)
    requires
        read_rows(selectors@) <= usize::MAX,
    ensures
        rows == read_rows(selectors@),
{
    let mut rows: usize = 0;
    let mut i: usize = 0;
    while i < selectors.len()
        invariant
            i <= selectors@.len(),
            rows == read_rows(selectors@.take(i as int)),
            read_rows(selectors@) <= usize::MAX,
        decreases selectors@.len() - i,
    {
        proof {
            assert(selectors@.take(i + 1).drop_last() =~= selectors@.take(i as int));
            lemma_read_rows_monotone(selectors@, i + 1);
        }
        if !selectors[i].skip {
            rows = rows + selectors[i].row_count;
        }
        i = i + 1;
    }
    assert(selectors@.take(i as int) =~= selectors@);
    rows
}

proof fn lemma_read_rows_monotone(selectors: Seq<RowSelector>, n: int)
    requires
        0 <= n <= selectors.len(),
    ensures
        0 <= read_rows(selectors.take(n)) <= read_rows(selectors),
    decreases selectors.len(),
{
    if n < selectors.len() {
        lemma_read_rows_monotone(selectors.drop_last(), n);
        assert(selectors.drop_last().take(n) =~= selectors.take(n));
    } else {
        assert(selectors.take(n) =~= selectors);
        if n > 0 {
            lemma_read_rows_monotone(selectors.drop_last(), n - 1);
        }
    }
}

/// Selectors read no more rows than they go over.
pub proof fn law_read_rows_bounded(selectors: Seq<RowSelector>)
    ensures
        0 <= read_rows(selectors) <= total_rows(selectors),
    decreases selectors.len(),
{
    if selectors.len() > 0 {
        law_read_rows_bounded(selectors.drop_last());
    }
}

/// The lengths of the chunks into which `total` rows fall.
pub open spec fn chunks_of(total: int, chunk: int) -> Seq<usize>
    decreases total,
{
    if total <= 0 || chunk <= 0 {
        Seq::empty()
    } else if total <= chunk {
        seq![total as usize]
    } else {
        seq![chunk as usize] + chunks_of(total - chunk, chunk)
    }
}

/// The sum of lengths.
pub open spec fn sum_lengths(lengths: Seq<usize>) -> int
    decreases lengths.len(),
{
    if lengths.len() == 0 {
        0
    } else {
        sum_lengths(lengths.drop_last()) + lengths.last()
    }
}

/// The lengths of the chunks in which `total` rows are written: all of them
/// `chunk`, but for what is left for the last.
pub fn chunk_lengths(total: usize, chunk: usize) -> (lengths: Vec<usize>)
    requires
        chunk >= 1,
    ensures
        lengths@ == chunks_of(total as int, chunk as int),
        sum_lengths(lengths@) == total,
        forall|i: int| 0 <= i < lengths@.len() ==> 1 <= #[trigger] lengths@[i] <= chunk,
{
    let mut lengths: Vec<usize> = Vec::new();
    let mut offset: usize = 0;
    proof {
        assert(lengths@ + chunks_of(total as int, chunk as int) =~= chunks_of(
            total as int,
            chunk as int,
        ));
    }
    while offset < total
        invariant
            offset <= total,
            chunk >= 1,
            lengths@ + chunks_of(total - offset, chunk as int) == chunks_of(
                total as int,
                chunk as int,
            ),
            sum_lengths(lengths@) == offset,
            forall|i: int| 0 <= i < lengths@.len() ==> 1 <= #[trigger] lengths@[i] <= chunk,
        decreases total - offset,
    {
        let left: usize = total - offset;
        let n: usize = if chunk < left {
            chunk
        } else {
            left
        };
        proof {
            let rest = chunks_of(left - n, chunk as int);
            assert(chunks_of(left as int, chunk as int) =~= seq![n] + rest);
            assert(lengths@ + (seq![n] + rest) =~= lengths@.push(n) + rest);
            assert(lengths@.push(n).drop_last() =~= lengths@);
        }
        lengths.push(n);
        offset = offset + n;
    }
    assert(lengths@ + Seq::empty() =~= lengths@);
    lengths
}

/// The first `n` numbers that a generator in this state draws, and the state
/// that it goes to.
pub open spec fn drawn_column(state: u64, n: nat) -> (Seq<i64>, u64)
    decreases n,
{
    if n == 0 {
        (Seq::empty(), state)
    } else {
        let (values, last) = drawn_column(state, (n - 1) as nat);
        let (value, next) = crate::random::i64_draw(last);
        (values.push(value), next)
    }
}

/// Draws a column of `n` numbers, and returns the state of the generator after
/// it.
pub fn random_column(state: u64, n: usize) -> (column: (Vec<i64>, u64))
    ensures
        column.0@ == drawn_column(state, n as nat).0,
        column.1 == drawn_column(state, n as nat).1,
        column.0@.len() == n,
{
    let mut values: Vec<i64> = Vec::new();
    let mut current: u64 = state;
    let mut i: usize = 0;
    while i < n
        invariant
            i <= n,
            values@ == drawn_column(state, i as nat).0,
            current == drawn_column(state, i as nat).1,
            values@.len() == i,
        decreases n - i,
    {
        let (value, next): (i64, u64) = draw_i64(current);
        values.push(value);
        current = next;
        i = i + 1;
    }
    (values, current)
}

/// Selectors go over the rows of all runs together, and read those of the runs that
/// are not skipped.
pub proof fn law_selected_rows_are_sums(selectors: Seq<RowSelector>)
    ensures
        total_rows(selectors) == selectors.fold_left(
            0int,
            |sum: int, selector: RowSelector| sum + selector.row_count,
        ),
        read_rows(selectors) == selectors.filter(
            |selector: RowSelector| !selector.skip,
        ).fold_left(0int, |sum: int, selector: RowSelector| sum + selector.row_count),
    decreases selectors.len(),
{
    reveal(Seq::filter);
    if selectors.len() > 0 {
        law_selected_rows_are_sums(selectors.drop_last());
        let read = selectors.drop_last().filter(|selector: RowSelector| !selector.skip);
        if !selectors.last().skip {
            assert(read.push(selectors.last()).drop_last() =~= read);
        }
    }
}

/// The runs of a selection are the runs that were drawn, read and skipped in turn,
/// the last cut to the rows that are left.
pub proof fn law_runs_are_the_draws(
    remaining: usize,
    max_run: usize,
    is_select: bool,
    state: u64,
    bits: u32,
)
    requires
        remaining > 0,
        crate::random::run_draw(state, max_run, bits).0 > 0,
    ensures
        ({
            let runs = selectors_from(remaining, max_run, is_select, state, bits);
            let (drawn, next) = crate::random::run_draw(state, max_run, bits);
            let count = if drawn < remaining {
                drawn
            } else {
                remaining
            };
            &&& runs.len() > 0
            &&& runs[0] == (RowSelector { row_count: count, skip: !is_select })
            &&& runs.drop_first() == selectors_from(
                (remaining - count) as usize,
                max_run,
                !is_select,
                next,
                bits,
            )
        }),
{
    let runs = selectors_from(remaining, max_run, is_select, state, bits);
    let (drawn, next) = crate::random::run_draw(state, max_run, bits);
    let count = if drawn < remaining {
        drawn
    } else {
        remaining
    };
    assert(runs.drop_first() =~= selectors_from(
        (remaining - count) as usize,
        max_run,
        !is_select,
        next,
        bits,
    ));
}

/// Rows fall into chunks of the same length, but for the last, which is no longer;
/// together they are all rows.
pub proof fn law_chunks_hold_all_rows(total: int, chunk: int)
    requires
        0 <= total <= usize::MAX,
        0 < chunk <= usize::MAX,
    ensures
        chunks_of(total, chunk).fold_left(0int, |sum: int, length: usize| sum + length) == total,
        forall|i: int|
            0 <= i < chunks_of(total, chunk).len() - 1 ==> #[trigger] chunks_of(total, chunk)[i]
                == chunk,
        forall|i: int|
            0 <= i < chunks_of(total, chunk).len() ==> 1 <= #[trigger] chunks_of(total, chunk)[i]
                <= chunk,
    decreases total,
{
    let f = |sum: int, length: usize| sum + length;
    let lengths = chunks_of(total, chunk);
    if total > 0 {
        let n = if total <= chunk {
            total
        } else {
            chunk
        };
        law_chunks_hold_all_rows(total - n, chunk);
        let rest = chunks_of(total - n, chunk);
        assert(lengths =~= seq![n as usize] + rest);
        lemma_sum_front(n as usize, rest);
    }
}

proof fn lemma_sum_front(first: usize, rest: Seq<usize>)
    ensures
        (seq![first] + rest).fold_left(0int, |sum: int, length: usize| sum + length) == first
            + rest.fold_left(0int, |sum: int, length: usize| sum + length),
    decreases rest.len(),
{
    let all = seq![first] + rest;
    if rest.len() > 0 {
        lemma_sum_front(first, rest.drop_last());
        assert(all.drop_last() =~= seq![first] + rest.drop_last());
    } else {
        assert(all.drop_last() =~= Seq::<usize>::empty());
        assert(all.last() == first);
        assert(all.drop_last().fold_left(0int, |sum: int, length: usize| sum + length) == 0);
    }
}

/// Drawing a column in two pieces gives what drawing it at once gives, and a column
/// of one number is one draw.
pub proof fn law_columns_are_drawn_in_pieces(state: u64, m: nat, n: nat)
    ensures
        ({
            let (front, mid) = drawn_column(state, m);
            let (back, last) = drawn_column(mid, n);
            &&& drawn_column(state, m + n).0 == front + back
            &&& drawn_column(state, m + n).1 == last
            &&& front.len() == m
        }),
        drawn_column(state, 1).0 == seq![crate::random::i64_draw(state).0],
        drawn_column(state, 1).1 == crate::random::i64_draw(state).1,
    decreases n, m,
{
    let (front, mid) = drawn_column(state, m);
    if n == 0 {
        assert(front + Seq::<i64>::empty() =~= front);
        if m > 0 {
            law_columns_are_drawn_in_pieces(state, (m - 1) as nat, 0);
        }
    } else {
        law_columns_are_drawn_in_pieces(state, m, (n - 1) as nat);
        let (back, last) = drawn_column(mid, (n - 1) as nat);
        let value = crate::random::i64_draw(last).0;
        assert((m + n - 1) as nat == m + (n - 1) as nat);
        assert((front + back).push(value) =~= front + back.push(value));
    }
    reveal_with_fuel(drawn_column, 2);
    assert(drawn_column(state, 1).0 =~= seq![crate::random::i64_draw(state).0]);
}

} // verus!
