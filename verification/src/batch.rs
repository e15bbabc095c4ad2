//! Which rows of a batch of hashes meet their hash again.

use vstd::prelude::*;

use crate::callback::Call;
use crate::slot_value::SlotValue;

verus! {

/// Whether row `i` of a batch meets its hash among those present before the
/// batch or in an earlier row.
#[verifier::opaque]
pub open spec fn is_update(present: Set<u64>, hashes: Seq<u64>, i: int) -> bool {
    present.contains(hashes[i]) || exists|j: int| 0 <= j < i && hashes[j] == hashes[i]
}

/// The rows, out of the first `n` of a batch, that are updates.
pub open spec fn updates(present: Set<u64>, hashes: Seq<u64>, n: int) -> Seq<usize>
    decreases n,
{
    if n <= 0 {
        Seq::empty()
    } else if is_update(present, hashes, n - 1) {
        updates(present, hashes, n - 1).push((n - 1) as usize)
    } else {
        updates(present, hashes, n - 1)
    }
}

/// The runs of callbacks that the first `n` rows of a batch call for: one for each
/// row, in row order.
pub open spec fn calls_for(present: Set<u64>, hashes: Seq<u64>, n: int) -> Seq<Call> {
    Seq::new(
        n as nat,
        |i: int|
            if is_update(present, hashes, i) {
                Call::Met(i as usize)
            } else {
                Call::Filled(i as usize)
            },
    )
}

pub proof fn lemma_calls_for_next(present: Set<u64>, hashes: Seq<u64>, n: int)
    requires
        0 <= n < hashes.len(),
    ensures
        calls_for(present, hashes, n + 1) == calls_for(present, hashes, n).push(
            if is_update(present, hashes, n) {
                Call::Met(n as usize)
            } else {
                Call::Filled(n as usize)
            },
        ),
{
    assert(calls_for(present, hashes, n + 1) =~= calls_for(present, hashes, n).push(
        if is_update(present, hashes, n) {
            Call::Met(n as usize)
        } else {
            Call::Filled(n as usize)
        },
    ));
}

/// A batch fills as many values as it has rows that are no updates.
pub proof fn law_fills_are_the_new_rows(
    before: Seq<Call>,
    present: Set<u64>,
    hashes: Seq<u64>,
    n: int,
)
    requires
        0 <= n <= hashes.len(),
    ensures
        crate::callback::fills(before + calls_for(present, hashes, n)) == crate::callback::fills(
            before,
        ) + n - updates(present, hashes, n).len(),
    decreases n,
{
    reveal(Seq::filter);
    if n == 0 {
        assert(before + calls_for(present, hashes, 0) =~= before);
    } else {
        law_fills_are_the_new_rows(before, present, hashes, n - 1);
        lemma_calls_for_next(present, hashes, n - 1);
        let all = before + calls_for(present, hashes, n);
        assert(all.drop_last() =~= before + calls_for(present, hashes, n - 1));
    }
}

/// A batch makes one run for each row, in row order: a row met a value if its hash
/// was present or that of an earlier row, and was filled if not. What was run
/// before stays on record.
pub proof fn law_one_call_for_each_row(before: Seq<Call>, present: Set<u64>, hashes: Seq<u64>)
    requires
        hashes.len() <= usize::MAX,
    ensures
        ({
            let after = before + calls_for(present, hashes, hashes.len() as int);
            &&& after.len() == before.len() + hashes.len()
            &&& after.take(before.len() as int) == before
            &&& forall|i: usize|
                i < hashes.len() ==> after[before.len() + i] == (if present.contains(
                    #[trigger] hashes[i as int],
                ) || (exists|j: int| 0 <= j < i && #[trigger] hashes[j] == hashes[i as int]) {
                    Call::Met(i)
                } else {
                    Call::Filled(i)
                })
        }),
{
    reveal(is_update);
    let after = before + calls_for(present, hashes, hashes.len() as int);
    assert(after.take(before.len() as int) =~= before);
}

/// A row is an update if its hash is present or among those of the rows before.
pub proof fn lemma_is_update(present: Set<u64>, hashes: Seq<u64>, i: int)
    requires
        0 <= i < hashes.len(),
    ensures
        is_update(present, hashes, i) <==> present.contains(hashes[i]) || hashes.take(i).contains(
            hashes[i],
        ),
{
    reveal(is_update);
    let then = hashes.take(i);
    if then.contains(hashes[i]) {
        let j = choose|j: int| 0 <= j < then.len() && then[j] == hashes[i];
        assert(hashes[j] == hashes[i]);
    }
    if exists|j: int| 0 <= j < i && #[trigger] hashes[j] == hashes[i] {
        let j = choose|j: int| 0 <= j < i && #[trigger] hashes[j] == hashes[i];
        assert(then[j] == hashes[i]);
    }
}

/// The hashes of one row more.
pub proof fn lemma_take_next(hashes: Seq<u64>, n: int)
    requires
        0 < n <= hashes.len(),
    ensures
        forall|hash: u64| #[trigger]
            hashes.take(n).contains(hash) <==> hashes.take(n - 1).contains(hash) || hash == hashes[n
                - 1],
{
    let (earlier, all) = (hashes.take(n - 1), hashes.take(n));
    assert(all =~= earlier.push(hashes[n - 1]));
    assert forall|hash: u64| #[trigger] all.contains(hash) <==> earlier.contains(hash) || hash
        == hashes[n - 1] by {
        if earlier.contains(hash) {
            let i = choose|i: int| 0 <= i < earlier.len() && earlier[i] == hash;
            assert(all[i] == hash);
        }
        assert(all[n - 1] == hashes[n - 1]);
    }
}

/// A row that meets its hash in an earlier row alone meets it in a new row.
pub proof fn lemma_first_row(present: Set<u64>, hashes: Seq<u64>, i: int) -> (j: int)
    requires
        0 <= i < hashes.len(),
        is_update(present, hashes, i),
        !present.contains(hashes[i]),
    ensures
        0 <= j < i,
        hashes[j] == hashes[i],
        !is_update(present, hashes, j),
    decreases i,
{
    reveal(is_update);
    let j = choose|j: int| 0 <= j < i && hashes[j] == hashes[i];
    if is_update(present, hashes, j) {
        lemma_first_row(present, hashes, j)
    } else {
        j
    }
}

/// The entries that the first `n` rows of a batch add: one for each new row, with
/// the value that `first` gives its hash.
pub open spec fn new_entries(
    present: Set<u64>,
    hashes: Seq<u64>,
    first: spec_fn(u64) -> SlotValue,
    n: int,
) -> Seq<(u64, SlotValue)>
    decreases n,
{
    if n <= 0 {
        Seq::empty()
    } else if is_update(present, hashes, n - 1) {
        new_entries(present, hashes, first, n - 1)
    } else {
        new_entries(present, hashes, first, n - 1).push((hashes[n - 1], first(hashes[n - 1])))
    }
}

proof fn lemma_new_entries_count(
    present: Set<u64>,
    hashes: Seq<u64>,
    first: spec_fn(u64) -> SlotValue,
    n: int,
    entry: (u64, SlotValue),
)
    requires
        0 <= n <= hashes.len(),
    ensures
        new_entries(present, hashes, first, n).to_multiset().count(entry) == if !present.contains(
            entry.0,
        ) && hashes.take(n).contains(entry.0) && entry.1 == first(entry.0) {
            1nat
        } else {
            0nat
        },
    decreases n,
{
    broadcast use vstd::seq_lib::group_to_multiset_ensures;

    reveal(is_update);
    let entries = new_entries(present, hashes, first, n);
    if n == 0 {
        assert(entries.to_multiset() =~= vstd::multiset::Multiset::empty());
    } else {
        let (now, then) = (hashes.take(n), hashes.take(n - 1));
        let rest = new_entries(present, hashes, first, n - 1);
        let last = hashes[n - 1];
        lemma_new_entries_count(present, hashes, first, n - 1, entry);
        assert(now =~= then.push(last));
        assert(now[n - 1] == last);
        assert(now.contains(entry.0) <==> then.contains(entry.0) || entry.0 == last) by {
            if then.contains(entry.0) {
                let i = choose|i: int| 0 <= i < then.len() && then[i] == entry.0;
                assert(now[i] == entry.0);
            }
            if now.contains(entry.0) && entry.0 != last {
                let i = choose|i: int| 0 <= i < now.len() && now[i] == entry.0;
                assert(then[i] == entry.0);
            }
        }
        assert(is_update(present, hashes, n - 1) <==> present.contains(last) || then.contains(
            last,
        )) by {
            if then.contains(last) {
                let i = choose|i: int| 0 <= i < then.len() && then[i] == last;
                assert(hashes[i] == hashes[n - 1]);
            }
            if exists|j: int| 0 <= j < n - 1 && #[trigger] hashes[j] == hashes[n - 1] {
                let j = choose|j: int| 0 <= j < n - 1 && #[trigger] hashes[j] == hashes[n - 1];
                assert(then[j] == last);
            }
        }
        if !is_update(present, hashes, n - 1) {
            assert(entries.to_multiset() =~= rest.to_multiset().insert((last, first(last))));
        }
    }
}

/// A table in which a batch left the values of every old hash, and under each
/// new one a single value, holds what it held and the new entries.
pub proof fn lemma_batch_adds(
    present: Set<u64>,
    hashes: Seq<u64>,
    first: spec_fn(u64) -> SlotValue,
    before: Seq<(u64, SlotValue)>,
    after: Seq<(u64, SlotValue)>,
)
    requires
        forall|hash: u64| #[trigger]
            present.contains(hash) <==> crate::buckets::values_of(before, hash).len() > 0,
        forall|hash: u64|
            present.contains(hash) || !hashes.contains(hash)
                ==> #[trigger] crate::buckets::values_of(after, hash).to_multiset()
                == crate::buckets::values_of(before, hash).to_multiset(),
        forall|hash: u64|
            !present.contains(hash) && hashes.contains(hash)
                ==> #[trigger] crate::buckets::values_of(after, hash) == seq![first(hash)],
    ensures
        after.to_multiset() == before.to_multiset().add(
            new_entries(present, hashes, first, hashes.len() as int).to_multiset(),
        ),
{
    broadcast use vstd::seq_lib::group_to_multiset_ensures;

    let fresh = new_entries(present, hashes, first, hashes.len() as int);
    assert(hashes.take(hashes.len() as int) =~= hashes);
    assert forall|entry: (u64, SlotValue)| #[trigger]
        after.to_multiset().count(entry) == before.to_multiset().add(fresh.to_multiset()).count(
            entry,
        ) by {
        let (hash, value) = entry;
        crate::buckets::lemma_values_of_count(before, hash, value);
        crate::buckets::lemma_values_of_count(after, hash, value);
        lemma_new_entries_count(present, hashes, first, hashes.len() as int, entry);
        if !present.contains(hash) {
            assert(crate::buckets::values_of(before, hash).len() == 0);
            assert(crate::buckets::values_of(before, hash).to_multiset()
                =~= vstd::multiset::Multiset::empty());
            if hashes.contains(hash) {
                let none = Seq::<SlotValue>::empty();
                assert(seq![first(hash)] =~= none.push(first(hash)));
                assert(none.to_multiset() =~= vstd::multiset::Multiset::empty());
                assert(seq![first(hash)].to_multiset()
                    =~= none.to_multiset().insert(first(hash)));
            }
        }
    }
    assert(after.to_multiset() =~= before.to_multiset().add(fresh.to_multiset()));
}

/// Where all hashes of a batch are present, every row is an update.
pub proof fn law_known_rows_are_updates(present: Set<u64>, hashes: Seq<u64>, n: int)
    requires
        0 <= n <= hashes.len(),
        hashes.len() <= usize::MAX,
        forall|i: int| 0 <= i < n ==> present.contains(#[trigger] hashes[i]),
    ensures
        updates(present, hashes, n) == Seq::new(n as nat, |i: int| i as usize),
    decreases n,
{
    reveal(is_update);
    if n > 0 {
        law_known_rows_are_updates(present, hashes, n - 1);
        assert(present.contains(hashes[n - 1]));
        assert(updates(present, hashes, n) =~= Seq::new(n as nat, |i: int| i as usize));
    } else {
        assert(updates(present, hashes, n) =~= Seq::new(n as nat, |i: int| i as usize));
    }
}

/// Where no hash of a batch is present and none occurs twice, no row is an
/// update.
pub proof fn law_fresh_rows_are_new(present: Set<u64>, hashes: Seq<u64>, n: int)
    requires
        0 <= n <= hashes.len(),
        forall|i: int| 0 <= i < n ==> !present.contains(#[trigger] hashes[i]),
        forall|i: int, j: int| 0 <= i < j < n ==> hashes[i] != hashes[j],
    ensures
        updates(present, hashes, n) == Seq::<usize>::empty(),
    decreases n,
{
    reveal(is_update);
    if n > 0 {
        law_fresh_rows_are_new(present, hashes, n - 1);
    }
}

/// As many rows of a batch are new as it holds different hashes that were not
/// present.
pub proof fn law_new_rows_are_distinct_hashes(present: Set<u64>, hashes: Seq<u64>, n: int)
    requires
        0 <= n <= hashes.len(),
    ensures
        hashes.take(n).to_set().difference(present).finite(),
        hashes.take(n).to_set().difference(present).len() + updates(present, hashes, n).len() == n,
    decreases n,
{
    reveal(is_update);
    let all = hashes.take(n).to_set().difference(present);
    if n == 0 {
        assert(all =~= Set::<u64>::empty());
    } else {
        law_new_rows_are_distinct_hashes(present, hashes, n - 1);
        let (now, then) = (hashes.take(n), hashes.take(n - 1));
        let fewer = then.to_set().difference(present);
        let last = hashes[n - 1];
        assert forall|hash: u64| #[trigger] now.contains(hash) <==> then.contains(hash) || hash
            == last by {
            if now.contains(hash) {
                let i = choose|i: int| 0 <= i < now.len() && now[i] == hash;
                if i < n - 1 {
                    assert(then[i] == hash);
                }
            }
            if then.contains(hash) {
                let i = choose|i: int| 0 <= i < then.len() && then[i] == hash;
                assert(now[i] == hash);
            }
            assert(now[n - 1] == last);
        }
        assert(fewer.contains(last) || present.contains(last) <==> is_update(
            present,
            hashes,
            n - 1,
        )) by {
            if then.contains(last) {
                let i = choose|i: int| 0 <= i < then.len() && then[i] == last;
                assert(hashes[i] == hashes[n - 1]);
            }
            if exists|j: int| 0 <= j < n - 1 && #[trigger] hashes[j] == hashes[n - 1] {
                let j = choose|j: int| 0 <= j < n - 1 && #[trigger] hashes[j] == hashes[n - 1];
                assert(then[j] == last);
            }
        }
        if is_update(present, hashes, n - 1) {
            assert(all =~= fewer);
        } else {
            assert(all =~= fewer.insert(last));
        }
    }
}

/// The updates of a batch are, in ascending order, the rows whose hash was present
/// before the batch or is that of an earlier row, and no others.
pub proof fn law_updates_are_the_known_rows(present: Set<u64>, hashes: Seq<u64>, n: int)
    requires
        0 <= n <= hashes.len(),
        hashes.len() <= usize::MAX,
    ensures
        forall|a: int, b: int|
            0 <= a < b < updates(present, hashes, n).len() ==> updates(present, hashes, n)[a]
                < updates(present, hashes, n)[b],
        forall|a: int|
            0 <= a < updates(present, hashes, n).len() ==> #[trigger] updates(present, hashes, n)[a]
                < n,
        forall|i: usize|
            i < n ==> (#[trigger] updates(present, hashes, n).contains(i) <==> present.contains(
                hashes[i as int],
            ) || exists|j: int| 0 <= j < i && #[trigger] hashes[j] == hashes[i as int]),
    decreases n,
{
    reveal(is_update);
    if n > 0 {
        law_updates_are_the_known_rows(present, hashes, n - 1);
        let fewer = updates(present, hashes, n - 1);
        let all = updates(present, hashes, n);
        assert forall|i: usize| i < n implies (#[trigger] all.contains(i) <==> present.contains(
            hashes[i as int],
        ) || exists|j: int| 0 <= j < i && #[trigger] hashes[j] == hashes[i as int]) by {
            if i < n - 1 {
                assert(fewer.contains(i) <==> all.contains(i)) by {
                    if fewer.contains(i) {
                        let a = choose|a: int| 0 <= a < fewer.len() && fewer[a] == i;
                        assert(all[a] == i);
                    }
                    if all.contains(i) {
                        let a = choose|a: int| 0 <= a < all.len() && all[a] == i;
                        assert(fewer[a] == i);
                    }
                }
            } else {
                assert(is_update(present, hashes, n - 1) <==> present.contains(hashes[i as int])
                    || exists|j: int| 0 <= j < i && #[trigger] hashes[j] == hashes[i as int]);
                if is_update(present, hashes, n - 1) {
                    assert(all[fewer.len() as int] == i);
                } else if all.contains(i) {
                    let a = choose|a: int| 0 <= a < all.len() && all[a] == i;
                    assert(fewer[a] < n - 1);
                }
            }
        }
    }
}

/// A batch adds an entry for a hash exactly if the hash was not present and some row
/// has it: one entry, with the value of the hash.
pub proof fn law_new_entries(
    present: Set<u64>,
    hashes: Seq<u64>,
    first: spec_fn(u64) -> SlotValue,
    entry: (u64, SlotValue),
)
    ensures
        new_entries(present, hashes, first, hashes.len() as int).to_multiset().count(entry) == (if (
        exists|i: int| 0 <= i < hashes.len() && #[trigger] hashes[i] == entry.0)
            && !present.contains(entry.0) && entry.1 == first(entry.0) {
            1nat
        } else {
            0nat
        }),
{
    let n = hashes.len() as int;
    assert(hashes.take(n) =~= hashes);
    lemma_new_entries_count(present, hashes, first, n, entry);
}

} // verus!
