//! Where the entries of a table lie.
//!
//! An entry goes to the first chunk of its probe sequence with an empty slot, so
//! the buckets of a table follow from the entries and the order in which they
//! came.

use vstd::arithmetic::power2::*;
use vstd::prelude::*;

use crate::probe::Probe;
use crate::slot_value::SlotValue;

verus! {

/// The step at which the probe sequence of a hash meets an empty slot.
pub open spec fn open_step(probe: Probe, buckets: Seq<Seq<(u64, SlotValue)>>, hash: u64) -> int {
    choose|d: int| crate::buckets::first_open(probe, buckets, hash, d)
}

/// The buckets with one more entry.
pub open spec fn inserted(
    probe: Probe,
    buckets: Seq<Seq<(u64, SlotValue)>>,
    hash: u64,
    value: SlotValue,
) -> Seq<Seq<(u64, SlotValue)>> {
    let p = probe.pos(buckets.len() as int, hash, open_step(probe, buckets, hash));
    buckets.update(p, buckets[p].push((hash, value)))
}

/// Whether the first value of a hash is that of the entry in slot `s` of the
/// chunk at step `d`.
pub open spec fn first_at(
    probe: Probe,
    buckets: Seq<Seq<(u64, SlotValue)>>,
    hash: u64,
    d: int,
    s: int,
) -> bool {
    let bucket = buckets[probe.pos(buckets.len() as int, hash, d)];
    &&& 0 <= d < buckets.len()
    &&& 0 <= s < bucket.len()
    &&& bucket[s].0 == hash
    &&& crate::buckets::rank(probe, buckets, hash, d, s) == 0
}

/// The buckets with another first value of a hash.
pub open spec fn replaced(
    probe: Probe,
    buckets: Seq<Seq<(u64, SlotValue)>>,
    hash: u64,
    value: SlotValue,
) -> Seq<Seq<(u64, SlotValue)>> {
    let (d, s) = choose|d: int, s: int| first_at(probe, buckets, hash, d, s);
    let p = probe.pos(buckets.len() as int, hash, d);
    buckets.update(p, buckets[p].update(s, (hash, value)))
}

/// Buckets without entries.
pub open spec fn bare(chunks: nat) -> Seq<Seq<(u64, SlotValue)>> {
    Seq::new(chunks, |i: int| Seq::empty())
}

/// The buckets of a table of `chunks` chunks to which the entries came one after
/// the other.
pub open spec fn laid_out(probe: Probe, chunks: nat, entries: Seq<(u64, SlotValue)>) -> Seq<
    Seq<(u64, SlotValue)>,
>
    decreases entries.len(),
{
    if entries.len() == 0 {
        bare(chunks)
    } else {
        inserted(
            probe,
            laid_out(probe, chunks, entries.drop_last()),
            entries.last().0,
            entries.last().1,
        )
    }
}

pub proof fn lemma_open_step(
    probe: Probe,
    buckets: Seq<Seq<(u64, SlotValue)>>,
    hash: u64,
    d: int,
)
    requires
        crate::buckets::first_open(probe, buckets, hash, d),
    ensures
        open_step(probe, buckets, hash) == d,
{
    let n = buckets.len() as int;
    let e = open_step(probe, buckets, hash);
    assert(crate::buckets::first_open(probe, buckets, hash, e));
    if e < d {
        assert(buckets[probe.pos(n, hash, e)].len() == 8);
    } else if d < e {
        assert(buckets[probe.pos(n, hash, d)].len() == 8);
    }
}

proof fn lemma_first_open(
    probe: Probe,
    buckets: Seq<Seq<(u64, SlotValue)>>,
    hash: u64,
    steps: int,
) -> (d: int)
    requires
        0 <= steps <= buckets.len(),
        is_pow2(buckets.len() as int),
        forall|i: int| 0 <= i < buckets.len() ==> (#[trigger] buckets[i]).len() <= 8,
        !crate::buckets::full_until(probe, buckets, hash, steps),
    ensures
        crate::buckets::first_open(probe, buckets, hash, d),
    decreases steps,
{
    if steps > 0 && crate::buckets::full_until(probe, buckets, hash, steps - 1) {
        crate::probe::lemma_probe_step(probe, buckets.len() as int, hash, steps - 1);
        assert(buckets[probe.pos(buckets.len() as int, hash, steps - 1)].len() <= 8);
        steps - 1
    } else {
        lemma_first_open(probe, buckets, hash, steps - 1)
    }
}

/// A table with an empty slot takes another entry: its value comes last in the
/// group of its hash, and the other groups stay.
pub proof fn lemma_inserted(
    probe: Probe,
    buckets: Seq<Seq<(u64, SlotValue)>>,
    hash: u64,
    value: SlotValue,
)
    requires
        crate::buckets::well_laid(probe, buckets),
        crate::buckets::entries_of(buckets).len() < 8 * buckets.len(),
    ensures
        ({
            let after = inserted(probe, buckets, hash, value);
            &&& crate::buckets::well_laid(probe, after)
            &&& after.len() == buckets.len()
            &&& crate::buckets::group_of(probe, after, hash) == crate::buckets::group_of(
                probe,
                buckets,
                hash,
            ).push(value)
            &&& forall|other: u64|
                other != hash ==> #[trigger] crate::buckets::group_of(probe, after, other)
                    == crate::buckets::group_of(probe, buckets, other)
            &&& crate::buckets::entries_of(after).len() == crate::buckets::entries_of(buckets).len()
                + 1
        }),
{
    crate::buckets::lemma_open_ahead(probe, buckets, hash);
    let d = lemma_first_open(probe, buckets, hash, buckets.len() as int);
    lemma_open_step(probe, buckets, hash, d);
    crate::buckets::lemma_insert(probe, buckets, hash, d, value);
}

proof fn lemma_gathered_monotone(
    probe: Probe,
    buckets: Seq<Seq<(u64, SlotValue)>>,
    hash: u64,
    m: int,
    n: int,
)
    requires
        0 <= m <= n,
    ensures
        crate::buckets::gathered(probe, buckets, hash, m).len() <= crate::buckets::gathered(
            probe,
            buckets,
            hash,
            n,
        ).len(),
    decreases n,
{
    if m < n {
        lemma_gathered_monotone(probe, buckets, hash, m, n - 1);
    }
}

proof fn lemma_first_step(
    probe: Probe,
    buckets: Seq<Seq<(u64, SlotValue)>>,
    hash: u64,
    steps: int,
) -> (d: int)
    requires
        crate::buckets::gathered(probe, buckets, hash, steps).len() > 0,
    ensures
        0 <= d < steps,
        crate::buckets::gathered(probe, buckets, hash, d).len() == 0,
        crate::buckets::values_of(
            buckets[probe.pos(buckets.len() as int, hash, d)],
            hash,
        ).len() > 0,
    decreases steps,
{
    if crate::buckets::gathered(probe, buckets, hash, steps - 1).len() > 0 {
        lemma_first_step(probe, buckets, hash, steps - 1)
    } else {
        steps - 1
    }
}

proof fn lemma_first_slot(bucket: Seq<(u64, SlotValue)>, hash: u64) -> (s: int)
    requires
        crate::buckets::values_of(bucket, hash).len() > 0,
    ensures
        0 <= s < bucket.len(),
        bucket[s].0 == hash,
        crate::buckets::values_of(bucket.take(s), hash).len() == 0,
    decreases bucket.len(),
{
    let rest = bucket.drop_last();
    if crate::buckets::values_of(rest, hash).len() > 0 {
        let s = lemma_first_slot(rest, hash);
        assert(rest.take(s) =~= bucket.take(s));
        s
    } else {
        assert(bucket.take(bucket.len() - 1) =~= rest);
        bucket.len() - 1
    }
}

/// A hash has one first value.
pub proof fn lemma_first_at(
    probe: Probe,
    buckets: Seq<Seq<(u64, SlotValue)>>,
    hash: u64,
    d: int,
    s: int,
    e: int,
    t: int,
)
    requires
        first_at(probe, buckets, hash, d, s),
        first_at(probe, buckets, hash, e, t),
        d <= e,
    ensures
        d == e,
        s == t,
{
    let n = buckets.len() as int;
    let bucket = buckets[probe.pos(n, hash, d)];
    crate::buckets::lemma_values_of_none(bucket, hash);
    assert(bucket[s].0 == hash);
    if d < e {
        lemma_gathered_monotone(probe, buckets, hash, d + 1, e);
    } else {
        let (low, high) = if s < t {
            (s, t)
        } else {
            (t, s)
        };
        crate::buckets::lemma_values_of_none(bucket.take(high), hash);
        if low < high {
            assert(bucket.take(high)[low].0 == hash);
        }
    }
}

/// The first value of a hash can be replaced: nothing else changes.
pub proof fn lemma_replaced(
    probe: Probe,
    buckets: Seq<Seq<(u64, SlotValue)>>,
    hash: u64,
    value: SlotValue,
)
    requires
        crate::buckets::well_laid(probe, buckets),
        crate::buckets::group_of(probe, buckets, hash).len() > 0,
    ensures
        ({
            let after = replaced(probe, buckets, hash, value);
            &&& crate::buckets::well_laid(probe, after)
            &&& after.len() == buckets.len()
            &&& crate::buckets::group_of(probe, after, hash) == crate::buckets::group_of(
                probe,
                buckets,
                hash,
            ).update(0, value)
            &&& forall|other: u64|
                other != hash ==> #[trigger] crate::buckets::group_of(probe, after, other)
                    == crate::buckets::group_of(probe, buckets, other)
            &&& crate::buckets::entries_of(after).len() == crate::buckets::entries_of(buckets).len()
        }),
{
    let n = buckets.len() as int;
    let d0 = lemma_first_step(probe, buckets, hash, n);
    let s0 = lemma_first_slot(buckets[probe.pos(n, hash, d0)], hash);
    assert(first_at(probe, buckets, hash, d0, s0));
    let (d, s) = choose|d: int, s: int| first_at(probe, buckets, hash, d, s);
    crate::buckets::lemma_replace(probe, buckets, hash, d, s, value);
}

/// Buckets without entries form a table.
pub proof fn lemma_bare(probe: Probe, chunks: nat)
    requires
        is_pow2(chunks as int),
    ensures
        crate::buckets::well_laid(probe, bare(chunks)),
        crate::buckets::entries_of(bare(chunks)).len() == 0,
        forall|hash: u64| #[trigger]
            crate::buckets::group_of(probe, bare(chunks), hash) == Seq::<SlotValue>::empty(),
{
    let buckets = bare(chunks);
    crate::buckets::lemma_entries_none(buckets, buckets.len() as int);
    assert forall|hash: u64, d: int| #![trigger probe.pos(buckets.len() as int, hash, d)]
        0 <= d < buckets.len() implies crate::buckets::values_of(
        buckets[probe.pos(buckets.len() as int, hash, d)],
        hash,
    ).len() == 0 by {
        crate::probe::lemma_probe_step(probe, buckets.len() as int, hash, d);
    }
    assert forall|hash: u64| #[trigger]
        crate::buckets::group_of(probe, buckets, hash) == Seq::<SlotValue>::empty() by {
        crate::buckets::lemma_gathered_none(probe, buckets, hash, buckets.len() as int);
    }
}

/// Entries that are laid out in a table with room for them are all there: none is
/// lost, doubled or altered, and those of one hash are met in the order in which
/// they came, also where several share it.
pub proof fn law_laid_out(probe: Probe, chunks: nat, entries: Seq<(u64, SlotValue)>)
    requires
        is_pow2(chunks as int),
        entries.len() <= 8 * chunks,
    ensures
        crate::buckets::well_laid(probe, laid_out(probe, chunks, entries)),
        laid_out(probe, chunks, entries).len() == chunks,
        crate::buckets::entries_of(laid_out(probe, chunks, entries)).len() == entries.len(),
        crate::buckets::entries_of(laid_out(probe, chunks, entries)).to_multiset()
            == entries.to_multiset(),
        forall|hash: u64| #[trigger]
            crate::buckets::group_of(probe, laid_out(probe, chunks, entries), hash)
                == crate::buckets::values_of(entries, hash),
{
    lemma_laid_out(probe, chunks, entries);
    let buckets = laid_out(probe, chunks, entries);
    let listed = crate::buckets::entries_of(buckets);
    assert forall|entry: (u64, SlotValue)| #[trigger]
        listed.to_multiset().count(entry) == entries.to_multiset().count(entry) by {
        crate::buckets::lemma_values_of_count(listed, entry.0, entry.1);
        crate::buckets::lemma_values_of_count(entries, entry.0, entry.1);
        crate::buckets::lemma_listed_is_group(probe, buckets, entry.0);
    }
    assert(listed.to_multiset() =~= entries.to_multiset());
}

proof fn lemma_laid_out(probe: Probe, chunks: nat, entries: Seq<(u64, SlotValue)>)
    requires
        is_pow2(chunks as int),
        entries.len() <= 8 * chunks,
    ensures
        crate::buckets::well_laid(probe, laid_out(probe, chunks, entries)),
        laid_out(probe, chunks, entries).len() == chunks,
        crate::buckets::entries_of(laid_out(probe, chunks, entries)).len() == entries.len(),
        forall|hash: u64| #[trigger]
            crate::buckets::group_of(probe, laid_out(probe, chunks, entries), hash)
                == crate::buckets::values_of(entries, hash),
    decreases entries.len(),
{
    if entries.len() == 0 {
        lemma_bare(probe, chunks);
    } else {
        let rest = laid_out(probe, chunks, entries.drop_last());
        lemma_laid_out(probe, chunks, entries.drop_last());
        lemma_inserted(probe, rest, entries.last().0, entries.last().1);
    }
}

} // verus!
