//! The mathematical model of a chunked table.
//!
//! A table is a sequence of buckets, one for each chunk. A bucket lists the
//! entries of its chunk in slot order; an entry is a hash with its value.

use vstd::arithmetic::power2::*;
use vstd::prelude::*;

use crate::probe::Probe;
use crate::slot_value::SlotValue;

verus! {

/// The values of a bucket's entries with this hash, in slot order.
pub open spec fn values_of(bucket: Seq<(u64, SlotValue)>, hash: u64) -> Seq<SlotValue>
    decreases bucket.len(),
{
    if bucket.len() == 0 {
        Seq::empty()
    } else {
        let rest = values_of(bucket.drop_last(), hash);
        if bucket.last().0 == hash {
            rest.push(bucket.last().1)
        } else {
            rest
        }
    }
}

/// The values with this hash that the first `steps` chunks of its probe
/// sequence hold, in probe order.
pub open spec fn gathered(
    probe: Probe,
    buckets: Seq<Seq<(u64, SlotValue)>>,
    hash: u64,
    steps: int,
) -> Seq<SlotValue>
    decreases steps,
{
    if steps <= 0 {
        Seq::empty()
    } else {
        gathered(probe, buckets, hash, steps - 1) + values_of(
            buckets[probe.pos(buckets.len() as int, hash, steps - 1)],
            hash,
        )
    }
}

/// All values with this hash, in probe order.
pub open spec fn group_of(probe: Probe, buckets: Seq<Seq<(u64, SlotValue)>>, hash: u64) -> Seq<
    SlotValue,
> {
    gathered(probe, buckets, hash, buckets.len() as int)
}

/// The entries of the first `n` buckets, in table order.
pub open spec fn entries_below(buckets: Seq<Seq<(u64, SlotValue)>>, n: int) -> Seq<(u64, SlotValue)>
    decreases n,
{
    if n <= 0 {
        Seq::empty()
    } else {
        entries_below(buckets, n - 1) + buckets[n - 1]
    }
}

/// All entries, in table order.
pub open spec fn entries_of(buckets: Seq<Seq<(u64, SlotValue)>>) -> Seq<(u64, SlotValue)> {
    entries_below(buckets, buckets.len() as int)
}

/// Whether the first `steps` chunks of a probe sequence are full.
pub open spec fn full_until(
    probe: Probe,
    buckets: Seq<Seq<(u64, SlotValue)>>,
    hash: u64,
    steps: int,
) -> bool {
    forall|d: int|
        0 <= d < steps ==> (#[trigger] buckets[probe.pos(buckets.len() as int, hash, d)]).len() == 8
}

/// Whether a search for any hash may stop at the first chunk that is not full:
/// no value of the hash lies further along its probe sequence.
pub open spec fn searchable(probe: Probe, buckets: Seq<Seq<(u64, SlotValue)>>) -> bool {
    forall|hash: u64, d1: int, d2: int|
        #![trigger probe.pos(buckets.len() as int, hash, d1), probe.pos(buckets.len() as int, hash, d2)]
        0 <= d1 < d2 < buckets.len() && buckets[probe.pos(buckets.len() as int, hash, d1)].len()
            < 8 ==> values_of(buckets[probe.pos(buckets.len() as int, hash, d2)], hash).len() == 0
}

/// The invariant of a table: a power of two of chunks of eight slots each, over
/// which every search finds what there is to find.
pub open spec fn well_laid(probe: Probe, buckets: Seq<Seq<(u64, SlotValue)>>) -> bool {
    &&& is_pow2(buckets.len() as int)
    &&& forall|i: int| 0 <= i < buckets.len() ==> (#[trigger] buckets[i]).len() <= 8
    &&& searchable(probe, buckets)
}

/// Whether the chunk at step `d` is the first of its probe sequence with an
/// empty slot.
pub open spec fn first_open(
    probe: Probe,
    buckets: Seq<Seq<(u64, SlotValue)>>,
    hash: u64,
    d: int,
) -> bool {
    &&& 0 <= d < buckets.len()
    &&& full_until(probe, buckets, hash, d)
    &&& buckets[probe.pos(buckets.len() as int, hash, d)].len() < 8
}

pub proof fn lemma_values_of_push(bucket: Seq<(u64, SlotValue)>, entry: (u64, SlotValue), hash: u64)
    ensures
        values_of(bucket.push(entry), hash) == if entry.0 == hash {
            values_of(bucket, hash).push(entry.1)
        } else {
            values_of(bucket, hash)
        },
{
    assert(bucket.push(entry).drop_last() =~= bucket);
}

pub proof fn lemma_values_of_add(a: Seq<(u64, SlotValue)>, b: Seq<(u64, SlotValue)>, hash: u64)
    ensures
        values_of(a + b, hash) == values_of(a, hash) + values_of(b, hash),
    decreases b.len(),
{
    if b.len() == 0 {
        assert(a + b =~= a);
    } else {
        lemma_values_of_add(a, b.drop_last(), hash);
        assert((a + b).drop_last() =~= a + b.drop_last());
        assert((a + b).last() == b.last());
        if b.last().0 == hash {
            assert(values_of(a, hash) + values_of(b.drop_last(), hash).push(b.last().1) =~= (
            values_of(a, hash) + values_of(b.drop_last(), hash)).push(b.last().1));
        }
    }
}

/// The entry in slot `s` gives the value that follows those of the slots
/// before it.
pub proof fn lemma_values_of_split(bucket: Seq<(u64, SlotValue)>, hash: u64, s: int)
    requires
        0 <= s < bucket.len(),
        bucket[s].0 == hash,
    ensures
        values_of(bucket, hash) == values_of(bucket.take(s), hash) + seq![bucket[s].1] + values_of(
            bucket.skip(s + 1),
            hash,
        ),
{
    let before = bucket.take(s);
    let after = bucket.skip(s + 1);
    assert(bucket =~= before.push(bucket[s]) + after);
    lemma_values_of_add(before.push(bucket[s]), after, hash);
    lemma_values_of_push(before, bucket[s], hash);
    assert(values_of(before, hash).push(bucket[s].1) =~= values_of(before, hash)
        + seq![bucket[s].1]);
}

/// An entry occurs as often as its value occurs among the values of its hash.
pub proof fn lemma_values_of_count(bucket: Seq<(u64, SlotValue)>, hash: u64, value: SlotValue)
    ensures
        values_of(bucket, hash).to_multiset().count(value) == bucket.to_multiset().count(
            (hash, value),
        ),
    decreases bucket.len(),
{
    broadcast use vstd::seq_lib::group_to_multiset_ensures;

    if bucket.len() > 0 {
        let rest = bucket.drop_last();
        lemma_values_of_count(rest, hash, value);
        assert(bucket =~= rest.push(bucket.last()));
        assert(bucket.to_multiset() =~= rest.to_multiset().insert(bucket.last()));
        if bucket.last().0 == hash {
            let values = values_of(rest, hash);
            assert(values.push(bucket.last().1).to_multiset() =~= values.to_multiset().insert(
                bucket.last().1,
            ));
        }
    } else {
        assert(values_of(bucket, hash).to_multiset() =~= vstd::multiset::Multiset::empty());
        assert(bucket.to_multiset() =~= vstd::multiset::Multiset::empty());
    }
}

pub proof fn lemma_values_of_none(bucket: Seq<(u64, SlotValue)>, hash: u64)
    ensures
        values_of(bucket, hash).len() == 0 <==> forall|s: int|
            0 <= s < bucket.len() ==> (#[trigger] bucket[s]).0 != hash,
    decreases bucket.len(),
{
    if bucket.len() > 0 {
        lemma_values_of_none(bucket.drop_last(), hash);
        if forall|s: int| 0 <= s < bucket.len() ==> (#[trigger] bucket[s]).0 != hash {
            assert forall|s: int| 0 <= s < bucket.drop_last().len() implies (
            #[trigger] bucket.drop_last()[s]).0 != hash by {
                assert(bucket[s].0 != hash);
            }
        } else {
            let s = choose|s: int| 0 <= s < bucket.len() && (#[trigger] bucket[s]).0 == hash;
            if s < bucket.len() - 1 {
                assert(bucket.drop_last()[s].0 == hash);
            }
        }
    }
}

/// A hash has as many values as entries.
pub proof fn lemma_values_of_len(bucket: Seq<(u64, SlotValue)>, hash: u64)
    ensures
        values_of(bucket, hash).len() == bucket.filter(
            |entry: (u64, SlotValue)| entry.0 == hash,
        ).len(),
    decreases bucket.len(),
{
    reveal(Seq::filter);
    if bucket.len() > 0 {
        lemma_values_of_len(bucket.drop_last(), hash);
    }
}

/// Every value of a hash is that of an entry of the bucket.
pub proof fn lemma_values_of_member(bucket: Seq<(u64, SlotValue)>, hash: u64, k: int) -> (s: int)
    requires
        0 <= k < values_of(bucket, hash).len(),
    ensures
        0 <= s < bucket.len(),
        bucket[s] == (hash, values_of(bucket, hash)[k]),
    decreases bucket.len(),
{
    let rest = values_of(bucket.drop_last(), hash);
    if bucket.last().0 == hash && k == rest.len() {
        bucket.len() - 1
    } else {
        let s = lemma_values_of_member(bucket.drop_last(), hash, k);
        assert(bucket.drop_last()[s] == bucket[s]);
        s
    }
}

proof fn lemma_gathered_same(
    probe: Probe,
    a: Seq<Seq<(u64, SlotValue)>>,
    b: Seq<Seq<(u64, SlotValue)>>,
    hash: u64,
    steps: int,
)
    requires
        a.len() == b.len(),
        forall|d: int|
            #![trigger probe.pos(a.len() as int, hash, d)]
            0 <= d < steps ==> values_of(a[probe.pos(a.len() as int, hash, d)], hash) == values_of(
                b[probe.pos(a.len() as int, hash, d)],
                hash,
            ),
    ensures
        gathered(probe, a, hash, steps) == gathered(probe, b, hash, steps),
    decreases steps,
{
    if steps > 0 {
        lemma_gathered_same(probe, a, b, hash, steps - 1);
        assert(values_of(a[probe.pos(a.len() as int, hash, steps - 1)], hash) == values_of(
            b[probe.pos(a.len() as int, hash, steps - 1)],
            hash,
        ));
    }
}

/// What the steps from `from` on add to what was gathered before them.
pub open spec fn gathered_between(
    probe: Probe,
    buckets: Seq<Seq<(u64, SlotValue)>>,
    hash: u64,
    from: int,
    steps: int,
) -> Seq<SlotValue>
    decreases steps - from,
{
    if steps <= from {
        Seq::empty()
    } else {
        gathered_between(probe, buckets, hash, from, steps - 1) + values_of(
            buckets[probe.pos(buckets.len() as int, hash, steps - 1)],
            hash,
        )
    }
}

proof fn lemma_gathered_split(
    probe: Probe,
    buckets: Seq<Seq<(u64, SlotValue)>>,
    hash: u64,
    from: int,
    steps: int,
)
    requires
        0 <= from <= steps,
    ensures
        gathered(probe, buckets, hash, steps) == gathered(probe, buckets, hash, from)
            + gathered_between(probe, buckets, hash, from, steps),
    decreases steps - from,
{
    let front = gathered(probe, buckets, hash, from);
    if steps == from {
        assert(front + Seq::empty() =~= front);
    } else {
        lemma_gathered_split(probe, buckets, hash, from, steps - 1);
        let mid = gathered_between(probe, buckets, hash, from, steps - 1);
        let last = values_of(buckets[probe.pos(buckets.len() as int, hash, steps - 1)], hash);
        assert(front + (mid + last) =~= (front + mid) + last);
    }
}

proof fn lemma_gathered_between_same(
    probe: Probe,
    a: Seq<Seq<(u64, SlotValue)>>,
    b: Seq<Seq<(u64, SlotValue)>>,
    hash: u64,
    from: int,
    steps: int,
)
    requires
        a.len() == b.len(),
        0 <= from,
        forall|d: int|
            #![trigger probe.pos(a.len() as int, hash, d)]
            from <= d < steps ==> values_of(a[probe.pos(a.len() as int, hash, d)], hash)
                == values_of(b[probe.pos(a.len() as int, hash, d)], hash),
    ensures
        gathered_between(probe, a, hash, from, steps) == gathered_between(
            probe,
            b,
            hash,
            from,
            steps,
        ),
    decreases steps - from,
{
    if steps > from {
        lemma_gathered_between_same(probe, a, b, hash, from, steps - 1);
        assert(values_of(a[probe.pos(a.len() as int, hash, steps - 1)], hash) == values_of(
            b[probe.pos(a.len() as int, hash, steps - 1)],
            hash,
        ));
    }
}

/// Nothing is gathered where no bucket of the sequence holds the hash.
proof fn lemma_gathered_between_none(
    probe: Probe,
    buckets: Seq<Seq<(u64, SlotValue)>>,
    hash: u64,
    from: int,
    steps: int,
)
    requires
        0 <= from,
        forall|d: int|
            #![trigger probe.pos(buckets.len() as int, hash, d)]
            from <= d < steps ==> values_of(
                buckets[probe.pos(buckets.len() as int, hash, d)],
                hash,
            ).len() == 0,
    ensures
        gathered_between(probe, buckets, hash, from, steps).len() == 0,
    decreases steps - from,
{
    if steps > from {
        lemma_gathered_between_none(probe, buckets, hash, from, steps - 1);
        assert(values_of(buckets[probe.pos(buckets.len() as int, hash, steps - 1)], hash).len()
            == 0);
    }
}

/// A search that reaches a chunk with an empty slot has seen the whole group.
pub proof fn law_search_may_stop(
    probe: Probe,
    buckets: Seq<Seq<(u64, SlotValue)>>,
    hash: u64,
    d: int,
)
    requires
        searchable(probe, buckets),
        first_open(probe, buckets, hash, d),
    ensures
        group_of(probe, buckets, hash) == gathered(probe, buckets, hash, d + 1),
{
    let n = buckets.len() as int;
    assert forall|d2: int| #![trigger probe.pos(n, hash, d2)] d + 1 <= d2 < n implies values_of(
        buckets[probe.pos(n, hash, d2)],
        hash,
    ).len() == 0 by {
        assert(buckets[probe.pos(n, hash, d)].len() < 8);
    }
    lemma_gathered_between_none(probe, buckets, hash, d + 1, n);
    lemma_gathered_split(probe, buckets, hash, d + 1, n);
    assert(group_of(probe, buckets, hash) =~= gathered(probe, buckets, hash, d + 1));
}

/// Where in its group the entry in slot `s` of the chunk at step `d` stands.
pub open spec fn rank(
    probe: Probe,
    buckets: Seq<Seq<(u64, SlotValue)>>,
    hash: u64,
    d: int,
    s: int,
) -> int {
    (gathered(probe, buckets, hash, d).len() + values_of(
        buckets[probe.pos(buckets.len() as int, hash, d)].take(s),
        hash,
    ).len()) as int
}

/// The group around the entry in slot `s` of the chunk at step `d`.
pub proof fn lemma_group_at(
    probe: Probe,
    buckets: Seq<Seq<(u64, SlotValue)>>,
    hash: u64,
    d: int,
    s: int,
)
    requires
        0 <= d < buckets.len(),
        0 <= s < buckets[probe.pos(buckets.len() as int, hash, d)].len(),
        buckets[probe.pos(buckets.len() as int, hash, d)][s].0 == hash,
    ensures
        ({
            let group = group_of(probe, buckets, hash);
            let bucket = buckets[probe.pos(buckets.len() as int, hash, d)];
            let k = rank(probe, buckets, hash, d, s);
            &&& 0 <= k < group.len()
            &&& group[k] == bucket[s].1
            &&& group.take(k) == gathered(probe, buckets, hash, d) + values_of(
                bucket.take(s),
                hash,
            )
            &&& group.skip(k + 1) == values_of(bucket.skip(s + 1), hash) + gathered_between(
                probe,
                buckets,
                hash,
                d + 1,
                buckets.len() as int,
            )
        }),
{
    let n = buckets.len() as int;
    let bucket = buckets[probe.pos(n, hash, d)];
    let k = rank(probe, buckets, hash, d, s);
    let group = group_of(probe, buckets, hash);
    lemma_gathered_split(probe, buckets, hash, d + 1, n);
    lemma_values_of_split(bucket, hash, s);
    let front = gathered(probe, buckets, hash, d) + values_of(bucket.take(s), hash);
    let back = values_of(bucket.skip(s + 1), hash) + gathered_between(
        probe,
        buckets,
        hash,
        d + 1,
        n,
    );
    assert(group =~= front + seq![bucket[s].1] + back);
    assert(group.take(k) =~= front);
    assert(group.skip(k + 1) =~= back);
}

/// Adding an entry at the first chunk with an empty slot keeps the table
/// searchable and puts the value at the end of its group.
pub proof fn lemma_insert(
    probe: Probe,
    buckets: Seq<Seq<(u64, SlotValue)>>,
    hash: u64,
    d: int,
    value: SlotValue,
)
    requires
        well_laid(probe, buckets),
        first_open(probe, buckets, hash, d),
    ensures
        ({
            let p = probe.pos(buckets.len() as int, hash, d);
            let after = buckets.update(p, buckets[p].push((hash, value)));
            &&& 0 <= p < buckets.len()
            &&& well_laid(probe, after)
            &&& group_of(probe, after, hash) == group_of(probe, buckets, hash).push(value)
            &&& forall|other: u64|
                other != hash ==> #[trigger] group_of(probe, after, other) == group_of(
                    probe,
                    buckets,
                    other,
                )
            &&& entries_of(after).len() == entries_of(buckets).len() + 1
        }),
{
    let n = buckets.len() as int;
    let p = probe.pos(n, hash, d);
    let bucket = buckets[p];
    let grown = bucket.push((hash, value));
    let after = buckets.update(p, grown);
    crate::probe::lemma_probe_step(probe, n, hash, d);
    assert forall|other: u64| other != hash implies values_of(grown, other) == values_of(
        bucket,
        other,
    ) by {
        lemma_values_of_push(bucket, (hash, value), other);
    }
    lemma_values_of_push(bucket, (hash, value), hash);
    assert forall|i: int| 0 <= i < n implies (#[trigger] after[i]).len() <= 8 by {
        assert(buckets[i].len() <= 8);
    }
    assert forall|d2: int| #![trigger probe.pos(n, hash, d2)]
        0 <= d2 < n && d2 != d implies after[probe.pos(n, hash, d2)] == buckets[probe.pos(
        n,
        hash,
        d2,
    )] && 0 <= probe.pos(n, hash, d2) < n by {
        crate::probe::law_probe_is_injective(probe, n, hash, d, d2);
        crate::probe::lemma_probe_step(probe, n, hash, d2);
    }
    assert(searchable(probe, after)) by {
        assert forall|h: u64, d1: int, d2: int|
            #![trigger probe.pos(n, h, d1), probe.pos(n, h, d2)]
            0 <= d1 < d2 < n && after[probe.pos(n, h, d1)].len() < 8 implies values_of(
            after[probe.pos(n, h, d2)],
            h,
        ).len() == 0 by {
            crate::probe::lemma_probe_step(probe, n, h, d1);
            crate::probe::lemma_probe_step(probe, n, h, d2);
            assert(buckets[probe.pos(n, h, d1)].len() < 8);
            if h == hash && d2 == d {
                assert(after[probe.pos(n, hash, d1)] == buckets[probe.pos(n, hash, d1)]);
                assert(buckets[probe.pos(n, hash, d1)].len() == 8);
            }
        }
    }
    // The group of the hash.
    law_search_may_stop(probe, buckets, hash, d);
    assert forall|d2: int| #![trigger probe.pos(n, hash, d2)] 0 <= d2 < d implies values_of(
        buckets[probe.pos(n, hash, d2)],
        hash,
    ) == values_of(after[probe.pos(n, hash, d2)], hash) by {}
    lemma_gathered_same(probe, buckets, after, hash, d);
    lemma_gathered_split(probe, after, hash, d + 1, n);
    assert forall|d2: int| #![trigger probe.pos(n, hash, d2)] d + 1 <= d2 < n implies values_of(
        after[probe.pos(n, hash, d2)],
        hash,
    ).len() == 0 by {
        assert(buckets[probe.pos(n, hash, d)].len() < 8);
    }
    lemma_gathered_between_none(probe, after, hash, d + 1, n);
    assert(group_of(probe, after, hash) =~= group_of(probe, buckets, hash).push(value));
    // The other groups.
    assert forall|other: u64| other != hash implies #[trigger] group_of(probe, after, other)
        == group_of(probe, buckets, other) by {
        assert forall|d2: int| #![trigger probe.pos(n, other, d2)] 0 <= d2 < n implies values_of(
            buckets[probe.pos(n, other, d2)],
            other,
        ) == values_of(after[probe.pos(n, other, d2)], other) by {
            crate::probe::lemma_probe_step(probe, n, other, d2);
        }
        lemma_gathered_same(probe, buckets, after, other, n);
    }
    lemma_entries_len_update(buckets, p, grown, n);
}

proof fn lemma_entries_len_update(
    buckets: Seq<Seq<(u64, SlotValue)>>,
    p: int,
    bucket: Seq<(u64, SlotValue)>,
    n: int,
)
    requires
        0 <= p < buckets.len(),
        0 <= n <= buckets.len(),
    ensures
        entries_below(buckets.update(p, bucket), n).len() == entries_below(buckets, n).len() + (if p
            < n {
            bucket.len() - buckets[p].len()
        } else {
            0
        }),
    decreases n,
{
    if n > 0 {
        lemma_entries_len_update(buckets, p, bucket, n - 1);
    }
}

/// Replacing the value of an entry replaces it in its group and nowhere else.
pub proof fn lemma_replace(
    probe: Probe,
    buckets: Seq<Seq<(u64, SlotValue)>>,
    hash: u64,
    d: int,
    s: int,
    value: SlotValue,
)
    requires
        well_laid(probe, buckets),
        0 <= d < buckets.len(),
        0 <= s < buckets[probe.pos(buckets.len() as int, hash, d)].len(),
        buckets[probe.pos(buckets.len() as int, hash, d)][s].0 == hash,
    ensures
        ({
            let p = probe.pos(buckets.len() as int, hash, d);
            let after = buckets.update(p, buckets[p].update(s, (hash, value)));
            let k = rank(probe, buckets, hash, d, s);
            &&& 0 <= p < buckets.len()
            &&& well_laid(probe, after)
            &&& 0 <= k < group_of(probe, buckets, hash).len()
            &&& group_of(probe, after, hash) == group_of(probe, buckets, hash).update(k, value)
            &&& forall|other: u64|
                other != hash ==> #[trigger] group_of(probe, after, other) == group_of(
                    probe,
                    buckets,
                    other,
                )
            &&& entries_of(after).len() == entries_of(buckets).len()
        }),
{
    let n = buckets.len() as int;
    let p = probe.pos(n, hash, d);
    let bucket = buckets[p];
    let changed = bucket.update(s, (hash, value));
    let after = buckets.update(p, changed);
    let k = rank(probe, buckets, hash, d, s);
    crate::probe::lemma_probe_step(probe, n, hash, d);
    assert forall|other: u64| other != hash implies values_of(changed, other) == values_of(
        bucket,
        other,
    ) by {
        lemma_values_of_update_other(bucket, s, (hash, value), other);
    }
    assert forall|i: int| 0 <= i < n implies (#[trigger] after[i]).len() == buckets[i].len() by {}
    assert forall|d2: int| #![trigger probe.pos(n, hash, d2)]
        0 <= d2 < n && d2 != d implies after[probe.pos(n, hash, d2)] == buckets[probe.pos(
        n,
        hash,
        d2,
    )] by {
        crate::probe::law_probe_is_injective(probe, n, hash, d, d2);
        crate::probe::lemma_probe_step(probe, n, hash, d2);
    }
    assert(searchable(probe, after)) by {
        assert forall|h: u64, d1: int, d2: int|
            #![trigger probe.pos(n, h, d1), probe.pos(n, h, d2)]
            0 <= d1 < d2 < n && after[probe.pos(n, h, d1)].len() < 8 implies values_of(
            after[probe.pos(n, h, d2)],
            h,
        ).len() == 0 by {
            crate::probe::lemma_probe_step(probe, n, h, d1);
            crate::probe::lemma_probe_step(probe, n, h, d2);
            assert(buckets[probe.pos(n, h, d1)].len() < 8);
            assert(values_of(buckets[probe.pos(n, h, d2)], h).len() == 0);
            if h == hash && d2 == d {
                lemma_values_of_none(bucket, hash);
            }
        }
    }
    assert(changed.take(s) =~= bucket.take(s));
    assert(changed.skip(s + 1) =~= bucket.skip(s + 1));
    lemma_gathered_same(probe, buckets, after, hash, d);
    lemma_gathered_between_same(probe, buckets, after, hash, d + 1, n);
    lemma_group_at(probe, buckets, hash, d, s);
    lemma_group_at(probe, after, hash, d, s);
    let before = group_of(probe, buckets, hash);
    let now = group_of(probe, after, hash);
    assert(before =~= before.take(k) + seq![before[k]] + before.skip(k + 1));
    assert(now =~= now.take(k) + seq![now[k]] + now.skip(k + 1));
    assert(now =~= before.update(k, value));
    assert forall|other: u64| other != hash implies #[trigger] group_of(probe, after, other)
        == group_of(probe, buckets, other) by {
        assert forall|d2: int| #![trigger probe.pos(n, other, d2)] 0 <= d2 < n implies values_of(
            buckets[probe.pos(n, other, d2)],
            other,
        ) == values_of(after[probe.pos(n, other, d2)], other) by {
            crate::probe::lemma_probe_step(probe, n, other, d2);
        }
        lemma_gathered_same(probe, buckets, after, other, n);
    }
    lemma_entries_len_update(buckets, p, changed, n);
}

proof fn lemma_values_of_update_other(
    bucket: Seq<(u64, SlotValue)>,
    s: int,
    entry: (u64, SlotValue),
    other: u64,
)
    requires
        0 <= s < bucket.len(),
        bucket[s].0 != other,
        entry.0 != other,
    ensures
        values_of(bucket.update(s, entry), other) == values_of(bucket, other),
    decreases bucket.len(),
{
    let changed = bucket.update(s, entry);
    if s == bucket.len() - 1 {
        assert(changed.drop_last() =~= bucket.drop_last());
    } else {
        assert(changed.drop_last() =~= bucket.drop_last().update(s, entry));
        lemma_values_of_update_other(bucket.drop_last(), s, entry, other);
    }
}

/// A table with fewer entries than slots has an empty slot on every probe
/// sequence.
pub proof fn lemma_open_ahead(probe: Probe, buckets: Seq<Seq<(u64, SlotValue)>>, hash: u64)
    requires
        well_laid(probe, buckets),
        entries_of(buckets).len() < 8 * buckets.len(),
    ensures
        !full_until(probe, buckets, hash, buckets.len() as int),
{
    let n = buckets.len() as int;
    if full_until(probe, buckets, hash, n) {
        assert forall|i: int| 0 <= i < n implies (#[trigger] buckets[i]).len() == 8 by {
            crate::probe::law_probe_is_complete(probe, n, hash, i);
            let d = choose|d: int| 0 <= d < n && #[trigger] probe.pos(n, hash, d) == i;
            assert(buckets[probe.pos(n, hash, d)].len() == 8);
        }
        lemma_entries_len_full(buckets, n);
    }
}

proof fn lemma_entries_len_full(buckets: Seq<Seq<(u64, SlotValue)>>, n: int)
    requires
        0 <= n <= buckets.len(),
        forall|i: int| 0 <= i < n ==> (#[trigger] buckets[i]).len() == 8,
    ensures
        entries_below(buckets, n).len() == 8 * n,
    decreases n,
{
    if n > 0 {
        lemma_entries_len_full(buckets, n - 1);
    }
}

/// A table of empty buckets has no entries.
pub proof fn lemma_entries_none(buckets: Seq<Seq<(u64, SlotValue)>>, n: int)
    requires
        0 <= n <= buckets.len(),
        forall|i: int| 0 <= i < n ==> (#[trigger] buckets[i]).len() == 0,
    ensures
        entries_below(buckets, n).len() == 0,
    decreases n,
{
    if n > 0 {
        lemma_entries_none(buckets, n - 1);
    }
}

/// Nothing is gathered where no bucket of the sequence holds the hash.
pub proof fn lemma_gathered_none(
    probe: Probe,
    buckets: Seq<Seq<(u64, SlotValue)>>,
    hash: u64,
    steps: int,
)
    requires
        forall|d: int|
            #![trigger probe.pos(buckets.len() as int, hash, d)]
            0 <= d < steps ==> values_of(
                buckets[probe.pos(buckets.len() as int, hash, d)],
                hash,
            ).len() == 0,
    ensures
        gathered(probe, buckets, hash, steps) == Seq::<SlotValue>::empty(),
{
    if steps > 0 {
        lemma_gathered_between_none(probe, buckets, hash, 0, steps);
        lemma_gathered_split(probe, buckets, hash, 0, steps);
        assert(gathered(probe, buckets, hash, steps) =~= Seq::<SlotValue>::empty());
    }
}

/// More buckets hold no fewer entries.
pub proof fn lemma_entries_monotone(buckets: Seq<Seq<(u64, SlotValue)>>, m: int, n: int)
    requires
        0 <= m <= n,
    ensures
        entries_below(buckets, m).len() <= entries_below(buckets, n).len(),
    decreases n - m,
{
    if m < n {
        lemma_entries_monotone(buckets, m, n - 1);
    }
}

/// A table holds at most eight entries for each chunk.
pub proof fn lemma_entries_bound(buckets: Seq<Seq<(u64, SlotValue)>>, n: int)
    requires
        0 <= n <= buckets.len(),
        forall|i: int| 0 <= i < n ==> (#[trigger] buckets[i]).len() <= 8,
    ensures
        entries_below(buckets, n).len() <= 8 * n,
    decreases n,
{
    if n > 0 {
        lemma_entries_bound(buckets, n - 1);
    }
}

/// The sum of `c` over the chunks of the first `steps` steps of a probe sequence.
spec fn sum_probed(probe: Probe, n: int, hash: u64, c: spec_fn(int) -> nat, steps: int) -> nat
    decreases steps,
{
    if steps <= 0 {
        0
    } else {
        sum_probed(probe, n, hash, c, steps - 1) + c(probe.pos(n, hash, steps - 1))
    }
}

/// The sum of `c` over the chunks below `n`.
spec fn sum_below(c: spec_fn(int) -> nat, n: int) -> nat
    decreases n,
{
    if n <= 0 {
        0
    } else {
        sum_below(c, n - 1) + c(n - 1)
    }
}

spec fn sum_set(c: spec_fn(int) -> nat, chunks: Set<int>) -> nat {
    chunks.fold(0nat, |acc: nat, i: int| acc + c(i))
}

proof fn lemma_sum_set_insert(c: spec_fn(int) -> nat, chunks: Set<int>, i: int)
    requires
        chunks.finite(),
        !chunks.contains(i),
    ensures
        sum_set(c, chunks.insert(i)) == sum_set(c, chunks) + c(i),
{
    let f = |acc: nat, i: int| acc + c(i);
    assert(vstd::set::fold::is_fun_commutative(f));
    vstd::set::fold::lemma_fold_insert(chunks, 0nat, f, i);
}

proof fn lemma_sum_below(c: spec_fn(int) -> nat, n: int)
    requires
        0 <= n,
    ensures
        sum_below(c, n) == sum_set(c, vstd::set_lib::set_int_range(0, n)),
    decreases n,
{
    let range = vstd::set_lib::set_int_range(0, n);
    if n == 0 {
        assert(range =~= Set::empty());
        vstd::set::fold::lemma_fold_empty(0nat, |acc: nat, i: int| acc + c(i));
    } else {
        let shorter = vstd::set_lib::set_int_range(0, n - 1);
        lemma_sum_below(c, n - 1);
        vstd::set_lib::lemma_int_range(0, n - 1);
        lemma_sum_set_insert(c, shorter, n - 1);
        assert(range =~= shorter.insert(n - 1));
    }
}

spec fn probed(probe: Probe, n: int, hash: u64, steps: int) -> Set<int> {
    Set::new(|i: int| exists|d: int| 0 <= d < steps && #[trigger] probe.pos(n, hash, d) == i)
}

proof fn lemma_sum_probed(probe: Probe, n: int, hash: u64, c: spec_fn(int) -> nat, steps: int)
    requires
        is_pow2(n),
        0 <= steps <= n,
    ensures
        probed(probe, n, hash, steps).finite(),
        sum_probed(probe, n, hash, c, steps) == sum_set(c, probed(probe, n, hash, steps)),
    decreases steps,
{
    let seen = probed(probe, n, hash, steps);
    if steps == 0 {
        assert(seen =~= Set::empty());
        vstd::set::fold::lemma_fold_empty(0nat, |acc: nat, i: int| acc + c(i));
    } else {
        let fewer = probed(probe, n, hash, steps - 1);
        let last = probe.pos(n, hash, steps - 1);
        lemma_sum_probed(probe, n, hash, c, steps - 1);
        if fewer.contains(last) {
            let d = choose|d: int| 0 <= d < steps - 1 && #[trigger] probe.pos(n, hash, d) == last;
            crate::probe::law_probe_is_injective(probe, n, hash, d, steps - 1);
        }
        lemma_sum_set_insert(c, fewer, last);
        assert(seen =~= fewer.insert(last));
    }
}

proof fn lemma_sum_any_order(probe: Probe, n: int, hash: u64, c: spec_fn(int) -> nat)
    requires
        is_pow2(n),
    ensures
        sum_probed(probe, n, hash, c, n) == sum_below(c, n),
{
    reveal(is_pow2);
    lemma_sum_probed(probe, n, hash, c, n);
    lemma_sum_below(c, n);
    let seen = probed(probe, n, hash, n);
    assert(seen =~= vstd::set_lib::set_int_range(0, n)) by {
        assert forall|i: int| seen.contains(i) <==> 0 <= i < n by {
            if seen.contains(i) {
                let d = choose|d: int| 0 <= d < n && #[trigger] probe.pos(n, hash, d) == i;
                crate::probe::lemma_probe_step(probe, n, hash, d);
            }
            if 0 <= i < n {
                crate::probe::law_probe_is_complete(probe, n, hash, i);
            }
        }
    }
}

/// The values with this hash, in table order.
pub open spec fn listed(buckets: Seq<Seq<(u64, SlotValue)>>, hash: u64) -> Seq<SlotValue> {
    values_of(entries_of(buckets), hash)
}

proof fn lemma_gathered_count(
    probe: Probe,
    buckets: Seq<Seq<(u64, SlotValue)>>,
    hash: u64,
    steps: int,
    value: SlotValue,
)
    ensures
        gathered(probe, buckets, hash, steps).to_multiset().count(value) == sum_probed(
            probe,
            buckets.len() as int,
            hash,
            |i: int| values_of(buckets[i], hash).to_multiset().count(value),
            steps,
        ),
    decreases steps,
{
    broadcast use vstd::multiset::group_multiset_axioms;
    broadcast use vstd::seq_lib::group_to_multiset_ensures;

    if steps > 0 {
        lemma_gathered_count(probe, buckets, hash, steps - 1, value);
        vstd::seq_lib::lemma_multiset_commutative(
            gathered(probe, buckets, hash, steps - 1),
            values_of(buckets[probe.pos(buckets.len() as int, hash, steps - 1)], hash),
        );
    }
}

proof fn lemma_listed_count(
    buckets: Seq<Seq<(u64, SlotValue)>>,
    hash: u64,
    n: int,
    value: SlotValue,
)
    ensures
        values_of(entries_below(buckets, n), hash).to_multiset().count(value) == sum_below(
            |i: int| values_of(buckets[i], hash).to_multiset().count(value),
            n,
        ),
    decreases n,
{
    broadcast use vstd::multiset::group_multiset_axioms;
    broadcast use vstd::seq_lib::group_to_multiset_ensures;

    if n > 0 {
        lemma_listed_count(buckets, hash, n - 1, value);
        lemma_values_of_add(entries_below(buckets, n - 1), buckets[n - 1], hash);
        vstd::seq_lib::lemma_multiset_commutative(
            values_of(entries_below(buckets, n - 1), hash),
            values_of(buckets[n - 1], hash),
        );
    }
}

/// Table order and probe order list the same values of a hash, each as often.
pub proof fn lemma_listed_is_group(probe: Probe, buckets: Seq<Seq<(u64, SlotValue)>>, hash: u64)
    requires
        is_pow2(buckets.len() as int),
    ensures
        listed(buckets, hash).to_multiset() == group_of(probe, buckets, hash).to_multiset(),
        listed(buckets, hash).len() == group_of(probe, buckets, hash).len(),
        listed(buckets, hash).len() <= 1 ==> listed(buckets, hash) == group_of(
            probe,
            buckets,
            hash,
        ),
{
    let n = buckets.len() as int;
    let a = listed(buckets, hash);
    let b = group_of(probe, buckets, hash);
    assert forall|value: SlotValue|
        a.to_multiset().count(value) == b.to_multiset().count(value) by {
        lemma_gathered_count(probe, buckets, hash, n, value);
        lemma_listed_count(buckets, hash, n, value);
        lemma_sum_any_order(
            probe,
            n,
            hash,
            |i: int| values_of(buckets[i], hash).to_multiset().count(value),
        );
    }
    assert(a.to_multiset() =~= b.to_multiset());
    a.to_multiset_ensures();
    b.to_multiset_ensures();
    if a.len() == 1 {
        assert(b.contains(a[0])) by {
            assert(a.to_multiset().count(a[0]) > 0);
        }
        assert(a =~= b);
    }
    if a.len() == 0 {
        assert(a =~= b);
    }
}

} // verus!
