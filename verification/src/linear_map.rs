//! A hash table for aggregation that probes chunk after chunk.
//!
//! The key of an entry is a hash that the caller computed. A slot is found in
//! three stages: its tag, then its hash, then, where the caller asks for it, its
//! full key. The table grows when more than nine tenths of its slots would be
//! taken.

use vstd::arithmetic::power2::*;
use vstd::prelude::*;

use crate::callback::Call;
use crate::callback::Ledger;
use crate::probe::Probe;
use crate::slot_value::SlotValue;
use crate::slot_value::VALUE_RANGE;
use crate::table::capacity_to_num_chunks;
use crate::table::Seek;
use crate::table::Table;

verus! {

/// Whether `needed` entries are more than nine tenths of the slots.
pub open spec fn overloaded(needed: int, slots: int) -> bool {
    needed * 10 > slots * 9
}

/// The room that a table is given when `needed` entries overload it: enough for
/// them at nine tenths, and at least twice what it has.
pub open spec fn grown_capacity(needed: int, slots: int) -> int {
    if (needed * 10 + 8) / 9 > 2 * slots {
        (needed * 10 + 8) / 9
    } else {
        2 * slots
    }
}

/// A table that grows for `needed` entries has room for them at nine tenths, and
/// at least twice the slots it had.
pub proof fn law_grown_table_fits(needed: int, slots: int)
    ensures
        !overloaded(needed, 8 * crate::table::chunks_for(grown_capacity(needed, slots))),
        8 * crate::table::chunks_for(grown_capacity(needed, slots)) >= 2 * slots,
{
    crate::table::lemma_chunks_for(grown_capacity(needed, slots));
}

/// The entries of each chunk after the first `n` rows of a batch for which there
/// is room: a new row adds an entry with the value that `first` gives its hash.
pub open spec fn rows_added(
    buckets: Seq<Seq<(u64, SlotValue)>>,
    present: Set<u64>,
    hashes: Seq<u64>,
    first: spec_fn(u64) -> SlotValue,
    n: int,
) -> Seq<Seq<(u64, SlotValue)>>
    decreases n,
{
    if n <= 0 {
        buckets
    } else {
        let rest = rows_added(buckets, present, hashes, first, n - 1);
        let hash = hashes[n - 1];
        if crate::batch::is_update(present, hashes, n - 1) {
            rest
        } else {
            crate::layout::inserted(Probe::Linear, rest, hash, first(hash))
        }
    }
}

proof fn lemma_rows_added_agree(
    buckets: Seq<Seq<(u64, SlotValue)>>,
    present: Set<u64>,
    hashes: Seq<u64>,
    f: spec_fn(u64) -> SlotValue,
    g: spec_fn(u64) -> SlotValue,
    n: int,
)
    requires
        0 <= n <= hashes.len(),
        forall|j: int|
            0 <= j < n && !crate::batch::is_update(present, hashes, j) ==> f(
                #[trigger] hashes[j],
            ) == g(hashes[j]),
    ensures
        rows_added(buckets, present, hashes, f, n) == rows_added(buckets, present, hashes, g, n),
    decreases n,
{
    if n > 0 {
        lemma_rows_added_agree(buckets, present, hashes, f, g, n - 1);
        if !crate::batch::is_update(present, hashes, n - 1) {
            assert(f(hashes[n - 1]) == g(hashes[n - 1]));
        }
    }
}

proof fn lemma_rows_added(
    buckets: Seq<Seq<(u64, SlotValue)>>,
    present: Set<u64>,
    hashes: Seq<u64>,
    first: spec_fn(u64) -> SlotValue,
    n: int,
)
    requires
        0 <= n <= hashes.len(),
        crate::buckets::well_laid(Probe::Linear, buckets),
        crate::buckets::entries_of(buckets).len() + n <= 8 * buckets.len(),
        forall|hash: u64| #[trigger]
            present.contains(hash) <==> crate::buckets::group_of(
                Probe::Linear,
                buckets,
                hash,
            ).len() > 0,
    ensures
        ({
            let after = rows_added(buckets, present, hashes, first, n);
            &&& crate::buckets::well_laid(Probe::Linear, after)
            &&& after.len() == buckets.len()
            &&& crate::buckets::entries_of(after).len() == crate::buckets::entries_of(buckets).len()
                + n - crate::batch::updates(present, hashes, n).len()
            &&& crate::batch::updates(present, hashes, n).len() <= n
            &&& forall|hash: u64|
                {
                    let values = #[trigger] crate::buckets::group_of(Probe::Linear, after, hash);
                    if present.contains(hash) || !hashes.take(n).contains(hash) {
                        values == crate::buckets::group_of(Probe::Linear, buckets, hash)
                    } else {
                        values == seq![first(hash)]
                    }
                }
        }),
    decreases n,
{
    if n > 0 {
        let rest = rows_added(buckets, present, hashes, first, n - 1);
        let after = rows_added(buckets, present, hashes, first, n);
        let hash = hashes[n - 1];
        lemma_rows_added(buckets, present, hashes, first, n - 1);
        crate::batch::lemma_is_update(present, hashes, n - 1);
        crate::batch::lemma_take_next(hashes, n);
        if !crate::batch::is_update(present, hashes, n - 1) {
            crate::layout::lemma_inserted(Probe::Linear, rest, hash, first(hash));
            assert(crate::buckets::group_of(Probe::Linear, rest, hash).len() == 0);
            assert(crate::buckets::group_of(Probe::Linear, after, hash) =~= seq![first(hash)]);
        }
        assert forall|h: u64|
            {
                let values = #[trigger] crate::buckets::group_of(Probe::Linear, after, h);
                if present.contains(h) || !hashes.take(n).contains(h) {
                    values == crate::buckets::group_of(Probe::Linear, buckets, h)
                } else {
                    values == seq![first(h)]
                }
            } by {
            let values = crate::buckets::group_of(Probe::Linear, rest, h);
            assert(hashes.take(n).contains(h) <==> hashes.take(n - 1).contains(h) || h == hash);
        }
    }
}

/// A hash table with linear probing over its chunks.
pub struct TaperHashMap {
    table: Table,
    ledger: Ledger,
}

impl TaperHashMap {
    /// The invariant: a sound table with at least one empty slot.
    pub closed spec fn well_formed(self) -> bool {
        &&& self.table.inv()
        &&& self.table.probe() == Probe::Linear
        &&& self.table.entries().len() < self.table.slots()
    }

    /// The runs of callbacks that batches made, in order.
    pub closed spec fn calls(self) -> Seq<Call> {
        self.ledger.calls()
    }

    /// The entries of each chunk, in slot order.
    pub closed spec fn layout(self) -> Seq<Seq<(u64, SlotValue)>> {
        self.table.buckets()
    }

    /// The values with this hash, in the order in which a search meets them.
    pub closed spec fn group(self, hash: u64) -> Seq<SlotValue> {
        self.table.group(hash)
    }

    /// The number of slots.
    pub closed spec fn slots(self) -> int {
        self.table.slots()
    }

    /// The hashes and values of the taken slots, in table order.
    pub closed spec fn entries(self) -> Seq<(u64, SlotValue)> {
        self.table.entries()
    }

    /// The value that a search for a hash meets first.
    pub open spec fn first_values(self) -> spec_fn(u64) -> SlotValue {
        |hash: u64| self.group(hash)[0]
    }

    /// The hashes with a value.
    pub open spec fn present(self) -> Set<u64> {
        Set::new(|hash: u64| self.group(hash).len() > 0)
    }

    /// Whether no hash has more than one value.
    pub open spec fn unique(self) -> bool {
        forall|hash: u64| (#[trigger] self.group(hash)).len() <= 1
    }

    /// Whether `other` holds the entries of this table, taken over in table order.
    pub open spec fn moved_to(self, other: Self) -> bool {
        &&& forall|hash: u64| #[trigger]
            other.group(hash) == crate::buckets::values_of(self.entries(), hash)
        &&& forall|hash: u64| #[trigger] self.keeps_group(other, hash)
        &&& self.unique() ==> self.same_groups(other)
        &&& other.entries().to_multiset() == self.entries().to_multiset()
    }

    /// Whether the values of every hash are the same in both tables.
    pub open spec fn same_groups(self, other: Self) -> bool {
        forall|hash: u64| #[trigger] other.group(hash) == self.group(hash)
    }

    /// The number of taken slots.
    pub open spec fn size(self) -> int {
        self.entries().len() as int
    }

    /// Whether the table has room for `needed` entries, or can grow to have it.
    pub open spec fn has_room(self, needed: int) -> bool {
        overloaded(needed, self.slots()) ==> crate::table::fits(
            grown_capacity(needed, self.slots()),
        )
    }

    /// The values with this hash once there is room for `needed` entries. A table
    /// that grows takes its entries over in table order.
    pub open spec fn group_for(self, needed: int, hash: u64) -> Seq<SlotValue> {
        if overloaded(needed, self.slots()) {
            crate::buckets::values_of(self.entries(), hash)
        } else {
            self.group(hash)
        }
    }

    /// The entries of each chunk once there is room for `needed` entries.
    pub open spec fn layout_for(self, needed: int) -> Seq<Seq<(u64, SlotValue)>> {
        if overloaded(needed, self.slots()) {
            crate::layout::laid_out(
                Probe::Linear,
                crate::table::chunks_for(grown_capacity(needed, self.slots())) as nat,
                self.entries(),
            )
        } else {
            self.layout()
        }
    }

    /// The entries of each chunk after a batch: the table grows once for all rows,
    /// and each new row then adds an entry.
    pub open spec fn layout_after(
        self,
        hashes: Seq<u64>,
        first: spec_fn(u64) -> SlotValue,
    ) -> Seq<Seq<(u64, SlotValue)>> {
        rows_added(
            self.layout_for(self.size() + hashes.len()),
            self.present(),
            hashes,
            first,
            hashes.len() as int,
        )
    }

    /// The entries of each chunk after a value was put under a key: in place of
    /// the first that was there, or in a slot of its own.
    pub open spec fn layout_put(self, key: u64, value: SlotValue) -> Seq<Seq<(u64, SlotValue)>> {
        let roomy = self.layout_for(self.size() + 1);
        if self.present().contains(key) {
            crate::layout::replaced(Probe::Linear, roomy, key, value)
        } else {
            crate::layout::inserted(Probe::Linear, roomy, key, value)
        }
    }

    /// Whether a hash has the same values in `other`, each as often. A single
    /// value is then the same; several may stand in another order.
    pub open spec fn keeps_group(self, other: Self, hash: u64) -> bool {
        &&& other.group(hash).to_multiset() == self.group(hash).to_multiset()
        &&& other.group(hash).len() == self.group(hash).len()
        &&& self.group(hash).len() <= 1 ==> other.group(hash) == self.group(hash)
    }

    /// The number of slots once there is room for `needed` entries.
    pub open spec fn slots_for(self, needed: int) -> int {
        if overloaded(needed, self.slots()) {
            8 * crate::table::chunks_for(grown_capacity(needed, self.slots()))
        } else {
            self.slots()
        }
    }

    /// A table with room for at least `initial_capacity` slots, in a power of
    /// two of chunks, of which there are at least four.
    pub fn new(initial_capacity: usize) -> (map: Self)
        requires
            crate::table::fits(initial_capacity as int),
        ensures
            map.well_formed(),
            map.calls() == Seq::<Call>::empty(),
            map.slots() == 8 * (if crate::table::chunks_for(initial_capacity as int) < 4 {
                4
            } else {
                crate::table::chunks_for(initial_capacity as int)
            }),
            map.slots() >= initial_capacity,
            map.size() == 0,
            forall|hash: u64| #[trigger] map.group(hash) == Seq::<SlotValue>::empty(),
            forall|key: u64| #[trigger] map.lookup(key) is None,
            map.unique(),
    {
        let wanted: usize = capacity_to_num_chunks(initial_capacity);
        let count: usize = if wanted < 4 {
            4
        } else {
            wanted
        };
        proof {
            assert(is_pow2(4)) by {
                reveal_with_fuel(is_pow2, 4);
            }
        }
        TaperHashMap { table: Table::with_chunks(count, Probe::Linear), ledger: Ledger::new() }
    }

    /// The number of taken slots.
    pub fn len(&self) -> (n: usize)
        requires
            self.well_formed(),
        ensures
            n == self.size(),
    {
        self.table.len()
    }

    /// Whether no slot is taken.
    pub fn is_empty(&self) -> (empty: bool)
        requires
            self.well_formed(),
        ensures
            empty <==> self.size() == 0,
    {
        self.table.len() == 0
    }

    /// The number of slots.
    pub fn capacity(&self) -> (n: usize)
        requires
            self.well_formed(),
        ensures
            n == self.slots(),
    {
        self.table.capacity()
    }

    /// Moves all entries, in table order, to a table with room for `capacity`
    /// slots.
    fn rehash(&mut self, capacity: usize)
        requires
            old(self).well_formed(),
            crate::table::fits(capacity as int),
            old(self).size() < 8 * crate::table::chunks_for(capacity as int),
        ensures
            final(self).well_formed(),
            final(self).calls() == old(self).calls(),
            final(self).slots() == 8 * crate::table::chunks_for(capacity as int),
            final(self).slots() >= capacity,
            final(self).size() == old(self).size(),
            final(self).layout() == crate::layout::laid_out(
                Probe::Linear,
                crate::table::chunks_for(capacity as int) as nat,
                old(self).entries(),
            ),
            old(self).moved_to(*final(self)),
    {
        let ghost before = self.table;
        let count: usize = capacity_to_num_chunks(capacity);
        self.table.rehash(count);
        proof {
            before.lemma_inv();
            assert forall|hash: u64| old(self).keeps_group(*self, hash) by {
                assert(self.table.group(hash) == crate::buckets::listed(before.buckets(), hash));
                crate::buckets::lemma_listed_is_group(before.probe(), before.buckets(), hash);
            }
            if old(self).unique() {
                assert forall|hash: u64| #[trigger] self.group(hash) == old(self).group(hash) by {
                    assert(old(self).keeps_group(*self, hash));
                    assert(old(self).group(hash).len() <= 1);
                }
            }
            assert forall|hash: u64| #[trigger]
                self.group(hash).to_multiset() == old(self).group(hash).to_multiset() by {
                assert(old(self).keeps_group(*self, hash));
            }
            old(self).law_same_values_same_entries(*self);
        }
    }

    /// Whether `needed` entries overload the table.
    fn is_overloaded(&self, needed: usize) -> (over: bool)
        requires
            self.well_formed(),
        ensures
            over <==> overloaded(needed as int, self.slots()),
    {
        (needed as u128) * 10 > (self.table.capacity() as u128) * 9
    }

    /// Grows the table to fit `needed` entries.
    fn expand_to_fit(&mut self, needed: usize)
        requires
            old(self).well_formed(),
            overloaded(needed as int, old(self).slots()),
            crate::table::fits(grown_capacity(needed as int, old(self).slots())),
        ensures
            final(self).well_formed(),
            final(self).calls() == old(self).calls(),
            final(self).slots() == 8 * crate::table::chunks_for(
                grown_capacity(needed as int, old(self).slots()),
            ),
            !overloaded(needed as int, final(self).slots()),
            final(self).size() == old(self).size(),
            final(self).layout() == old(self).layout_for(needed as int),
            old(self).moved_to(*final(self)),
    {
        let capacity: usize = self.table.capacity();
        let ghost target = grown_capacity(needed as int, capacity as int);
        proof {
            self.table.lemma_inv();
            crate::table::lemma_chunks_for(target);
        }
        let wanted: u128 = ((needed as u128) * 10 + 8) / 9;
        let twice: u128 = (capacity as u128) * 2;
        let room: u128 = if wanted > twice {
            wanted
        } else {
            twice
        };
        self.rehash(room as usize);
    }

    /// Doubles the table.
    fn expand(&mut self)
        requires
            old(self).well_formed(),
            crate::table::fits(2 * old(self).slots()),
        ensures
            final(self).well_formed(),
            final(self).calls() == old(self).calls(),
            final(self).slots() == 2 * old(self).slots(),
            final(self).size() == old(self).size(),
            final(self).layout() == crate::layout::laid_out(
                Probe::Linear,
                crate::table::chunks_for(2 * old(self).slots()) as nat,
                old(self).entries(),
            ),
            old(self).moved_to(*final(self)),
    {
        let capacity: usize = self.table.capacity();
        proof {
            self.table.lemma_inv();
            crate::table::lemma_chunks_for(2 * capacity);
            crate::table::lemma_chunks_for_double(capacity as int / 8);
        }
        self.rehash(capacity * 2);
    }

    /// Emplaces one row of a batch by its hash, and tells whether the hash was
    /// there already.
    fn emplace_row<N: FnMut(usize, &mut SlotValue), E: FnMut(usize, &SlotValue)>(
        &mut self,
        hash: u64,
        row: usize,
        on_new: &mut N,
        on_existing: &mut E,
    ) -> (existing: bool)
        requires
            old(self).well_formed(),
            old(self).size() + 1 < old(self).slots(),
            forall|m: &mut SlotValue|
                old(self).group(hash).len() == 0 && *m == SlotValue::zero()
                    ==> #[trigger] crate::callback::may_fill(
                    old(self).calls(),
                    *old(on_new),
                    row,
                    m,
                ),
            old(self).group(hash).len() > 0 ==> crate::callback::may_meet(
                old(self).calls(),
                *old(on_existing),
                row,
                old(self).group(hash)[0],
            ),
        ensures
            final(self).well_formed(),
            final(self).slots() == old(self).slots(),
            *final(on_new) == *old(on_new),
            *final(on_existing) == *old(on_existing),
            existing <==> old(self).group(hash).len() > 0,
            final(self).calls() == old(self).calls().push(
                if existing {
                    Call::Met(row)
                } else {
                    Call::Filled(row)
                },
            ),
            existing ==> {
                &&& final(self).table == old(self).table
                &&& call_ensures(*old(on_existing), (row, &old(self).group(hash)[0]), ())
            },
            !existing ==> {
                &&& final(self).size() == old(self).size() + 1
                &&& final(self).group(hash).len() == 1
                &&& final(self).layout() == crate::layout::inserted(
                    Probe::Linear,
                    old(self).layout(),
                    hash,
                    final(self).group(hash)[0],
                )
                &&& exists|m: &mut SlotValue|
                    {
                        &&& #[trigger] call_ensures(*old(on_new), (row, m), ())
                        &&& *m == SlotValue::zero()
                        &&& *final(m) == final(self).group(hash)[0]
                    }
            },
            forall|other: u64|
                other != hash ==> #[trigger] final(self).group(other) == old(self).group(other),
    {
        match self.table.seek(hash) {
            Seek::Found { chunk, slot } => {
                let value: &SlotValue = self.table.value_at(chunk, slot);
                assert(*value == self.group(hash)[0]);
                proof {
                    crate::callback::lemma_meet_by_reference(
                        self.ledger.calls(),
                        *on_existing,
                        row,
                    );
                }
                self.ledger.meet(&mut *on_existing, row, value);
                true
            },
            Seek::Open { chunk } => {
                proof {
                    assert(self.group(hash).len() == 0);
                    assert forall|m: &mut SlotValue|
                        *m == SlotValue::zero() implies #[trigger] crate::callback::may_fill(
                        self.ledger.calls(),
                        *on_new,
                        row,
                        m,
                    ) by {
                        assert(crate::callback::may_fill(self.calls(), *on_new, row, m));
                    }
                }
                proof {
                    crate::callback::lemma_fill_by_reference(self.ledger.calls(), *on_new, row);
                }
                let value: SlotValue = self.ledger.fill(&mut *on_new, row);
                self.table.insert(chunk, hash, value);
                assert(self.group(hash) =~= seq![value]);
                false
            },
        }
    }

    /// Emplaces the rows of a batch for which there is room.
    #[verifier::spinoff_prover]
    #[verifier::rlimit(60)]
    fn emplace_rows<N: FnMut(usize, &mut SlotValue), E: FnMut(usize, &SlotValue)>(
        &mut self,
        hashes: &[u64],
        on_new: &mut N,
        on_existing: &mut E,
    ) -> (update_list: Vec<usize>)
        requires
            old(self).well_formed(),
            old(self).size() + hashes@.len() < old(self).slots(),
            forall|i: usize, m: &mut SlotValue|
                i < hashes@.len() && !crate::batch::is_update(
                    old(self).present(),
                    hashes@,
                    i as int,
                ) && *m == SlotValue::zero() ==> #[trigger] crate::callback::may_fill(
                    old(self).calls() + crate::batch::calls_for(
                        old(self).present(),
                        hashes@,
                        i as int,
                    ),
                    *old(on_new),
                    i,
                    m,
                ),
            forall|i: usize, v: SlotValue|
                i < hashes@.len() && crate::batch::is_update(
                    old(self).present(),
                    hashes@,
                    i as int,
                ) && ({
                    let values = old(self).group(hashes@[i as int]);
                    if values.len() > 0 {
                        v == values[0]
                    } else {
                        exists|j: usize, m: &mut SlotValue|
                            {
                                &&& #[trigger] call_ensures(*old(on_new), (j, m), ())
                                &&& j < i
                                &&& hashes@[j as int] == hashes@[i as int]
                                &&& *m == SlotValue::zero()
                                &&& *final(m) == v
                            }
                    }
                }) ==> #[trigger] crate::callback::may_meet(
                    old(self).calls() + crate::batch::calls_for(
                        old(self).present(),
                        hashes@,
                        i as int,
                    ),
                    *old(on_existing),
                    i,
                    v,
                ),
        ensures
            final(self).well_formed(),
            update_list@ == crate::batch::updates(
                old(self).present(),
                hashes@,
                hashes@.len() as int,
            ),
            final(self).size() == old(self).size() + hashes@.len() - update_list@.len(),
            final(self).slots() == old(self).slots(),
            final(self).calls() == old(self).calls() + crate::batch::calls_for(
                old(self).present(),
                hashes@,
                hashes@.len() as int,
            ),
            final(self).layout() == rows_added(
                old(self).layout(),
                old(self).present(),
                hashes@,
                final(self).first_values(),
                hashes@.len() as int,
            ),
            old(self).unique() ==> final(self).unique(),
            forall|i: int|
                0 <= i < hashes@.len() ==> final(self).present().contains(#[trigger] hashes@[i]),
            forall|hash: u64|
                old(self).present().contains(hash) || !hashes@.contains(hash)
                    ==> #[trigger] final(self).group(hash) == old(self).group(hash),
            forall|i: usize|
                i < hashes@.len() && !crate::batch::is_update(
                    old(self).present(),
                    hashes@,
                    i as int,
                ) ==> final(self).group(#[trigger] hashes@[i as int]).len() == 1,
            forall|i: usize|
                i < hashes@.len() && !#[trigger] crate::batch::is_update(
                    old(self).present(),
                    hashes@,
                    i as int,
                ) ==> exists|m: &mut SlotValue|
                    {
                        &&& #[trigger] call_ensures(*old(on_new), (i, m), ())
                        &&& *m == SlotValue::zero()
                        &&& *final(m) == final(self).group(hashes@[i as int])[0]
                    },
            forall|i: usize|
                i < hashes@.len() && crate::batch::is_update(
                    old(self).present(),
                    hashes@,
                    i as int,
                ) ==> call_ensures(
                    *old(on_existing),
                    (i, &final(self).group(#[trigger] hashes@[i as int])[0]),
                    (),
                ),
            final(self).entries().to_multiset() == old(self).entries().to_multiset().add(
                crate::batch::new_entries(
                    old(self).present(),
                    hashes@,
                    final(self).first_values(),
                    hashes@.len() as int,
                ).to_multiset(),
            ),
    {
        let ghost start = *self;
        let ghost fill_in = *on_new;
        let ghost report = *on_existing;
        let mut update_list: Vec<usize> = Vec::new();
        let mut i: usize = 0;
        while i < hashes.len()
            invariant
                i <= hashes@.len(),
                self.well_formed(),
                self.slots() == start.slots(),
                self.calls() == start.calls() + crate::batch::calls_for(
                    start.present(),
                    hashes@,
                    i as int,
                ),
                self.layout() == rows_added(
                    start.layout(),
                    start.present(),
                    hashes@,
                    self.first_values(),
                    i as int,
                ),
                start.size() + hashes@.len() < start.slots(),
                update_list@ == crate::batch::updates(start.present(), hashes@, i as int),
                self.size() == start.size() + i - update_list@.len(),
                update_list@.len() <= i,
                start.unique() ==> self.unique(),
                *on_new == fill_in,
                *on_existing == report,
                forall|i: usize, m: &mut SlotValue|
                    i < hashes@.len() && !crate::batch::is_update(
                        start.present(),
                        hashes@,
                        i as int,
                    ) && *m == SlotValue::zero() ==> #[trigger] crate::callback::may_fill(
                        start.calls() + crate::batch::calls_for(
                            start.present(),
                            hashes@,
                            i as int,
                        ),
                        fill_in,
                        i,
                        m,
                    ),
                forall|i: usize, v: SlotValue|
                    i < hashes@.len() && crate::batch::is_update(
                        start.present(),
                        hashes@,
                        i as int,
                    ) && ({
                        let values = start.group(hashes@[i as int]);
                        if values.len() > 0 {
                            v == values[0]
                        } else {
                            exists|j: usize, m: &mut SlotValue|
                                {
                                    &&& #[trigger] call_ensures(fill_in, (j, m), ())
                                    &&& j < i
                                    &&& hashes@[j as int] == hashes@[i as int]
                                    &&& *m == SlotValue::zero()
                                    &&& *final(m) == v
                                }
                        }
                    }) ==> #[trigger] crate::callback::may_meet(
                        start.calls() + crate::batch::calls_for(
                            start.present(),
                            hashes@,
                            i as int,
                        ),
                        report,
                        i,
                        v,
                    ),
                forall|hash: u64|
                    start.group(hash).len() > 0 || (forall|j: int|
                        0 <= j < i ==> hashes@[j] != hash) ==> #[trigger] self.group(hash)
                        == start.group(hash),
                forall|j: int| 0 <= j < i ==> self.group(#[trigger] hashes@[j]).len() > 0,
                forall|j: usize|
                    j < i && !crate::batch::is_update(start.present(), hashes@, j as int)
                        ==> self.group(#[trigger] hashes@[j as int]).len() == 1 && exists|
                        m: &mut SlotValue,
                    |
                        {
                            &&& #[trigger] call_ensures(fill_in, (j, m), ())
                            &&& *m == SlotValue::zero()
                            &&& *final(m) == self.group(hashes@[j as int])[0]
                        },
                forall|j: usize|
                    j < i && crate::batch::is_update(start.present(), hashes@, j as int)
                        ==> call_ensures(
                        report,
                        (j, &self.group(#[trigger] hashes@[j as int])[0]),
                        (),
                    ),
            decreases hashes@.len() - i,
        {
            let hash: u64 = hashes[i];
            let ghost before = *self;
            proof {
                // The hash is there exactly when the row is an update.
                assert(self.group(hash).len() > 0 <==> crate::batch::is_update(
                    start.present(),
                    hashes@,
                    i as int,
                )) by {
                    reveal(crate::batch::is_update);
                    if exists|j: int| 0 <= j < i && hashes@[j] == hashes@[i as int] {
                        let j = choose|j: int| 0 <= j < i && hashes@[j] == hashes@[i as int];
                        assert(self.group(hashes@[j]).len() > 0);
                    } else {
                        assert(self.group(hash) == start.group(hash));
                    }
                }
                if self.group(hash).len() > 0 {
                    let v = self.group(hash)[0];
                    if start.group(hash).len() > 0 {
                        assert(self.group(hash) == start.group(hash));
                    } else {
                        let first = crate::batch::lemma_first_row(
                            start.present(),
                            hashes@,
                            i as int,
                        );
                        let j = first as usize;
                        assert(hashes@[j as int] == hash);
                        assert(exists|m: &mut SlotValue|
                            {
                                &&& #[trigger] call_ensures(fill_in, (j, m), ())
                                &&& *m == SlotValue::zero()
                                &&& *final(m) == self.group(hashes@[j as int])[0]
                            });
                    }
                    assert(crate::callback::may_meet(
                        start.calls() + crate::batch::calls_for(
                            start.present(),
                            hashes@,
                            i as int,
                        ),
                        report,
                        i,
                        v,
                    ));
                }
            }
            proof {
                crate::batch::lemma_calls_for_next(start.present(), hashes@, i as int);
            }
            let existing: bool = self.emplace_row(hash, i, on_new, on_existing);
            if existing {
                update_list.push(i);
            }
            proof {
                assert(self.layout() == rows_added(
                    start.layout(),
                    start.present(),
                    hashes@,
                    self.first_values(),
                    i + 1,
                )) by {
                    let (then, now) = (before.first_values(), self.first_values());
                    assert forall|j: int|
                        0 <= j < i && !crate::batch::is_update(
                            start.present(),
                            hashes@,
                            j,
                        ) implies then(#[trigger] hashes@[j]) == now(hashes@[j]) by {
                        assert(before.group(hashes@[j]).len() > 0);
                    }
                    lemma_rows_added_agree(
                        start.layout(),
                        start.present(),
                        hashes@,
                        then,
                        now,
                        i as int,
                    );
                }
                if start.unique() {
                    assert forall|other: u64| (#[trigger] self.group(other)).len() <= 1 by {
                        assert(before.group(other).len() <= 1);
                    }
                }
                assert forall|j: int| 0 <= j < i implies self.group(#[trigger] hashes@[j])
                    == before.group(hashes@[j]) by {
                    assert(before.group(hashes@[j]).len() > 0);
                }
                assert forall|other: u64|
                    start.group(other).len() > 0 || (forall|j: int|
                        0 <= j < i + 1 ==> hashes@[j] != other) implies #[trigger] self.group(other)
                    == start.group(other) by {
                    assert(before.group(other) == start.group(other));
                    if start.group(other).len() == 0 {
                        assert(hashes@[i as int] != other);
                    }
                }
            }
            i = i + 1;
        }
        proof {
            assert forall|j: usize|
                j < hashes@.len() && !#[trigger] crate::batch::is_update(
                    start.present(),
                    hashes@,
                    j as int,
                ) implies exists|m: &mut SlotValue|
                {
                    &&& #[trigger] call_ensures(fill_in, (j, m), ())
                    &&& *m == SlotValue::zero()
                    &&& *final(m) == self.group(hashes@[j as int])[0]
                } by {
                assert(self.group(hashes@[j as int]).len() == 1);
            }
            assert forall|hash: u64|
                start.present().contains(hash) || !hashes@.contains(
                    hash,
                ) implies #[trigger] self.group(hash) == start.group(hash) by {
                if !hashes@.contains(hash) {
                    assert(forall|j: int| 0 <= j < hashes@.len() ==> hashes@[j] != hash);
                }
            }
            assert(self.entries().to_multiset() == start.entries().to_multiset().add(
                crate::batch::new_entries(
                    start.present(),
                    hashes@,
                    self.first_values(),
                    hashes@.len() as int,
                ).to_multiset(),
            )) by {
                start.lemma_batch_adds(*self, hashes@);
            }
        }
        update_list
    }

    /// Makes room for `needed` entries.
    fn make_room_for(&mut self, needed: usize)
        requires
            old(self).well_formed(),
            old(self).size() <= needed,
            old(self).has_room(needed as int),
        ensures
            final(self).well_formed(),
            final(self).calls() == old(self).calls(),
            final(self).slots() == old(self).slots_for(needed as int),
            !overloaded(needed as int, final(self).slots()),
            needed < final(self).slots(),
            final(self).size() == old(self).size(),
            final(self).layout() == old(self).layout_for(needed as int),
            final(self).entries().to_multiset() == old(self).entries().to_multiset(),
            final(self).present() == old(self).present(),
            old(self).unique() ==> final(self).unique(),
            forall|hash: u64| #[trigger]
                final(self).group(hash) == old(self).group_for(needed as int, hash),
    {
        let ghost start = *self;
        proof {
            self.table.lemma_inv();
        }
        if self.is_overloaded(needed) {
            self.expand_to_fit(needed);
        }
        proof {
            self.table.lemma_inv();
            assert forall|hash: u64| #[trigger] self.group(hash) == start.group_for(
                needed as int,
                hash,
            ) && self.group(hash).len() == start.group(hash).len() by {
                if overloaded(needed as int, start.slots()) {
                    assert(start.keeps_group(*self, hash));
                }
            }
            assert(self.present() =~= start.present());
            if start.unique() {
                assert forall|hash: u64| (#[trigger] self.group(hash)).len() <= 1 by {
                    assert(start.group(hash).len() <= 1);
                }
            }
        }
    }

    /// Makes room for a batch of rows and emplaces them.
    #[verifier::spinoff_prover]
    #[verifier::rlimit(60)]
    fn emplace_in_room<N: FnMut(usize, &mut SlotValue), E: FnMut(usize, &SlotValue)>(
        &mut self,
        hashes: &[u64],
        on_new: &mut N,
        on_existing: &mut E,
    ) -> (update_list: Vec<usize>)
        requires
            old(self).well_formed(),
            old(self).has_room(old(self).size() + hashes@.len()),
            forall|i: usize, m: &mut SlotValue|
                i < hashes@.len() && !crate::batch::is_update(
                    old(self).present(),
                    hashes@,
                    i as int,
                ) && *m == SlotValue::zero() ==> #[trigger] crate::callback::may_fill(
                    old(self).calls() + crate::batch::calls_for(
                        old(self).present(),
                        hashes@,
                        i as int,
                    ),
                    *old(on_new),
                    i,
                    m,
                ),
            forall|i: usize, v: SlotValue|
                i < hashes@.len() && crate::batch::is_update(
                    old(self).present(),
                    hashes@,
                    i as int,
                ) && ({
                    let values = old(self).group_for(
                        old(self).size() + hashes@.len(),
                        hashes@[i as int],
                    );
                    if values.len() > 0 {
                        v == values[0]
                    } else {
                        exists|j: usize, m: &mut SlotValue|
                            {
                                &&& #[trigger] call_ensures(*old(on_new), (j, m), ())
                                &&& j < i
                                &&& hashes@[j as int] == hashes@[i as int]
                                &&& *m == SlotValue::zero()
                                &&& *final(m) == v
                            }
                    }
                }) ==> #[trigger] crate::callback::may_meet(
                    old(self).calls() + crate::batch::calls_for(
                        old(self).present(),
                        hashes@,
                        i as int,
                    ),
                    *old(on_existing),
                    i,
                    v,
                ),
        ensures
            final(self).well_formed(),
            update_list@ == crate::batch::updates(
                old(self).present(),
                hashes@,
                hashes@.len() as int,
            ),
            final(self).size() == old(self).size() + hashes@.len() - update_list@.len(),
            final(self).slots() == old(self).slots_for(old(self).size() + hashes@.len()),
            !overloaded(final(self).size(), final(self).slots()),
            final(self).layout() == old(self).layout_after(hashes@, final(self).first_values()),
            old(self).unique() ==> final(self).unique(),
            forall|i: int|
                0 <= i < hashes@.len() ==> final(self).present().contains(#[trigger] hashes@[i]),
            forall|hash: u64|
                old(self).present().contains(hash) || !hashes@.contains(hash)
                    ==> #[trigger] final(self).group(hash) == old(self).group_for(
                    old(self).size() + hashes@.len(),
                    hash,
                ),
            forall|i: usize|
                i < hashes@.len() && !crate::batch::is_update(
                    old(self).present(),
                    hashes@,
                    i as int,
                ) ==> final(self).group(#[trigger] hashes@[i as int]).len() == 1,
            forall|i: usize|
                i < hashes@.len() && !#[trigger] crate::batch::is_update(
                    old(self).present(),
                    hashes@,
                    i as int,
                ) ==> exists|m: &mut SlotValue|
                    {
                        &&& #[trigger] call_ensures(*old(on_new), (i, m), ())
                        &&& *m == SlotValue::zero()
                        &&& *final(m) == final(self).group(hashes@[i as int])[0]
                    },
            forall|i: usize|
                i < hashes@.len() && crate::batch::is_update(
                    old(self).present(),
                    hashes@,
                    i as int,
                ) ==> call_ensures(
                    *old(on_existing),
                    (i, &final(self).group(#[trigger] hashes@[i as int])[0]),
                    (),
                ),
            final(self).entries().to_multiset() == old(self).entries().to_multiset().add(
                crate::batch::new_entries(
                    old(self).present(),
                    hashes@,
                    final(self).first_values(),
                    hashes@.len() as int,
                ).to_multiset(),
            ),
            final(self).calls() == old(self).calls() + crate::batch::calls_for(
                old(self).present(),
                hashes@,
                hashes@.len() as int,
            ),
    {
        proof {
            self.table.lemma_inv();
            crate::table::lemma_chunks_for(
                grown_capacity(self.size() + hashes@.len(), self.slots()),
            );
        }
        self.make_room_for(self.table.len() + hashes.len());
        self.emplace_rows(hashes, on_new, on_existing)
    }

    /// Emplaces a batch of rows by hash alone.
    ///
    /// A row whose hash is new takes a slot, whose empty value `on_new` fills. A
    /// row whose hash is there already is handed to `on_existing` with the first
    /// value of the hash, and its number is returned: its full key is still to
    /// be compared. No row is handed to the other callback, and none to
    /// `on_existing` with any other value.
    #[verifier::spinoff_prover]
    #[verifier::rlimit(40)]
    pub fn emplace_batch<N: FnMut(usize, &mut SlotValue), E: FnMut(usize, &SlotValue)>(
        &mut self,
        hashes: &[u64],
        on_new: &mut N,
        on_existing: &mut E,
    ) -> (update_list: Vec<usize>)
        requires
            old(self).well_formed(),
            old(self).has_room(old(self).size() + hashes@.len()),
            forall|i: usize, m: &mut SlotValue|
                i < hashes@.len() && !crate::batch::is_update(
                    old(self).present(),
                    hashes@,
                    i as int,
                ) && *m == SlotValue::zero() ==> #[trigger] call_requires(*old(on_new), (i, m)),
            forall|i: usize, v: SlotValue|
                i < hashes@.len() && crate::batch::is_update(
                    old(self).present(),
                    hashes@,
                    i as int,
                ) && ({
                    let values = old(self).group_for(
                        old(self).size() + hashes@.len(),
                        hashes@[i as int],
                    );
                    if values.len() > 0 {
                        v == values[0]
                    } else {
                        exists|j: usize, m: &mut SlotValue|
                            {
                                &&& #[trigger] call_ensures(*old(on_new), (j, m), ())
                                &&& j < i
                                &&& hashes@[j as int] == hashes@[i as int]
                                &&& *m == SlotValue::zero()
                                &&& *final(m) == v
                            }
                    }
                }) ==> #[trigger] call_requires(*old(on_existing), (i, &v)),
        ensures
            final(self).well_formed(),
            update_list@ == crate::batch::updates(
                old(self).present(),
                hashes@,
                hashes@.len() as int,
            ),
            final(self).size() == old(self).size() + hashes@.len() - update_list@.len(),
            final(self).slots() == old(self).slots_for(old(self).size() + hashes@.len()),
            !overloaded(final(self).size(), final(self).slots()),
            10 * final(self).size() <= 9 * final(self).slots(),
            final(self).layout() == old(self).layout_after(hashes@, final(self).first_values()),
            old(self).unique() ==> final(self).unique(),
            forall|i: int|
                0 <= i < hashes@.len() ==> final(self).present().contains(#[trigger] hashes@[i]),
            forall|hash: u64|
                old(self).present().contains(hash) || !hashes@.contains(hash)
                    ==> #[trigger] final(self).group(hash) == old(self).group_for(
                    old(self).size() + hashes@.len(),
                    hash,
                ),
            forall|i: usize|
                i < hashes@.len() && !crate::batch::is_update(
                    old(self).present(),
                    hashes@,
                    i as int,
                ) ==> final(self).group(
                    #[trigger] hashes@[i as int],
                ).len() == 1 && exists|m: &mut SlotValue|
                    {
                        &&& #[trigger] call_ensures(*old(on_new), (i, m), ())
                        &&& *m == SlotValue::zero()
                        &&& *final(m) == final(self).group(hashes@[i as int])[0]
                    },
            forall|i: usize|
                i < hashes@.len() && crate::batch::is_update(
                    old(self).present(),
                    hashes@,
                    i as int,
                ) ==> call_ensures(
                    *old(on_existing),
                    (i, &final(self).group(#[trigger] hashes@[i as int])[0]),
                    (),
                ),
            final(self).entries().to_multiset() == old(self).entries().to_multiset().add(
                crate::batch::new_entries(
                    old(self).present(),
                    hashes@,
                    final(self).first_values(),
                    hashes@.len() as int,
                ).to_multiset(),
            ),
            final(self).calls().len() == old(self).calls().len() + hashes@.len(),
            final(self).calls().take(old(self).calls().len() as int) == old(self).calls(),
            forall|i: usize|
                i < hashes@.len() ==> final(self).calls()[old(self).calls().len() + i] == (if old(
                    self,
                ).group(#[trigger] hashes@[i as int]).len() > 0 || (exists|j: int|
                    0 <= j < i && #[trigger] hashes@[j] == hashes@[i as int]) {
                    Call::Met(i)
                } else {
                    Call::Filled(i)
                }),
            crate::callback::fills(final(self).calls()) == crate::callback::fills(
                old(self).calls(),
            ) + final(self).size() - old(self).size(),
    {
        let ghost start = *self;
        proof {
            assert forall|i: usize, m: &mut SlotValue| call_requires(
                *on_new,
                (i, m),
            ) implies #[trigger] crate::callback::may_fill(
                self.calls() + crate::batch::calls_for(self.present(), hashes@, i as int),
                *on_new,
                i,
                m,
            ) by {
                crate::callback::law_may_fill(
                    self.calls() + crate::batch::calls_for(self.present(), hashes@, i as int),
                    *on_new,
                    i,
                    m,
                );
            }
            assert forall|i: usize, v: SlotValue| call_requires(
                *on_existing,
                (i, &v),
            ) implies #[trigger] crate::callback::may_meet(
                self.calls() + crate::batch::calls_for(self.present(), hashes@, i as int),
                *on_existing,
                i,
                v,
            ) by {
                crate::callback::law_may_meet(
                    self.calls() + crate::batch::calls_for(self.present(), hashes@, i as int),
                    *on_existing,
                    i,
                    v,
                );
            }
            assert(hashes@.len() == hashes.len());
            crate::batch::law_one_call_for_each_row(self.calls(), self.present(), hashes@);
            crate::batch::law_fills_are_the_new_rows(
                self.calls(),
                self.present(),
                hashes@,
                hashes@.len() as int,
            );
        }
        self.emplace_in_room(hashes, on_new, on_existing)
    }

    /// Makes room for one more entry.
    fn make_room(&mut self)
        requires
            old(self).well_formed(),
            old(self).has_room(old(self).size() + 1),
        ensures
            final(self).well_formed(),
            final(self).calls() == old(self).calls(),
            final(self).slots() == if overloaded(old(self).size() + 1, old(self).slots()) {
                2 * old(self).slots()
            } else {
                old(self).slots()
            },
            !overloaded(final(self).size() + 1, final(self).slots()),
            final(self).size() == old(self).size(),
            final(self).layout() == old(self).layout_for(old(self).size() + 1),
            forall|hash: u64| #[trigger]
                final(self).group(hash) == old(self).group_for(old(self).size() + 1, hash),
            forall|hash: u64| #[trigger] old(self).keeps_group(*final(self), hash),
    {
        proof {
            self.table.lemma_inv();
        }
        if self.is_overloaded(self.table.len() + 1) {
            self.expand();
        }
    }

    /// Emplaces one row by its full key, with a record of the callback that ran.
    fn emplace_one<
        K: Fn(&SlotValue) -> bool,
        N: FnMut(&mut SlotValue),
        M: FnMut(&SlotValue),
    >(
        &mut self,
        hash: u64,
        key_eq: &K,
        ledger: &mut Ledger,
        on_new: &mut N,
        on_match: &mut M,
    )
        requires
            old(self).well_formed(),
            old(self).has_room(old(self).size() + 1),
            crate::table::comparable(
                old(self).group_for(old(self).size() + 1, hash),
                *key_eq,
            ),
            forall|k: int| #[trigger]
                crate::table::accepted(
                    old(self).group_for(old(self).size() + 1, hash),
                    *key_eq,
                    k,
                ) ==> crate::callback::may_meet_one(
                    old(ledger).calls(),
                    *old(on_match),
                    old(self).group_for(old(self).size() + 1, hash)[k],
                ),
            forall|m: &mut SlotValue|
                crate::table::rejected(
                    old(self).group_for(old(self).size() + 1, hash),
                    *key_eq,
                    old(self).group(hash).len() as int,
                ) && *m == SlotValue::zero() ==> #[trigger] crate::callback::may_fill_one(
                    old(ledger).calls(),
                    *old(on_new),
                    m,
                ),
        ensures
            final(self).well_formed(),
            final(self).calls() == old(self).calls(),
            final(self).slots() == if overloaded(old(self).size() + 1, old(self).slots()) {
                2 * old(self).slots()
            } else {
                old(self).slots()
            },
            !overloaded(final(self).size(), final(self).slots()),
            old(self).unique() && old(self).group(hash).len() == 0 ==> final(self).unique(),
            forall|other: u64|
                other != hash ==> #[trigger] final(self).group(other) == old(self).group_for(
                    old(self).size() + 1,
                    other,
                ),
            ({
                let values = old(self).group_for(old(self).size() + 1, hash);
                ||| {
                    &&& final(ledger).calls() == old(ledger).calls().push(Call::Met(0))
                    &&& final(self).size() == old(self).size()
                    &&& final(self).group(hash) == values
                    &&& final(self).layout() == old(self).layout_for(old(self).size() + 1)
                    &&& final(self).entries().to_multiset() == old(self).entries().to_multiset()
                    &&& exists|k: int| #[trigger]
                        crate::table::accepted(values, *key_eq, k) && call_ensures(
                            *old(on_match),
                            (&values[k],),
                            (),
                        )
                }
                ||| {
                    &&& final(ledger).calls() == old(ledger).calls().push(Call::Filled(0))
                    &&& final(self).size() == old(self).size() + 1
                    &&& crate::table::rejected(values, *key_eq, values.len() as int)
                    &&& final(self).group(hash).len() == values.len() + 1
                    &&& final(self).group(hash).drop_last() == values
                    &&& final(self).layout() == crate::layout::inserted(
                        Probe::Linear,
                        old(self).layout_for(old(self).size() + 1),
                        hash,
                        final(self).group(hash).last(),
                    )
                    &&& final(self).entries().to_multiset()
                        == old(self).entries().to_multiset().insert(
                        (hash, final(self).group(hash).last()),
                    )
                    &&& exists|m: &mut SlotValue|
                        {
                            &&& #[trigger] call_ensures(*old(on_new), (m,), ())
                            &&& *m == SlotValue::zero()
                            &&& *final(m) == final(self).group(hash).last()
                        }
                }
            }),
    {
        let ghost start = *self;
        self.make_room();
        let ghost roomy = *self;
        let ghost values = start.group_for(start.size() + 1, hash);
        assert(self.group(hash) == values);
        assert(start.keeps_group(*self, hash));
        let end: Seek = self.table.seek_where(hash, key_eq);
        match end {
            Seek::Found { chunk, slot } => {
                let ghost k = choose|k: int| #[trigger]
                    self.table.accepted_at(chunk as int, slot as int, hash, *key_eq, k);
                assert(self.table.accepted_at(chunk as int, slot as int, hash, *key_eq, k));
                let value: &SlotValue = self.table.value_at(chunk, slot);
                assert(*value == values[k]);
                assert(crate::table::accepted(values, *key_eq, k));
                proof {
                    crate::callback::lemma_meet_one_by_reference(ledger.calls(), *on_match);
                }
                ledger.meet_one(&mut *on_match, value);
                assert(self.entries().to_multiset() == start.entries().to_multiset()) by {
                    assert forall|h: u64| #[trigger]
                        self.group(h).to_multiset() == start.group(h).to_multiset() by {
                        assert(start.keeps_group(*self, h));
                    }
                    start.law_same_values_same_entries(*self);
                }
            },
            Seek::Open { chunk } => {
                proof {
                    crate::callback::lemma_fill_one_by_reference(ledger.calls(), *on_new);
                }
                let value: SlotValue = ledger.fill_one(&mut *on_new);
                self.table.insert(chunk, hash, value);
                assert(self.group(hash) == values.push(value));
                assert(self.group(hash).drop_last() =~= values);
                assert(self.entries().to_multiset() == start.entries().to_multiset().insert(
                    (hash, value),
                )) by {
                    assert forall|h: u64| h != hash implies #[trigger] self.group(
                        h,
                    ).to_multiset() == start.group(h).to_multiset() by {
                        assert(self.group(h) == roomy.group(h));
                        assert(start.keeps_group(roomy, h));
                    }
                    values.to_multiset_ensures();
                    start.law_added_value_is_an_added_entry(*self, hash, value);
                }
            },
        }
        proof {
            assert forall|other: u64| other != hash implies #[trigger] self.group(other)
                == start.group_for(start.size() + 1, other) by {
                assert(roomy.group(other) == start.group_for(start.size() + 1, other));
            }
            if start.unique() && start.group(hash).len() == 0 {
                assert forall|other: u64| (#[trigger] self.group(other)).len() <= 1 by {
                    assert(start.keeps_group(roomy, other));
                    assert(start.group(other).len() <= 1);
                }
            }
        }
    }

    /// Emplaces one row by its full key.
    ///
    /// `key_eq` tells whether the full key of a value agrees; it is asked about
    /// values of the hash only. The first that agrees is handed to `on_match`;
    /// where none does, the row takes a slot, whose empty value `on_new` fills.
    /// Only the callback of the outcome runs.
    pub fn emplace<
        K: Fn(&SlotValue) -> bool,
        N: FnMut(&mut SlotValue),
        M: FnMut(&SlotValue),
    >(&mut self, hash: u64, key_eq: &K, on_new: &mut N, on_match: &mut M)
        requires
            old(self).well_formed(),
            old(self).has_room(old(self).size() + 1),
            crate::table::comparable(
                old(self).group_for(old(self).size() + 1, hash),
                *key_eq,
            ),
            forall|k: int| #[trigger]
                crate::table::accepted(
                    old(self).group_for(old(self).size() + 1, hash),
                    *key_eq,
                    k,
                ) ==> call_requires(
                    *old(on_match),
                    (&old(self).group_for(old(self).size() + 1, hash)[k],),
                ),
            forall|m: &mut SlotValue|
                crate::table::rejected(
                    old(self).group_for(old(self).size() + 1, hash),
                    *key_eq,
                    old(self).group(hash).len() as int,
                ) && *m == SlotValue::zero() ==> #[trigger] call_requires(*old(on_new), (m,)),
        ensures
            final(self).well_formed(),
            final(self).calls() == old(self).calls(),
            final(self).slots() == if overloaded(old(self).size() + 1, old(self).slots()) {
                2 * old(self).slots()
            } else {
                old(self).slots()
            },
            !overloaded(final(self).size(), final(self).slots()),
            10 * final(self).size() <= 9 * final(self).slots(),
            old(self).unique() && old(self).group(hash).len() == 0 ==> final(self).unique(),
            forall|other: u64|
                other != hash ==> #[trigger] final(self).group(other) == old(self).group_for(
                    old(self).size() + 1,
                    other,
                ),
            ({
                let values = old(self).group_for(old(self).size() + 1, hash);
                ||| {
                    &&& final(self).size() == old(self).size()
                    &&& final(self).group(hash) == values
                    &&& final(self).layout() == old(self).layout_for(old(self).size() + 1)
                    &&& final(self).entries().to_multiset() == old(self).entries().to_multiset()
                    &&& exists|k: int| #[trigger]
                        crate::table::accepted(values, *key_eq, k) && call_ensures(
                            *old(on_match),
                            (&values[k],),
                            (),
                        )
                }
                ||| {
                    &&& final(self).size() == old(self).size() + 1
                    &&& crate::table::rejected(values, *key_eq, values.len() as int)
                    &&& final(self).group(hash).len() == values.len() + 1
                    &&& final(self).group(hash).drop_last() == values
                    &&& final(self).layout() == crate::layout::inserted(
                        Probe::Linear,
                        old(self).layout_for(old(self).size() + 1),
                        hash,
                        final(self).group(hash).last(),
                    )
                    &&& final(self).entries().to_multiset()
                        == old(self).entries().to_multiset().insert(
                        (hash, final(self).group(hash).last()),
                    )
                    &&& exists|m: &mut SlotValue|
                        {
                            &&& #[trigger] call_ensures(*old(on_new), (m,), ())
                            &&& *m == SlotValue::zero()
                            &&& *final(m) == final(self).group(hash).last()
                        }
                }
            }),
    {
        let mut ledger: Ledger = Ledger::new();
        proof {
            assert forall|m: &mut SlotValue| call_requires(
                *on_new,
                (m,),
            ) implies #[trigger] crate::callback::may_fill_one(ledger.calls(), *on_new, m) by {
                crate::callback::law_may_fill_one(ledger.calls(), *on_new, m);
            }
            assert forall|v: SlotValue| call_requires(
                *on_match,
                (&v,),
            ) implies #[trigger] crate::callback::may_meet_one(ledger.calls(), *on_match, v) by {
                crate::callback::law_may_meet_one(ledger.calls(), *on_match, v);
            }
        }
        self.emplace_one(hash, key_eq, &mut ledger, on_new, on_match)
    }

    /// The number stored under a key: the first value of the hash.
    pub open spec fn lookup(self, key: u64) -> Option<int> {
        if self.group(key).len() == 0 {
            None
        } else {
            Some(self.group(key)[0].word())
        }
    }

    /// Stores the low 48 bits of a number under a key, in place of what was
    /// stored under it.
    pub fn put(&mut self, key: u64, value: u64)
        requires
            old(self).well_formed(),
            old(self).has_room(old(self).size() + 1),
        ensures
            final(self).well_formed(),
            final(self).calls() == old(self).calls(),
            forall|other: u64|
                other != key && old(self).group(other).len() <= 1 ==> #[trigger] final(self).lookup(
                    other,
                ) == old(self).lookup(other),
            exists|k: int|
                {
                    &&& 0 <= k < final(self).entries().len()
                    &&& (#[trigger] final(self).entries()[k]).0 == key
                    &&& final(self).entries()[k].1.word() == value as int % 0x1_0000_0000_0000
                },
            final(self).lookup(key) == Some((value % VALUE_RANGE) as int),
            value < VALUE_RANGE ==> final(self).lookup(key) == Some(value as int),
            !overloaded(final(self).size(), final(self).slots()),
            10 * final(self).size() <= 9 * final(self).slots(),
            old(self).unique() ==> final(self).unique(),
            forall|other: u64|
                other != key ==> #[trigger] final(self).group(other) == old(self).group_for(
                    old(self).size() + 1,
                    other,
                ),
            final(self).layout() == old(self).layout_put(key, final(self).group(key)[0]),
            old(self).group(key).len() == 0 ==> {
                &&& final(self).group(key).len() == 1
                &&& final(self).size() == old(self).size() + 1
            },
            old(self).group(key).len() > 0 ==> {
                &&& final(self).group(key) == old(self).group_for(
                    old(self).size() + 1,
                    key,
                ).update(0, final(self).group(key)[0])
                &&& final(self).size() == old(self).size()
            },
            final(self).slots() == if overloaded(old(self).size() + 1, old(self).slots()) {
                2 * old(self).slots()
            } else {
                old(self).slots()
            },
    {
        let ghost start = *self;
        self.make_room();
        let ghost roomy = *self;
        let ghost values = start.group_for(start.size() + 1, key);
        assert(self.group(key) == values);
        assert(start.keeps_group(*self, key));
        let mut stored: SlotValue = SlotValue::empty();
        stored.set_ptr(value);
        match self.table.seek(key) {
            Seek::Found { chunk, slot } => {
                self.table.replace_first(chunk, slot, key, stored);
                assert(self.group(key) =~= values.update(0, self.group(key)[0]));
            },
            Seek::Open { chunk } => {
                self.table.insert(chunk, key, stored);
                assert(self.group(key) =~= seq![stored]);
            },
        }
        proof {
            assert forall|other: u64| other != key implies #[trigger] self.group(other)
                == start.group_for(start.size() + 1, other) by {
                assert(roomy.group(other) == start.group_for(start.size() + 1, other));
            }
            assert forall|other: u64|
                other != key && start.group(other).len() <= 1 implies #[trigger] self.lookup(other)
                == start.lookup(other) by {
                assert(start.keeps_group(roomy, other));
                assert(self.group(other) == start.group_for(start.size() + 1, other));
                assert(roomy.group(other) == start.group_for(start.size() + 1, other));
            }
            assert(self.lookup(key) == Some((value % VALUE_RANGE) as int));
            self.law_lookup_is_of_an_entry(key);
            if start.unique() {
                assert forall|other: u64| (#[trigger] self.group(other)).len() <= 1 by {
                    assert(start.keeps_group(roomy, other));
                    assert(start.group(other).len() <= 1);
                }
            }
        }
    }

    /// The number stored under a key.
    pub fn get(&self, key: u64) -> (value: Option<u64>)
        requires
            self.well_formed(),
        ensures
            match value {
                Some(v) => self.lookup(key) == Some(v as int),
                None => self.lookup(key) is None,
            },
            value is None <==> forall|k: int|
                0 <= k < self.entries().len() ==> (#[trigger] self.entries()[k]).0 != key,
            value matches Some(v) ==> self.group(key).len() > 0 && self.group(key)[0].word() == v,
    {
        proof {
            self.law_lookup_is_of_an_entry(key);
        }
        match self.table.seek(key) {
            Seek::Found { chunk, slot } => Some(self.table.value_at(chunk, slot).low_bits()),
            Seek::Open { chunk } => None,
        }
    }

    /// The hashes and values of all taken slots, in table order.
    pub fn iter(&self) -> (entries: Vec<(u64, SlotValue)>)
        requires
            self.well_formed(),
        ensures
            entries@ == self.entries(),
    {
        self.table.list()
    }

    proof fn lemma_batch_adds(self, after: Self, hashes: Seq<u64>)
        requires
            self.well_formed(),
            after.well_formed(),
            hashes.len() <= usize::MAX,
            forall|hash: u64|
                self.present().contains(hash) || !hashes.contains(hash)
                    ==> #[trigger] after.group(hash).to_multiset()
                    == self.group(hash).to_multiset(),
            forall|i: usize|
                i < hashes.len() && !crate::batch::is_update(self.present(), hashes, i as int)
                    ==> after.group(#[trigger] hashes[i as int]).len() == 1,
        ensures
            after.entries().to_multiset() == self.entries().to_multiset().add(
                crate::batch::new_entries(
                    self.present(),
                    hashes,
                    after.first_values(),
                    hashes.len() as int,
                ).to_multiset(),
            ),
    {
        let first = after.first_values();
        assert forall|hash: u64| #[trigger]
            self.present().contains(hash) <==> crate::buckets::values_of(
                self.entries(),
                hash,
            ).len() > 0 by {
            self.law_entries_are_the_groups(hash);
        }
        assert forall|hash: u64|
            self.present().contains(hash) || !hashes.contains(
                hash,
            ) implies #[trigger] crate::buckets::values_of(after.entries(), hash).to_multiset()
            == crate::buckets::values_of(self.entries(), hash).to_multiset() by {
            self.law_entries_are_the_groups(hash);
            after.law_entries_are_the_groups(hash);
            assert(after.group(hash).to_multiset() == self.group(hash).to_multiset());
        }
        assert forall|hash: u64|
            !self.present().contains(hash) && hashes.contains(
                hash,
            ) implies #[trigger] crate::buckets::values_of(after.entries(), hash)
            == seq![first(hash)] by {
            let k = choose|k: int| 0 <= k < hashes.len() && hashes[k] == hash;
            let j = if crate::batch::is_update(self.present(), hashes, k) {
                crate::batch::lemma_first_row(self.present(), hashes, k)
            } else {
                k
            };
            assert(after.group(hashes[(j as usize) as int]).len() == 1);
            after.law_entries_are_the_groups(hash);
            let listed = crate::buckets::values_of(after.entries(), hash);
            listed.to_multiset_ensures();
            after.group(hash).to_multiset_ensures();
            assert(listed.contains(listed[0]));
            assert(after.group(hash).to_multiset().count(listed[0]) > 0);
            assert(after.group(hash).contains(listed[0]));
            assert(listed =~= seq![first(hash)]);
        }
        crate::batch::lemma_batch_adds(
            self.present(),
            hashes,
            first,
            self.entries(),
            after.entries(),
        );
    }

    /// Going through the table meets the values of a hash as often as a search
    /// for the hash does.
    pub proof fn law_entries_are_the_groups(self, hash: u64)
        requires
            self.well_formed(),
        ensures
            crate::buckets::values_of(self.entries(), hash).to_multiset() == self.group(
                hash,
            ).to_multiset(),
            crate::buckets::values_of(self.entries(), hash).len() == self.group(hash).len(),
    {
        self.table.lemma_inv();
        crate::buckets::lemma_listed_is_group(self.table.probe(), self.table.buckets(), hash);
    }

    /// An entry is met as often, going through the table, as its value among
    /// the values of its hash.
    pub proof fn law_entry_counts(self, hash: u64, value: SlotValue)
        requires
            self.well_formed(),
        ensures
            self.entries().to_multiset().count((hash, value)) == self.group(
                hash,
            ).to_multiset().count(value),
    {
        self.law_entries_are_the_groups(hash);
        crate::buckets::lemma_values_of_count(self.entries(), hash, value);
    }

    /// Tables that hold the same values under every hash, each as often, list the
    /// same entries.
    pub proof fn law_same_values_same_entries(self, other: Self)
        requires
            self.well_formed(),
            other.well_formed(),
            forall|hash: u64| #[trigger]
                other.group(hash).to_multiset() == self.group(hash).to_multiset(),
        ensures
            other.entries().to_multiset() == self.entries().to_multiset(),
    {
        let (then, now) = (self.entries().to_multiset(), other.entries().to_multiset());
        assert forall|entry: (u64, SlotValue)| #[trigger] now.count(entry) == then.count(entry) by {
            self.law_entry_counts(entry.0, entry.1);
            other.law_entry_counts(entry.0, entry.1);
            assert(other.group(entry.0).to_multiset() == self.group(entry.0).to_multiset());
        }
        assert(now =~= then);
    }

    /// A table with one more value under a hash lists one more entry.
    pub proof fn law_added_value_is_an_added_entry(self, other: Self, hash: u64, value: SlotValue)
        requires
            self.well_formed(),
            other.well_formed(),
            forall|h: u64|
                h != hash ==> #[trigger] other.group(h).to_multiset()
                    == self.group(h).to_multiset(),
            other.group(hash).to_multiset() == self.group(hash).to_multiset().insert(value),
        ensures
            other.entries().to_multiset() == self.entries().to_multiset().insert((hash, value)),
    {
        let (then, now) = (self.entries().to_multiset(), other.entries().to_multiset());
        assert forall|entry: (u64, SlotValue)| #[trigger]
            now.count(entry) == then.insert((hash, value)).count(entry) by {
            self.law_entry_counts(entry.0, entry.1);
            other.law_entry_counts(entry.0, entry.1);
            if entry.0 != hash {
                assert(other.group(entry.0).to_multiset() == self.group(entry.0).to_multiset());
            }
        }
        assert(now =~= then.insert((hash, value)));
    }

    /// A lookup gives a number exactly if some value is stored under the key: it is
    /// nothing if and only if no entry has the key, and else the number of an
    /// entry with the key.
    pub proof fn law_lookup_is_of_an_entry(self, key: u64)
        requires
            self.well_formed(),
        ensures
            self.lookup(key) is None <==> forall|k: int|
                0 <= k < self.entries().len() ==> (#[trigger] self.entries()[k]).0 != key,
            self.lookup(key) matches Some(number) ==> exists|k: int|
                {
                    &&& 0 <= k < self.entries().len()
                    &&& (#[trigger] self.entries()[k]).0 == key
                    &&& self.entries()[k].1.word() == number
                },
            self.size() == 0 ==> self.lookup(key) is None,
    {
        let listed = crate::buckets::values_of(self.entries(), key);
        let values = self.group(key);
        self.law_entries_are_the_groups(key);
        crate::buckets::lemma_values_of_none(self.entries(), key);
        if values.len() > 0 {
            values.to_multiset_ensures();
            listed.to_multiset_ensures();
            assert(values.contains(values[0]));
            assert(listed.to_multiset().count(values[0]) > 0);
            let j = choose|j: int| 0 <= j < listed.len() && listed[j] == values[0];
            let s = crate::buckets::lemma_values_of_member(self.entries(), key, j);
            assert(self.entries()[s].0 == key);
        }
    }

    /// A hash is present exactly if some entry has it.
    pub proof fn law_present_hashes_have_entries(self, hash: u64)
        requires
            self.well_formed(),
        ensures
            self.present().contains(hash) <==> exists|k: int|
                0 <= k < self.entries().len() && (#[trigger] self.entries()[k]).0 == hash,
            self.group(hash).len() == self.entries().filter(
                |entry: (u64, SlotValue)| entry.0 == hash,
            ).len(),
    {
        self.law_entries_are_the_groups(hash);
        crate::buckets::lemma_values_of_none(self.entries(), hash);
        crate::buckets::lemma_values_of_len(self.entries(), hash);
    }

    /// A table grows exactly if the entries that it is to hold are more than nine tenths
    /// of its slots, and then to the least size, in a power of two of chunks, that is
    /// at least twice as large and holds them at nine tenths.
    pub proof fn law_growth_is_least(self, needed: int, chunks: int)
        requires
            self.well_formed(),
        ensures
            10 * needed <= 9 * self.slots() ==> self.slots_for(needed) == self.slots(),
            10 * needed > 9 * self.slots() ==> {
                &&& self.slots_for(needed) >= 2 * self.slots()
                &&& 10 * needed <= 9 * self.slots_for(needed)
                &&& is_pow2(chunks) && 8 * chunks >= 2 * self.slots() && 10 * needed <= 72 * chunks
                    ==> self.slots_for(needed) <= 8 * chunks
            },
    {
        if 10 * needed > 9 * self.slots() {
            law_grown_table_fits(needed, self.slots());
            crate::table::law_chunks_are_least(grown_capacity(needed, self.slots()), chunks);
        }
    }

    /// The slots come in chunks of eight, of which there are a power of two.
    pub proof fn law_chunks_are_a_power_of_two(self)
        requires
            self.well_formed(),
        ensures
            self.slots() % 8 == 0,
            is_pow2(self.slots() / 8),
    {
        self.table.lemma_inv();
    }

    /// A table that makes room keeps the values of every hash, each as often. A
    /// hash with one value keeps it, and where the table need not grow, the
    /// values keep their order.
    pub proof fn law_room_keeps_the_values(self, needed: int, hash: u64)
        requires
            self.well_formed(),
        ensures
            self.group_for(needed, hash).to_multiset() == self.group(hash).to_multiset(),
            self.group_for(needed, hash).len() == self.group(hash).len(),
            self.group(hash).len() <= 1 ==> self.group_for(needed, hash) == self.group(hash),
            !overloaded(needed, self.slots()) ==> self.group_for(needed, hash) == self.group(hash),
    {
        self.table.lemma_inv();
        crate::buckets::lemma_listed_is_group(self.table.probe(), self.table.buckets(), hash);
    }

    /// What a search meets, the slots and the entries of a table follow from the
    /// entries of its chunks.
    pub proof fn law_layout(self)
        requires
            self.well_formed(),
        ensures
            crate::buckets::well_laid(Probe::Linear, self.layout()),
            self.slots() == 8 * self.layout().len(),
            self.entries() == crate::buckets::entries_of(self.layout()),
            forall|hash: u64| #[trigger]
                self.group(hash) == crate::buckets::group_of(Probe::Linear, self.layout(), hash),
    {
        self.table.lemma_inv();
    }

    /// Moving the entries to a table of any capacity that holds them keeps
    /// everything: the listed entries stay, each as often, and so do the values
    /// of every hash, so that looking up a key gives what it gave wherever no
    /// two values share its hash.
    pub proof fn law_rehash_keeps_everything(self, capacity: int)
        requires
            self.well_formed(),
            self.size() < 8 * crate::table::chunks_for(capacity),
        ensures
            ({
                let chunks = crate::table::chunks_for(capacity) as nat;
                let moved = crate::layout::laid_out(Probe::Linear, chunks, self.entries());
                &&& crate::buckets::well_laid(Probe::Linear, moved)
                &&& moved.len() == chunks
                &&& 8 * moved.len() >= capacity
                &&& crate::buckets::entries_of(moved).len() == self.size()
                &&& crate::buckets::entries_of(moved).to_multiset() == self.entries().to_multiset()
                &&& forall|hash: u64|
                    {
                        let values = #[trigger] crate::buckets::group_of(
                            Probe::Linear,
                            moved,
                            hash,
                        );
                        &&& values.to_multiset() == self.group(hash).to_multiset()
                        &&& values.len() == self.group(hash).len()
                        &&& self.group(hash).len() <= 1 ==> values == self.group(hash)
                    }
            }),
    {
        let chunks = crate::table::chunks_for(capacity) as nat;
        let moved = crate::layout::laid_out(Probe::Linear, chunks, self.entries());
        self.law_layout();
        crate::table::lemma_chunks_for(capacity);
        crate::layout::law_laid_out(Probe::Linear, chunks, self.entries());
        assert forall|hash: u64|
            {
                let values = #[trigger] crate::buckets::group_of(Probe::Linear, moved, hash);
                &&& values.to_multiset() == self.group(hash).to_multiset()
                &&& values.len() == self.group(hash).len()
                &&& self.group(hash).len() <= 1 ==> values == self.group(hash)
            } by {
            crate::buckets::lemma_listed_is_group(Probe::Linear, self.layout(), hash);
        }
    }

    proof fn lemma_layout_for(self, needed: int)
        requires
            self.well_formed(),
            self.size() <= needed,
        ensures
            crate::buckets::well_laid(Probe::Linear, self.layout_for(needed)),
            8 * self.layout_for(needed).len() == self.slots_for(needed),
            crate::buckets::entries_of(self.layout_for(needed)).len() == self.size(),
            crate::buckets::entries_of(self.layout_for(needed)).to_multiset()
                == self.entries().to_multiset(),
            needed < self.slots_for(needed),
            self.slots() <= self.slots_for(needed),
            forall|hash: u64| #[trigger]
                crate::buckets::group_of(Probe::Linear, self.layout_for(needed), hash)
                    == self.group_for(needed, hash),
    {
        self.law_layout();
        self.table.lemma_inv();
        if overloaded(needed, self.slots()) {
            let capacity = grown_capacity(needed, self.slots());
            crate::table::lemma_chunks_for(capacity);
            law_grown_table_fits(needed, self.slots());
            crate::layout::law_laid_out(
                Probe::Linear,
                crate::table::chunks_for(capacity) as nat,
                self.entries(),
            );
        }
    }

    /// A batch of any size, whatever `first` gives the new rows, leaves what the
    /// table held and one entry for each new row: as many slots and entries as
    /// counted, at a load of at most nine tenths, under a hash that was present
    /// the values that it had, and under a new one the value of its row. Where
    /// no two values shared a hash, none do after it.
    pub proof fn law_batch_layout(self, hashes: Seq<u64>, first: spec_fn(u64) -> SlotValue)
        requires
            self.well_formed(),
        ensures
            ({
                let needed = self.size() + hashes.len();
                let n = hashes.len() as int;
                let after = self.layout_after(hashes, first);
                let entries = crate::buckets::entries_of(after);
                let updates = crate::batch::updates(self.present(), hashes, n);
                &&& crate::buckets::well_laid(Probe::Linear, after)
                &&& 8 * after.len() == self.slots_for(needed)
                &&& entries.len() == needed - updates.len()
                &&& entries.to_multiset() == self.entries().to_multiset().add(
                    crate::batch::new_entries(self.present(), hashes, first, n).to_multiset(),
                )
                &&& forall|hash: u64|
                    {
                        let values = #[trigger] crate::buckets::group_of(
                            Probe::Linear,
                            after,
                            hash,
                        );
                        &&& if self.present().contains(hash) || !hashes.contains(hash) {
                            values == self.group_for(needed, hash)
                        } else {
                            values == seq![first(hash)]
                        }
                        &&& self.unique() ==> values.len() <= 1
                    }
            }),
    {
        let needed = self.size() + hashes.len();
        let n = hashes.len() as int;
        let roomy = self.layout_for(needed);
        let after = self.layout_after(hashes, first);
        let entries = crate::buckets::entries_of(after);
        self.law_layout();
        self.lemma_layout_for(needed);
        assert(hashes.take(n) =~= hashes);
        assert forall|hash: u64| #[trigger]
            self.present().contains(hash) <==> crate::buckets::group_of(
                Probe::Linear,
                roomy,
                hash,
            ).len() > 0 by {
            self.law_room_keeps_the_values(needed, hash);
        }
        lemma_rows_added(roomy, self.present(), hashes, first, n);
        assert forall|hash: u64|
            {
                let values = #[trigger] crate::buckets::group_of(Probe::Linear, after, hash);
                &&& if self.present().contains(hash) || !hashes.contains(hash) {
                    values == self.group_for(needed, hash)
                } else {
                    values == seq![first(hash)]
                }
                &&& self.unique() ==> values.len() <= 1
            } by {
            assert(crate::buckets::group_of(Probe::Linear, roomy, hash) == self.group_for(
                needed,
                hash,
            ));
            self.law_room_keeps_the_values(needed, hash);
        }
        assert forall|hash: u64| #[trigger]
            self.present().contains(hash) <==> crate::buckets::values_of(
                self.entries(),
                hash,
            ).len() > 0 by {
            self.law_entries_are_the_groups(hash);
        }
        assert forall|hash: u64|
            self.present().contains(hash) || !hashes.contains(
                hash,
            ) implies #[trigger] crate::buckets::values_of(entries, hash).to_multiset()
            == crate::buckets::values_of(self.entries(), hash).to_multiset() by {
            self.law_entries_are_the_groups(hash);
            self.law_room_keeps_the_values(needed, hash);
            crate::buckets::lemma_listed_is_group(Probe::Linear, after, hash);
        }
        assert forall|hash: u64|
            !self.present().contains(hash) && hashes.contains(
                hash,
            ) implies #[trigger] crate::buckets::values_of(entries, hash)
            == seq![first(hash)] by {
            crate::buckets::lemma_listed_is_group(Probe::Linear, after, hash);
        }
        crate::batch::lemma_batch_adds(self.present(), hashes, first, self.entries(), entries);
    }

    /// Putting a value under a key makes it the first that a search for the key
    /// meets, and leaves the values of every other key. The table never shrinks,
    /// it has one entry more exactly if the key was not there, and where no two
    /// values shared a hash, none do after it.
    pub proof fn law_put_layout(self, key: u64, value: SlotValue)
        requires
            self.well_formed(),
        ensures
            ({
                let after = self.layout_put(key, value);
                &&& crate::buckets::well_laid(Probe::Linear, after)
                &&& 8 * after.len() == self.slots_for(self.size() + 1)
                &&& 8 * after.len() >= self.slots()
                &&& crate::buckets::entries_of(after).len() == self.size() + (
                if self.present().contains(key) {
                    0int
                } else {
                    1int
                })
                &&& crate::buckets::group_of(Probe::Linear, after, key).len() > 0
                &&& crate::buckets::group_of(Probe::Linear, after, key)[0] == value
                &&& forall|other: u64|
                    other != key ==> #[trigger] crate::buckets::group_of(
                        Probe::Linear,
                        after,
                        other,
                    ) == self.group_for(self.size() + 1, other)
                &&& self.unique() ==> forall|hash: u64|
                    (#[trigger] crate::buckets::group_of(Probe::Linear, after, hash)).len() <= 1
            }),
    {
        let needed = self.size() + 1;
        let roomy = self.layout_for(needed);
        let after = self.layout_put(key, value);
        self.law_layout();
        self.lemma_layout_for(needed);
        self.law_room_keeps_the_values(needed, key);
        assert(crate::buckets::group_of(Probe::Linear, roomy, key) == self.group_for(needed, key));
        if self.present().contains(key) {
            crate::layout::lemma_replaced(Probe::Linear, roomy, key, value);
        } else {
            crate::layout::lemma_inserted(Probe::Linear, roomy, key, value);
        }
        assert forall|other: u64| other != key implies #[trigger] crate::buckets::group_of(
            Probe::Linear,
            after,
            other,
        ) == self.group_for(needed, other) by {
            assert(crate::buckets::group_of(Probe::Linear, roomy, other) == self.group_for(
                needed,
                other,
            ));
        }
        if self.unique() {
            assert forall|hash: u64|
                (#[trigger] crate::buckets::group_of(Probe::Linear, after, hash)).len() <= 1 by {
                self.law_room_keeps_the_values(needed, hash);
                assert(self.group(hash).len() <= 1);
            }
        }
    }

    /// There is always an empty slot, so that every search ends.
    pub proof fn law_never_full(self)
        requires
            self.well_formed(),
        ensures
            self.size() < self.slots(),
    {
    }
}

} // verus!
