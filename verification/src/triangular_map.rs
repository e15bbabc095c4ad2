//! A hash table for aggregation whose probe steps grow by one each time.
//!
//! It differs from the linearly probed table in when it grows: a batch checks
//! before each row whether nine tenths of the slots are taken, and emplacing a
//! single row never grows the table.

use vstd::arithmetic::power2::*;
use vstd::prelude::*;

use crate::callback::Call;
use crate::callback::Ledger;
use crate::probe::Probe;
use crate::slot_value::SlotValue;
use crate::table::capacity_to_num_chunks;
use crate::table::Seek;
use crate::table::Table;

verus! {

/// Whether at least nine tenths of the slots are taken.
pub open spec fn loaded(size: int, slots: int) -> bool {
    size * 10 >= slots * 9
}

/// The number of slots after the check for growth.
pub open spec fn grown(size: int, slots: int) -> int {
    if loaded(size, slots) {
        2 * slots
    } else {
        slots
    }
}

/// The entries of each chunk after the check for growth. A table that grows takes
/// its entries over in table order.
pub open spec fn grown_layout(buckets: Seq<Seq<(u64, SlotValue)>>) -> Seq<Seq<(u64, SlotValue)>> {
    let entries = crate::buckets::entries_of(buckets);
    if loaded(entries.len() as int, (8 * buckets.len()) as int) {
        crate::layout::laid_out(Probe::Triangular, 2 * buckets.len(), entries)
    } else {
        buckets
    }
}

/// A layout that grows, and one that need not, keep the values of every hash.
proof fn lemma_bigger(buckets: Seq<Seq<(u64, SlotValue)>>)
    requires
        crate::buckets::well_laid(Probe::Triangular, buckets),
    ensures
        ({
            let entries = crate::buckets::entries_of(buckets);
            let bigger = crate::layout::laid_out(Probe::Triangular, 2 * buckets.len(), entries);
            &&& crate::buckets::well_laid(Probe::Triangular, bigger)
            &&& bigger.len() == 2 * buckets.len()
            &&& entries.len() <= 8 * buckets.len()
            &&& buckets.len() >= 1
            &&& crate::buckets::entries_of(bigger).len() == entries.len()
            &&& crate::buckets::entries_of(bigger).to_multiset() == entries.to_multiset()
            &&& forall|hash: u64|
                {
                    let values = #[trigger] crate::buckets::group_of(
                        Probe::Triangular,
                        bigger,
                        hash,
                    );
                    let old_values = crate::buckets::group_of(Probe::Triangular, buckets, hash);
                    &&& values.to_multiset() == old_values.to_multiset()
                    &&& values.len() == old_values.len()
                    &&& old_values.len() <= 1 ==> values == old_values
                }
        }),
{
    let entries = crate::buckets::entries_of(buckets);
    let bigger = crate::layout::laid_out(Probe::Triangular, 2 * buckets.len(), entries);
    assert(is_pow2((2 * buckets.len()) as int) && buckets.len() >= 1) by {
        reveal(is_pow2);
    }
    crate::buckets::lemma_entries_bound(buckets, buckets.len() as int);
    crate::layout::law_laid_out(Probe::Triangular, 2 * buckets.len(), entries);
    assert forall|hash: u64|
        {
            let values = #[trigger] crate::buckets::group_of(Probe::Triangular, bigger, hash);
            let old_values = crate::buckets::group_of(Probe::Triangular, buckets, hash);
            &&& values.to_multiset() == old_values.to_multiset()
            &&& values.len() == old_values.len()
            &&& old_values.len() <= 1 ==> values == old_values
        } by {
        crate::buckets::lemma_listed_is_group(Probe::Triangular, buckets, hash);
    }
}

/// A hash table with triangular probing over its chunks.
pub struct TaperHashMap {
    table: Table,
    ledger: Ledger,
}

impl TaperHashMap {
    /// The invariant: a sound table.
    pub closed spec fn well_formed(self) -> bool {
        &&& self.table.inv()
        &&& self.table.probe() == Probe::Triangular
    }

    /// The runs of callbacks that batches made, in order.
    pub closed spec fn calls(self) -> Seq<Call> {
        self.ledger.calls()
    }

    /// The entries of each chunk, in slot order.
    pub closed spec fn layout(self) -> Seq<Seq<(u64, SlotValue)>> {
        self.table.buckets()
    }

    /// The values with this hash, in the order in which a search meets them.
    pub closed spec fn group(self, hash: u64) -> Seq<SlotValue> {
        self.table.group(hash)
    }

    /// The number of slots.
    pub closed spec fn slots(self) -> int {
        self.table.slots()
    }

    /// The hashes and values of the taken slots, in table order.
    pub closed spec fn entries(self) -> Seq<(u64, SlotValue)> {
        self.table.entries()
    }

    /// The number of taken slots.
    pub open spec fn size(self) -> int {
        self.entries().len() as int
    }

    /// The value that a search for a hash meets first.
    pub open spec fn first_values(self) -> spec_fn(u64) -> SlotValue {
        |hash: u64| self.group(hash)[0]
    }

    /// The hashes with a value.
    pub open spec fn present(self) -> Set<u64> {
        Set::new(|hash: u64| self.group(hash).len() > 0)
    }

    /// The number of taken slots after the first `n` rows of a batch.
    pub open spec fn size_after(self, hashes: Seq<u64>, n: int) -> int {
        self.size() + n - crate::batch::updates(self.present(), hashes, n).len()
    }

    /// The number of slots after the first `n` rows of a batch.
    pub open spec fn slots_after(self, hashes: Seq<u64>, n: int) -> int
        decreases n,
    {
        if n <= 0 {
            self.slots()
        } else {
            grown(self.size_after(hashes, n - 1), self.slots_after(hashes, n - 1))
        }
    }

    /// Whether a group of this table is also there in `other`: the same values,
    /// each as often, and in the same order unless the table grew.
    pub open spec fn keeps_group(self, other: Self, hash: u64) -> bool {
        &&& other.group(hash).to_multiset() == self.group(hash).to_multiset()
        &&& other.group(hash).len() == self.group(hash).len()
        &&& (other.slots() == self.slots() || self.group(hash).len() <= 1) ==> other.group(hash)
            == self.group(hash)
    }

    /// The values with this hash after the check for growth.
    pub open spec fn grown_group(self, hash: u64) -> Seq<SlotValue> {
        crate::buckets::group_of(Probe::Triangular, grown_layout(self.layout()), hash)
    }

    /// The entries of each chunk after the first `n` rows of a batch. Before each
    /// row the table grows if it is loaded; a new row then adds an entry with the
    /// value that `first` gives its hash.
    pub open spec fn layout_after(
        self,
        hashes: Seq<u64>,
        first: spec_fn(u64) -> SlotValue,
        n: int,
    ) -> Seq<Seq<(u64, SlotValue)>>
        decreases n,
    {
        if n <= 0 {
            self.layout()
        } else {
            let grown = grown_layout(self.layout_after(hashes, first, n - 1));
            let hash = hashes[n - 1];
            if crate::batch::is_update(self.present(), hashes, n - 1) {
                grown
            } else {
                crate::layout::inserted(Probe::Triangular, grown, hash, first(hash))
            }
        }
    }

    /// The value that row `i` of a batch meets: the first of its hash once the
    /// table has grown for the row.
    pub open spec fn met(
        self,
        hashes: Seq<u64>,
        first: spec_fn(u64) -> SlotValue,
        i: int,
    ) -> SlotValue {
        crate::buckets::group_of(
            Probe::Triangular,
            self.layout_after(hashes, first, i + 1),
            hashes[i],
        )[0]
    }

    /// A table with 128 slots.
    pub fn new() -> (map: Self)
        ensures
            map.well_formed(),
            map.calls() == Seq::<Call>::empty(),
            map.slots() == 128,
            map.size() == 0,
            forall|hash: u64| #[trigger] map.group(hash) == Seq::<SlotValue>::empty(),
    {
        proof {
            assert(is_pow2(16)) by {
                reveal_with_fuel(is_pow2, 6);
            }
            crate::table::law_next_power_is_least(16, 16);
        }
        Self::with_capacity(128)
    }

    /// A table with room for at least `min_capacity` slots, in a power of two of
    /// chunks.
    pub fn with_capacity(min_capacity: usize) -> (map: Self)
        requires
            crate::table::fits(min_capacity as int),
        ensures
            map.well_formed(),
            map.calls() == Seq::<Call>::empty(),
            map.slots() == 8 * crate::table::chunks_for(min_capacity as int),
            map.slots() >= min_capacity,
            map.size() == 0,
            forall|hash: u64| #[trigger] map.group(hash) == Seq::<SlotValue>::empty(),
    {
        let count: usize = capacity_to_num_chunks(min_capacity);
        TaperHashMap { table: Table::with_chunks(count, Probe::Triangular), ledger: Ledger::new() }
    }

    /// The number of taken slots.
    pub fn len(&self) -> (n: usize)
        requires
            self.well_formed(),
        ensures
            n == self.size(),
    {
        self.table.len()
    }

    /// The number of slots.
    pub fn capacity(&self) -> (n: usize)
        requires
            self.well_formed(),
        ensures
            n == self.slots(),
    {
        self.table.capacity()
    }

    /// Whether at least nine tenths of the slots are taken.
    fn should_expand(&self) -> (expand: bool)
        requires
            self.well_formed(),
        ensures
            expand <==> loaded(self.size(), self.slots()),
    {
        (self.table.len() as u128) * 10 >= (self.table.capacity() as u128) * 9
    }

    /// Doubles the table and moves all entries.
    fn expand(&mut self)
        requires
            old(self).well_formed(),
            crate::table::allocatable(2 * old(self).slots() / 8),
        ensures
            final(self).well_formed(),
            final(self).calls() == old(self).calls(),
            final(self).slots() == 2 * old(self).slots(),
            final(self).size() == old(self).size(),
            final(self).layout() == crate::layout::laid_out(
                Probe::Triangular,
                2 * old(self).layout().len(),
                old(self).entries(),
            ),
            final(self).entries().to_multiset() == old(self).entries().to_multiset(),
            forall|hash: u64| #[trigger]
                final(self).group(hash) == crate::buckets::values_of(old(self).entries(), hash),
            forall|hash: u64| old(self).keeps_group(*final(self), hash),
    {
        let ghost before = self.table;
        proof {
            self.table.lemma_inv();
            assert(is_pow2(2 * self.slots() / 8)) by {
                reveal(is_pow2);
            }
        }
        let count: usize = self.table.capacity() / 8 * 2;
        self.table.rehash(count);
        proof {
            before.lemma_inv();
            assert forall|hash: u64| old(self).keeps_group(*self, hash) by {
                assert(self.table.group(hash) == crate::buckets::listed(before.buckets(), hash));
                crate::buckets::lemma_listed_is_group(before.probe(), before.buckets(), hash);
            }
        }
    }

    /// Emplaces one row of a batch by its hash, and tells whether the hash was
    /// there already.
    fn emplace_row<N: FnMut(usize, &mut SlotValue), E: FnMut(usize, &SlotValue)>(
        &mut self,
        hash: u64,
        row: usize,
        on_new: &mut N,
        on_existing: &mut E,
    ) -> (existing: bool)
        requires
            old(self).well_formed(),
            crate::table::allocatable(grown(old(self).size(), old(self).slots()) / 8),
            forall|m: &mut SlotValue|
                old(self).group(hash).len() == 0 && *m == SlotValue::zero()
                    ==> #[trigger] crate::callback::may_fill(
                    old(self).calls(),
                    *old(on_new),
                    row,
                    m,
                ),
            old(self).group(hash).len() > 0 ==> crate::callback::may_meet(
                old(self).calls(),
                *old(on_existing),
                row,
                old(self).grown_group(hash)[0],
            ),
        ensures
            final(self).well_formed(),
            final(self).slots() == grown(old(self).size(), old(self).slots()),
            final(self).layout() == if existing {
                grown_layout(old(self).layout())
            } else {
                crate::layout::inserted(
                    Probe::Triangular,
                    grown_layout(old(self).layout()),
                    hash,
                    final(self).group(hash)[0],
                )
            },
            *final(on_new) == *old(on_new),
            *final(on_existing) == *old(on_existing),
            existing <==> old(self).group(hash).len() > 0,
            final(self).calls() == old(self).calls().push(
                if existing {
                    Call::Met(row)
                } else {
                    Call::Filled(row)
                },
            ),
            existing ==> {
                &&& final(self).size() == old(self).size()
                &&& old(self).keeps_group(*final(self), hash)
                &&& call_ensures(*old(on_existing), (row, &final(self).group(hash)[0]), ())
            },
            !existing ==> {
                &&& final(self).size() == old(self).size() + 1
                &&& final(self).group(hash).len() == 1
                &&& exists|m: &mut SlotValue|
                    {
                        &&& #[trigger] call_ensures(*old(on_new), (row, m), ())
                        &&& *m == SlotValue::zero()
                        &&& *final(m) == final(self).group(hash)[0]
                    }
            },
            forall|other: u64| other != hash ==> old(self).keeps_group(*final(self), other),
    {
        let ghost start = *self;
        proof {
            self.table.lemma_inv();
        }
        if self.should_expand() {
            self.expand();
        }
        let ghost roomy = *self;
        assert(start.keeps_group(roomy, hash));
        match self.table.seek(hash) {
            Seek::Found { chunk, slot } => {
                let value: &SlotValue = self.table.value_at(chunk, slot);
                assert(*value == start.grown_group(hash)[0]);
                proof {
                    crate::callback::lemma_meet_by_reference(
                        self.ledger.calls(),
                        *on_existing,
                        row,
                    );
                }
                self.ledger.meet(&mut *on_existing, row, value);
                proof {
                    assert forall|other: u64| start.keeps_group(*self, other) by {
                        assert(start.keeps_group(roomy, other));
                        assert(self.group(other) == roomy.group(other));
                    }
                }
                true
            },
            Seek::Open { chunk } => {
                proof {
                    assert(self.group(hash).len() == 0);
                    assert forall|m: &mut SlotValue|
                        *m == SlotValue::zero() implies #[trigger] crate::callback::may_fill(
                        self.ledger.calls(),
                        *on_new,
                        row,
                        m,
                    ) by {
                        assert(crate::callback::may_fill(start.calls(), *on_new, row, m));
                    }
                }
                proof {
                    crate::callback::lemma_fill_by_reference(self.ledger.calls(), *on_new, row);
                }
                let value: SlotValue = self.ledger.fill(&mut *on_new, row);
                self.table.insert(chunk, hash, value);
                proof {
                    assert(self.group(hash) =~= seq![value]);
                    assert forall|other: u64| other != hash implies start.keeps_group(
                        *self,
                        other,
                    ) by {
                        assert(start.keeps_group(roomy, other));
                        assert(self.group(other) == roomy.group(other));
                    }
                }
                false
            },
        }
    }

    /// What a search meets, the slots and the entries of a table follow from the
    /// entries of its chunks.
    pub proof fn law_layout(self)
        requires
            self.well_formed(),
        ensures
            crate::buckets::well_laid(Probe::Triangular, self.layout()),
            self.slots() == 8 * self.layout().len(),
            self.entries() == crate::buckets::entries_of(self.layout()),
            forall|hash: u64| #[trigger]
                self.group(hash) == crate::buckets::group_of(
                    Probe::Triangular,
                    self.layout(),
                    hash,
                ),
    {
        self.table.lemma_inv();
    }

    /// Growing keeps everything: the slots double, the listed entries stay, each
    /// as often, and so do the values of every hash, also where several share it.
    pub proof fn law_growth_keeps_everything(self)
        requires
            self.well_formed(),
        ensures
            ({
                let bigger = crate::layout::laid_out(
                    Probe::Triangular,
                    2 * self.layout().len(),
                    self.entries(),
                );
                &&& crate::buckets::well_laid(Probe::Triangular, bigger)
                &&& 8 * bigger.len() == 2 * self.slots()
                &&& crate::buckets::entries_of(bigger).len() == self.size()
                &&& crate::buckets::entries_of(bigger).to_multiset() == self.entries().to_multiset()
                &&& forall|hash: u64|
                    {
                        let values = #[trigger] crate::buckets::group_of(
                            Probe::Triangular,
                            bigger,
                            hash,
                        );
                        &&& values.to_multiset() == self.group(hash).to_multiset()
                        &&& values.len() == self.group(hash).len()
                        &&& self.group(hash).len() <= 1 ==> values == self.group(hash)
                    }
            }),
    {
        self.law_layout();
        self.table.lemma_inv();
        lemma_bigger(self.layout());
    }

    /// The layout after a batch holds what the table held and the new rows,
    /// however often it grew: as many slots and entries as counted, under a hash
    /// that was present the values that it had, each as often, and under a new
    /// one the value of its first row.
    pub proof fn law_batch_layout(
        self,
        hashes: Seq<u64>,
        first: spec_fn(u64) -> SlotValue,
        n: int,
    )
        requires
            self.well_formed(),
            0 <= n <= hashes.len(),
        ensures
            ({
                let buckets = self.layout_after(hashes, first, n);
                &&& crate::buckets::well_laid(Probe::Triangular, buckets)
                &&& 8 * buckets.len() == self.slots_after(hashes, n)
                &&& crate::buckets::entries_of(buckets).len() == self.size_after(hashes, n)
                &&& forall|hash: u64|
                    {
                        let values = #[trigger] crate::buckets::group_of(
                            Probe::Triangular,
                            buckets,
                            hash,
                        );
                        if self.present().contains(hash) {
                            &&& values.to_multiset() == self.group(hash).to_multiset()
                            &&& values.len() == self.group(hash).len()
                            &&& (self.group(hash).len() <= 1 || self.slots_after(hashes, n)
                                == self.slots()) ==> values == self.group(hash)
                        } else if hashes.take(n).contains(hash) {
                            values == seq![first(hash)]
                        } else {
                            values == Seq::<SlotValue>::empty()
                        }
                    }
            }),
        decreases n,
    {
        self.law_layout();
        self.table.lemma_inv();
        if n == 0 {
            assert forall|hash: u64| !self.present().contains(
                hash,
            ) implies #[trigger] crate::buckets::group_of(Probe::Triangular, self.layout(), hash)
                == Seq::<SlotValue>::empty() by {
                assert(self.group(hash).len() == 0);
            }
        } else {
            self.law_batch_layout(hashes, first, n - 1);
            self.lemma_slots_monotone(hashes, 0, n - 1);
            self.lemma_slots_monotone(hashes, n - 1, n);
            crate::batch::lemma_is_update(self.present(), hashes, n - 1);
            let then = self.layout_after(hashes, first, n - 1);
            let grown = grown_layout(then);
            let hash = hashes[n - 1];
            lemma_bigger(then);
            crate::batch::lemma_take_next(hashes, n);
            if !crate::batch::is_update(self.present(), hashes, n - 1) {
                crate::layout::lemma_inserted(Probe::Triangular, grown, hash, first(hash));
                assert(crate::buckets::group_of(Probe::Triangular, then, hash).len() == 0);
                assert(crate::buckets::group_of(
                    Probe::Triangular,
                    self.layout_after(hashes, first, n),
                    hash,
                ) =~= seq![first(hash)]);
            }
            assert forall|h: u64|
                {
                    let values = #[trigger] crate::buckets::group_of(
                        Probe::Triangular,
                        self.layout_after(hashes, first, n),
                        h,
                    );
                    if self.present().contains(h) {
                        &&& values.to_multiset() == self.group(h).to_multiset()
                        &&& values.len() == self.group(h).len()
                        &&& (self.group(h).len() <= 1 || self.slots_after(hashes, n)
                            == self.slots()) ==> values == self.group(h)
                    } else if hashes.take(n).contains(h) {
                        values == seq![first(h)]
                    } else {
                        values == Seq::<SlotValue>::empty()
                    }
                } by {
                let old_values = crate::buckets::group_of(Probe::Triangular, then, h);
                let new_values = crate::buckets::group_of(Probe::Triangular, grown, h);
                assert(new_values.to_multiset() == old_values.to_multiset());
            }
        }
    }

    proof fn lemma_layout_agrees(
        self,
        hashes: Seq<u64>,
        f: spec_fn(u64) -> SlotValue,
        g: spec_fn(u64) -> SlotValue,
        n: int,
    )
        requires
            0 <= n <= hashes.len(),
            forall|j: int|
                0 <= j < n && !crate::batch::is_update(self.present(), hashes, j) ==> f(
                    #[trigger] hashes[j],
                ) == g(hashes[j]),
        ensures
            self.layout_after(hashes, f, n) == self.layout_after(hashes, g, n),
        decreases n,
    {
        if n > 0 {
            self.lemma_layout_agrees(hashes, f, g, n - 1);
            if !crate::batch::is_update(self.present(), hashes, n - 1) {
                assert(f(hashes[n - 1]) == g(hashes[n - 1]));
            }
        }
    }

    /// The layout after some rows of a batch is that of a table: a row is an
    /// update exactly if its hash is there, and a new row left a single value.
    proof fn lemma_in_batch(
        self,
        now: Self,
        hashes: Seq<u64>,
        first: spec_fn(u64) -> SlotValue,
        n: int,
    )
        requires
            self.well_formed(),
            now.well_formed(),
            0 <= n <= hashes.len(),
            now.layout() == self.layout_after(hashes, first, n),
        ensures
            now.size() == self.size_after(hashes, n),
            now.slots() == self.slots_after(hashes, n),
            n < hashes.len() ==> (now.group(hashes[n]).len() > 0 <==> crate::batch::is_update(
                self.present(),
                hashes,
                n,
            )),
            forall|j: int|
                0 <= j < n && !crate::batch::is_update(self.present(), hashes, j) ==> now.group(
                    #[trigger] hashes[j],
                ) == seq![first(hashes[j])],
            forall|j: int| 0 <= j < n ==> now.group(#[trigger] hashes[j]).len() > 0,
            forall|hash: u64|
                self.present().contains(hash) || !hashes.take(n).contains(hash)
                    ==> #[trigger] self.keeps_group(now, hash),
    {
        self.law_batch_layout(hashes, first, n);
        now.law_layout();
        if n < hashes.len() {
            crate::batch::lemma_is_update(self.present(), hashes, n);
        }
        assert forall|j: int| 0 <= j < n implies now.group(#[trigger] hashes[j]).len() > 0 by {
            assert(hashes.take(n)[j] == hashes[j]);
        }
        assert forall|j: int|
            0 <= j < n && !crate::batch::is_update(self.present(), hashes, j) implies now.group(
            #[trigger] hashes[j],
        ) == seq![first(hashes[j])] by {
            crate::batch::lemma_is_update(self.present(), hashes, j);
            assert(hashes.take(n)[j] == hashes[j]);
        }
        assert forall|hash: u64|
            self.present().contains(hash) || !hashes.take(n).contains(
                hash,
            ) implies #[trigger] self.keeps_group(now, hash) by {
            if !self.present().contains(hash) {
                assert(self.group(hash) =~= Seq::<SlotValue>::empty());
                assert(now.group(hash) =~= Seq::<SlotValue>::empty());
            } else {
                assert(now.group(hash).to_multiset() == self.group(hash).to_multiset());
            }
        }
    }

    /// What an update row of a batch meets is a value of its hash: one that was
    /// there, and the first of these if it is the only one or if the table has
    /// not grown, or the value of the row that brought the hash.
    pub proof fn law_met_value_is_stored(
        self,
        hashes: Seq<u64>,
        first: spec_fn(u64) -> SlotValue,
        i: int,
    )
        requires
            self.well_formed(),
            0 <= i < hashes.len(),
            crate::batch::is_update(self.present(), hashes, i),
        ensures
            ({
                let values = self.group(hashes[i]);
                if self.present().contains(hashes[i]) {
                    &&& values.contains(self.met(hashes, first, i))
                    &&& (values.len() == 1 || self.slots_after(hashes, i + 1) == self.slots())
                        ==> self.met(hashes, first, i) == values[0]
                } else {
                    self.met(hashes, first, i) == first(hashes[i])
                }
            }),
    {
        let values = crate::buckets::group_of(
            Probe::Triangular,
            self.layout_after(hashes, first, i + 1),
            hashes[i],
        );
        self.law_batch_layout(hashes, first, i + 1);
        if self.present().contains(hashes[i]) {
            values.to_multiset_ensures();
            self.group(hashes[i]).to_multiset_ensures();
            assert(values.len() > 0);
            assert(values.contains(values[0]));
            assert(self.group(hashes[i]).to_multiset().count(values[0]) > 0);
        } else {
            assert(hashes.take(i + 1)[i] == hashes[i]);
        }
    }

    proof fn lemma_slots_monotone(self, hashes: Seq<u64>, m: int, n: int)
        requires
            0 <= m <= n,
            self.slots() >= 0,
        ensures
            0 <= self.slots() <= self.slots_after(hashes, m) <= self.slots_after(hashes, n),
        decreases n,
    {
        if m < n {
            self.lemma_slots_monotone(hashes, m, n - 1);
        } else if 0 < n {
            self.lemma_slots_monotone(hashes, 0, n - 1);
        }
    }

    /// A batch grows the table to no more than twice the slots that its entries
    /// fill at nine tenths.
    pub proof fn law_growth_is_bounded(self, hashes: Seq<u64>, n: int)
        requires
            0 <= n,
        ensures
            ({
                ||| self.slots_after(hashes, n) == self.slots()
                ||| self.slots_after(hashes, n) * 9 <= 20 * (self.size() + n)
            }),
        decreases n,
    {
        if n > 0 {
            self.law_growth_is_bounded(hashes, n - 1);
        }
    }

    /// Whether the chunks that a batch makes the table grow to can be allocated.
    /// The first line is enough, and easily seen.
    pub open spec fn has_room(self, hashes: Seq<u64>) -> bool {
        ||| 320 * (self.size() + hashes.len()) <= 9 * isize::MAX
        ||| crate::table::allocatable(self.slots_after(hashes, hashes.len() as int) / 8)
    }

    /// Emplaces the rows of a batch, with a record of the callbacks that ran.
    #[verifier::spinoff_prover]
    #[verifier::rlimit(60)]
    fn emplace_rows<N: FnMut(usize, &mut SlotValue), E: FnMut(usize, &SlotValue)>(
        &mut self,
        hashes: &[u64],
        on_new: &mut N,
        on_existing: &mut E,
    ) -> (update_indices: Vec<usize>)
        requires
            old(self).well_formed(),
            old(self).has_room(hashes@),
            forall|i: usize, m: &mut SlotValue|
                i < hashes@.len() && !crate::batch::is_update(
                    old(self).present(),
                    hashes@,
                    i as int,
                ) && *m == SlotValue::zero() ==> #[trigger] crate::callback::may_fill(
                    old(self).calls() + crate::batch::calls_for(
                        old(self).present(),
                        hashes@,
                        i as int,
                    ),
                    *old(on_new),
                    i,
                    m,
                ),
            forall|i: usize, v: SlotValue|
                i < hashes@.len() && crate::batch::is_update(
                    old(self).present(),
                    hashes@,
                    i as int,
                ) && ({
                    if old(self).present().contains(hashes@[i as int]) {
                        exists|first: spec_fn(u64) -> SlotValue|
                            v == #[trigger] old(self).met(hashes@, first, i as int)
                    } else {
                        exists|j: usize, m: &mut SlotValue|
                            {
                                &&& #[trigger] call_ensures(*old(on_new), (j, m), ())
                                &&& j < i
                                &&& hashes@[j as int] == hashes@[i as int]
                                &&& *m == SlotValue::zero()
                                &&& *final(m) == v
                            }
                    }
                }) ==> #[trigger] crate::callback::may_meet(
                    old(self).calls() + crate::batch::calls_for(
                        old(self).present(),
                        hashes@,
                        i as int,
                    ),
                    *old(on_existing),
                    i,
                    v,
                ),
        ensures
            final(self).well_formed(),
            update_indices@ == crate::batch::updates(
                old(self).present(),
                hashes@,
                hashes@.len() as int,
            ),
            final(self).size() == old(self).size_after(hashes@, hashes@.len() as int),
            final(self).slots() == old(self).slots_after(hashes@, hashes@.len() as int),
            final(self).entries().to_multiset() == old(self).entries().to_multiset().add(
                crate::batch::new_entries(
                    old(self).present(),
                    hashes@,
                    final(self).first_values(),
                    hashes@.len() as int,
                ).to_multiset(),
            ),
            forall|i: int|
                0 <= i < hashes@.len() ==> final(self).present().contains(#[trigger] hashes@[i]),
            forall|hash: u64|
                old(self).present().contains(hash) || !hashes@.contains(hash)
                    ==> #[trigger] old(self).keeps_group(*final(self), hash),
            forall|i: usize|
                i < hashes@.len() && !crate::batch::is_update(
                    old(self).present(),
                    hashes@,
                    i as int,
                ) ==> final(self).group(#[trigger] hashes@[i as int]).len() == 1,
            forall|i: usize|
                i < hashes@.len() && !#[trigger] crate::batch::is_update(
                    old(self).present(),
                    hashes@,
                    i as int,
                ) ==> exists|m: &mut SlotValue|
                    {
                        &&& #[trigger] call_ensures(*old(on_new), (i, m), ())
                        &&& *m == SlotValue::zero()
                        &&& *final(m) == final(self).group(hashes@[i as int])[0]
                    },
            forall|i: usize|
                i < hashes@.len() && crate::batch::is_update(
                    old(self).present(),
                    hashes@,
                    i as int,
                ) ==> call_ensures(
                    *old(on_existing),
                    (i, &old(self).met(hashes@, final(self).first_values(), i as int)),
                    (),
                ),
            final(self).layout() == old(self).layout_after(
                hashes@,
                final(self).first_values(),
                hashes@.len() as int,
            ),
            final(self).calls() == old(self).calls() + crate::batch::calls_for(
                old(self).present(),
                hashes@,
                hashes@.len() as int,
            ),
    {
        let ghost start = *self;
        let ghost fill_in = *on_new;
        let ghost report = *on_existing;
        proof {
            self.table.lemma_inv();
            self.law_growth_is_bounded(hashes@, hashes@.len() as int);
        }
        let mut update_indices: Vec<usize> = Vec::new();
        let mut i: usize = 0;
        while i < hashes.len()
            invariant
                i <= hashes@.len(),
                start.well_formed(),
                self.well_formed(),
                crate::table::allocatable(start.slots_after(hashes@, hashes@.len() as int) / 8),
                update_indices@ == crate::batch::updates(start.present(), hashes@, i as int),
                self.layout() == start.layout_after(hashes@, self.first_values(), i as int),
                self.calls() == start.calls() + crate::batch::calls_for(
                    start.present(),
                    hashes@,
                    i as int,
                ),
                *on_new == fill_in,
                *on_existing == report,
                forall|i: usize, m: &mut SlotValue|
                    i < hashes@.len() && !crate::batch::is_update(
                        start.present(),
                        hashes@,
                        i as int,
                    ) && *m == SlotValue::zero() ==> #[trigger] crate::callback::may_fill(
                        start.calls() + crate::batch::calls_for(
                            start.present(),
                            hashes@,
                            i as int,
                        ),
                        fill_in,
                        i,
                        m,
                    ),
                forall|i: usize, v: SlotValue|
                    i < hashes@.len() && crate::batch::is_update(
                        start.present(),
                        hashes@,
                        i as int,
                    ) && ({
                        if start.present().contains(hashes@[i as int]) {
                            exists|first: spec_fn(u64) -> SlotValue|
                                v == #[trigger] start.met(hashes@, first, i as int)
                        } else {
                            exists|j: usize, m: &mut SlotValue|
                                {
                                    &&& #[trigger] call_ensures(fill_in, (j, m), ())
                                    &&& j < i
                                    &&& hashes@[j as int] == hashes@[i as int]
                                    &&& *m == SlotValue::zero()
                                    &&& *final(m) == v
                                }
                        }
                    }) ==> #[trigger] crate::callback::may_meet(
                        start.calls() + crate::batch::calls_for(
                            start.present(),
                            hashes@,
                            i as int,
                        ),
                        report,
                        i,
                        v,
                    ),
                forall|j: usize|
                    j < i && !crate::batch::is_update(start.present(), hashes@, j as int)
                        ==> self.group(#[trigger] hashes@[j as int]).len() == 1,
                forall|j: usize|
                    j < i && !#[trigger] crate::batch::is_update(start.present(), hashes@, j as int)
                        ==> exists|m: &mut SlotValue|
                        {
                            &&& #[trigger] call_ensures(fill_in, (j, m), ())
                            &&& *m == SlotValue::zero()
                            &&& *final(m) == self.group(hashes@[j as int])[0]
                        },
                forall|j: usize|
                    j < i && crate::batch::is_update(start.present(), hashes@, j as int)
                        ==> call_ensures(
                        report,
                        (j, &#[trigger] start.met(hashes@, self.first_values(), j as int)),
                        (),
                    ),
            decreases hashes@.len() - i,
        {
            let hash: u64 = hashes[i];
            let ghost before = *self;
            let ghost first = self.first_values();
            proof {
                start.lemma_slots_monotone(hashes@, 0, i as int);
                start.lemma_slots_monotone(hashes@, i as int, i + 1);
                start.lemma_slots_monotone(hashes@, i + 1, hashes@.len() as int);
                start.lemma_in_batch(*self, hashes@, first, i as int);
                self.law_layout();
                if self.group(hash).len() > 0 {
                    let v = self.grown_group(hash)[0];
                    assert(v == start.met(hashes@, first, i as int));
                    if !start.present().contains(hash) {
                        let k = crate::batch::lemma_first_row(start.present(), hashes@, i as int);
                        let j = k as usize;
                        lemma_bigger(self.layout());
                        assert(self.group(hashes@[j as int]) == seq![first(hash)]);
                        assert(v == self.group(hash)[0]);
                        assert(exists|m: &mut SlotValue|
                            {
                                &&& #[trigger] call_ensures(fill_in, (j, m), ())
                                &&& *m == SlotValue::zero()
                                &&& *final(m) == self.group(hashes@[j as int])[0]
                            });
                    }
                    assert(crate::callback::may_meet(
                        start.calls() + crate::batch::calls_for(
                            start.present(),
                            hashes@,
                            i as int,
                        ),
                        report,
                        i,
                        v,
                    ));
                }
            }
            proof {
                crate::batch::lemma_calls_for_next(start.present(), hashes@, i as int);
            }
            let existing: bool = self.emplace_row(hash, i, on_new, on_existing);
            if existing {
                update_indices.push(i);
            }
            proof {
                let now = self.first_values();
                self.law_layout();
                assert forall|j: int| 0 <= j < i implies before.keeps_group(
                    *self,
                    #[trigger] hashes@[j],
                ) by {
                    assert(before.group(hashes@[j]).len() > 0);
                }
                assert forall|j: int|
                    0 <= j < i && !crate::batch::is_update(start.present(), hashes@, j) implies now(
                    #[trigger] hashes@[j],
                ) == first(hashes@[j]) && self.group(hashes@[j]) == before.group(hashes@[j]) by {
                    assert(before.keeps_group(*self, hashes@[j]));
                    assert(before.group(hashes@[j]) == seq![first(hashes@[j])]);
                }
                start.lemma_layout_agrees(hashes@, first, now, i as int);
                assert(self.layout() == start.layout_after(hashes@, now, i + 1));
                assert forall|j: usize|
                    j < i + 1 && crate::batch::is_update(
                        start.present(),
                        hashes@,
                        j as int,
                    ) implies call_ensures(
                    report,
                    (j, &#[trigger] start.met(hashes@, now, j as int)),
                    (),
                ) by {
                    if j < i {
                        start.lemma_layout_agrees(hashes@, first, now, j + 1);
                        assert(start.met(hashes@, now, j as int) == start.met(
                            hashes@,
                            first,
                            j as int,
                        ));
                    } else {
                        assert(start.met(hashes@, now, j as int) == self.group(hash)[0]);
                    }
                }
                assert forall|j: usize|
                    j < i + 1 && !crate::batch::is_update(
                        start.present(),
                        hashes@,
                        j as int,
                    ) implies self.group(#[trigger] hashes@[j as int]).len() == 1 by {
                    if j < i {
                        assert(self.group(hashes@[j as int]) == before.group(hashes@[j as int]));
                    }
                }
                assert forall|j: usize|
                    j < i + 1 && !#[trigger] crate::batch::is_update(
                        start.present(),
                        hashes@,
                        j as int,
                    ) implies exists|m: &mut SlotValue|
                    {
                        &&& #[trigger] call_ensures(fill_in, (j, m), ())
                        &&& *m == SlotValue::zero()
                        &&& *final(m) == self.group(hashes@[j as int])[0]
                    } by {
                    if j < i {
                        assert(self.group(hashes@[j as int]) == before.group(hashes@[j as int]));
                    }
                }
            }
            i = i + 1;
        }
        proof {
            let n = hashes@.len() as int;
            start.lemma_in_batch(*self, hashes@, self.first_values(), n);
            assert(hashes@.take(n) =~= hashes@);
            assert forall|j: usize|
                j < hashes@.len() && !#[trigger] crate::batch::is_update(
                    start.present(),
                    hashes@,
                    j as int,
                ) implies exists|m: &mut SlotValue|
                {
                    &&& #[trigger] call_ensures(fill_in, (j, m), ())
                    &&& *m == SlotValue::zero()
                    &&& *final(m) == self.group(hashes@[j as int])[0]
                } by {
                assert(self.group(hashes@[j as int]).len() == 1);
            }
            assert forall|hash: u64|
                start.present().contains(hash) || !hashes@.contains(
                    hash,
                ) implies #[trigger] self.group(hash).to_multiset()
                == start.group(hash).to_multiset() by {
                assert(start.keeps_group(*self, hash));
            }
            start.lemma_batch_adds(*self, hashes@);
        }
        update_indices
    }

    /// Emplaces a batch of rows by hash alone, growing the table on the way.
    ///
    /// A row whose hash is new takes a slot, whose empty value `on_new` fills. A
    /// row whose hash is there already is handed to `on_existing` with the first
    /// value of the hash in the table as it has grown for the row, and its number
    /// is returned: its full key is still to be compared. No row is handed to the
    /// other callback.
    #[verifier::spinoff_prover]
    #[verifier::rlimit(40)]
    pub fn emplace_batch<N: FnMut(usize, &mut SlotValue), E: FnMut(usize, &SlotValue)>(
        &mut self,
        hashes: &[u64],
        on_new: &mut N,
        on_existing: &mut E,
    ) -> (update_indices: Vec<usize>)
        requires
            old(self).well_formed(),
            old(self).has_room(hashes@),
            forall|i: usize, m: &mut SlotValue|
                i < hashes@.len() && !crate::batch::is_update(
                    old(self).present(),
                    hashes@,
                    i as int,
                ) && *m == SlotValue::zero() ==> #[trigger] call_requires(*old(on_new), (i, m)),
            forall|i: usize, v: SlotValue|
                i < hashes@.len() && crate::batch::is_update(
                    old(self).present(),
                    hashes@,
                    i as int,
                ) && ({
                    if old(self).present().contains(hashes@[i as int]) {
                        exists|first: spec_fn(u64) -> SlotValue|
                            v == #[trigger] old(self).met(hashes@, first, i as int)
                    } else {
                        exists|j: usize, m: &mut SlotValue|
                            {
                                &&& #[trigger] call_ensures(*old(on_new), (j, m), ())
                                &&& j < i
                                &&& hashes@[j as int] == hashes@[i as int]
                                &&& *m == SlotValue::zero()
                                &&& *final(m) == v
                            }
                    }
                }) ==> #[trigger] call_requires(*old(on_existing), (i, &v)),
        ensures
            final(self).well_formed(),
            update_indices@ == crate::batch::updates(
                old(self).present(),
                hashes@,
                hashes@.len() as int,
            ),
            final(self).size() == old(self).size_after(hashes@, hashes@.len() as int),
            final(self).slots() == old(self).slots_after(hashes@, hashes@.len() as int),
            final(self).entries().to_multiset() == old(self).entries().to_multiset().add(
                crate::batch::new_entries(
                    old(self).present(),
                    hashes@,
                    final(self).first_values(),
                    hashes@.len() as int,
                ).to_multiset(),
            ),
            forall|i: int|
                0 <= i < hashes@.len() ==> final(self).present().contains(#[trigger] hashes@[i]),
            forall|hash: u64|
                old(self).present().contains(hash) || !hashes@.contains(hash)
                    ==> #[trigger] old(self).keeps_group(*final(self), hash),
            forall|i: usize|
                i < hashes@.len() && !crate::batch::is_update(
                    old(self).present(),
                    hashes@,
                    i as int,
                ) ==> final(self).group(#[trigger] hashes@[i as int]).len() == 1 && exists|
                    m: &mut SlotValue,
                |
                    {
                        &&& #[trigger] call_ensures(*old(on_new), (i, m), ())
                        &&& *m == SlotValue::zero()
                        &&& *final(m) == final(self).group(hashes@[i as int])[0]
                    },
            forall|i: usize|
                i < hashes@.len() && crate::batch::is_update(
                    old(self).present(),
                    hashes@,
                    i as int,
                ) ==> call_ensures(
                    *old(on_existing),
                    (i, &old(self).met(hashes@, final(self).first_values(), i as int)),
                    (),
                ),
            final(self).layout() == old(self).layout_after(
                hashes@,
                final(self).first_values(),
                hashes@.len() as int,
            ),
            final(self).calls().len() == old(self).calls().len() + hashes@.len(),
            final(self).calls().take(old(self).calls().len() as int) == old(self).calls(),
            forall|i: usize|
                i < hashes@.len() ==> final(self).calls()[old(self).calls().len() + i] == (if old(
                    self,
                ).group(#[trigger] hashes@[i as int]).len() > 0 || (exists|j: int|
                    0 <= j < i && #[trigger] hashes@[j] == hashes@[i as int]) {
                    Call::Met(i)
                } else {
                    Call::Filled(i)
                }),
            crate::callback::fills(final(self).calls()) == crate::callback::fills(
                old(self).calls(),
            ) + final(self).size() - old(self).size(),
    {
        let ghost start = *self;
        proof {
            assert forall|i: usize, m: &mut SlotValue| call_requires(
                *on_new,
                (i, m),
            ) implies #[trigger] crate::callback::may_fill(
                self.calls() + crate::batch::calls_for(self.present(), hashes@, i as int),
                *on_new,
                i,
                m,
            ) by {
                crate::callback::law_may_fill(
                    self.calls() + crate::batch::calls_for(self.present(), hashes@, i as int),
                    *on_new,
                    i,
                    m,
                );
            }
            assert forall|i: usize, v: SlotValue| call_requires(
                *on_existing,
                (i, &v),
            ) implies #[trigger] crate::callback::may_meet(
                self.calls() + crate::batch::calls_for(self.present(), hashes@, i as int),
                *on_existing,
                i,
                v,
            ) by {
                crate::callback::law_may_meet(
                    self.calls() + crate::batch::calls_for(self.present(), hashes@, i as int),
                    *on_existing,
                    i,
                    v,
                );
            }
            assert(hashes@.len() == hashes.len());
            crate::batch::law_one_call_for_each_row(self.calls(), self.present(), hashes@);
            crate::batch::law_fills_are_the_new_rows(
                self.calls(),
                self.present(),
                hashes@,
                hashes@.len() as int,
            );
        }
        self.emplace_rows(hashes, on_new, on_existing)
    }

    /// The runs of callbacks that the first `n` rows of a probe call for: one for
    /// each row, in row order.
    pub open spec fn probe_calls(self, hashes: Seq<u64>, n: int) -> Seq<Call> {
        Seq::new(
            n as nat,
            |i: int|
                if self.present().contains(hashes[i]) {
                    Call::Met(i as usize)
                } else {
                    Call::Missed(i as usize)
                },
        )
    }

    /// Looks up a batch of hashes, with a record of the callbacks that ran.
    fn probe_rows<F: FnMut(usize, &SlotValue), M: FnMut(usize)>(
        &self,
        hashes: &[u64],
        ledger: &mut Ledger,
        on_found: &mut F,
        on_not_found: &mut M,
    )
        requires
            self.well_formed(),
            self.size() < self.slots() || forall|i: int|
                0 <= i < hashes@.len() ==> self.present().contains(#[trigger] hashes@[i]),
            forall|i: usize|
                i < hashes@.len() && self.present().contains(#[trigger] hashes@[i as int])
                    ==> crate::callback::may_meet(
                    old(ledger).calls() + self.probe_calls(hashes@, i as int),
                    *old(on_found),
                    i,
                    self.group(hashes@[i as int])[0],
                ),
            forall|i: usize|
                i < hashes@.len() && !self.present().contains(#[trigger] hashes@[i as int])
                    ==> crate::callback::may_miss(
                    old(ledger).calls() + self.probe_calls(hashes@, i as int),
                    *old(on_not_found),
                    i,
                ),
        ensures
            final(ledger).calls() == old(ledger).calls() + self.probe_calls(
                hashes@,
                hashes@.len() as int,
            ),
            forall|i: usize|
                i < hashes@.len() && self.present().contains(#[trigger] hashes@[i as int])
                    ==> call_ensures(
                    *old(on_found),
                    (i, &self.group(hashes@[i as int])[0]),
                    (),
                ),
            forall|i: usize|
                i < hashes@.len() && !self.present().contains(#[trigger] hashes@[i as int])
                    ==> call_ensures(*old(on_not_found), (i,), ()),
    {
        let ghost found = *on_found;
        let ghost missed = *on_not_found;
        let ghost before = ledger.calls();
        assert(before + self.probe_calls(hashes@, 0) =~= before);
        let mut i: usize = 0;
        while i < hashes.len()
            invariant
                i <= hashes@.len(),
                self.well_formed(),
                self.size() < self.slots() || forall|i: int|
                    0 <= i < hashes@.len() ==> self.present().contains(#[trigger] hashes@[i]),
                ledger.calls() == before + self.probe_calls(hashes@, i as int),
                *on_found == found,
                *on_not_found == missed,
                forall|i: usize|
                    i < hashes@.len() && self.present().contains(#[trigger] hashes@[i as int])
                        ==> crate::callback::may_meet(
                        before + self.probe_calls(hashes@, i as int),
                        found,
                        i,
                        self.group(hashes@[i as int])[0],
                    ),
                forall|i: usize|
                    i < hashes@.len() && !self.present().contains(#[trigger] hashes@[i as int])
                        ==> crate::callback::may_miss(
                        before + self.probe_calls(hashes@, i as int),
                        missed,
                        i,
                    ),
                forall|j: usize|
                    j < i && self.present().contains(#[trigger] hashes@[j as int]) ==> call_ensures(
                        found,
                        (j, &self.group(hashes@[j as int])[0]),
                        (),
                    ),
                forall|j: usize|
                    j < i && !self.present().contains(#[trigger] hashes@[j as int])
                        ==> call_ensures(missed, (j,), ()),
            decreases hashes@.len() - i,
        {
            let hash: u64 = hashes[i];
            assert(self.size() < self.slots() || self.present().contains(hashes@[i as int]));
            assert(before + self.probe_calls(hashes@, i + 1) =~= (before + self.probe_calls(
                hashes@,
                i as int,
            )).push(
                if self.present().contains(hash) {
                    Call::Met(i)
                } else {
                    Call::Missed(i)
                },
            ));
            match self.table.seek(hash) {
                Seek::Found { chunk, slot } => {
                    let value: &SlotValue = self.table.value_at(chunk, slot);
                    assert(*value == self.group(hashes@[i as int])[0]);
                    proof {
                        crate::callback::lemma_meet_by_reference(ledger.calls(), *on_found, i);
                    }
                    ledger.meet(&mut *on_found, i, value);
                },
                Seek::Open { chunk } => {
                    proof {
                        crate::callback::lemma_miss_by_reference(ledger.calls(), *on_not_found, i);
                    }
                    ledger.miss(&mut *on_not_found, i);
                },
            }
            i = i + 1;
        }
    }

    /// Looks up a batch of hashes without changing the table. Each row goes to
    /// `on_found` with the first value of its hash, or to `on_not_found`.
    pub fn probe_batch<F: FnMut(usize, &SlotValue), M: FnMut(usize)>(
        &self,
        hashes: &[u64],
        on_found: &mut F,
        on_not_found: &mut M,
    )
        requires
            self.well_formed(),
            self.size() < self.slots() || forall|i: int|
                0 <= i < hashes@.len() ==> self.present().contains(#[trigger] hashes@[i]),
            forall|i: usize|
                i < hashes@.len() && self.present().contains(#[trigger] hashes@[i as int])
                    ==> call_requires(*old(on_found), (i, &self.group(hashes@[i as int])[0])),
            forall|i: usize|
                i < hashes@.len() && !self.present().contains(#[trigger] hashes@[i as int])
                    ==> call_requires(*old(on_not_found), (i,)),
        ensures
            forall|i: usize|
                i < hashes@.len() && self.present().contains(#[trigger] hashes@[i as int])
                    ==> call_ensures(
                    *old(on_found),
                    (i, &self.group(hashes@[i as int])[0]),
                    (),
                ),
            forall|i: usize|
                i < hashes@.len() && !self.present().contains(#[trigger] hashes@[i as int])
                    ==> call_ensures(*old(on_not_found), (i,), ()),
    {
        let mut ledger: Ledger = Ledger::new();
        proof {
            assert forall|i: usize, v: SlotValue| call_requires(
                *on_found,
                (i, &v),
            ) implies #[trigger] crate::callback::may_meet(
                ledger.calls() + self.probe_calls(hashes@, i as int),
                *on_found,
                i,
                v,
            ) by {
                crate::callback::law_may_meet(
                    ledger.calls() + self.probe_calls(hashes@, i as int),
                    *on_found,
                    i,
                    v,
                );
            }
            assert forall|i: usize| call_requires(
                *on_not_found,
                (i,),
            ) implies #[trigger] crate::callback::may_miss(
                ledger.calls() + self.probe_calls(hashes@, i as int),
                *on_not_found,
                i,
            ) by {
                crate::callback::law_may_miss(
                    ledger.calls() + self.probe_calls(hashes@, i as int),
                    *on_not_found,
                    i,
                );
            }
        }
        self.probe_rows(hashes, &mut ledger, on_found, on_not_found)
    }

    /// Emplaces one row by its full key, with a record of the callback that ran.
    fn emplace_one<
        K: Fn(&SlotValue) -> bool,
        N: FnMut(&mut SlotValue),
        M: FnMut(&SlotValue),
    >(
        &mut self,
        hash: u64,
        key_eq: &K,
        ledger: &mut Ledger,
        on_new: &mut N,
        on_match: &mut M,
    )
        requires
            old(self).well_formed(),
            old(self).size() < old(self).slots() || crate::table::some_accepted(
                old(self).group(hash),
                *key_eq,
            ),
            crate::table::comparable(old(self).group(hash), *key_eq),
            forall|k: int| #[trigger]
                crate::table::accepted(old(self).group(hash), *key_eq, k) ==> crate::callback::may_meet_one(
                    old(ledger).calls(),
                    *old(on_match),
                    old(self).group(hash)[k],
                ),
            forall|m: &mut SlotValue|
                crate::table::rejected(
                    old(self).group(hash),
                    *key_eq,
                    old(self).group(hash).len() as int,
                ) && *m == SlotValue::zero() ==> #[trigger] crate::callback::may_fill_one(
                    old(ledger).calls(),
                    *old(on_new),
                    m,
                ),
        ensures
            final(self).well_formed(),
            final(self).calls() == old(self).calls(),
            final(self).slots() == old(self).slots(),
            forall|other: u64|
                other != hash ==> #[trigger] final(self).group(other) == old(self).group(other),
            ({
                ||| {
                    &&& final(ledger).calls() == old(ledger).calls().push(Call::Met(0))
                    &&& *final(self) == *old(self)
                    &&& exists|k: int| #[trigger]
                        crate::table::accepted(
                            old(self).group(hash),
                            *key_eq,
                            k,
                        ) && call_ensures(
                            *old(on_match),
                            (&old(self).group(hash)[k],),
                            (),
                        )
                }
                ||| {
                    &&& final(ledger).calls() == old(ledger).calls().push(Call::Filled(0))
                    &&& final(self).size() == old(self).size() + 1
                    &&& crate::table::rejected(
                        old(self).group(hash),
                        *key_eq,
                        old(self).group(hash).len() as int,
                    )
                    &&& final(self).group(hash).len() == old(self).group(hash).len() + 1
                    &&& final(self).group(hash).drop_last() == old(self).group(hash)
                    &&& final(self).entries().to_multiset()
                        == old(self).entries().to_multiset().insert(
                        (hash, final(self).group(hash).last()),
                    )
                    &&& exists|m: &mut SlotValue|
                        {
                            &&& #[trigger] call_ensures(*old(on_new), (m,), ())
                            &&& *m == SlotValue::zero()
                            &&& *final(m) == final(self).group(hash).last()
                        }
                }
            }),
    {
        let ghost start = *self;
        let end: Seek = self.table.seek_where(hash, key_eq);
        match end {
            Seek::Found { chunk, slot } => {
                let ghost k = choose|k: int| #[trigger]
                    self.table.accepted_at(chunk as int, slot as int, hash, *key_eq, k);
                assert(self.table.accepted_at(chunk as int, slot as int, hash, *key_eq, k));
                let value: &SlotValue = self.table.value_at(chunk, slot);
                assert(*value == start.group(hash)[k]);
                assert(crate::table::accepted(start.group(hash), *key_eq, k));
                proof {
                    crate::callback::lemma_meet_one_by_reference(ledger.calls(), *on_match);
                }
                ledger.meet_one(&mut *on_match, value);
            },
            Seek::Open { chunk } => {
                proof {
                    crate::callback::lemma_fill_one_by_reference(ledger.calls(), *on_new);
                }
                let value: SlotValue = ledger.fill_one(&mut *on_new);
                self.table.insert(chunk, hash, value);
                assert(self.group(hash) == start.group(hash).push(value));
                assert(self.group(hash).drop_last() =~= start.group(hash));
                assert(self.entries().to_multiset() == start.entries().to_multiset().insert(
                    (hash, value),
                )) by {
                    start.group(hash).to_multiset_ensures();
                    start.law_added_value_is_an_added_entry(*self, hash, value);
                }
            },
        }
    }

    /// Emplaces one row by its full key, without growing the table.
    ///
    /// `key_eq` tells whether the full key of a value agrees; it is asked about
    /// values of the hash only. The first that agrees is handed to `on_match`;
    /// where none does, the row takes a slot, whose empty value `on_new` fills.
    /// Only the callback of the outcome runs.
    pub fn emplace<
        K: Fn(&SlotValue) -> bool,
        N: FnMut(&mut SlotValue),
        M: FnMut(&SlotValue),
    >(&mut self, hash: u64, key_eq: &K, on_new: &mut N, on_match: &mut M)
        requires
            old(self).well_formed(),
            old(self).size() < old(self).slots() || crate::table::some_accepted(
                old(self).group(hash),
                *key_eq,
            ),
            crate::table::comparable(old(self).group(hash), *key_eq),
            forall|k: int| #[trigger]
                crate::table::accepted(old(self).group(hash), *key_eq, k) ==> call_requires(
                    *old(on_match),
                    (&old(self).group(hash)[k],),
                ),
            forall|m: &mut SlotValue|
                crate::table::rejected(
                    old(self).group(hash),
                    *key_eq,
                    old(self).group(hash).len() as int,
                ) && *m == SlotValue::zero() ==> #[trigger] call_requires(*old(on_new), (m,)),
        ensures
            final(self).well_formed(),
            final(self).calls() == old(self).calls(),
            final(self).slots() == old(self).slots(),
            forall|other: u64|
                other != hash ==> #[trigger] final(self).group(other) == old(self).group(other),
            ({
                ||| {
                    &&& *final(self) == *old(self)
                    &&& exists|k: int| #[trigger]
                        crate::table::accepted(
                            old(self).group(hash),
                            *key_eq,
                            k,
                        ) && call_ensures(
                            *old(on_match),
                            (&old(self).group(hash)[k],),
                            (),
                        )
                }
                ||| {
                    &&& final(self).size() == old(self).size() + 1
                    &&& crate::table::rejected(
                        old(self).group(hash),
                        *key_eq,
                        old(self).group(hash).len() as int,
                    )
                    &&& final(self).group(hash).len() == old(self).group(hash).len() + 1
                    &&& final(self).group(hash).drop_last() == old(self).group(hash)
                    &&& final(self).entries().to_multiset()
                        == old(self).entries().to_multiset().insert(
                        (hash, final(self).group(hash).last()),
                    )
                    &&& exists|m: &mut SlotValue|
                        {
                            &&& #[trigger] call_ensures(*old(on_new), (m,), ())
                            &&& *m == SlotValue::zero()
                            &&& *final(m) == final(self).group(hash).last()
                        }
                }
            }),
    {
        let mut ledger: Ledger = Ledger::new();
        proof {
            assert forall|m: &mut SlotValue| call_requires(
                *on_new,
                (m,),
            ) implies #[trigger] crate::callback::may_fill_one(ledger.calls(), *on_new, m) by {
                crate::callback::law_may_fill_one(ledger.calls(), *on_new, m);
            }
            assert forall|v: SlotValue| call_requires(
                *on_match,
                (&v,),
            ) implies #[trigger] crate::callback::may_meet_one(ledger.calls(), *on_match, v) by {
                crate::callback::law_may_meet_one(ledger.calls(), *on_match, v);
            }
        }
        self.emplace_one(hash, key_eq, &mut ledger, on_new, on_match)
    }

    proof fn lemma_batch_adds(self, after: Self, hashes: Seq<u64>)
        requires
            self.well_formed(),
            after.well_formed(),
            hashes.len() <= usize::MAX,
            forall|hash: u64|
                self.present().contains(hash) || !hashes.contains(hash)
                    ==> #[trigger] after.group(hash).to_multiset()
                    == self.group(hash).to_multiset(),
            forall|i: usize|
                i < hashes.len() && !crate::batch::is_update(self.present(), hashes, i as int)
                    ==> after.group(#[trigger] hashes[i as int]).len() == 1,
        ensures
            after.entries().to_multiset() == self.entries().to_multiset().add(
                crate::batch::new_entries(
                    self.present(),
                    hashes,
                    after.first_values(),
                    hashes.len() as int,
                ).to_multiset(),
            ),
    {
        let first = after.first_values();
        assert forall|hash: u64| #[trigger]
            self.present().contains(hash) <==> crate::buckets::values_of(
                self.entries(),
                hash,
            ).len() > 0 by {
            self.law_entries_are_the_groups(hash);
        }
        assert forall|hash: u64|
            self.present().contains(hash) || !hashes.contains(
                hash,
            ) implies #[trigger] crate::buckets::values_of(after.entries(), hash).to_multiset()
            == crate::buckets::values_of(self.entries(), hash).to_multiset() by {
            self.law_entries_are_the_groups(hash);
            after.law_entries_are_the_groups(hash);
            assert(after.group(hash).to_multiset() == self.group(hash).to_multiset());
        }
        assert forall|hash: u64|
            !self.present().contains(hash) && hashes.contains(
                hash,
            ) implies #[trigger] crate::buckets::values_of(after.entries(), hash)
            == seq![first(hash)] by {
            let k = choose|k: int| 0 <= k < hashes.len() && hashes[k] == hash;
            let j = if crate::batch::is_update(self.present(), hashes, k) {
                crate::batch::lemma_first_row(self.present(), hashes, k)
            } else {
                k
            };
            assert(after.group(hashes[(j as usize) as int]).len() == 1);
            after.law_entries_are_the_groups(hash);
            let listed = crate::buckets::values_of(after.entries(), hash);
            listed.to_multiset_ensures();
            after.group(hash).to_multiset_ensures();
            assert(listed.contains(listed[0]));
            assert(after.group(hash).to_multiset().count(listed[0]) > 0);
            assert(after.group(hash).contains(listed[0]));
            assert(listed =~= seq![first(hash)]);
        }
        crate::batch::lemma_batch_adds(
            self.present(),
            hashes,
            first,
            self.entries(),
            after.entries(),
        );
    }

    /// Going through the table meets the values of a hash as often as a search
    /// for the hash does.
    pub proof fn law_entries_are_the_groups(self, hash: u64)
        requires
            self.well_formed(),
        ensures
            crate::buckets::values_of(self.entries(), hash).to_multiset() == self.group(
                hash,
            ).to_multiset(),
            crate::buckets::values_of(self.entries(), hash).len() == self.group(hash).len(),
    {
        self.table.lemma_inv();
        crate::buckets::lemma_listed_is_group(self.table.probe(), self.table.buckets(), hash);
    }

    /// An entry is met as often, going through the table, as its value among
    /// the values of its hash.
    pub proof fn law_entry_counts(self, hash: u64, value: SlotValue)
        requires
            self.well_formed(),
        ensures
            self.entries().to_multiset().count((hash, value)) == self.group(
                hash,
            ).to_multiset().count(value),
    {
        self.law_entries_are_the_groups(hash);
        crate::buckets::lemma_values_of_count(self.entries(), hash, value);
    }

    /// Tables that hold the same values under every hash, each as often, list the
    /// same entries.
    pub proof fn law_same_values_same_entries(self, other: Self)
        requires
            self.well_formed(),
            other.well_formed(),
            forall|hash: u64| #[trigger]
                other.group(hash).to_multiset() == self.group(hash).to_multiset(),
        ensures
            other.entries().to_multiset() == self.entries().to_multiset(),
    {
        let (then, now) = (self.entries().to_multiset(), other.entries().to_multiset());
        assert forall|entry: (u64, SlotValue)| #[trigger] now.count(entry) == then.count(entry) by {
            self.law_entry_counts(entry.0, entry.1);
            other.law_entry_counts(entry.0, entry.1);
            assert(other.group(entry.0).to_multiset() == self.group(entry.0).to_multiset());
        }
        assert(now =~= then);
    }

    /// A table with one more value under a hash lists one more entry.
    pub proof fn law_added_value_is_an_added_entry(self, other: Self, hash: u64, value: SlotValue)
        requires
            self.well_formed(),
            other.well_formed(),
            forall|h: u64|
                h != hash ==> #[trigger] other.group(h).to_multiset()
                    == self.group(h).to_multiset(),
            other.group(hash).to_multiset() == self.group(hash).to_multiset().insert(value),
        ensures
            other.entries().to_multiset() == self.entries().to_multiset().insert((hash, value)),
    {
        let (then, now) = (self.entries().to_multiset(), other.entries().to_multiset());
        assert forall|entry: (u64, SlotValue)| #[trigger]
            now.count(entry) == then.insert((hash, value)).count(entry) by {
            self.law_entry_counts(entry.0, entry.1);
            other.law_entry_counts(entry.0, entry.1);
            if entry.0 != hash {
                assert(other.group(entry.0).to_multiset() == self.group(entry.0).to_multiset());
            }
        }
        assert(now =~= then.insert((hash, value)));
    }

    /// A hash is present exactly if some entry has it.
    pub proof fn law_present_hashes_have_entries(self, hash: u64)
        requires
            self.well_formed(),
        ensures
            self.present().contains(hash) <==> exists|k: int|
                0 <= k < self.entries().len() && (#[trigger] self.entries()[k]).0 == hash,
            self.group(hash).len() == self.entries().filter(
                |entry: (u64, SlotValue)| entry.0 == hash,
            ).len(),
    {
        self.law_entries_are_the_groups(hash);
        crate::buckets::lemma_values_of_none(self.entries(), hash);
        crate::buckets::lemma_values_of_len(self.entries(), hash);
    }

    /// Before each row of a batch the table doubles exactly if at least nine tenths of its
    /// slots are taken, so that a row always finds less than nine tenths taken.
    pub proof fn law_load_before_each_row(
        self,
        hashes: Seq<u64>,
        first: spec_fn(u64) -> SlotValue,
        n: int,
    )
        requires
            self.well_formed(),
            0 <= n < hashes.len(),
        ensures
            self.slots_after(hashes, n + 1) == (if 10 * self.size_after(hashes, n) >= 9
                * self.slots_after(hashes, n) {
                2 * self.slots_after(hashes, n)
            } else {
                self.slots_after(hashes, n)
            }),
            10 * self.size_after(hashes, n) < 9 * self.slots_after(hashes, n + 1),
            self.slots_after(hashes, 0) == self.slots(),
            self.size_after(hashes, 0) == self.size(),
    {
        let buckets = self.layout_after(hashes, first, n);
        self.law_batch_layout(hashes, first, n);
        crate::buckets::lemma_entries_bound(buckets, buckets.len() as int);
        assert(buckets.len() >= 1) by {
            reveal(is_pow2);
        }
    }

    /// The slots come in chunks of eight, of which there are a power of two.
    pub proof fn law_chunks_are_a_power_of_two(self)
        requires
            self.well_formed(),
        ensures
            self.slots() % 8 == 0,
            is_pow2(self.slots() / 8),
    {
        self.table.lemma_inv();
    }
}

} // verus!
