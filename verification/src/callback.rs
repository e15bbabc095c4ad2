//! Running the callbacks of a caller, with a record of every run.
//!
//! A table hands rows to functions of its caller. What such a function does
//! cannot be undone, so it matters how often it is run. The tables run it
//! through a `Ledger`, which notes the run, and may do so only where the ledger
//! stands as the caller's permission says: the permission for one row does not
//! serve for a second run.

use vstd::prelude::*;

use crate::slot_value::SlotValue;

verus! {

/// A run of a callback.
pub enum Call {
    /// A row was new, and its value was filled.
    Filled(usize),
    /// A row met a value that was there.
    Met(usize),
    /// A row met nothing.
    Missed(usize),
}

/// The runs that were made, in order.
pub struct Ledger {
    made: Ghost<Seq<Call>>,
}

/// The number of runs that filled the value of a new row.
pub open spec fn fills(calls: Seq<Call>) -> nat {
    calls.filter(|call: Call| call is Filled).len()
}

/// Whether a row may be filled after these runs.
pub closed spec fn may_fill<N: FnOnce(usize, &mut SlotValue)>(
    made: Seq<Call>,
    on_new: N,
    row: usize,
    slot: &mut SlotValue,
) -> bool {
    call_requires(on_new, (row, slot))
}

/// Whether a row may be handed a value after these runs.
pub closed spec fn may_meet<E: FnOnce(usize, &SlotValue)>(
    made: Seq<Call>,
    on_existing: E,
    row: usize,
    value: SlotValue,
) -> bool {
    call_requires(on_existing, (row, &value))
}

/// Whether a row may be reported as missed after these runs.
pub closed spec fn may_miss<M: FnOnce(usize)>(made: Seq<Call>, on_missing: M, row: usize) -> bool {
    call_requires(on_missing, (row,))
}

/// Whether the value of a single row may be filled after these runs.
pub closed spec fn may_fill_one<N: FnOnce(&mut SlotValue)>(
    made: Seq<Call>,
    on_new: N,
    slot: &mut SlotValue,
) -> bool {
    call_requires(on_new, (slot,))
}

/// Whether a single row may be handed a value after these runs.
pub closed spec fn may_meet_one<M: FnOnce(&SlotValue)>(
    made: Seq<Call>,
    on_match: M,
    value: SlotValue,
) -> bool {
    call_requires(on_match, (&value,))
}

/// A callback that can be called may fill a row, whatever was run before.
pub proof fn law_may_fill<N: FnOnce(usize, &mut SlotValue)>(
    made: Seq<Call>,
    on_new: N,
    row: usize,
    slot: &mut SlotValue,
)
    requires
        call_requires(on_new, (row, slot)),
    ensures
        may_fill(made, on_new, row, slot),
{
}

/// A callback that can be called may be handed a value, whatever was run before.
pub proof fn law_may_meet<E: FnOnce(usize, &SlotValue)>(
    made: Seq<Call>,
    on_existing: E,
    row: usize,
    value: SlotValue,
)
    requires
        call_requires(on_existing, (row, &value)),
    ensures
        may_meet(made, on_existing, row, value),
{
}

/// A callback that can be called may be told of a missing row, whatever was run
/// before.
pub proof fn law_may_miss<M: FnOnce(usize)>(made: Seq<Call>, on_missing: M, row: usize)
    requires
        call_requires(on_missing, (row,)),
    ensures
        may_miss(made, on_missing, row),
{
}

/// A callback that can be called may fill a single row, whatever was run before.
pub proof fn law_may_fill_one<N: FnOnce(&mut SlotValue)>(
    made: Seq<Call>,
    on_new: N,
    slot: &mut SlotValue,
)
    requires
        call_requires(on_new, (slot,)),
    ensures
        may_fill_one(made, on_new, slot),
{
}

/// A callback that can be called may be handed the value of a single row, whatever
/// was run before.
pub proof fn law_may_meet_one<M: FnOnce(&SlotValue)>(
    made: Seq<Call>,
    on_match: M,
    value: SlotValue,
)
    requires
        call_requires(on_match, (&value,)),
    ensures
        may_meet_one(made, on_match, value),
{
}

/// What a callback may do, a reference to it may do in its place.
pub proof fn lemma_fill_by_reference<N: FnMut(usize, &mut SlotValue)>(
    made: Seq<Call>,
    on_new: N,
    row: usize,
)
    ensures
        forall|r: &mut N, m: &mut SlotValue|
            *r == on_new && may_fill(made, on_new, row, m) ==> #[trigger] may_fill(made, r, row, m),
{
}

/// What a callback may do, a reference to it may do in its place.
pub proof fn lemma_meet_by_reference<E: FnMut(usize, &SlotValue)>(
    made: Seq<Call>,
    on_existing: E,
    row: usize,
)
    ensures
        forall|r: &mut E, v: SlotValue|
            *r == on_existing && may_meet(made, on_existing, row, v) ==> #[trigger] may_meet(
                made,
                r,
                row,
                v,
            ),
{
}

/// What a callback may do, a reference to it may do in its place.
pub proof fn lemma_miss_by_reference<M: FnMut(usize)>(made: Seq<Call>, on_missing: M, row: usize)
    ensures
        forall|r: &mut M|
            *r == on_missing && may_miss(made, on_missing, row) ==> #[trigger] may_miss(
                made,
                r,
                row,
            ),
{
}

/// What a callback may do, a reference to it may do in its place.
pub proof fn lemma_fill_one_by_reference<N: FnMut(&mut SlotValue)>(made: Seq<Call>, on_new: N)
    ensures
        forall|r: &mut N, m: &mut SlotValue|
            *r == on_new && may_fill_one(made, on_new, m) ==> #[trigger] may_fill_one(made, r, m),
{
}

/// What a callback may do, a reference to it may do in its place.
pub proof fn lemma_meet_one_by_reference<M: FnMut(&SlotValue)>(made: Seq<Call>, on_match: M)
    ensures
        forall|r: &mut M, v: SlotValue|
            *r == on_match && may_meet_one(made, on_match, v) ==> #[trigger] may_meet_one(
                made,
                r,
                v,
            ),
{
}

impl Ledger {
    /// The runs that were made, in order.
    pub closed spec fn calls(self) -> Seq<Call> {
        self.made@
    }

    /// A ledger without runs.
    pub fn new() -> (ledger: Self)
        ensures
            ledger.calls() == Seq::<Call>::empty(),
    {
        Ledger { made: Ghost(Seq::empty()) }
    }

    /// Has an empty value filled for a new row.
    pub fn fill<N: FnOnce(usize, &mut SlotValue)>(&mut self, on_new: N, row: usize) -> (value:
        SlotValue)
        requires
            forall|m: &mut SlotValue|
                *m == SlotValue::zero() ==> #[trigger] may_fill(
                    old(self).calls(),
                    on_new,
                    row,
                    m,
                ),
        ensures
            final(self).calls() == old(self).calls().push(Call::Filled(row)),
            exists|m: &mut SlotValue|
                {
                    &&& #[trigger] call_ensures(on_new, (row, m), ())
                    &&& *m == SlotValue::zero()
                    &&& *final(m) == value
                },
    {
        let mut value: SlotValue = SlotValue::empty();
        proof {
            assert forall|m: &mut SlotValue|
                *m == SlotValue::zero() implies #[trigger] call_requires(on_new, (row, m)) by {
                assert(may_fill(self.calls(), on_new, row, m));
            }
        }
        on_new(row, &mut value);
        self.made = Ghost(self.made@.push(Call::Filled(row)));
        value
    }

    /// Hands a row the value that it met.
    pub fn meet<E: FnOnce(usize, &SlotValue)>(
        &mut self,
        on_existing: E,
        row: usize,
        value: &SlotValue,
    )
        requires
            may_meet(old(self).calls(), on_existing, row, *value),
        ensures
            final(self).calls() == old(self).calls().push(Call::Met(row)),
            call_ensures(on_existing, (row, value), ()),
    {
        on_existing(row, value);
        self.made = Ghost(self.made@.push(Call::Met(row)));
    }

    /// Reports a row that met nothing.
    pub fn miss<M: FnOnce(usize)>(&mut self, on_missing: M, row: usize)
        requires
            may_miss(old(self).calls(), on_missing, row),
        ensures
            final(self).calls() == old(self).calls().push(Call::Missed(row)),
            call_ensures(on_missing, (row,), ()),
    {
        on_missing(row);
        self.made = Ghost(self.made@.push(Call::Missed(row)));
    }

    /// Has an empty value filled for a single row.
    pub fn fill_one<N: FnOnce(&mut SlotValue)>(&mut self, on_new: N) -> (value: SlotValue)
        requires
            forall|m: &mut SlotValue|
                *m == SlotValue::zero() ==> #[trigger] may_fill_one(
                    old(self).calls(),
                    on_new,
                    m,
                ),
        ensures
            final(self).calls() == old(self).calls().push(Call::Filled(0)),
            exists|m: &mut SlotValue|
                {
                    &&& #[trigger] call_ensures(on_new, (m,), ())
                    &&& *m == SlotValue::zero()
                    &&& *final(m) == value
                },
    {
        let mut value: SlotValue = SlotValue::empty();
        proof {
            assert forall|m: &mut SlotValue|
                *m == SlotValue::zero() implies #[trigger] call_requires(on_new, (m,)) by {
                assert(may_fill_one(self.calls(), on_new, m));
            }
        }
        on_new(&mut value);
        self.made = Ghost(self.made@.push(Call::Filled(0)));
        value
    }

    /// Hands a single row the value that it met.
    pub fn meet_one<M: FnOnce(&SlotValue)>(&mut self, on_match: M, value: &SlotValue)
        requires
            may_meet_one(old(self).calls(), on_match, *value),
        ensures
            final(self).calls() == old(self).calls().push(Call::Met(0)),
            call_ensures(on_match, (value,), ()),
    {
        on_match(value);
        self.made = Ghost(self.made@.push(Call::Met(0)));
    }
}

} // verus!
