//! A table of chunks that grows as a whole. Both hash maps are built on it and
//! differ in their probe sequence and in when they grow.

use vstd::arithmetic::power2::*;
use vstd::prelude::*;

use crate::chunk::extract_tag;
use crate::chunk::Chunk;
use crate::chunk::TAG_EMPTY;
use crate::probe::Probe;
use crate::slot_value::SlotValue;

verus! {

/// The size of a chunk in memory: two cache lines.
pub const CHUNK_BYTES: usize = 128;

/// Whether an allocation can hold this many chunks.
pub open spec fn allocatable(chunks: int) -> bool {
    chunks * CHUNK_BYTES <= isize::MAX
}

/// The least power of two that is at least `x`, looked for from `p` on.
pub open spec fn doubled_to(p: int, x: int) -> int
    decreases 2 * x - p,
{
    if p <= 0 || p >= x {
        p
    } else {
        doubled_to(2 * p, x)
    }
}

/// The least power of two that is at least `x`.
pub open spec fn next_power(x: int) -> int {
    doubled_to(1, x)
}

/// The number of chunks that a table with room for `capacity` slots has.
pub open spec fn chunks_for(capacity: int) -> int {
    next_power((if capacity < 8 {
        8
    } else {
        capacity
    } + 7) / 8)
}

proof fn lemma_doubled(p: int, x: int)
    requires
        is_pow2(p),
    ensures
        is_pow2(doubled_to(p, x)),
        doubled_to(p, x) >= x,
        doubled_to(p, x) >= p,
    decreases 2 * x - p,
{
    assert(p > 0) by {
        reveal(is_pow2);
    }
    if p < x {
        assert(is_pow2(2 * p)) by {
            reveal(is_pow2);
        }
        lemma_doubled(2 * p, x);
    }
}

/// `next_power(x)` is the least power of two that is at least `x`.
pub proof fn law_next_power_is_least(x: int, p: int)
    requires
        is_pow2(p),
        x <= p,
    ensures
        is_pow2(next_power(x)),
        x <= next_power(x) <= p,
{
    assert(is_pow2(1)) by {
        reveal(is_pow2);
    }
    lemma_doubled(1, x);
    assert(p >= 1) by {
        reveal(is_pow2);
    }
    lemma_doubled_least(1, x, p);
}

proof fn lemma_doubled_least(q: int, x: int, p: int)
    requires
        is_pow2(p),
        is_pow2(q),
        q <= p,
        x <= p,
    ensures
        doubled_to(q, x) <= p,
    decreases 2 * x - q,
{
    assert(q > 0) by {
        reveal(is_pow2);
    }
    if q < x {
        assert(is_pow2(2 * q)) by {
            reveal(is_pow2);
        }
        lemma_powers_apart(q, p);
        lemma_doubled_least(2 * q, x, p);
    }
}

/// Of two powers of two the larger is at least twice the smaller.
proof fn lemma_powers_apart(q: int, p: int)
    requires
        is_pow2(p),
        is_pow2(q),
        q < p,
    ensures
        2 * q <= p,
    decreases q,
{
    reveal(is_pow2);
    if q > 1 {
        lemma_powers_apart(q / 2, p / 2);
    }
}

/// The least power of two that is at least `x`.
fn next_power_of_two(x: usize) -> (p: usize)
    requires
        allocatable(next_power(x as int)),
    ensures
        p == next_power(x as int),
        is_pow2(p as int),
        p >= x,
{
    let mut p: usize = 1;
    assert(is_pow2(1)) by {
        reveal(is_pow2);
    }
    while p < x
        invariant
            is_pow2(p as int),
            p >= 1,
            doubled_to(p as int, x as int) == next_power(x as int),
            allocatable(next_power(x as int)),
        decreases 2 * x - p,
    {
        proof {
            assert(is_pow2(2 * p)) by {
                reveal(is_pow2);
            }
            lemma_doubled(2 * p, x as int);
        }
        p = 2 * p;
    }
    p
}

/// The number of chunks that a table with room for `capacity` slots has.
pub fn capacity_to_num_chunks(capacity: usize) -> (chunks: usize)
    requires
        fits(capacity as int),
    ensures
        chunks == chunks_for(capacity as int),
        allocatable(chunks as int),
        is_pow2(chunks as int),
        8 * chunks >= capacity,
        chunks >= 1,
{
    proof {
        lemma_chunks_for(capacity as int);
        law_fits_is_exact(capacity as int);
    }
    let slots: usize = if capacity < 8 {
        8
    } else {
        capacity
    };
    next_power_of_two((slots + 7) / 8)
}

/// A table has room for as many slots as it was made for.
pub proof fn lemma_chunks_for(capacity: int)
    ensures
        8 * chunks_for(capacity) >= capacity,
        chunks_for(capacity) >= 1,
        is_pow2(chunks_for(capacity)),
{
    assert(is_pow2(1)) by {
        reveal(is_pow2);
    }
    lemma_doubled(1, (if capacity < 8 {
        8
    } else {
        capacity
    } + 7) / 8);
}

/// Twice the slots take twice the chunks.
pub proof fn lemma_chunks_for_double(chunks: int)
    requires
        is_pow2(chunks),
    ensures
        chunks_for(2 * (8 * chunks)) == 2 * chunks,
{
    assert(chunks >= 1 && is_pow2(2 * chunks)) by {
        reveal(is_pow2);
    }
    law_next_power_is_least(2 * chunks, 2 * chunks);
}

/// Whether the chunks for this many slots can be allocated.
pub open spec fn fits(capacity: int) -> bool {
    capacity * 32 <= isize::MAX + 1
}

/// The bound on a capacity is exact: within it the chunks for the capacity can be
/// allocated, beyond it they cannot.
pub proof fn law_fits_is_exact(capacity: int)
    ensures
        fits(capacity) <==> allocatable(chunks_for(capacity)),
{
    let most: int = (isize::MAX + 1) / 256;
    assert(isize::MAX == 0x7fff_ffff || isize::MAX == 0x7fff_ffff_ffff_ffff);
    lemma2_to64();
    lemma2_to64_rest();
    let e: nat = if isize::MAX == 0x7fff_ffff {
        23
    } else {
        55
    };
    lemma_pow2(e);
    assert(vstd::arithmetic::power::pow(2, e) == most);
    is_pow2_equiv(most);
    let needed = (if capacity < 8 {
        8
    } else {
        capacity
    } + 7) / 8;
    let chunks = chunks_for(capacity);
    lemma_chunks_for(capacity);
    if fits(capacity) {
        law_next_power_is_least(needed, most);
    }
    if allocatable(chunks) {
        if chunks > most {
            lemma_powers_apart(most, chunks);
        }
    }
}

/// The buckets that a sequence of chunks stands for.
pub open spec fn buckets_of(chunks: Seq<Chunk>) -> Seq<Seq<(u64, SlotValue)>> {
    Seq::new(chunks.len(), |i: int| chunks[i].entries())
}

/// Whether `same` can be called on every one of these values.
pub open spec fn comparable<K: Fn(&SlotValue) -> bool>(values: Seq<SlotValue>, same: K) -> bool {
    forall|j: int| 0 <= j < values.len() ==> call_requires(same, (&#[trigger] values[j],))
}

/// Whether `same` turned down the first `k` of these values.
pub open spec fn rejected<K: Fn(&SlotValue) -> bool>(
    values: Seq<SlotValue>,
    same: K,
    k: int,
) -> bool {
    forall|j: int| 0 <= j < k ==> call_ensures(same, (&#[trigger] values[j],), false)
}

/// Whether value `k` is the first of these values that `same` accepted.
pub open spec fn accepted<K: Fn(&SlotValue) -> bool>(
    values: Seq<SlotValue>,
    same: K,
    k: int,
) -> bool {
    &&& 0 <= k < values.len()
    &&& rejected(values, same, k)
    &&& call_ensures(same, (&values[k],), true)
}

/// Whether `same` is bound to accept some of these values.
pub open spec fn some_accepted<K: Fn(&SlotValue) -> bool>(
    values: Seq<SlotValue>,
    same: K,
) -> bool {
    exists|j: int|
        0 <= j < values.len() && !call_ensures(same, (&#[trigger] values[j],), false)
}

/// Where a search for a hash ended.
pub enum Seek {
    /// At an entry with the hash.
    Found { chunk: usize, slot: u8 },
    /// At the first chunk with an empty slot.
    Open { chunk: usize },
}

/// Chunks with a probe sequence over them.
pub struct Table {
    chunks: Vec<Chunk>,
    mask: usize,
    size: usize,
    probe: Probe,
}

impl Table {
    /// The entries of each chunk.
    pub closed spec fn buckets(self) -> Seq<Seq<(u64, SlotValue)>> {
        buckets_of(self.chunks@)
    }

    /// The probe sequence.
    pub closed spec fn probe(self) -> Probe {
        self.probe
    }

    /// The invariant of a table.
    pub closed spec fn inv(self) -> bool {
        &&& self.mask + 1 == self.chunks@.len()
        &&& allocatable(self.chunks@.len() as int)
        &&& forall|i: int| 0 <= i < self.chunks@.len() ==> (#[trigger] self.chunks@[i]).sound()
        &&& crate::buckets::well_laid(self.probe, self.buckets())
        &&& self.size == crate::buckets::entries_of(self.buckets()).len()
    }

    /// The values with this hash, in the order in which a search meets them.
    pub open spec fn group(self, hash: u64) -> Seq<SlotValue> {
        crate::buckets::group_of(self.probe(), self.buckets(), hash)
    }

    /// The number of slots.
    pub open spec fn slots(self) -> int {
        (8 * self.buckets().len()) as int
    }

    /// The entries in table order.
    pub open spec fn entries(self) -> Seq<(u64, SlotValue)> {
        crate::buckets::entries_of(self.buckets())
    }

    /// Whether slot `slot` of chunk `chunk` holds value `k` of the group of a
    /// hash.
    pub closed spec fn holds(self, chunk: int, slot: int, hash: u64, k: int) -> bool {
        exists|d: int|
            {
                &&& 0 <= d < self.buckets().len()
                &&& chunk == #[trigger] self.probe.pos(self.buckets().len() as int, hash, d)
                &&& 0 <= slot < self.buckets()[chunk].len()
                &&& self.buckets()[chunk][slot].0 == hash
                &&& k == crate::buckets::rank(self.probe, self.buckets(), hash, d, slot)
            }
    }

    /// Whether `chunk` is the first with an empty slot in the probe sequence of
    /// a hash.
    pub closed spec fn open_at(self, chunk: int, hash: u64) -> bool {
        exists|d: int|
            {
                &&& chunk == #[trigger] self.probe.pos(self.buckets().len() as int, hash, d)
                &&& crate::buckets::first_open(self.probe, self.buckets(), hash, d)
            }
    }

    /// What the invariant says of the layout and the sizes of a table.
    pub proof fn lemma_inv(self)
        requires
            self.inv(),
        ensures
            crate::buckets::well_laid(self.probe(), self.buckets()),
            is_pow2(self.slots() / 8),
            self.slots() >= 8,
            allocatable(self.slots() / 8),
            self.entries().len() <= self.slots(),
    {
        crate::buckets::lemma_entries_bound(self.buckets(), self.buckets().len() as int);
        reveal(is_pow2);
    }

    /// A table of empty chunks.
    pub fn with_chunks(count: usize, probe: Probe) -> (table: Self)
        requires
            is_pow2(count as int),
            allocatable(count as int),
        ensures
            table.inv(),
            table.probe() == probe,
            table.buckets() == crate::layout::bare(count as nat),
            table.slots() == 8 * count,
            table.entries().len() == 0,
            forall|hash: u64| #[trigger] table.group(hash) == Seq::<SlotValue>::empty(),
    {
        let mut chunks: Vec<Chunk> = Vec::new();
        let mut i: usize = 0;
        while i < count
            invariant
                i <= count,
                chunks@.len() == i,
                forall|j: int|
                    0 <= j < i ==> (#[trigger] chunks@[j]).sound() && chunks@[j].entries().len()
                        == 0,
            decreases count - i,
        {
            let chunk: Chunk = Chunk::new();
            proof {
                chunk.lemma_fresh();
            }
            chunks.push(chunk);
            i = i + 1;
        }
        assert(count >= 1) by {
            reveal(is_pow2);
        }
        let table: Table = Table { chunks, mask: count - 1, size: 0, probe };
        proof {
            let buckets = table.buckets();
            assert forall|i: int| 0 <= i < buckets.len() implies #[trigger] buckets[i]
                == Seq::<(u64, SlotValue)>::empty() by {
                assert(chunks@[i].entries().len() == 0);
                assert(buckets[i] =~= Seq::<(u64, SlotValue)>::empty());
            }
            assert(buckets =~= crate::layout::bare(count as nat));
            crate::layout::lemma_bare(probe, count as nat);
        }
        table
    }

    /// The number of entries.
    pub fn len(&self) -> (n: usize)
        requires
            self.inv(),
        ensures
            n == self.entries().len(),
    {
        self.size
    }

    /// The number of slots.
    pub fn capacity(&self) -> (n: usize)
        requires
            self.inv(),
        ensures
            n == self.slots(),
    {
        self.chunks.len() * 8
    }

    /// The first chunk of the probe sequence of a hash.
    fn chunk_pos(&self, hash: u64) -> (pos: usize)
        requires
            self.inv(),
        ensures
            pos == self.probe.pos(self.buckets().len() as int, hash, 0),
            pos < self.chunks@.len(),
    {
        proof {
            lemma_masked(hash, self.mask as int + 1);
            crate::probe::lemma_probe_step(self.probe, self.mask as int + 1, hash, 0);
        }
        (hash & (self.mask as u64)) as usize
    }

    /// The chunk that follows the one at step `d` of a probe sequence.
    fn next_pos(&self, pos: usize, d: usize, Ghost(hash): Ghost<u64>) -> (next: usize)
        requires
            self.inv(),
            d < self.chunks@.len(),
            pos == self.probe.pos(self.buckets().len() as int, hash, d as int),
        ensures
            next == self.probe.pos(self.buckets().len() as int, hash, d + 1),
            next < self.chunks@.len(),
    {
        let ghost n = self.chunks@.len() as int;
        let step: usize = match self.probe {
            Probe::Linear => 1,
            Probe::Triangular => d + 1,
        };
        proof {
            crate::probe::lemma_probe_step(self.probe, n, hash, d as int);
            crate::probe::lemma_probe_step(self.probe, n, hash, d + 1);
            lemma_masked((pos + step) as u64, n);
        }
        (((pos + step) as u64) & (self.mask as u64)) as usize
    }

    /// Whether a slot holds value `k` of the group of a hash, the first that
    /// `same` accepted.
    pub open spec fn accepted_at<K: Fn(&SlotValue) -> bool>(
        self,
        chunk: int,
        slot: int,
        hash: u64,
        same: K,
        k: int,
    ) -> bool {
        &&& self.holds(chunk, slot, hash, k)
        &&& accepted(self.group(hash), same, k)
    }

    /// Searches for the first value of a hash that passes a test.
    pub fn seek_where<K: Fn(&SlotValue) -> bool>(&self, hash: u64, same: &K) -> (end: Seek)
        requires
            self.inv(),
            self.entries().len() < self.slots() || some_accepted(self.group(hash), *same),
            comparable(self.group(hash), *same),
        ensures
            match end {
                Seek::Found { chunk, slot } => exists|k: int| #[trigger]
                    self.accepted_at(chunk as int, slot as int, hash, *same, k),
                Seek::Open { chunk } => {
                    &&& self.open_at(chunk as int, hash)
                    &&& rejected(self.group(hash), *same, self.group(hash).len() as int)
                },
            },
    {
        let tag: u8 = extract_tag(hash);
        let mut pos: usize = self.chunk_pos(hash);
        let mut d: usize = 0;
        let ghost buckets = self.buckets();
        let ghost probe = self.probe;
        let ghost n = buckets.len() as int;
        loop
            invariant
                self.inv(),
                self.entries().len() < self.slots() || some_accepted(self.group(hash), *same),
                comparable(self.group(hash), *same),
                tag == crate::chunk::tag_of(hash),
                buckets == self.buckets(),
                probe == self.probe,
                n == buckets.len(),
                d < n,
                pos == probe.pos(n, hash, d as int),
                pos < self.chunks@.len(),
                crate::buckets::full_until(probe, buckets, hash, d as int),
                forall|j: int|
                    0 <= j < crate::buckets::gathered(probe, buckets, hash, d as int).len()
                        ==> call_ensures(
                        *same,
                        (&#[trigger] crate::buckets::gathered(probe, buckets, hash, d as int)[j],),
                        false,
                    ),
            decreases n - d,
        {
            let ghost bucket = buckets[pos as int];
            let ghost before = crate::buckets::gathered(probe, buckets, hash, d as int);
            proof {
                let chunk = self.chunks@[pos as int];
                chunk.lemma_sound();
                assert forall|j: int| chunk.matches(hash, tag, j) implies call_requires(
                    *same,
                    (&#[trigger] chunk.values[j],),
                ) by {
                    assert(bucket[j] == (hash, chunk.values[j]));
                    crate::buckets::lemma_group_at(probe, buckets, hash, d as int, j);
                    let k = crate::buckets::rank(probe, buckets, hash, d as int, j);
                    assert(self.group(hash)[k] == chunk.values[j]);
                }
            }
            match self.chunks[pos].find_where(hash, tag, same) {
                Some(slot) => {
                    proof {
                        assert(self.chunks@[pos as int].matches(hash, tag, slot as int));
                        crate::buckets::lemma_group_at(probe, buckets, hash, d as int, slot as int);
                        let k = crate::buckets::rank(probe, buckets, hash, d as int, slot as int);
                        let passed = crate::buckets::values_of(bucket.take(slot as int), hash);
                        assert(self.holds(pos as int, slot as int, hash, k));
                        assert forall|j: int| 0 <= j < k implies call_ensures(
                            *same,
                            (&#[trigger] self.group(hash)[j],),
                            false,
                        ) by {
                            assert(self.group(hash)[j] == self.group(hash).take(k)[j]);
                            if j >= before.len() {
                                let s = crate::buckets::lemma_values_of_member(
                                    bucket.take(slot as int),
                                    hash,
                                    j - before.len(),
                                );
                                assert(self.chunks@[pos as int].matches(hash, tag, s));
                                assert(self.chunks@[pos as int].values[s] == bucket[s].1);
                            } else {
                                assert(self.group(hash)[j] == before[j]);
                            }
                        }
                        assert(rejected(self.group(hash), *same, k));
                        assert(self.group(hash)[k] == self.chunks@[pos as int].values[slot as int]);
                        assert(call_ensures(*same, (&self.group(hash)[k],), true));
                        assert(self.accepted_at(pos as int, slot as int, hash, *same, k));
                    }
                    let end: Seek = Seek::Found { chunk: pos, slot };
                    assert(end->Found_chunk == pos && end->slot == slot);
                    return end;
                },
                None => {},
            }
            let ghost after = crate::buckets::gathered(probe, buckets, hash, d + 1);
            assert forall|j: int| 0 <= j < after.len() implies call_ensures(
                *same,
                (&#[trigger] after[j],),
                false,
            ) by {
                if j >= before.len() {
                    let s = crate::buckets::lemma_values_of_member(bucket, hash, j - before.len());
                    assert(self.chunks@[pos as int].matches(hash, tag, s));
                    assert(self.chunks@[pos as int].values[s] == bucket[s].1);
                } else {
                    assert(after[j] == before[j]);
                }
            }
            if !self.chunks[pos].is_full() {
                proof {
                    assert(bucket.len() < 8);
                    assert(crate::buckets::first_open(probe, buckets, hash, d as int));
                    assert(self.open_at(pos as int, hash));
                    crate::buckets::law_search_may_stop(probe, buckets, hash, d as int);
                }
                return Seek::Open { chunk: pos };
            }
            proof {
                assert(buckets[pos as int].len() == 8);
                assert(crate::buckets::full_until(probe, buckets, hash, d + 1));
                if d + 1 == n {
                    if self.entries().len() < self.slots() {
                        crate::buckets::lemma_open_ahead(probe, buckets, hash);
                    } else {
                        let j = choose|j: int|
                            0 <= j < self.group(hash).len() && !call_ensures(
                                *same,
                                (&#[trigger] self.group(hash)[j],),
                                false,
                            );
                        assert(self.group(hash)[j] == after[j]);
                    }
                }
            }
            pos = self.next_pos(pos, d, Ghost(hash));
            d = d + 1;
        }
    }

    /// Searches for the first value of a hash.
    pub fn seek(&self, hash: u64) -> (end: Seek)
        requires
            self.inv(),
            self.entries().len() < self.slots() || self.group(hash).len() > 0,
        ensures
            match end {
                Seek::Found { chunk, slot } => {
                    &&& self.holds(chunk as int, slot as int, hash, 0)
                    &&& self.group(hash).len() > 0
                },
                Seek::Open { chunk } => {
                    &&& self.open_at(chunk as int, hash)
                    &&& self.group(hash).len() == 0
                },
            },
    {
        let same = |_value: &SlotValue| -> (accepted: bool)
            ensures
                accepted,
            { true };
        proof {
            if self.group(hash).len() > 0 {
                let first = self.group(hash)[0];
                assert(!call_ensures(same, (&first,), false));
            }
        }
        let end: Seek = self.seek_where(hash, &same);
        proof {
            match end {
                Seek::Found { chunk, slot } => {
                    let k = choose|k: int| #[trigger]
                        self.accepted_at(chunk as int, slot as int, hash, same, k);
                    if k > 0 {
                        assert(call_ensures(same, (&self.group(hash)[0],), false));
                    }
                },
                Seek::Open { chunk } => {
                    if self.group(hash).len() > 0 {
                        assert(call_ensures(same, (&self.group(hash)[0],), false));
                    }
                },
            }
        }
        end
    }

    /// The value in a taken slot.
    pub fn value_at(&self, chunk: usize, slot: u8) -> (value: &SlotValue)
        requires
            self.inv(),
            exists|hash: u64, k: int| self.holds(chunk as int, slot as int, hash, k),
        ensures
            forall|hash: u64, k: int| #[trigger]
                self.holds(chunk as int, slot as int, hash, k) ==> 0 <= k < self.group(hash).len()
                    && *value == self.group(hash)[k],
    {
        proof {
            assert forall|hash: u64, k: int| #[trigger]
                self.holds(chunk as int, slot as int, hash, k) implies 0 <= chunk
                < self.chunks@.len() && 0 <= slot < 8 && 0 <= k < self.group(hash).len()
                && self.chunks@[chunk as int].values[slot as int] == self.group(hash)[k] by {
                let d = self.step_of(chunk as int, slot as int, hash, k);
                crate::probe::lemma_probe_step(self.probe, self.chunks@.len() as int, hash, d);
                crate::buckets::lemma_group_at(self.probe, self.buckets(), hash, d, slot as int);
                self.chunks@[chunk as int].lemma_sound();
            }
        }
        &self.chunks[chunk].values[slot as usize]
    }

    /// The step at which a search meets value `k` of a group.
    spec fn step_of(self, chunk: int, slot: int, hash: u64, k: int) -> int {
        choose|d: int|
            {
                &&& 0 <= d < self.buckets().len()
                &&& chunk == #[trigger] self.probe.pos(self.buckets().len() as int, hash, d)
                &&& 0 <= slot < self.buckets()[chunk].len()
                &&& self.buckets()[chunk][slot].0 == hash
                &&& k == crate::buckets::rank(self.probe, self.buckets(), hash, d, slot)
            }
    }

    /// Adds an entry to the chunk at which a search for its hash ended.
    pub fn insert(&mut self, chunk: usize, hash: u64, value: SlotValue)
        requires
            old(self).inv(),
            old(self).open_at(chunk as int, hash),
        ensures
            final(self).inv(),
            final(self).buckets() == crate::layout::inserted(
                old(self).probe(),
                old(self).buckets(),
                hash,
                value,
            ),
            final(self).probe() == old(self).probe(),
            final(self).slots() == old(self).slots(),
            final(self).entries().len() == old(self).entries().len() + 1,
            final(self).group(hash) == old(self).group(hash).push(value),
            forall|other: u64|
                other != hash ==> #[trigger] final(self).group(other) == old(self).group(other),
    {
        let ghost before = *self;
        let ghost n = self.chunks@.len() as int;
        let ghost d = choose|d: int|
            {
                &&& chunk == #[trigger] self.probe.pos(self.buckets().len() as int, hash, d)
                &&& crate::buckets::first_open(self.probe, self.buckets(), hash, d)
            };
        let tag: u8 = extract_tag(hash);
        proof {
            crate::probe::lemma_probe_step(self.probe, n, hash, d);
            crate::layout::lemma_open_step(self.probe, self.buckets(), hash, d);
            crate::buckets::lemma_insert(self.probe, self.buckets(), hash, d, value);
            before.chunks@[chunk as int].lemma_sound();
            self.lemma_inv();
        }
        match self.chunks[chunk].claim(hash, tag) {
            Some(slot) => {
                self.chunks[chunk].values[slot as usize] = value;
                self.size = self.size + 1;
                proof {
                    before.chunks@[chunk as int].lemma_extended(
                        self.chunks@[chunk as int],
                        slot as int,
                        hash,
                        value,
                    );
                    assert(self.buckets() =~= before.buckets().update(
                        chunk as int,
                        before.buckets()[chunk as int].push((hash, value)),
                    ));
                }
            },
            None => {
                assert(before.chunks@[chunk as int].vacant(
                    before.chunks@[chunk as int].fill(),
                ));
            },
        }
    }

    /// Replaces the first value of a group.
    pub fn replace_first(&mut self, chunk: usize, slot: u8, hash: u64, value: SlotValue)
        requires
            old(self).inv(),
            old(self).holds(chunk as int, slot as int, hash, 0),
        ensures
            final(self).inv(),
            final(self).buckets() == crate::layout::replaced(
                old(self).probe(),
                old(self).buckets(),
                hash,
                value,
            ),
            final(self).probe() == old(self).probe(),
            final(self).slots() == old(self).slots(),
            final(self).entries().len() == old(self).entries().len(),
            old(self).group(hash).len() > 0,
            final(self).group(hash) == old(self).group(hash).update(0, value),
            forall|other: u64|
                other != hash ==> #[trigger] final(self).group(other) == old(self).group(other),
    {
        let ghost before = *self;
        proof {
            let d = self.step_of(chunk as int, slot as int, hash, 0);
            crate::probe::lemma_probe_step(self.probe, self.chunks@.len() as int, hash, d);
            crate::buckets::lemma_replace(
                self.probe,
                self.buckets(),
                hash,
                d,
                slot as int,
                value,
            );
            assert(crate::layout::first_at(self.probe, self.buckets(), hash, d, slot as int));
            let (e, t) = choose|e: int, t: int|
                crate::layout::first_at(self.probe, self.buckets(), hash, e, t);
            if d <= e {
                crate::layout::lemma_first_at(
                    self.probe,
                    self.buckets(),
                    hash,
                    d,
                    slot as int,
                    e,
                    t,
                );
            } else {
                crate::layout::lemma_first_at(
                    self.probe,
                    self.buckets(),
                    hash,
                    e,
                    t,
                    d,
                    slot as int,
                );
            }
            before.chunks@[chunk as int].lemma_sound();
        }
        self.chunks[chunk].values[slot as usize] = value;
        proof {
            before.chunks@[chunk as int].lemma_revalued(
                self.chunks@[chunk as int],
                slot as int,
                value,
            );
            assert(self.buckets() =~= before.buckets().update(
                chunk as int,
                before.buckets()[chunk as int].update(slot as int, (hash, value)),
            ));
        }
    }

    /// Adds an entry after those of its group, without looking for its hash.
    fn append(&mut self, hash: u64, value: SlotValue)
        requires
            old(self).inv(),
            old(self).entries().len() < old(self).slots(),
        ensures
            final(self).inv(),
            final(self).probe() == old(self).probe(),
            final(self).slots() == old(self).slots(),
            final(self).entries().len() == old(self).entries().len() + 1,
            final(self).buckets() == crate::layout::inserted(
                old(self).probe(),
                old(self).buckets(),
                hash,
                value,
            ),
    {
        let never = |_value: &SlotValue| -> (accepted: bool)
            ensures
                !accepted,
            { false };
        let end: Seek = self.seek_where(hash, &never);
        match end {
            Seek::Open { chunk } => self.insert(chunk, hash, value),
            Seek::Found { chunk, slot } => {
                proof {
                    let k = choose|k: int| #[trigger]
                        self.accepted_at(chunk as int, slot as int, hash, never, k);
                    assert(call_ensures(never, (&self.group(hash)[k],), true));
                }
            },
        }
    }

    /// Moves all entries, in table order, to a table of `count` chunks.
    pub fn rehash(&mut self, count: usize)
        requires
            old(self).inv(),
            is_pow2(count as int),
            allocatable(count as int),
            old(self).entries().len() < 8 * count,
        ensures
            final(self).inv(),
            final(self).probe() == old(self).probe(),
            final(self).slots() == 8 * count,
            final(self).buckets() == crate::layout::laid_out(
                old(self).probe(),
                count as nat,
                old(self).entries(),
            ),
            final(self).entries().len() == old(self).entries().len(),
            final(self).entries().to_multiset() == old(self).entries().to_multiset(),
            forall|hash: u64| #[trigger]
                final(self).group(hash) == crate::buckets::values_of(old(self).entries(), hash),
    {
        let ghost buckets = self.buckets();
        let ghost n = buckets.len() as int;
        let mut fresh: Table = Table::with_chunks(count, self.probe);
        let mut i: usize = 0;
        while i < self.chunks.len()
            invariant
                self.inv(),
                buckets == self.buckets(),
                n == buckets.len(),
                i <= n,
                fresh.inv(),
                fresh.probe() == self.probe(),
                fresh.slots() == 8 * count,
                self.entries().len() < 8 * count,
                fresh.entries().len() == crate::buckets::entries_below(buckets, i as int).len(),
                fresh.buckets() == crate::layout::laid_out(
                    self.probe(),
                    count as nat,
                    crate::buckets::entries_below(buckets, i as int),
                ),
            decreases n - i,
        {
            let ghost base = crate::buckets::entries_below(buckets, i as int);
            let ghost bucket = buckets[i as int];
            let ghost chunk = self.chunks@[i as int];
            proof {
                chunk.lemma_sound();
                crate::buckets::lemma_entries_monotone(buckets, i + 1, n);
                assert(base + bucket.take(0) =~= base);
            }
            let mut j: usize = 0;
            while j < 8
                invariant
                    self.inv(),
                    buckets == self.buckets(),
                    n == buckets.len(),
                    i < n,
                    i < self.chunks@.len(),
                    j <= 8,
                    base == crate::buckets::entries_below(buckets, i as int),
                    bucket == buckets[i as int],
                    chunk == self.chunks@[i as int],
                    chunk.sound(),
                    bucket == chunk.entries(),
                    bucket.len() <= 8,
                    base.len() + bucket.len() <= self.entries().len(),
                    fresh.inv(),
                    fresh.probe() == self.probe(),
                    fresh.slots() == 8 * count,
                    self.entries().len() < 8 * count,
                    fresh.entries().len() == base.len() + (if j < bucket.len() {
                        j as int
                    } else {
                        bucket.len() as int
                    }),
                    fresh.buckets() == crate::layout::laid_out(
                        self.probe(),
                        count as nat,
                        base + bucket.take(
                            if j < bucket.len() {
                                j as int
                            } else {
                                bucket.len() as int
                            },
                        ),
                    ),
                decreases 8 - j,
            {
                proof {
                    crate::chunk::law_tag_is_never_empty(chunk.keys[j as int]);
                    assert(chunk.tags[j as int] != TAG_EMPTY <==> j < bucket.len());
                }
                if self.chunks[i].tags[j] != TAG_EMPTY {
                    let hash: u64 = self.chunks[i].keys[j];
                    let value: SlotValue = self.chunks[i].values[j];
                    fresh.append(hash, value);
                    proof {
                        let moved = base + bucket.take(j as int);
                        assert(bucket[j as int] == (hash, value));
                        assert(base + bucket.take(j + 1) =~= moved.push((hash, value)));
                        assert(moved.push((hash, value)).drop_last() =~= moved);
                    }
                }
                j = j + 1;
            }
            assert(bucket.take(bucket.len() as int) =~= bucket);
            i = i + 1;
        }
        proof {
            crate::layout::law_laid_out(self.probe(), count as nat, self.entries());
        }
        self.chunks = fresh.chunks;
        self.mask = fresh.mask;
    }

    /// All entries in table order.
    pub fn list(&self) -> (entries: Vec<(u64, SlotValue)>)
        requires
            self.inv(),
        ensures
            entries@ == self.entries(),
    {
        let ghost buckets = self.buckets();
        let mut entries: Vec<(u64, SlotValue)> = Vec::new();
        let mut i: usize = 0;
        while i < self.chunks.len()
            invariant
                self.inv(),
                buckets == self.buckets(),
                i <= self.chunks@.len(),
                entries@ == crate::buckets::entries_below(buckets, i as int),
            decreases self.chunks@.len() - i,
        {
            let ghost base = entries@;
            let ghost bucket = buckets[i as int];
            let ghost chunk = self.chunks@[i as int];
            proof {
                chunk.lemma_sound();
                assert(base + bucket.take(0) =~= base);
            }
            let mut j: usize = 0;
            while j < 8
                invariant
                    i < self.chunks@.len(),
                    j <= 8,
                    chunk == self.chunks@[i as int],
                    chunk.sound(),
                    bucket == chunk.entries(),
                    bucket.len() <= 8,
                    entries@ == base + bucket.take(
                        if j < bucket.len() {
                            j as int
                        } else {
                            bucket.len() as int
                        },
                    ),
                decreases 8 - j,
            {
                proof {
                    crate::chunk::law_tag_is_never_empty(chunk.keys[j as int]);
                    assert(chunk.tags[j as int] != TAG_EMPTY <==> j < bucket.len());
                }
                if self.chunks[i].tags[j] != TAG_EMPTY {
                    let hash: u64 = self.chunks[i].keys[j];
                    let value: SlotValue = self.chunks[i].values[j];
                    entries.push((hash, value));
                    proof {
                        assert(bucket[j as int] == (hash, value));
                        assert(base + bucket.take(j + 1) =~= (base + bucket.take(j as int)).push(
                            (hash, value),
                        ));
                    }
                }
                j = j + 1;
            }
            assert(bucket.take(bucket.len() as int) =~= bucket);
            i = i + 1;
        }
        entries
    }
}

/// Masking with one less than a power of two leaves the remainder.
proof fn lemma_masked(x: u64, n: int)
    requires
        is_pow2(n),
        allocatable(n),
    ensures
        n > 0,
        x & ((n - 1) as u64) == x as int % n,
{
    is_pow2_equiv(n);
    let e = choose|e: nat| vstd::arithmetic::power::pow(2, e) == n;
    lemma_pow2_pos(e);
    assert(n > 0) by {
        reveal(is_pow2);
    }
    assert(pow2(e) == n);
    if e >= 64 {
        lemma2_to64();
        if e > 64 {
            lemma_pow2_strictly_increases(64, e);
        }
    }
    vstd::bits::lemma_u64_low_bits_mask_is_mod(x, e);
}

/// Values that are turned down are all asked about, and the one that is accepted is
/// the first that is not turned down.
pub proof fn law_every_value_is_asked<K: Fn(&SlotValue) -> bool>(
    values: Seq<SlotValue>,
    same: K,
    k: int,
)
    ensures
        rejected(values, same, values.len() as int) <==> forall|j: int|
            0 <= j < values.len() ==> call_ensures(same, (&#[trigger] values[j],), false),
        accepted(values, same, k) <==> {
            &&& 0 <= k < values.len()
            &&& call_ensures(same, (&values[k],), true)
            &&& forall|j: int| 0 <= j < k ==> call_ensures(same, (&#[trigger] values[j],), false)
        },
        comparable(values, same) <==> forall|j: int|
            0 <= j < values.len() ==> call_requires(same, (&#[trigger] values[j],)),
{
}

/// A table has the least power of two of chunks that holds the slots asked for, and
/// at least one.
pub proof fn law_chunks_are_least(capacity: int, chunks: int)
    ensures
        is_pow2(chunks_for(capacity)),
        8 * chunks_for(capacity) >= capacity,
        is_pow2(chunks) && 8 * chunks >= capacity ==> chunks_for(capacity) <= chunks,
{
    lemma_chunks_for(capacity);
    if is_pow2(chunks) && 8 * chunks >= capacity {
        assert(chunks >= 1) by {
            reveal(is_pow2);
        }
        law_next_power_is_least(
            (if capacity < 8 {
                8
            } else {
                capacity
            } + 7) / 8,
            chunks,
        );
    }
}

} // verus!
