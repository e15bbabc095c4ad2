//! A chunk: eight slots, each with a tag byte, a hash and a value.

use vstd::prelude::*;

use crate::bitmask::BitMask;
use crate::slot_value::SlotValue;

verus! {

/// The number of slots of a chunk.
pub const CHUNK_SLOTS: usize = 8;

/// The tag of an empty slot.
pub const TAG_EMPTY: u8 = 0x80;

/// Eight slots. The tag of slot `i` is `TAG_EMPTY` while the slot is empty and
/// a seven-bit fingerprint of `keys[i]` once it is taken.
pub struct Chunk {
    pub tags: [u8; 8],
    pub keys: [u64; 8],
    pub values: [SlotValue; 8],
    /// Fills the chunk up to two cache lines.
    pub padding: [u8; 8],
}

/// What became of an attempt to emplace a row in a chunk.
#[derive(Debug, Clone, Copy, PartialEq, Eq, Structural)]
pub enum EmplaceResult {
    /// The slot was empty and now holds the tag and the hash.
    New(u8),
    /// The slot already held the tag and the hash.
    Existing(u8),
    /// No slot matches and none is empty.
    Full,
}

/// How many of the first `n` tags are not `TAG_EMPTY`.
pub open spec fn taken_below(tags: Seq<u8>, n: int) -> nat
    decreases n,
{
    if n <= 0 {
        0
    } else {
        taken_below(tags, n - 1) + (if tags[n - 1] != TAG_EMPTY {
            1nat
        } else {
            0nat
        })
    }
}

impl Chunk {
    /// Whether slot `i` holds this tag and this hash.
    pub open spec fn matches(self, hash: u64, tag: u8, i: int) -> bool {
        0 <= i < 8 && self.tags[i] == tag && self.keys[i] == hash
    }

    /// Whether slot `i` is empty.
    pub open spec fn vacant(self, i: int) -> bool {
        0 <= i < 8 && self.tags[i] == TAG_EMPTY
    }

    /// Whether slot `i` is the first empty one.
    pub open spec fn first_vacant(self, i: int) -> bool {
        &&& self.vacant(i)
        &&& forall|j: int| 0 <= j < i ==> !self.vacant(j)
    }

    /// Whether `other` is this chunk with a tag and a hash written to slot `i`.
    pub open spec fn marked(self, other: Self, hash: u64, tag: u8, i: int) -> bool {
        &&& other.tags@ == self.tags@.update(i, tag)
        &&& other.keys@ == self.keys@.update(i, hash)
        &&& other.values@ == self.values@
    }

    /// A chunk of empty slots.
    pub fn new() -> (chunk: Self)
        ensures
            forall|i: int| 0 <= i < 8 ==> chunk.vacant(i),
            forall|i: int| 0 <= i < 8 ==> chunk.keys[i] == 0,
            forall|i: int| 0 <= i < 8 ==> chunk.values[i] == SlotValue::zero(),
    {
        let value: SlotValue = SlotValue::empty();
        let values: [SlotValue; 8] = [value, value, value, value, value, value, value, value];
        Chunk { tags: [0x80u8; 8], keys: [0u64; 8], values, padding: [0u8; 8] }
    }

    /// The eight tags as one word, slot `i` being byte `i` of it.
    pub fn tags_u64(&self) -> (word: u64)
        ensures
            forall|i: int| 0 <= i < 8 ==> crate::bitmask::lane(word, i) == self.tags[i],
    {
        let (t0, t1, t2, t3): (u8, u8, u8, u8) = (
            self.tags[0],
            self.tags[1],
            self.tags[2],
            self.tags[3],
        );
        let (t4, t5, t6, t7): (u8, u8, u8, u8) = (
            self.tags[4],
            self.tags[5],
            self.tags[6],
            self.tags[7],
        );
        let word: u64 = (t0 as u64) | ((t1 as u64) << 8) | ((t2 as u64) << 16) | ((t3 as u64) << 24)
            | ((t4 as u64) << 32) | ((t5 as u64) << 40) | ((t6 as u64) << 48) | ((t7 as u64) << 56);
        proof {
            assert(word & 0xff == t0 && (word >> 8) & 0xff == t1 && (word >> 16) & 0xff == t2 && (
            word >> 24) & 0xff == t3 && (word >> 32) & 0xff == t4 && (word >> 40) & 0xff == t5 && (
            word >> 48) & 0xff == t6 && (word >> 56) & 0xff == t7 && word >> 0 == word) by (bit_vector)
                requires
                    word == (t0 as u64) | ((t1 as u64) << 8) | ((t2 as u64) << 16) | ((t3 as u64)
                        << 24) | ((t4 as u64) << 32) | ((t5 as u64) << 40) | ((t6 as u64) << 48) | ((
                    t7 as u64) << 56),
            ;
            assert forall|i: int| 0 <= i < 8 implies crate::bitmask::lane(word, i) == self.tags[i] by {
                if i == 0 {
                } else if i == 1 {
                } else if i == 2 {
                } else if i == 3 {
                } else if i == 4 {
                } else if i == 5 {
                } else if i == 6 {
                } else {
                }
            }
        }
        word
    }

    /// The number of slots that are taken.
    pub fn occupied_count(&self) -> (n: usize)
        ensures
            n == taken_below(self.tags@, 8),
            n <= 8,
    {
        let mut n: usize = 0;
        let mut i: usize = 0;
        while i < 8
            invariant
                i <= 8,
                n <= i,
                n == taken_below(self.tags@, i as int),
            decreases 8 - i,
        {
            if self.tags[i] != TAG_EMPTY {
                n = n + 1;
            }
            i = i + 1;
        }
        n
    }

    /// Whether no slot is empty.
    pub fn is_full(&self) -> (full: bool)
        ensures
            full <==> forall|i: int| !self.vacant(i),
    {
        let tags: u64 = self.tags_u64();
        let empty: BitMask = BitMask::match_empty(tags);
        let any: bool = empty.any();
        proof {
            assert forall|i: int| empty.hit(i) == self.vacant(i) by {
                assert(0 <= i < 8 ==> crate::bitmask::lane(tags, i) == self.tags[i]);
            }
        }
        !any
    }

    /// The first slot that holds this tag and this hash.
    pub fn find(&self, hash: u64, tag: u8) -> (slot: Option<u8>)
        ensures
            match slot {
                Some(s) => {
                    &&& self.matches(hash, tag, s as int)
                    &&& forall|j: int| 0 <= j < s ==> !self.matches(hash, tag, j)
                },
                None => forall|j: int| !self.matches(hash, tag, j),
            },
    {
        let tags: u64 = self.tags_u64();
        let mut candidates: BitMask = BitMask::match_tag(tags, tag);
        let ghost mut seen: int = 0;
        while candidates.any()
            invariant
                0 <= seen <= 8,
                forall|j: int| 0 <= j < 8 ==> #[trigger] crate::bitmask::lane(tags, j) == self.tags[j],
                forall|j: int| #[trigger]
                    candidates.hit(j) <==> seen <= j < 8 && crate::bitmask::lane(tags, j) == tag,
                forall|j: int| 0 <= j < seen ==> !self.matches(hash, tag, j),
            decreases 8 - seen,
        {
            let slot: u8 = candidates.lowest();
            assert(crate::bitmask::lane(tags, slot as int) == self.tags[slot as int]);
            assert forall|j: int| 0 <= j < slot implies !self.matches(hash, tag, j) by {
                assert(crate::bitmask::lane(tags, j) == self.tags[j]);
                assert(!candidates.hit(j));
            }
            if self.keys[slot as usize] == hash {
                return Some(slot);
            }
            candidates = candidates.advance();
            proof {
                seen = slot + 1;
            }
        }
        assert forall|j: int| !self.matches(hash, tag, j) by {
            assert(0 <= j < 8 ==> crate::bitmask::lane(tags, j) == self.tags[j]);
            assert(!candidates.hit(j));
        }
        None
    }

    /// The first slot that holds this tag and this hash and whose value passes
    /// a test.
    pub fn find_where<K: Fn(&SlotValue) -> bool>(&self, hash: u64, tag: u8, same: &K) -> (slot:
        Option<u8>)
        requires
            forall|j: int|
                self.matches(hash, tag, j) ==> call_requires(*same, (&#[trigger] self.values[j],)),
        ensures
            match slot {
                Some(s) => {
                    &&& self.matches(hash, tag, s as int)
                    &&& call_ensures(*same, (&self.values[s as int],), true)
                    &&& forall|j: int|
                        0 <= j < s && self.matches(hash, tag, j) ==> call_ensures(
                            *same,
                            (&#[trigger] self.values[j],),
                            false,
                        )
                },
                None => forall|j: int|
                    self.matches(hash, tag, j) ==> call_ensures(
                        *same,
                        (&#[trigger] self.values[j],),
                        false,
                    ),
            },
    {
        let tags: u64 = self.tags_u64();
        let mut candidates: BitMask = BitMask::match_tag(tags, tag);
        let ghost mut seen: int = 0;
        while candidates.any()
            invariant
                0 <= seen <= 8,
                forall|j: int|
                    self.matches(hash, tag, j) ==> call_requires(
                        *same,
                        (&#[trigger] self.values[j],),
                    ),
                forall|j: int| 0 <= j < 8 ==> #[trigger] crate::bitmask::lane(tags, j) == self.tags[j],
                forall|j: int| #[trigger]
                    candidates.hit(j) <==> seen <= j < 8 && crate::bitmask::lane(tags, j) == tag,
                forall|j: int|
                    0 <= j < seen && self.matches(hash, tag, j) ==> call_ensures(
                        *same,
                        (&#[trigger] self.values[j],),
                        false,
                    ),
            decreases 8 - seen,
        {
            let slot: u8 = candidates.lowest();
            assert(crate::bitmask::lane(tags, slot as int) == self.tags[slot as int]);
            assert forall|j: int| seen <= j < slot implies !self.matches(hash, tag, j) by {
                assert(crate::bitmask::lane(tags, j) == self.tags[j]);
                assert(!candidates.hit(j));
            }
            if self.keys[slot as usize] == hash {
                assert(self.matches(hash, tag, slot as int));
                assert(call_requires(*same, (&self.values[slot as int],)));
                if same(&self.values[slot as usize]) {
                    return Some(slot);
                }
            }
            candidates = candidates.advance();
            proof {
                seen = slot + 1;
            }
        }
        assert forall|j: int| self.matches(hash, tag, j) implies call_ensures(
            *same,
            (&#[trigger] self.values[j],),
            false,
        ) by {
            assert(0 <= j < 8 ==> crate::bitmask::lane(tags, j) == self.tags[j]);
            assert(!candidates.hit(j));
        }
        None
    }

    /// The first empty slot.
    pub fn first_empty(&self) -> (slot: Option<u8>)
        ensures
            match slot {
                Some(s) => self.first_vacant(s as int),
                None => forall|j: int| !self.vacant(j),
            },
    {
        let tags: u64 = self.tags_u64();
        let empty: BitMask = BitMask::match_empty(tags);
        proof {
            assert forall|i: int| #[trigger] empty.hit(i) == self.vacant(i) by {
                assert(0 <= i < 8 ==> crate::bitmask::lane(tags, i) == self.tags[i]);
            }
            assert(forall|i: int| #[trigger] self.vacant(i) == empty.hit(i));
        }
        if empty.any() {
            Some(empty.lowest())
        } else {
            None
        }
    }

    /// Writes a tag and a hash to the first empty slot.
    pub fn claim(&mut self, hash: u64, tag: u8) -> (slot: Option<u8>)
        ensures
            match slot {
                Some(s) => {
                    &&& old(self).first_vacant(s as int)
                    &&& old(self).marked(*final(self), hash, tag, s as int)
                },
                None => {
                    &&& forall|j: int| !old(self).vacant(j)
                    &&& *final(self) == *old(self)
                },
            },
    {
        match self.first_empty() {
            Some(slot) => {
                self.tags[slot as usize] = tag;
                self.keys[slot as usize] = hash;
                Some(slot)
            },
            None => None,
        }
    }

    /// What `try_emplace` does to this chunk.
    pub open spec fn emplaced(
        self,
        after: Self,
        hash: u64,
        tag: u8,
        result: EmplaceResult,
    ) -> bool {
        match result {
            EmplaceResult::Existing(s) => {
                &&& self.matches(hash, tag, s as int)
                &&& forall|j: int| 0 <= j < s ==> !self.matches(hash, tag, j)
                &&& after == self
            },
            EmplaceResult::New(s) => {
                &&& forall|j: int| !self.matches(hash, tag, j)
                &&& self.first_vacant(s as int)
                &&& self.marked(after, hash, tag, s as int)
            },
            EmplaceResult::Full => {
                &&& forall|j: int| !self.matches(hash, tag, j)
                &&& forall|j: int| !self.vacant(j)
                &&& after == self
            },
        }
    }

    /// Finds the slot of a hash, or takes an empty slot for it.
    pub fn try_emplace(&mut self, hash_val: u64, tag: u8) -> (result: EmplaceResult)
        ensures
            old(self).emplaced(*final(self), hash_val, tag, result),
    {
        match self.find(hash_val, tag) {
            Some(slot) => EmplaceResult::Existing(slot),
            None => match self.claim(hash_val, tag) {
                Some(slot) => EmplaceResult::New(slot),
                None => EmplaceResult::Full,
            },
        }
    }

    /// What `try_emplace_with_cmp` does to this chunk when `same` compares the
    /// full key of a slot.
    pub open spec fn emplaced_where<K: Fn(u8) -> bool>(
        self,
        after: Self,
        hash: u64,
        tag: u8,
        same: K,
        result: EmplaceResult,
    ) -> bool {
        match result {
            EmplaceResult::Existing(s) => {
                &&& self.matches(hash, tag, s as int)
                &&& call_ensures(same, (s,), true)
                &&& self.rejected_below(hash, tag, same, s as int)
                &&& after == self
            },
            EmplaceResult::New(s) => {
                &&& self.rejected_below(hash, tag, same, 8)
                &&& self.first_vacant(s as int)
                &&& self.marked(after, hash, tag, s as int)
            },
            EmplaceResult::Full => {
                &&& self.rejected_below(hash, tag, same, 8)
                &&& forall|j: int| !self.vacant(j)
                &&& after == self
            },
        }
    }

    /// Whether `same` can be called on every slot that holds this tag and this
    /// hash. It is called on no other.
    pub open spec fn comparable<K: Fn(u8) -> bool>(self, hash: u64, tag: u8, same: K) -> bool {
        forall|s: u8|
            s < 8 && self.matches(hash, tag, s as int) ==> #[trigger] call_requires(same, (s,))
    }

    /// Whether `same` turned down every match among the first `n` slots.
    pub open spec fn rejected_below<K: Fn(u8) -> bool>(
        self,
        hash: u64,
        tag: u8,
        same: K,
        n: int,
    ) -> bool {
        forall|j: u8|
            j < n && self.matches(hash, tag, j as int) ==> #[trigger] call_ensures(
                same,
                (j,),
                false,
            )
    }

    /// The first slot that holds this tag and this hash and that passes a test.
    fn find_slot_where<K: Fn(u8) -> bool>(&self, hash: u64, tag: u8, same: &K) -> (slot: Option<u8>)
        requires
            forall|s: u8|
                s < 8 && self.matches(hash, tag, s as int) ==> #[trigger] call_requires(
                    *same,
                    (s,),
                ),
        ensures
            match slot {
                Some(s) => {
                    &&& self.matches(hash, tag, s as int)
                    &&& call_ensures(*same, (s,), true)
                    &&& self.rejected_below(hash, tag, *same, s as int)
                },
                None => self.rejected_below(hash, tag, *same, 8),
            },
    {
        let tags: u64 = self.tags_u64();
        let mut candidates: BitMask = BitMask::match_tag(tags, tag);
        let ghost mut seen: int = 0;
        while candidates.any()
            invariant
                0 <= seen <= 8,
                forall|s: u8|
                    s < 8 && self.matches(hash, tag, s as int) ==> #[trigger] call_requires(
                        *same,
                        (s,),
                    ),
                forall|j: int| 0 <= j < 8 ==> #[trigger] crate::bitmask::lane(tags, j) == self.tags[j],
                forall|j: int| #[trigger]
                    candidates.hit(j) <==> seen <= j < 8 && crate::bitmask::lane(tags, j) == tag,
                self.rejected_below(hash, tag, *same, seen),
            decreases 8 - seen,
        {
            let slot: u8 = candidates.lowest();
            assert(crate::bitmask::lane(tags, slot as int) == self.tags[slot as int]);
            assert forall|j: int| seen <= j < slot implies !self.matches(hash, tag, j) by {
                assert(crate::bitmask::lane(tags, j) == self.tags[j]);
                assert(!candidates.hit(j));
            }
            if self.keys[slot as usize] == hash && same(slot) {
                return Some(slot);
            }
            candidates = candidates.advance();
            proof {
                seen = slot + 1;
            }
        }
        assert forall|j: u8| j < 8 && self.matches(hash, tag, j as int) implies call_ensures(
            *same,
            (j,),
            false,
        ) by {
            assert(crate::bitmask::lane(tags, j as int) == self.tags[j as int]);
            assert(!candidates.hit(j as int));
        }
        None
    }

    /// Finds the slot of a hash whose full key agrees, or takes an empty slot
    /// for it. `key_cmp` tells whether the full key of a slot agrees.
    pub fn try_emplace_with_cmp<K: Fn(u8) -> bool>(
        &mut self,
        hash_val: u64,
        tag: u8,
        key_cmp: &K,
    ) -> (result: EmplaceResult)
        requires
            old(self).comparable(hash_val, tag, *key_cmp),
        ensures
            old(self).emplaced_where(*final(self), hash_val, tag, *key_cmp, result),
    {
        match self.find_slot_where(hash_val, tag, key_cmp) {
            Some(slot) => EmplaceResult::Existing(slot),
            None => match self.claim(hash_val, tag) {
                Some(slot) => EmplaceResult::New(slot),
                None => EmplaceResult::Full,
            },
        }
    }
}

impl Default for Chunk {
    fn default() -> (chunk: Self)
        ensures
            forall|i: int| 0 <= i < 8 ==> chunk.vacant(i),
            forall|i: int| 0 <= i < 8 ==> chunk.keys[i] == 0,
            forall|i: int| 0 <= i < 8 ==> chunk.values[i] == SlotValue::zero(),
    {
        Chunk::new()
    }
}

/// The tag that a hash gives its slot: bits 16 to 22.
pub open spec fn tag_of(hash: u64) -> u8 {
    ((hash >> 16) & 0x7f) as u8
}

/// The tag of a hash.
pub fn extract_tag(hash: u64) -> (tag: u8)
    ensures
        tag == tag_of(hash),
        tag < 0x80,
{
    proof {
        law_tag_is_never_empty(hash);
    }
    ((hash >> 16) & 0x7f) as u8
}

/// No hash has the tag of an empty slot.
pub proof fn law_tag_is_never_empty(hash: u64)
    ensures
        tag_of(hash) < TAG_EMPTY,
{
    assert((hash >> 16) & 0x7f <= 0x7f) by (bit_vector);
}

impl Chunk {
    /// The number of slots that are taken.
    pub open spec fn fill(self) -> int {
        taken_below(self.tags@, 8) as int
    }

    /// The hashes and values of the taken slots, in slot order, for a chunk
    /// whose taken slots come first.
    pub open spec fn entries(self) -> Seq<(u64, SlotValue)> {
        Seq::new(self.fill() as nat, |i: int| (self.keys[i], self.values[i]))
    }

    /// Whether the taken slots come first, each with the tag of its hash, and
    /// the empty ones hold no value.
    pub open spec fn sound(self) -> bool {
        &&& forall|i: int|
            0 <= i < 8 ==> #[trigger] self.tags[i] == if i < self.fill() {
                tag_of(self.keys[i])
            } else {
                TAG_EMPTY
            }
        &&& forall|i: int|
            self.fill() <= i < 8 ==> #[trigger] self.values[i] == SlotValue::zero()
    }

    pub proof fn lemma_sound(self)
        requires
            self.sound(),
        ensures
            0 <= self.fill() <= 8,
            forall|hash: u64, i: int| #[trigger]
                self.matches(hash, tag_of(hash), i) <==> 0 <= i < self.fill() && self.keys[i]
                    == hash,
            forall|i: int| #[trigger] self.vacant(i) <==> self.fill() <= i < 8,
            (exists|i: int| self.vacant(i)) <==> self.fill() < 8,
    {
        lemma_taken_bound(self.tags@, 8);
        assert forall|hash: u64, i: int| #[trigger]
            self.matches(hash, tag_of(hash), i) <==> 0 <= i < self.fill() && self.keys[i]
                == hash by {
            law_tag_is_never_empty(hash);
        }
        assert forall|i: int| #[trigger] self.vacant(i) <==> self.fill() <= i < 8 by {
            if 0 <= i < 8 {
                law_tag_is_never_empty(self.keys[i]);
            }
        }
        if self.fill() < 8 {
            assert(self.vacant(self.fill()));
        }
    }

    /// An empty chunk is sound.
    pub proof fn lemma_fresh(self)
        requires
            forall|i: int| 0 <= i < 8 ==> self.vacant(i),
            forall|i: int| 0 <= i < 8 ==> self.values[i] == SlotValue::zero(),
        ensures
            self.sound(),
            self.entries() == Seq::<(u64, SlotValue)>::empty(),
    {
        assert forall|i: int| 0 <= i < 8 implies (#[trigger] self.tags@[i] != TAG_EMPTY <==> i
            < 0) by {
            assert(self.vacant(i));
        }
        lemma_taken_prefix(self.tags@, 0, 8);
        assert forall|i: int| 0 <= i < 8 implies #[trigger] self.tags[i] == TAG_EMPTY by {
            assert(self.vacant(i));
        }
    }

    /// A hash and a value in the first empty slot extend the entries.
    pub proof fn lemma_extended(self, after: Self, s: int, hash: u64, value: SlotValue)
        requires
            self.sound(),
            self.first_vacant(s),
            after.tags@ == self.tags@.update(s, tag_of(hash)),
            after.keys@ == self.keys@.update(s, hash),
            after.values@ == self.values@.update(s, value),
        ensures
            s == self.fill(),
            after.sound(),
            after.entries() == self.entries().push((hash, value)),
    {
        self.lemma_sound();
        law_tag_is_never_empty(hash);
        assert(s == self.fill()) by {
            assert(self.vacant(s));
            assert(self.vacant(self.fill()));
        }
        assert forall|i: int| 0 <= i < 8 implies (#[trigger] after.tags@[i] != TAG_EMPTY <==> i < s
            + 1) by {
            if i != s {
                assert(self.vacant(i) <==> self.fill() <= i < 8);
                assert(self.tags[i] == self.tags@[i]);
            }
        }
        lemma_taken_prefix(after.tags@, s + 1, 8);
        assert forall|i: int| 0 <= i < 8 implies #[trigger] after.tags[i] == if i < s + 1 {
            tag_of(after.keys[i])
        } else {
            TAG_EMPTY
        } by {
            assert(after.tags[i] == after.tags@[i] && after.keys[i] == after.keys@[i]);
            assert(self.tags[i] == self.tags@[i] && self.keys[i] == self.keys@[i]);
        }
        assert forall|i: int| s + 1 <= i < 8 implies #[trigger] after.values[i]
            == SlotValue::zero() by {
            assert(after.values[i] == after.values@[i]);
            assert(self.values[i] == self.values@[i]);
        }
        assert forall|i: int| 0 <= i < s + 1 implies #[trigger] after.entries()[i]
            == self.entries().push((hash, value))[i] by {
            assert(after.keys[i] == after.keys@[i] && after.values[i] == after.values@[i]);
            assert(self.keys[i] == self.keys@[i] && self.values[i] == self.values@[i]);
        }
        assert(after.entries() =~= self.entries().push((hash, value)));
    }

    /// A value written to a taken slot replaces that of its entry.
    pub proof fn lemma_revalued(self, after: Self, s: int, value: SlotValue)
        requires
            self.sound(),
            0 <= s < self.fill(),
            after.tags@ == self.tags@,
            after.keys@ == self.keys@,
            after.values@ == self.values@.update(s, value),
        ensures
            after.sound(),
            after.entries() == self.entries().update(s, (self.keys[s], value)),
    {
        self.lemma_sound();
        assert forall|i: int| 0 <= i < 8 implies #[trigger] after.tags[i] == if i < self.fill() {
            tag_of(after.keys[i])
        } else {
            TAG_EMPTY
        } by {
            assert(after.tags[i] == after.tags@[i] && after.keys[i] == after.keys@[i]);
            assert(self.tags[i] == self.tags@[i] && self.keys[i] == self.keys@[i]);
        }
        assert forall|i: int| self.fill() <= i < 8 implies #[trigger] after.values[i]
            == SlotValue::zero() by {
            assert(after.values[i] == after.values@[i]);
            assert(self.values[i] == self.values@[i]);
        }
        assert forall|i: int| 0 <= i < self.fill() implies #[trigger] after.entries()[i]
            == self.entries().update(s, (self.keys[s], value))[i] by {
            assert(after.keys[i] == after.keys@[i] && after.values[i] == after.values@[i]);
            assert(self.keys[i] == self.keys@[i] && self.values[i] == self.values@[i]);
        }
        assert(after.entries() =~= self.entries().update(s, (self.keys[s], value)));
    }
}

/// A hash that took a slot of a chunk is found in that slot.
pub proof fn law_emplaced_is_found(before: Chunk, after: Chunk, hash: u64, tag: u8, s: int)
    requires
        forall|j: int| !before.matches(hash, tag, j),
        before.first_vacant(s),
        before.marked(after, hash, tag, s),
    ensures
        after.matches(hash, tag, s),
        forall|j: int| 0 <= j < s ==> !after.matches(hash, tag, j),
{
    assert(after.tags[s] == after.tags@[s] && after.keys[s] == after.keys@[s]);
    assert forall|j: int| 0 <= j < s implies !after.matches(hash, tag, j) by {
        assert(!before.matches(hash, tag, j));
        assert(after.tags[j] == after.tags@[j] && after.keys[j] == after.keys@[j]);
        assert(before.tags[j] == before.tags@[j] && before.keys[j] == before.keys@[j]);
    }
}

/// With a comparison that never turns a slot down, the full key makes no
/// difference.
pub proof fn law_accepting_comparison<K: Fn(u8) -> bool>(
    before: Chunk,
    after: Chunk,
    hash: u64,
    tag: u8,
    same: K,
    result: EmplaceResult,
)
    requires
        before.emplaced_where(after, hash, tag, same, result),
        forall|s: u8| !#[trigger] call_ensures(same, (s,), false),
    ensures
        before.emplaced(after, hash, tag, result),
{
    let n: int = match result {
        EmplaceResult::Existing(s) => s as int,
        _ => 8,
    };
    assert forall|j: int| 0 <= j < n implies !before.matches(hash, tag, j) by {
        if before.matches(hash, tag, j) {
            let s = j as u8;
            assert(s == j);
            assert(call_ensures(same, (s,), false));
        }
    }
}

/// Taking a slot with a tag other than that of an empty slot raises the number
/// of taken slots by one.
pub proof fn law_emplaced_is_counted(before: Chunk, after: Chunk, hash: u64, tag: u8, s: int)
    requires
        before.first_vacant(s),
        before.marked(after, hash, tag, s),
        tag != TAG_EMPTY,
    ensures
        taken_below(after.tags@, 8) == taken_below(before.tags@, 8) + 1,
{
    assert(before.tags[s] == before.tags@[s]);
    lemma_taken_update(before.tags@, s, tag, 8);
}

proof fn lemma_taken_update(tags: Seq<u8>, s: int, tag: u8, n: int)
    requires
        0 <= n <= tags.len(),
        0 <= s < tags.len(),
        tags[s] == TAG_EMPTY,
        tag != TAG_EMPTY,
    ensures
        taken_below(tags.update(s, tag), n) == taken_below(tags, n) + (if s < n {
            1int
        } else {
            0int
        }),
    decreases n,
{
    if n > 0 {
        lemma_taken_update(tags, s, tag, n - 1);
    }
}

proof fn lemma_taken_bound(tags: Seq<u8>, n: int)
    requires
        0 <= n,
    ensures
        taken_below(tags, n) <= n,
    decreases n,
{
    if n > 0 {
        lemma_taken_bound(tags, n - 1);
    }
}

proof fn lemma_taken_prefix(tags: Seq<u8>, k: int, n: int)
    requires
        0 <= k,
        0 <= n,
        forall|i: int| 0 <= i < n ==> (#[trigger] tags[i] != TAG_EMPTY <==> i < k),
    ensures
        taken_below(tags, n) == if k < n {
            k
        } else {
            n
        },
    decreases n,
{
    if n > 0 {
        lemma_taken_prefix(tags, k, n - 1);
        assert(tags[n - 1] != TAG_EMPTY <==> n - 1 < k);
    }
}

/// Emplacing a hash in a chunk finds the lowest slot with its tag and hash; where
/// there is none it takes the lowest empty slot, and nothing else of the chunk
/// changes; where all slots are taken the chunk is full and stays as it is.
pub proof fn law_emplace_outcome(
    before: Chunk,
    after: Chunk,
    hash: u64,
    tag: u8,
    result: EmplaceResult,
)
    requires
        before.emplaced(after, hash, tag, result),
    ensures
        result is Existing <==> exists|i: int|
            0 <= i < 8 && #[trigger] before.tags[i] == tag && before.keys[i] == hash,
        result is Full ==> after == before && forall|i: int|
            0 <= i < 8 ==> #[trigger] before.tags[i] != 0x80,
        result matches EmplaceResult::Existing(s) ==> {
            &&& s < 8
            &&& before.tags[s as int] == tag
            &&& before.keys[s as int] == hash
            &&& forall|i: int| 0 <= i < s ==> #[trigger] before.tags[i] != tag || before.keys[i]
                != hash
            &&& after == before
        },
        result matches EmplaceResult::New(s) ==> {
            &&& s < 8
            &&& before.tags[s as int] == 0x80
            &&& forall|i: int| 0 <= i < s ==> #[trigger] before.tags[i] != 0x80
            &&& after.tags[s as int] == tag
            &&& after.keys[s as int] == hash
            &&& forall|i: int| 0 <= i < 8 && i != s ==> #[trigger] after.tags[i] == before.tags[i]
            &&& forall|i: int| 0 <= i < 8 && i != s ==> #[trigger] after.keys[i] == before.keys[i]
            &&& forall|i: int| 0 <= i < 8 ==> #[trigger] after.values[i] == before.values[i]
        },
{
    if let EmplaceResult::Existing(s) = result {
        assert(before.matches(hash, tag, s as int));
        assert forall|i: int| 0 <= i < s implies #[trigger] before.tags[i] != tag || before.keys[i]
            != hash by {
            assert(!before.matches(hash, tag, i));
        }
    } else {
        assert forall|i: int| 0 <= i < 8 implies !(#[trigger] before.tags[i] == tag
            && before.keys[i] == hash) by {
            assert(!before.matches(hash, tag, i));
        }
    }
    if let EmplaceResult::New(s) = result {
        assert(before.vacant(s as int));
        assert forall|i: int| 0 <= i < s implies #[trigger] before.tags[i] != 0x80 by {
            assert(!before.vacant(i));
        }
        assert forall|i: int| 0 <= i < 8 && i != s implies #[trigger] after.tags[i]
            == before.tags[i] by {
            assert(after.tags@[i] == before.tags@[i]);
        }
        assert forall|i: int| 0 <= i < 8 && i != s implies #[trigger] after.keys[i]
            == before.keys[i] by {
            assert(after.keys@[i] == before.keys@[i]);
        }
        assert forall|i: int| 0 <= i < 8 implies #[trigger] after.values[i] == before.values[i] by {
            assert(after.values@[i] == before.values@[i]);
        }
        assert(after.tags@[s as int] == tag);
        assert(after.keys@[s as int] == hash);
    }
    if result is Full {
        assert forall|i: int| 0 <= i < 8 implies #[trigger] before.tags[i] != 0x80 by {
            assert(!before.vacant(i));
        }
    }
}

/// Emplacing with a comparison of full keys takes a new slot, or gives up, only where
/// the comparison turned down every slot with the tag and the hash; a slot that is
/// found has both, and the comparison accepted it.
pub proof fn law_emplace_compares_every_match<K: Fn(u8) -> bool>(
    before: Chunk,
    after: Chunk,
    hash: u64,
    tag: u8,
    same: K,
    result: EmplaceResult,
)
    requires
        before.emplaced_where(after, hash, tag, same, result),
    ensures
        !(result is Existing) ==> forall|s: u8|
            s < 8 && before.tags[s as int] == tag && before.keys[s as int] == hash
                ==> #[trigger] call_ensures(same, (s,), false),
        result matches EmplaceResult::Existing(s) ==> {
            &&& s < 8
            &&& before.tags[s as int] == tag
            &&& before.keys[s as int] == hash
            &&& call_ensures(same, (s,), true)
            &&& after == before
            &&& forall|i: u8|
                i < s && before.tags[i as int] == tag && before.keys[i as int] == hash
                    ==> #[trigger] call_ensures(same, (i,), false)
        },
        result matches EmplaceResult::New(s) ==> {
            &&& s < 8
            &&& before.tags[s as int] == 0x80
            &&& forall|i: int| 0 <= i < s ==> #[trigger] before.tags[i] != 0x80
            &&& after.tags@ == before.tags@.update(s as int, tag)
            &&& after.keys@ == before.keys@.update(s as int, hash)
            &&& after.values@ == before.values@
        },
        result is Full ==> after == before && forall|i: int|
            0 <= i < 8 ==> #[trigger] before.tags[i] != 0x80,
{
    if let EmplaceResult::Existing(s) = result {
        assert(before.matches(hash, tag, s as int));
    }
    if let EmplaceResult::New(s) = result {
        assert(before.vacant(s as int));
        assert forall|i: int| 0 <= i < s implies #[trigger] before.tags[i] != 0x80 by {
            assert(!before.vacant(i));
        }
    }
    if result is Full {
        assert forall|i: int| 0 <= i < 8 implies #[trigger] before.tags[i] != 0x80 by {
            assert(!before.vacant(i));
        }
    }
}

/// The number of taken slots is that of the tags other than `0x80`.
pub proof fn law_taken_slots(tags: Seq<u8>, n: int)
    requires
        0 <= n <= tags.len(),
    ensures
        taken_below(tags, n) == tags.take(n).filter(|tag: u8| tag != 0x80).len(),
    decreases n,
{
    reveal(Seq::filter);
    if n > 0 {
        law_taken_slots(tags, n - 1);
        assert(tags.take(n).drop_last() =~= tags.take(n - 1));
    }
}

/// The tag of a hash is the seven bits above its lower sixteen.
pub proof fn law_tag_is_seven_bits(hash: u64)
    ensures
        tag_of(hash) as int == (hash as int / 0x1_0000) % 0x80,
{
    assert((hash >> 16) & 0x7f == (hash / 0x1_0000) % 0x80) by (bit_vector);
    assert((hash >> 16) & 0x7f <= 0x7f) by (bit_vector);
}

} // verus!
