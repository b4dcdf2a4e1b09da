//! Entity identity: [`EntityId`] and the [`GenerationalArena`] that issues it.
//!
//! The arena lives next to the id it issues: id-reuse safety is a property of
//! the allocator, not of the id struct, so keeping them together is what makes
//! it provable.

use std::collections::BTreeSet;

use vstd::prelude::*;

use crate::error::CoreError;

verus! {

broadcast use {vstd::std_specs::btree::group_btree_axioms, vstd::laws_cmp::group_laws_cmp};

/// The generation every slot is born with.
///
/// Generations start at 1, never 0, so an all-zero [`EntityId`] is never a
/// valid entity.
pub const FIRST_GENERATION: u32 = 1;

/// The generation that marks a retired slot. It is never issued in an id.
pub const RETIRED_GENERATION: u32 = u32::MAX;

/// A handle to an entity: a slot index plus the generation of that slot.
///
/// An `EntityId` is only meaningful to the [`GenerationalArena`] that issued
/// it. Once the entity is removed the slot's generation moves on and this id
/// is dead forever, even after the slot index has been reissued.
///
/// Ordering is by index first, then generation, matching the ascending-index
/// order of [`GenerationalArena::iter`].
#[derive(Debug, Clone, Copy, PartialEq, Eq, PartialOrd, Ord, Hash, Structural)]
pub struct EntityId {
    index: u32,
    generation: u32,
}

impl EntityId {
    /// The slot index of this id, in specifications.
    pub closed spec fn slot_index(self) -> u32 {
        self.index
    }

    /// The generation of this id, in specifications.
    pub closed spec fn slot_generation(self) -> u32 {
        self.generation
    }

    /// The id with the given slot index and generation, in specifications.
    pub closed spec fn spec_new(index: u32, generation: u32) -> EntityId {
        EntityId { index, generation }
    }

    /// An id is determined by its index and generation.
    pub proof fn lemma_parts(a: EntityId, b: EntityId)
        ensures
            (a == b) <==> (a.slot_index() == b.slot_index() && a.slot_generation()
                == b.slot_generation()),
    {
    }

    /// `spec_new` builds exactly the id with the given parts.
    pub proof fn lemma_spec_new(index: u32, generation: u32)
        ensures
            EntityId::spec_new(index, generation).slot_index() == index,
            EntityId::spec_new(index, generation).slot_generation() == generation,
    {
    }

    /// The slot index this id refers to.
    ///
    /// Stable for the life of the id, but *not* unique over time: after the
    /// entity is removed the same index is handed out again with a higher
    /// generation. Use the whole `EntityId` for identity, never the index
    /// alone.
    pub fn index(self) -> (r: u32)
        ensures
            r == self.slot_index(),
    {
        self.index
    }

    /// The generation this id was issued at.
    ///
    /// Never 0 for an id an arena issued.
    pub fn generation(self) -> (r: u32)
        ensures
            r == self.slot_generation(),
    {
        self.generation
    }

    /// Rebuilds an id from its serialized parts, rejecting a generation that
    /// no arena issues: 0, or the `u32::MAX` retirement tombstone.
    ///
    /// This establishes well-formedness only, not that the sender is entitled
    /// to name the entity.
    pub fn try_from_parts(index: u32, generation: u32) -> (r: Result<EntityId, CoreError>)
        ensures
            generation == 0 ==> r == Err::<EntityId, CoreError>(
                CoreError::InvalidEntityId(ID_GENERATION_ZERO),
            ),
            generation == RETIRED_GENERATION ==> r == Err::<EntityId, CoreError>(
                CoreError::InvalidEntityId(ID_GENERATION_RETIRED),
            ),
            0 < generation < RETIRED_GENERATION ==> r == Ok::<EntityId, CoreError>(
                EntityId::spec_new(index, generation),
            ),
    {
        if generation == 0 {
            Err(CoreError::InvalidEntityId(ID_GENERATION_ZERO))
        } else if generation == RETIRED_GENERATION {
            Err(CoreError::InvalidEntityId(ID_GENERATION_RETIRED))
        } else {
            Ok(EntityId { index, generation })
        }
    }
}

/// Defect named when a loaded id carries generation 0.
pub const ID_GENERATION_ZERO: &'static str = "generation 0 is never issued";

/// Defect named when a loaded id carries the retirement tombstone.
pub const ID_GENERATION_RETIRED: &'static str = "generation u32::MAX is the retirement tombstone";

/// Defect: the serialized arena has more than `u32::MAX` slots.
pub const DEFECT_SLOT_COUNT: &'static str = "more than u32::MAX slots";

/// Defect: the free list names a slot index past the end of the slots.
pub const DEFECT_FREE_INDEX_RANGE: &'static str = "free list names a slot that does not exist";

/// Defect: a slot carries generation 0.
pub const DEFECT_GENERATION_ZERO: &'static str = "slot generation 0 is never valid";

/// Defect: an occupied slot is also on the free list.
pub const DEFECT_OCCUPIED_BUT_FREE: &'static str = "occupied slot is on the free list";

/// Defect: a retired slot is on the free list.
pub const DEFECT_RETIRED_BUT_FREE: &'static str = "retired slot is on the free list";

/// Defect: a vacant slot is neither free nor retired.
pub const DEFECT_VACANT_NOT_FREE: &'static str =
    "vacant slot is neither on the free list nor retired at u32::MAX";

/// One slot in the arena.
///
/// Three states, distinguished by `value` and by membership of the arena's
/// free set:
///
/// - **occupied**: `value` is `Some`; not in the free set.
/// - **free**: `value` is `None`; in the free set; `generation` has already
///   been bumped past the last id issued for this slot.
/// - **retired**: `value` is `None`; *not* in the free set; `generation` is
///   `u32::MAX`. The slot is never allocated again.
#[derive(Debug, Clone, PartialEq, Eq)]
pub struct Slot<T> {
    /// The generation an id must carry to address this slot.
    pub generation: u32,
    /// The entry, if the slot is occupied.
    pub value: Option<T>,
}

/// The serialized shape of a [`GenerationalArena`]: its slots and its free
/// list. The live count is not part of it; it is recomputed on loading.
#[derive(Debug, Clone, PartialEq, Eq)]
pub struct ArenaRepr<T> {
    /// Every slot, indexed by slot index.
    pub slots: Vec<Slot<T>>,
    /// Indices of vacant, still-allocatable slots.
    pub free: BTreeSet<u32>,
}

/// Whether one slot is consistent with its membership of the free set.
pub open spec fn slot_consistent<T>(slot: Slot<T>, in_free: bool) -> bool {
    &&& slot.generation >= FIRST_GENERATION
    &&& slot.value is Some ==> !in_free
    &&& slot.value is None ==> (in_free <==> slot.generation < RETIRED_GENERATION)
}

/// Whether a sequence of slots and a free set together satisfy the arena's
/// invariants.
pub open spec fn parts_consistent<T>(slots: Seq<Slot<T>>, free: Set<u32>) -> bool {
    &&& slots.len() <= u32::MAX
    &&& forall|k: u32| free.contains(k) ==> k < slots.len()
    &&& forall|i: int| 0 <= i < slots.len() ==> slot_consistent(#[trigger] slots[i], free.contains(i as u32))
}

/// The number of occupied slots in `slots`.
pub open spec fn occupied_count<T>(slots: Seq<Slot<T>>) -> nat
    decreases slots.len(),
{
    if slots.len() == 0 {
        0
    } else {
        occupied_count(slots.drop_last()) + if slots.last().value is Some {
            1nat
        } else {
            0nat
        }
    }
}

/// The generation a slot moves to when its entry is removed: one more, or the
/// retirement tombstone once the last issuable generation has been used.
pub open spec fn bumped(generation: u32) -> u32 {
    if generation < RETIRED_GENERATION - 1 {
        (generation + 1) as u32
    } else {
        RETIRED_GENERATION
    }
}

/// The slot left behind when the entry of `slot` is removed.
pub open spec fn vacated<T>(slot: Slot<T>) -> Slot<T> {
    Slot { generation: bumped(slot.generation), value: None }
}

/// Whether `k` is the least element of `free`.
pub open spec fn least_of(free: Set<u32>, k: u32) -> bool {
    &&& free.contains(k)
    &&& forall|x: u32| free.contains(x) ==> k <= x
}

/// Whether `free` has any element.
pub open spec fn has_any(free: Set<u32>) -> bool {
    exists|k: u32| free.contains(k)
}

proof fn lemma_count_update<T>(s: Seq<Slot<T>>, i: int, v: Slot<T>)
    requires
        0 <= i < s.len(),
    ensures
        occupied_count(s.update(i, v)) + (if s[i].value is Some { 1int } else { 0int })
            == occupied_count(s) + (if v.value is Some { 1int } else { 0int }),
    decreases s.len(),
{
    if i == s.len() - 1 {
        assert(s.update(i, v).drop_last() =~= s.drop_last());
    } else {
        lemma_count_update(s.drop_last(), i, v);
        assert(s.update(i, v).drop_last() =~= s.drop_last().update(i, v));
    }
}

proof fn lemma_count_bound<T>(s: Seq<Slot<T>>)
    ensures
        occupied_count(s) <= s.len(),
    decreases s.len(),
{
    if s.len() > 0 {
        lemma_count_bound(s.drop_last());
    }
}

proof fn lemma_count_push<T>(s: Seq<Slot<T>>, v: Slot<T>)
    ensures
        occupied_count(s.push(v)) == occupied_count(s) + if v.value is Some {
            1nat
        } else {
            0nat
        },
{
    assert(s.push(v).drop_last() =~= s);
}

/// If some slot is vacant, fewer than all slots are occupied.
proof fn lemma_count_vacant<T>(s: Seq<Slot<T>>, i: int)
    requires
        0 <= i < s.len(),
        s[i].value is None,
    ensures
        occupied_count(s) < s.len(),
    decreases s.len(),
{
    if i == s.len() - 1 {
        lemma_count_bound(s.drop_last());
    } else {
        lemma_count_vacant(s.drop_last(), i);
    }
}

/// The slot left behind by clearing the arena: an occupied slot is vacated,
/// any other slot is kept as it is.
pub open spec fn cleared<T>(slot: Slot<T>) -> Slot<T> {
    if slot.value is Some {
        vacated(slot)
    } else {
        slot
    }
}

/// Whether clearing returns slot `k` of `slots` to the free list: it was
/// occupied and its generation can still be bumped without retiring it.
pub open spec fn freed_by_clear<T>(slots: Seq<Slot<T>>, k: u32) -> bool {
    &&& k < slots.len()
    &&& slots[k as int].value is Some
    &&& slots[k as int].generation < RETIRED_GENERATION - 1
}

proof fn lemma_count_all_vacant<T>(s: Seq<Slot<T>>)
    requires
        forall|j: int| 0 <= j < s.len() ==> (#[trigger] s[j]).value is None,
    ensures
        occupied_count(s) == 0,
    decreases s.len(),
{
    if s.len() > 0 {
        lemma_count_all_vacant(s.drop_last());
    }
}

/// The live entries of `slots`, as `(id, value)` pairs in ascending index
/// order.
pub open spec fn live_entries<T>(slots: Seq<Slot<T>>) -> Seq<(EntityId, T)>
    decreases slots.len(),
{
    if slots.len() == 0 {
        Seq::empty()
    } else {
        let rest = live_entries(slots.drop_last());
        let last = slots.last();
        if last.value is Some {
            rest.push((EntityId::spec_new((slots.len() - 1) as u32, last.generation), last.value->0))
        } else {
            rest
        }
    }
}

/// The defect, if any, of one serialized slot given its membership of the
/// serialized free list.
pub open spec fn slot_defect<T>(slot: Slot<T>, in_free: bool) -> Option<&'static str> {
    if slot.generation == 0 {
        Some(DEFECT_GENERATION_ZERO)
    } else if slot.value is Some && in_free {
        Some(DEFECT_OCCUPIED_BUT_FREE)
    } else if slot.value is None && in_free && slot.generation == RETIRED_GENERATION {
        Some(DEFECT_RETIRED_BUT_FREE)
    } else if slot.value is None && !in_free && slot.generation != RETIRED_GENERATION {
        Some(DEFECT_VACANT_NOT_FREE)
    } else {
        None
    }
}

/// The defect of the lowest-index defective slot at or after index `i`.
pub open spec fn first_defect<T>(slots: Seq<Slot<T>>, free: Set<u32>, i: int) -> Option<&'static str>
    decreases slots.len() - i,
{
    if i < 0 || i >= slots.len() {
        None
    } else {
        match slot_defect(slots[i], free.contains(i as u32)) {
            Some(d) => Some(d),
            None => first_defect(slots, free, i + 1),
        }
    }
}

/// The error with which loading the serialized parts `slots` and `free`
/// fails, or `None` when they form a consistent arena. The checks run in
/// order: slot count, free-list range, then each slot by ascending index.
pub open spec fn repr_defect<T>(slots: Seq<Slot<T>>, free: Set<u32>) -> Option<&'static str> {
    if slots.len() > u32::MAX {
        Some(DEFECT_SLOT_COUNT)
    } else if exists|k: u32| free.contains(k) && k >= slots.len() {
        Some(DEFECT_FREE_INDEX_RANGE)
    } else {
        first_defect(slots, free, 0)
    }
}

/// Removes and returns the least element of the set, or `None` when the set
/// is empty.
///
/// Calls `BTreeSet::pop_first`, which removes the first element in the set's
/// order; for `u32` that is the minimum. The contract states exactly that.
#[verifier::external_body]
fn pop_least(set: &mut BTreeSet<u32>) -> (r: Option<u32>)
    ensures
        r is None ==> !has_any(old(set)@) && final(set)@ == old(set)@,
        r matches Some(k) ==> least_of(old(set)@, k) && final(set)@ == old(set)@.remove(k),
{
    set.pop_first()
}

/// Returns the greatest element of the set, or `None` when the set is empty.
///
/// Calls `BTreeSet::last`, which returns the last element in the set's order;
/// for `u32` that is the maximum. The contract states exactly that.
#[verifier::external_body]
fn greatest(set: &BTreeSet<u32>) -> (r: Option<u32>)
    ensures
        r is None ==> !has_any(set@),
        r matches Some(k) ==> set@.contains(k) && forall|x: u32| set@.contains(x) ==> x <= k,
{
    set.last().copied()
}

/// A slot allocator that hands out [`EntityId`]s and refuses to honour dead
/// ones.
///
/// # Invariants
///
/// 1. **Ascending index order.** [`iter`](Self::iter) and [`ids`](Self::ids)
///    yield entries in ascending slot-index order.
/// 2. **Lowest-index reuse.** [`insert`](Self::insert) reuses the *lowest*
///    free slot index, or appends when there is none.
/// 3. **Dead ids stay dead.** An `EntityId` that has been removed never
///    resolves again, for the life of the arena.
/// 4. **Generations never wrap.** `u32::MAX` is a tombstone that is never
///    issued; a slot whose generation would reach it is retired permanently.
/// 5. **`len` counts live entries**, not slots.
#[derive(Debug, Clone, PartialEq, Eq)]
pub struct GenerationalArena<T> {
    slots: Vec<Slot<T>>,
    free: BTreeSet<u32>,
    len: usize,
}

/// Whether `after` has the slots of `before` with the same generations and
/// occupancy, only the values of occupied slots possibly changed.
pub open spec fn same_shape<T>(before: Seq<Slot<T>>, after: Seq<Slot<T>>) -> bool {
    &&& after.len() == before.len()
    &&& forall|i: int|
        0 <= i < before.len() ==> (#[trigger] after[i]).generation == before[i].generation && (
        after[i].value is Some <==> before[i].value is Some)
}

/// Slots of the same shape count the same number of occupied slots.
proof fn lemma_same_shape_count<T>(before: Seq<Slot<T>>, after: Seq<Slot<T>>)
    requires
        same_shape(before, after),
    ensures
        occupied_count(after) == occupied_count(before),
    decreases before.len(),
{
    if before.len() > 0 {
        let b = before.drop_last();
        let a = after.drop_last();
        assert forall|i: int| 0 <= i < b.len() implies (#[trigger] a[i]).generation == b[i].generation
            && (a[i].value is Some <==> b[i].value is Some) by {
            assert(a[i] == after[i]);
            assert(b[i] == before[i]);
        }
        lemma_same_shape_count(b, a);
        assert(after.last() == after[after.len() - 1]);
    }
}

/// Slots of the same shape count the same number of occupied slots and are
/// consistent with the same free sets.
pub broadcast proof fn lemma_same_shape<T>(before: Seq<Slot<T>>, after: Seq<Slot<T>>)
    requires
        #[trigger] same_shape(before, after),
    ensures
        occupied_count(after) == occupied_count(before),
        forall|free: Set<u32>| #[trigger]
            parts_consistent(before, free) ==> parts_consistent(after, free),
{
    lemma_same_shape_count(before, after);
    assert forall|free: Set<u32>| #[trigger] parts_consistent(before, free) implies parts_consistent(
        after,
        free,
    ) by {
        assert forall|i: int| 0 <= i < after.len() implies slot_consistent(
            #[trigger] after[i],
            free.contains(i as u32),
        ) by {
            assert(slot_consistent(before[i], free.contains(i as u32)));
        }
    }
}

/// Appends to `out` an `(id, &mut value)` pair for each occupied slot of
/// `slots`, in ascending index order. What is written through each
/// reference becomes the value of its slot.
fn collect_live_mut<'a, T>(slots: &'a mut [Slot<T>], out: &mut Vec<(EntityId, &'a mut T)>)
    requires
        old(slots)@.len() <= u32::MAX + 1,
    ensures
        final(out)@.len() == old(out)@.len() + live_entries(old(slots)@).len(),
        forall|k: int| 0 <= k < old(out)@.len() ==> final(out)@[k] == old(out)@[k],
        forall|k: int|
            0 <= k < live_entries(old(slots)@).len() ==> (#[trigger] final(out)@[old(out)@.len() + k]).0
                == live_entries(old(slots)@)[k].0 && *final(out)@[old(out)@.len() + k].1
                == live_entries(old(slots)@)[k].1,
        same_shape(old(slots)@, final(slots)@),
        forall|k: int|
            0 <= k < live_entries(old(slots)@).len() ==> final(slots)@[live_entries(
                old(slots)@,
            )[k].0.slot_index() as int].value == Some(
                *final(#[trigger] final(out)@[old(out)@.len() + k].1),
            ),
    decreases old(slots)@.len(),
{
    let len = slots.len();
    if len == 0 {
        return;
    }
    let ghost before = slots@;
    let ghost n0 = out@.len();
    let (init, last) = slots.split_at_mut(len - 1);
    proof {
        assert(before.drop_last() =~= init@);
        assert(last@ =~= seq![before.last()]);
        lemma_entries_bounded(before.drop_last());
    }
    collect_live_mut(init, out);
    let ghost n1 = out@.len();
    match last.first_mut() {
        Some(slot) => {
            let generation = slot.generation;
            match &mut slot.value {
                Some(v) => {
                    out.push((EntityId { index: (len - 1) as u32, generation }, v));
                },
                None => {},
            }
        },
        None => {},
    }
}

/// The `(id, &mut value)` pairs of the occupied slots of `slots`, in
/// ascending index order. What is written through each reference becomes
/// the value of its slot.
fn live_refs<'a, T>(slots: &'a mut Vec<Slot<T>>) -> (out: Vec<(EntityId, &'a mut T)>)
    requires
        old(slots)@.len() <= u32::MAX + 1,
    ensures
        out@.len() == live_entries(old(slots)@).len(),
        forall|k: int|
            0 <= k < out@.len() ==> (#[trigger] out@[k]).0 == live_entries(old(slots)@)[k].0
                && *out@[k].1 == live_entries(old(slots)@)[k].1 && final(slots)@[live_entries(
                old(slots)@,
            )[k].0.slot_index() as int].value == Some(*final(out@[k].1)),
        same_shape(old(slots)@, final(slots)@),
{
    let mut out: Vec<(EntityId, &'a mut T)> = Vec::new();
    collect_live_mut(slots.as_mut_slice(), &mut out);
    proof {
        assert forall|k: int| 0 <= k < out@.len() implies #[trigger] out@[k] == out@[0 + k] by {}
    }
    out
}

impl<T> GenerationalArena<T> {
    /// The slots of the arena, in index order.
    pub closed spec fn slot_seq(&self) -> Seq<Slot<T>> {
        self.slots@
    }

    /// The indices of the free slots.
    pub closed spec fn free_set(&self) -> Set<u32> {
        self.free@
    }

    /// The arena's invariants.
    pub closed spec fn wf(&self) -> bool {
        &&& parts_consistent(self.slots@, self.free@)
        &&& self.len == occupied_count(self.slots@)
    }

    /// Whether `id` addresses a live entry.
    pub open spec fn live(&self, id: EntityId) -> bool {
        id_live_in(self.slot_seq(), id)
    }

    /// Whether `id` was issued by this arena and has since been removed: its
    /// slot has moved to a later generation, or the slot retired at it.
    pub open spec fn dead(&self, id: EntityId) -> bool {
        &&& id.slot_index() < self.slot_seq().len()
        &&& id.slot_generation() >= FIRST_GENERATION
        &&& {
            let slot = self.slot_seq()[id.slot_index() as int];
            ||| slot.generation > id.slot_generation()
            ||| (slot.generation == id.slot_generation() && slot.value is None
                && !self.free_set().contains(id.slot_index()))
        }
    }

    /// Whether `id` is, or has been, issued by this arena.
    pub open spec fn issued(&self, id: EntityId) -> bool {
        self.live(id) || self.dead(id)
    }

    /// The value `id` addresses, for a live id.
    pub open spec fn value_of(&self, id: EntityId) -> T {
        self.slot_seq()[id.slot_index() as int].value->0
    }

    /// The number of live entries.
    pub open spec fn live_count(&self) -> nat {
        occupied_count(self.slot_seq())
    }

    /// A well-formed arena holds at most `u32::MAX` slots, so every slot
    /// index fits an id and the arena's serialized form loads again.
    pub proof fn lemma_slot_bound(&self)
        requires
            self.wf(),
        ensures
            self.slot_seq().len() <= u32::MAX,
    {
    }

    /// The listing `iter` and `ids` give is exactly the live entries, once
    /// each, in strictly ascending index order, and as many as `len` counts;
    /// each listed id resolves to its listed value.
    pub proof fn lemma_listing(&self)
        requires
            self.wf(),
        ensures
            self.entries().len() == self.live_count(),
            forall|a: int, b: int|
                0 <= a < b < self.entries().len() ==> (#[trigger] self.entries()[a]).0.slot_index()
                    < (#[trigger] self.entries()[b]).0.slot_index(),
            forall|k: int|
                0 <= k < self.entries().len() ==> self.live((#[trigger] self.entries()[k]).0)
                    && self.value_of(self.entries()[k].0) == self.entries()[k].1,
            forall|id: EntityId| #[trigger]
                self.live(id) ==> exists|k: int|
                    0 <= k < self.entries().len() && self.entries()[k].0 == id,
    {
        lemma_entries_ascending(self.slot_seq());
        lemma_entries_exact(self.slot_seq());
    }

    /// A dead id is not live.
    pub proof fn lemma_dead_not_live(&self, id: EntityId)
        requires
            self.wf(),
            self.dead(id),
        ensures
            !self.live(id),
    {
    }

    /// Creates an empty arena.
    pub fn new() -> (a: Self)
        ensures
            a.wf(),
            a.slot_seq() == Seq::<Slot<T>>::empty(),
            a.free_set() == Set::<u32>::empty(),
    {
        GenerationalArena { slots: Vec::new(), free: BTreeSet::new(), len: 0 }
    }

    /// Creates an empty arena with room for `capacity` slots before it
    /// reallocates.
    pub fn with_capacity(capacity: usize) -> (a: Self)
        ensures
            a.wf(),
            a.slot_seq() == Seq::<Slot<T>>::empty(),
            a.free_set() == Set::<u32>::empty(),
    {
        GenerationalArena { slots: Vec::with_capacity(capacity), free: BTreeSet::new(), len: 0 }
    }

    /// Inserts `value` and returns the id that now addresses it.
    ///
    /// Reuses the lowest free slot index if there is one, otherwise appends a
    /// new slot. The returned id is distinct from every id this arena has ever
    /// issued, and its generation is never the retirement tombstone.
    ///
    /// The arena never holds more than `u32::MAX` slots: inserting when no
    /// slot is free and `u32::MAX` slots exist is outside the contract.
    pub fn insert(&mut self, value: T) -> (id: EntityId)
        requires
            old(self).wf(),
            has_any(old(self).free_set()) || old(self).slot_seq().len() < u32::MAX,
        ensures
            final(self).wf(),
            final(self).live(id),
            final(self).value_of(id) == value,
            FIRST_GENERATION <= id.slot_generation() < RETIRED_GENERATION,
            has_any(old(self).free_set()) ==> {
                &&& least_of(old(self).free_set(), id.slot_index())
                &&& id.slot_generation() == old(self).slot_seq()[id.slot_index() as int].generation
                &&& final(self).slot_seq() == old(self).slot_seq().update(
                    id.slot_index() as int,
                    (Slot { generation: id.slot_generation(), value: Some(value) }),
                )
                &&& final(self).free_set() == old(self).free_set().remove(id.slot_index())
            },
            !has_any(old(self).free_set()) ==> {
                &&& id.slot_index() == old(self).slot_seq().len()
                &&& id.slot_generation() == FIRST_GENERATION
                &&& final(self).slot_seq() == old(self).slot_seq().push(
                    (Slot { generation: FIRST_GENERATION, value: Some(value) }),
                )
                &&& final(self).free_set() == old(self).free_set()
            },
            final(self).live_count() == old(self).live_count() + 1,
            forall|x: EntityId| #[trigger] old(self).issued(x) ==> x != id,
            forall|x: EntityId| #[trigger] old(self).live(x) ==> final(self).live(x),
            forall|x: EntityId| #[trigger] old(self).dead(x) ==> final(self).dead(x),
            keeps_issued(*old(self), *final(self)),
            !old(self).issued(id),
    {
        let ghost old_slots = self.slots@;
        let ghost old_free = self.free@;
        match pop_least(&mut self.free) {
            Some(index) => {
                let i = index as usize;
                let generation = self.slots[i].generation;
                proof {
                    assert(slot_consistent(old_slots[i as int], true));
                    lemma_count_update(
                        old_slots,
                        i as int,
                        Slot { generation, value: Some(value) },
                    );
                    lemma_count_vacant(old_slots, i as int);
                }
                self.slots.set(i, Slot { generation, value: Some(value) });
                self.len = self.len + 1;
                let id = EntityId { index, generation };
                proof {
                    assert forall|j: int| 0 <= j < self.slots@.len() implies slot_consistent(
                        #[trigger] self.slots@[j],
                        self.free@.contains(j as u32),
                    ) by {
                        if j != i as int {
                            assert(slot_consistent(old_slots[j], old_free.contains(j as u32)));
                            assert(j as u32 != index);
                        }
                    }
                    assert forall|x: EntityId| #[trigger] old(self).issued(x) implies x != id by {
                        if x.slot_index() == index {
                            assert(slot_consistent(old_slots[i as int], true));
                        }
                    }
                    assert forall|x: EntityId| #[trigger] old(self).dead(x) implies final(self).dead(x) by {
                        if x.slot_index() == index {
                            assert(old_free.contains(index));
                        }
                    }
                }
                id
            },
            None => {
                let index = self.slots.len() as u32;
                proof {
                    lemma_count_push(old_slots, Slot { generation: FIRST_GENERATION, value: Some(value) });
                    lemma_count_bound(old_slots);
                }
                self.slots.push(Slot { generation: FIRST_GENERATION, value: Some(value) });
                self.len = self.len + 1;
                let id = EntityId { index, generation: FIRST_GENERATION };
                proof {
                    assert forall|j: int| 0 <= j < self.slots@.len() implies slot_consistent(
                        #[trigger] self.slots@[j],
                        self.free@.contains(j as u32),
                    ) by {
                        if j < old_slots.len() {
                            assert(slot_consistent(old_slots[j], old_free.contains(j as u32)));
                        } else {
                            assert(!old_free.contains(j as u32));
                        }
                    }
                }
                id
            },
        }
    }

    /// Removes the entry `id` addresses and returns it, or `None` if `id` is
    /// dead or was never issued by this arena.
    ///
    /// The slot's generation is bumped before the slot returns to the free
    /// list, so `id` is dead from here on. Once the last issuable generation
    /// has been used, the slot is retired instead: it takes the tombstone
    /// generation and is never allocated again.
    pub fn remove(&mut self, id: EntityId) -> (r: Option<T>)
        requires
            old(self).wf(),
        ensures
            final(self).wf(),
            old(self).live(id) ==> {
                &&& r == old(self).slot_seq()[id.slot_index() as int].value
                &&& final(self).slot_seq() == old(self).slot_seq().update(
                    id.slot_index() as int,
                    vacated(old(self).slot_seq()[id.slot_index() as int]),
                )
                &&& final(self).free_set() == if id.slot_generation() < RETIRED_GENERATION - 1 {
                    old(self).free_set().insert(id.slot_index())
                } else {
                    old(self).free_set()
                }
                &&& final(self).live_count() + 1 == old(self).live_count()
                &&& final(self).dead(id)
            },
            !old(self).live(id) ==> {
                &&& r is None
                &&& final(self).slot_seq() == old(self).slot_seq()
                &&& final(self).free_set() == old(self).free_set()
            },
            final(self).slot_seq() == slots_after_remove(old(self).slot_seq(), id),
            final(self).free_set() == free_after_remove(old(self).slot_seq(), old(self).free_set(), id),
            forall|x: EntityId| #[trigger] old(self).live(x) && x != id ==> final(self).live(x),
            forall|x: EntityId| #[trigger] old(self).dead(x) ==> final(self).dead(x),
            forall|x: EntityId| #[trigger] old(self).issued(x) ==> final(self).issued(x),
            keeps_issued(*old(self), *final(self)),
    {
        let i = id.index as usize;
        if i >= self.slots.len() {
            return None;
        }
        if self.slots[i].generation != id.generation || self.slots[i].value.is_none() {
            return None;
        }
        let ghost old_slots = self.slots@;
        let ghost old_free = self.free@;
        let generation = self.slots[i].generation;
        let next = if generation < RETIRED_GENERATION - 1 {
            generation + 1
        } else {
            RETIRED_GENERATION
        };
        let mut vacant = Slot { generation: next, value: None };
        self.slots.set_and_swap(i, &mut vacant);
        proof {
            lemma_count_update(old_slots, i as int, vacated(old_slots[i as int]));
            assert(self.slots@ == old_slots.update(i as int, vacated(old_slots[i as int])));
        }
        self.len = self.len - 1;
        if generation < RETIRED_GENERATION - 1 {
            self.free.insert(id.index);
        }
        proof {
            assert forall|j: int| 0 <= j < self.slots@.len() implies slot_consistent(
                #[trigger] self.slots@[j],
                self.free@.contains(j as u32),
            ) by {
                if j != i as int {
                    assert(slot_consistent(old_slots[j], old_free.contains(j as u32)));
                    assert(j as u32 != id.index);
                }
            }
        }
        vacant.value
    }

    /// Mutably borrows the entry `id` addresses, or `None` if `id` is dead.
    ///
    /// Whatever the caller writes through the borrow becomes the entry's
    /// value; the slot's generation and the free set do not change.
    pub fn get_mut(&mut self, id: EntityId) -> (r: Option<&mut T>)
        requires
            old(self).wf(),
        ensures
            old(self).live(id) ==> r is Some,
            !old(self).live(id) ==> r is None && *final(self) == *old(self),
            keeps_issued(*old(self), *final(self)),
            r matches Some(v) ==> {
                &&& *v == old(self).value_of(id)
                &&& final(self).slot_seq() == old(self).slot_seq().update(
                    id.slot_index() as int,
                    (Slot { generation: id.slot_generation(), value: Some(*final(v)) }),
                )
                &&& final(self).free_set() == old(self).free_set()
                &&& final(self).wf()
            },
    {
        let i = id.index as usize;
        if i >= self.slots.len() {
            return None;
        }
        if self.slots[i].generation != id.generation || self.slots[i].value.is_none() {
            return None;
        }
        let ghost old_slots = self.slots@;
        proof {
            assert forall|v: Slot<T>| v.value is Some implies #[trigger] occupied_count(
                old_slots.update(i as int, v),
            ) == occupied_count(old_slots) by {
                lemma_count_update(old_slots, i as int, v);
            }
            assert forall|v: Slot<T>, j: int| 0 <= j < old_slots.len() && j != i && v.generation == id.generation && v.value is Some
                implies slot_consistent(#[trigger] old_slots.update(i as int, v)[j], self.free@.contains(j as u32)) by {
                assert(slot_consistent(old_slots[j], self.free@.contains(j as u32)));
            }
        }
        let slot = &mut self.slots[i];
        slot.value.as_mut()
    }

    /// Removes every entry, leaving the arena empty.
    ///
    /// Every id outstanding before the call is dead afterwards: clearing
    /// vacates each occupied slot exactly as [`remove`](Self::remove) does,
    /// including retiring a slot whose generations are used up. Slots
    /// themselves are kept.
    pub fn clear(&mut self)
        requires
            old(self).wf(),
        ensures
            final(self).wf(),
            final(self).slot_seq().len() == old(self).slot_seq().len(),
            forall|j: int|
                0 <= j < old(self).slot_seq().len() ==> #[trigger] final(self).slot_seq()[j]
                    == cleared(old(self).slot_seq()[j]),
            forall|k: u32|
                #[trigger] final(self).free_set().contains(k) <==> (old(self).free_set().contains(k)
                    || freed_by_clear(old(self).slot_seq(), k)),
            final(self).live_count() == 0,
            forall|x: EntityId| #[trigger] old(self).issued(x) ==> final(self).dead(x),
            keeps_issued(*old(self), *final(self)),
    {
        let ghost old_slots = self.slots@;
        let ghost old_free = self.free@;
        let n = self.slots.len();
        let mut i: usize = 0;
        while i < n
            invariant
                n == old_slots.len(),
                self.slots@.len() == n,
                i <= n,
                parts_consistent(old_slots, old_free),
                forall|j: int| 0 <= j < i ==> #[trigger] self.slots@[j] == cleared(old_slots[j]),
                forall|j: int| i <= j < n ==> #[trigger] self.slots@[j] == old_slots[j],
                forall|k: u32|
                    #[trigger] self.free@.contains(k) <==> (old_free.contains(k) || (k < i
                        && freed_by_clear(old_slots, k))),
            decreases n - i,
        {
            if self.slots[i].value.is_some() {
                let generation = self.slots[i].generation;
                let next = if generation < RETIRED_GENERATION - 1 {
                    generation + 1
                } else {
                    RETIRED_GENERATION
                };
                let mut vacant = Slot { generation: next, value: None };
                self.slots.set_and_swap(i, &mut vacant);
                if generation < RETIRED_GENERATION - 1 {
                    self.free.insert(i as u32);
                }
            }
            i = i + 1;
        }
        self.len = 0;
        proof {
            lemma_count_all_vacant(self.slots@);
            assert forall|j: int| 0 <= j < self.slots@.len() implies slot_consistent(
                #[trigger] self.slots@[j],
                self.free@.contains(j as u32),
            ) by {
                assert(slot_consistent(old_slots[j], old_free.contains(j as u32)));
            }
            assert forall|x: EntityId| #[trigger] old(self).issued(x) implies final(self).dead(x) by {
                let j = x.slot_index() as int;
                assert(slot_consistent(old_slots[j], old_free.contains(j as u32)));
            }
        }
    }

    /// The live entries, as `(id, value)` pairs in ascending index order.
    pub open spec fn entries(&self) -> Seq<(EntityId, T)> {
        live_entries(self.slot_seq())
    }

    /// Iterates over `(id, &value)` in ascending index order (invariant 1).
    pub fn iter(&self) -> (r: std::vec::IntoIter<(EntityId, &T)>)
        requires
            self.wf(),
        ensures
            vstd::std_specs::iter::IteratorSpec::remaining(&r).len() == self.entries().len(),
            forall|k: int|
                0 <= k < self.entries().len() ==> (#[trigger] vstd::std_specs::iter::IteratorSpec::remaining(&r)[k]).0 == self.entries()[k].0
                    && *vstd::std_specs::iter::IteratorSpec::remaining(&r)[k].1 == self.entries()[k].1,
    {
        let mut out: Vec<(EntityId, &T)> = Vec::new();
        let n = self.slots.len();
        let mut i: usize = 0;
        while i < n
            invariant
                n == self.slots@.len(),
                n <= u32::MAX + 1,
                i <= n,
                out@.len() == live_entries(self.slots@.take(i as int)).len(),
                forall|k: int|
                    0 <= k < out@.len() ==> (#[trigger] out@[k]).0 == live_entries(
                        self.slots@.take(i as int),
                    )[k].0 && *out@[k].1 == live_entries(self.slots@.take(i as int))[k].1,
            decreases n - i,
        {
            proof {
                assert(self.slots@.take(i + 1).drop_last() =~= self.slots@.take(i as int));
            }
            let slot = &self.slots[i];
            match &slot.value {
                Some(v) => {
                    out.push((EntityId { index: i as u32, generation: slot.generation }, v));
                },
                None => {},
            }
            i = i + 1;
        }
        proof {
            assert(self.slots@.take(n as int) =~= self.slots@);
        }
        out.into_iter()
    }

    /// Iterates over `(id, &mut value)` in ascending index order
    /// (invariant 1). What is written through each reference becomes the
    /// value of its entry; ids, generations and the free list are unchanged.
    pub fn iter_mut(&mut self) -> (r: std::vec::IntoIter<(EntityId, &mut T)>)
        requires
            old(self).wf(),
        ensures
            vstd::std_specs::iter::IteratorSpec::remaining(&r).len() == old(self).entries().len(),
            forall|k: int|
                0 <= k < old(self).entries().len() ==> (#[trigger] vstd::std_specs::iter::IteratorSpec::remaining(&r)[k]).0
                    == old(self).entries()[k].0 && *vstd::std_specs::iter::IteratorSpec::remaining(&r)[k].1
                    == old(self).entries()[k].1,
            final(self).wf(),
            final(self).free_set() == old(self).free_set(),
            same_shape(old(self).slot_seq(), final(self).slot_seq()),
            keeps_issued(*old(self), *final(self)),
            forall|k: int|
                0 <= k < old(self).entries().len() ==> final(self).slot_seq()[old(self).entries()[k].0.slot_index() as int].value
                    == Some(*final(#[trigger] vstd::std_specs::iter::IteratorSpec::remaining(&r)[k].1)),
    {
        broadcast use lemma_same_shape;

        let out = live_refs(&mut self.slots);
        out.into_iter()
    }

    /// Iterates over the live ids in ascending index order (invariant 1).
    pub fn ids(&self) -> (r: std::vec::IntoIter<EntityId>)
        requires
            self.wf(),
        ensures
            vstd::std_specs::iter::IteratorSpec::remaining(&r).len() == self.entries().len(),
            forall|k: int|
                0 <= k < self.entries().len() ==> #[trigger] vstd::std_specs::iter::IteratorSpec::remaining(&r)[k] == self.entries()[k].0,
    {
        let mut out: Vec<EntityId> = Vec::new();
        let n = self.slots.len();
        let mut i: usize = 0;
        while i < n
            invariant
                n == self.slots@.len(),
                n <= u32::MAX + 1,
                i <= n,
                out@.len() == live_entries(self.slots@.take(i as int)).len(),
                forall|k: int|
                    0 <= k < out@.len() ==> #[trigger] out@[k] == live_entries(
                        self.slots@.take(i as int),
                    )[k].0,
            decreases n - i,
        {
            proof {
                assert(self.slots@.take(i + 1).drop_last() =~= self.slots@.take(i as int));
            }
            if self.slots[i].value.is_some() {
                out.push(EntityId { index: i as u32, generation: self.slots[i].generation });
            }
            i = i + 1;
        }
        proof {
            assert(self.slots@.take(n as int) =~= self.slots@);
        }
        out.into_iter()
    }

    /// Rebuilds an arena from its serialized form, rejecting one whose slots
    /// and free list disagree.
    ///
    /// The free list is part of the serialized form on purpose: restoring it
    /// is what makes a loaded arena allocate the same ids the saved one would
    /// have. The live count is recomputed from the slots.
    pub fn try_from_repr(repr: ArenaRepr<T>) -> (r: Result<Self, CoreError>)
        ensures
            repr_defect(repr.slots@, repr.free@) matches Some(d) ==> r == Err::<Self, CoreError>(
                CoreError::CorruptArena(d),
            ),
            repr_defect(repr.slots@, repr.free@) is None ==> (r matches Ok(a) && a.wf()
                && a.slot_seq() == repr.slots@ && a.free_set() == repr.free@),
    {
        let ghost slots = repr.slots@;
        let ghost free = repr.free@;
        let n = repr.slots.len();
        if n > u32::MAX as usize {
            return Err(CoreError::CorruptArena(DEFECT_SLOT_COUNT));
        }
        if let Some(highest) = greatest(&repr.free) {
            if highest as usize >= n {
                return Err(CoreError::CorruptArena(DEFECT_FREE_INDEX_RANGE));
            }
        }
        assert(forall|k: u32| free.contains(k) ==> k < n);
        let mut len: usize = 0;
        let mut i: usize = 0;
        while i < n
            invariant
                n == repr.slots@.len(),
                n <= u32::MAX,
                i <= n,
                slots == repr.slots@,
                free == repr.free@,
                forall|k: u32| free.contains(k) ==> k < n,
                first_defect(slots, free, 0) == first_defect(slots, free, i as int),
                forall|j: int| 0 <= j < i ==> slot_consistent(#[trigger] slots[j], free.contains(j as u32)),
                len == occupied_count(slots.take(i as int)),
                len <= i,
            decreases n - i,
        {
            let slot = &repr.slots[i];
            let in_free = repr.free.contains(&(i as u32));
            proof {
                assert(slots.take(i + 1).drop_last() =~= slots.take(i as int));
            }
            if slot.generation == 0 {
                return Err(CoreError::CorruptArena(DEFECT_GENERATION_ZERO));
            }
            if slot.value.is_some() {
                if in_free {
                    return Err(CoreError::CorruptArena(DEFECT_OCCUPIED_BUT_FREE));
                }
                len = len + 1;
            } else if in_free {
                if slot.generation == RETIRED_GENERATION {
                    return Err(CoreError::CorruptArena(DEFECT_RETIRED_BUT_FREE));
                }
            } else if slot.generation != RETIRED_GENERATION {
                return Err(CoreError::CorruptArena(DEFECT_VACANT_NOT_FREE));
            }
            i = i + 1;
        }
        proof {
            assert(slots.take(n as int) =~= slots);
        }
        Ok(GenerationalArena { slots: repr.slots, free: repr.free, len })
    }

    /// Takes the arena apart into its serialized form.
    pub fn into_repr(self) -> (r: ArenaRepr<T>)
        ensures
            r.slots@ == self.slot_seq(),
            r.free@ == self.free_set(),
    {
        ArenaRepr { slots: self.slots, free: self.free }
    }

    /// The slots of the arena, in index order.
    pub fn slots(&self) -> (r: &[Slot<T>])
        ensures
            r@ == self.slot_seq(),
    {
        self.slots.as_slice()
    }

    /// The indices of the free slots, in ascending order.
    pub fn free_slots(&self) -> (r: &BTreeSet<u32>)
        ensures
            r@ == self.free_set(),
    {
        &self.free
    }

    /// Drives the generation of a live slot to an arbitrary nonzero value and
    /// returns the id that now addresses it.
    ///
    /// A diagnostic for exercising generation exhaustion without billions of
    /// insert and remove pairs; ordinary callers never need it.
    pub fn force_generation(&mut self, id: EntityId, generation: u32) -> (r: EntityId)
        requires
            old(self).wf(),
            old(self).live(id),
            generation > 0,
        ensures
            final(self).wf(),
            r == EntityId::spec_new(id.slot_index(), generation),
            final(self).slot_seq() == old(self).slot_seq().update(
                id.slot_index() as int,
                (Slot { generation, value: old(self).slot_seq()[id.slot_index() as int].value }),
            ),
            final(self).free_set() == old(self).free_set(),
            final(self).live(r),
    {
        let i = id.index as usize;
        let ghost old_slots = self.slots@;
        let mut taken = Slot { generation, value: None };
        self.slots.set_and_swap(i, &mut taken);
        let value = taken.value;
        self.slots.set(i, Slot { generation, value });
        proof {
            assert(self.slots@ =~= old_slots.update(i as int, Slot { generation, value }));
            assert(value is Some);
            lemma_count_update(old_slots, i as int, Slot { generation, value });
            assert forall|j: int| 0 <= j < self.slots@.len() implies slot_consistent(
                #[trigger] self.slots@[j],
                self.free@.contains(j as u32),
            ) by {
                assert(slot_consistent(old_slots[j], self.free@.contains(j as u32)));
            }
        }
        EntityId { index: id.index, generation }
    }

    /// Borrows the entry `id` addresses, or `None` if `id` is dead.
    pub fn get(&self, id: EntityId) -> (r: Option<&T>)
        requires
            self.wf(),
        ensures
            self.live(id) ==> r == Some(&self.value_of(id)),
            !self.live(id) ==> r is None,
    {
        let i = id.index as usize;
        if i >= self.slots.len() {
            return None;
        }
        let slot = &self.slots[i];
        if slot.generation == id.generation {
            slot.value.as_ref()
        } else {
            None
        }
    }

    /// Returns `true` if `id` addresses a live entry.
    ///
    /// Always agrees with `self.get(id).is_some()`.
    pub fn contains(&self, id: EntityId) -> (r: bool)
        requires
            self.wf(),
        ensures
            r == self.live(id),
    {
        self.get(id).is_some()
    }

    /// The number of live entries.
    ///
    /// Counts entries, not slots: free and retired slots are not included.
    pub fn len(&self) -> (r: usize)
        requires
            self.wf(),
        ensures
            r == self.live_count(),
    {
        self.len
    }

    /// Returns `true` if the arena holds no live entries.
    ///
    /// An empty arena may still own slots: a cleared arena keeps its slots so
    /// that ids issued before the clear stay dead.
    pub fn is_empty(&self) -> (r: bool)
        requires
            self.wf(),
        ensures
            r == (self.live_count() == 0),
    {
        self.len == 0
    }
}

/// The slots after removing `id`: its slot is vacated if `id` is live, and
/// nothing changes otherwise.
pub open spec fn slots_after_remove<T>(slots: Seq<Slot<T>>, id: EntityId) -> Seq<Slot<T>> {
    if id_live_in(slots, id) {
        slots.update(id.slot_index() as int, vacated(slots[id.slot_index() as int]))
    } else {
        slots
    }
}

/// The free set after removing `id`: its slot joins the free set if `id` is
/// live and the slot is not retired by the removal.
pub open spec fn free_after_remove<T>(slots: Seq<Slot<T>>, free: Set<u32>, id: EntityId) -> Set<u32> {
    if id_live_in(slots, id) && id.slot_generation() < RETIRED_GENERATION - 1 {
        free.insert(id.slot_index())
    } else {
        free
    }
}

/// Whether `id` addresses an occupied slot of `slots` at its generation.
pub open spec fn id_live_in<T>(slots: Seq<Slot<T>>, id: EntityId) -> bool {
    &&& id.slot_index() < slots.len()
    &&& slots[id.slot_index() as int].generation == id.slot_generation()
    &&& slots[id.slot_index() as int].value is Some
}

/// Whether every id `a` has issued, `b` has issued too: what `insert`,
/// `remove` and `clear` each keep.
pub open spec fn keeps_issued<T>(a: GenerationalArena<T>, b: GenerationalArena<T>) -> bool {
    forall|x: EntityId| #[trigger] a.issued(x) ==> b.issued(x)
}

/// Keeping issued ids carries over any number of steps.
proof fn lemma_keeps_issued_chain<T>(states: Seq<GenerationalArena<T>>, i: int, j: int, x: EntityId)
    requires
        0 <= i <= j < states.len(),
        forall|k: int| 0 <= k < states.len() - 1 ==> keeps_issued(#[trigger] states[k], states[k + 1]),
        states[i].issued(x),
    ensures
        states[j].issued(x),
    decreases j - i,
{
    if i < j {
        assert(keeps_issued(states[i], states[i + 1]));
        lemma_keeps_issued_chain(states, i + 1, j, x);
    }
}

/// No id is issued twice. Take a history of arena states in which each step
/// keeps the ids issued so far, as `insert`, `remove` and `clear` each do,
/// and the ids that `insert` returned along it, each not issued before its
/// step and issued after it, as `insert` ensures. Those ids are pairwise
/// distinct.
pub proof fn lemma_ids_never_reissued<T>(
    states: Seq<GenerationalArena<T>>,
    steps: Seq<int>,
    ids: Seq<EntityId>,
)
    requires
        steps.len() == ids.len(),
        forall|k: int| 0 <= k < states.len() - 1 ==> keeps_issued(#[trigger] states[k], states[k + 1]),
        forall|a: int, b: int| 0 <= a < b < steps.len() ==> #[trigger] steps[a] < #[trigger] steps[b],
        forall|k: int|
            0 <= k < ids.len() ==> 0 <= #[trigger] steps[k] && steps[k] + 1 < states.len()
                && !states[steps[k]].issued(ids[k]) && states[steps[k] + 1].issued(ids[k]),
    ensures
        forall|a: int, b: int| 0 <= a < b < ids.len() ==> #[trigger] ids[a] != #[trigger] ids[b],
{
    assert forall|a: int, b: int| 0 <= a < b < ids.len() implies #[trigger] ids[a] != #[trigger] ids[b] by {
        assert(steps[a] < steps[b]);
        assert(0 <= steps[a] && steps[a] + 1 < states.len() && states[steps[a] + 1].issued(ids[a]));
        assert(0 <= steps[b] && steps[b] + 1 < states.len() && !states[steps[b]].issued(ids[b]));
        lemma_keeps_issued_chain(states, steps[a] + 1, steps[b], ids[a]);
    }
}

/// The slots after removing each id of `ids` in turn.
pub open spec fn slots_after_removals<T>(slots: Seq<Slot<T>>, ids: Seq<EntityId>) -> Seq<Slot<T>>
    decreases ids.len(),
{
    if ids.len() == 0 {
        slots
    } else {
        slots_after_remove(slots_after_removals(slots, ids.drop_last()), ids.last())
    }
}

/// The free set after removing each id of `ids` in turn.
pub open spec fn free_after_removals<T>(slots: Seq<Slot<T>>, free: Set<u32>, ids: Seq<EntityId>) -> Set<u32>
    decreases ids.len(),
{
    if ids.len() == 0 {
        free
    } else {
        free_after_remove(
            slots_after_removals(slots, ids.drop_last()),
            free_after_removals(slots, free, ids.drop_last()),
            ids.last(),
        )
    }
}

/// The live ids of `slots`, in ascending index order.
pub open spec fn live_ids<T>(slots: Seq<Slot<T>>) -> Seq<EntityId> {
    live_entries(slots).map_values(|e: (EntityId, T)| e.0)
}

/// Removing ids whose slots all come before a further slot leaves that slot
/// alone.
proof fn lemma_removals_push<T>(p: Seq<Slot<T>>, x: Slot<T>, free: Set<u32>, ids: Seq<EntityId>)
    requires
        forall|k: int| 0 <= k < ids.len() ==> (#[trigger] ids[k]).slot_index() < p.len(),
    ensures
        slots_after_removals(p, ids).len() == p.len(),
        slots_after_removals(p.push(x), ids) == slots_after_removals(p, ids).push(x),
        free_after_removals(p.push(x), free, ids) == free_after_removals(p, free, ids),
    decreases ids.len(),
{
    if ids.len() > 0 {
        let rest = ids.drop_last();
        assert forall|k: int| 0 <= k < rest.len() implies (#[trigger] rest[k]).slot_index() < p.len() by {
            assert(rest[k] == ids[k]);
        }
        lemma_removals_push(p, x, free, rest);
        let q = slots_after_removals(p, rest);
        let id = ids.last();
        assert(id == ids[ids.len() - 1]);
        assert(q.push(x)[id.slot_index() as int] == q[id.slot_index() as int]);
        if id_live_in(q, id) {
            assert(q.push(x).update(id.slot_index() as int, vacated(q[id.slot_index() as int]))
                =~= q.update(id.slot_index() as int, vacated(q[id.slot_index() as int])).push(x));
        }
    }
}

/// Clearing is removing each live id in turn: the slots and the free set
/// that `clear` leaves are those that removing every live id, in ascending
/// index order, leaves.
pub proof fn lemma_clear_is_removing_each<T>(slots: Seq<Slot<T>>, free: Set<u32>)
    requires
        slots.len() <= u32::MAX,
    ensures
        slots_after_removals(slots, live_ids(slots)) == Seq::new(
            slots.len(),
            |j: int| cleared(slots[j]),
        ),
        forall|k: u32|
            #[trigger] free_after_removals(slots, free, live_ids(slots)).contains(k) <==> (
            free.contains(k) || freed_by_clear(slots, k)),
    decreases slots.len(),
{
    if slots.len() == 0 {
        assert(live_ids(slots) =~= Seq::<EntityId>::empty());
        assert(slots =~= Seq::new(slots.len(), |j: int| cleared(slots[j])));
    } else {
        let p = slots.drop_last();
        let n = p.len();
        let last = slots.last();
        lemma_clear_is_removing_each(p, free);
        lemma_entries_bounded(p);
        let ids_p = live_ids(p);
        assert forall|k: int| 0 <= k < ids_p.len() implies (#[trigger] ids_p[k]).slot_index() < p.len() by {
            assert(ids_p[k] == live_entries(p)[k].0);
        }
        assert(slots == p.push(last));
        lemma_removals_push(p, last, free, ids_p);
        let cp = Seq::new(p.len(), |j: int| cleared(p[j]));
        let target = Seq::new(slots.len(), |j: int| cleared(slots[j]));
        if last.value is Some {
            let id = EntityId::spec_new(n as u32, last.generation);
            EntityId::lemma_spec_new(n as u32, last.generation);
            assert(live_ids(slots) =~= ids_p.push(id));
            assert(live_ids(slots).drop_last() =~= ids_p);
            assert(id_live_in(cp.push(last), id));
            assert(slots_after_removals(slots, live_ids(slots)) =~= target);
            assert forall|k: u32| #[trigger] free_after_removals(slots, free, live_ids(slots)).contains(k) <==> (
                free.contains(k) || freed_by_clear(slots, k)) by {
                if k < n {
                    assert(slots[k as int] == p[k as int]);
                }
                assert(free_after_removals(p, free, ids_p).contains(k) <==> (free.contains(k)
                    || freed_by_clear(p, k)));
            }
        } else {
            assert(live_ids(slots) =~= ids_p);
            assert(slots_after_removals(slots, live_ids(slots)) =~= target);
            assert forall|k: u32| #[trigger] free_after_removals(slots, free, live_ids(slots)).contains(k) <==> (
                free.contains(k) || freed_by_clear(slots, k)) by {
                if k < n {
                    assert(slots[k as int] == p[k as int]);
                }
                assert(free_after_removals(p, free, ids_p).contains(k) <==> (free.contains(k)
                    || freed_by_clear(p, k)));
            }
        }
    }
}

/// Removals commute: removing `x` and then `y` leaves the same slots and free
/// set as removing `y` and then `x`. Allocation depends only on the set of
/// free slots, so the order in which entries were removed is never
/// observable.
pub proof fn lemma_removals_commute<T>(slots: Seq<Slot<T>>, free: Set<u32>, x: EntityId, y: EntityId)
    ensures
        slots_after_remove(slots_after_remove(slots, x), y) == slots_after_remove(
            slots_after_remove(slots, y),
            x,
        ),
        free_after_remove(
            slots_after_remove(slots, x),
            free_after_remove(slots, free, x),
            y,
        ) == free_after_remove(slots_after_remove(slots, y), free_after_remove(slots, free, y), x),
{
    EntityId::lemma_parts(x, y);
    if x.slot_index() == y.slot_index() {
        if id_live_in(slots, x) && id_live_in(slots, y) {
            assert(x == y);
        }
    } else {
        if id_live_in(slots, x) && id_live_in(slots, y) {
            assert(slots_after_remove(slots_after_remove(slots, x), y) =~= slots_after_remove(
                slots_after_remove(slots, y),
                x,
            ));
            assert(free_after_remove(
                slots_after_remove(slots, x),
                free_after_remove(slots, free, x),
                y,
            ) =~= free_after_remove(
                slots_after_remove(slots, y),
                free_after_remove(slots, free, y),
                x,
            ));
        }
    }
}

/// Every entry listed by `live_entries` has an index below the slot count.
proof fn lemma_entries_bounded<T>(slots: Seq<Slot<T>>)
    requires
        slots.len() <= u32::MAX + 1,
    ensures
        forall|k: int|
            0 <= k < live_entries(slots).len() ==> (#[trigger] live_entries(slots)[k]).0.slot_index()
                < slots.len(),
    decreases slots.len(),
{
    if slots.len() > 0 {
        let rest = slots.drop_last();
        lemma_entries_bounded(rest);
        EntityId::lemma_spec_new((slots.len() - 1) as u32, slots.last().generation);
        assert forall|k: int| 0 <= k < live_entries(slots).len() implies (#[trigger] live_entries(
            slots,
        )[k]).0.slot_index() < slots.len() by {
            if k < live_entries(rest).len() {
                assert(live_entries(slots)[k] == live_entries(rest)[k]);
            }
        }
    }
}

/// Iteration order is ascending by slot index: every listed entry has a
/// strictly higher index than the one before it.
pub proof fn lemma_entries_ascending<T>(slots: Seq<Slot<T>>)
    requires
        slots.len() <= u32::MAX + 1,
    ensures
        forall|a: int, b: int|
            0 <= a < b < live_entries(slots).len() ==> (#[trigger] live_entries(slots)[a]).0.slot_index()
                < (#[trigger] live_entries(slots)[b]).0.slot_index(),
    decreases slots.len(),
{
    if slots.len() > 0 {
        let rest = slots.drop_last();
        lemma_entries_ascending(rest);
        lemma_entries_bounded(rest);
        EntityId::lemma_spec_new((slots.len() - 1) as u32, slots.last().generation);
        assert forall|a: int, b: int|
            0 <= a < b < live_entries(slots).len() implies (#[trigger] live_entries(slots)[a]).0.slot_index()
                < (#[trigger] live_entries(slots)[b]).0.slot_index() by {
            assert(live_entries(slots)[a] == live_entries(rest)[a]);
            if b < live_entries(rest).len() {
                assert(live_entries(slots)[b] == live_entries(rest)[b]);
            }
        }
    }
}

/// The listed entries are exactly the live ones: each listed id addresses its
/// listed value, and every occupied slot is listed once.
pub proof fn lemma_entries_exact<T>(slots: Seq<Slot<T>>)
    requires
        slots.len() <= u32::MAX + 1,
    ensures
        live_entries(slots).len() == occupied_count(slots),
        forall|k: int|
            0 <= k < live_entries(slots).len() ==> id_live_in(slots, (#[trigger] live_entries(slots)[k]).0)
                && slots[live_entries(slots)[k].0.slot_index() as int].value == Some(
                live_entries(slots)[k].1,
            ),
        forall|id: EntityId|
            #[trigger] id_live_in(slots, id) ==> exists|k: int|
                0 <= k < live_entries(slots).len() && live_entries(slots)[k].0 == id,
    decreases slots.len(),
{
    if slots.len() > 0 {
        let rest = slots.drop_last();
        let n = slots.len() - 1;
        lemma_entries_exact(rest);
        lemma_entries_bounded(rest);
        EntityId::lemma_spec_new(n as u32, slots.last().generation);
        assert forall|k: int| 0 <= k < live_entries(slots).len() implies id_live_in(
            slots,
            (#[trigger] live_entries(slots)[k]).0,
        ) && slots[live_entries(slots)[k].0.slot_index() as int].value == Some(
            live_entries(slots)[k].1,
        ) by {
            if k < live_entries(rest).len() {
                assert(live_entries(slots)[k] == live_entries(rest)[k]);
                assert(rest[live_entries(rest)[k].0.slot_index() as int] == slots[live_entries(
                    rest,
                )[k].0.slot_index() as int]);
            }
        }
        assert forall|id: EntityId| #[trigger] id_live_in(slots, id) implies exists|k: int|
            0 <= k < live_entries(slots).len() && live_entries(slots)[k].0 == id by {
            if id.slot_index() < n {
                assert(id_live_in(rest, id));
                let k = choose|k: int| 0 <= k < live_entries(rest).len() && live_entries(rest)[k].0 == id;
                assert(live_entries(slots)[k] == live_entries(rest)[k]);
            } else {
                let k = live_entries(rest).len() as int;
                EntityId::lemma_parts(id, EntityId::spec_new(n as u32, slots.last().generation));
                assert(live_entries(slots)[k].0 == id);
            }
        }
    }
}

proof fn lemma_no_defect_from<T>(slots: Seq<Slot<T>>, free: Set<u32>, i: int)
    requires
        0 <= i,
        forall|j: int| 0 <= j < slots.len() ==> slot_consistent(#[trigger] slots[j], free.contains(j as u32)),
    ensures
        first_defect(slots, free, i) is None,
    decreases slots.len() - i,
{
    if i < slots.len() {
        assert(slot_consistent(slots[i], free.contains(i as u32)));
        lemma_no_defect_from(slots, free, i + 1);
    }
}

/// Loading the serialized form of a consistent arena succeeds: its slots and
/// free set have no defect, so `try_from_repr` of `into_repr` gives back an
/// arena with the same slots and free set. Every arena reached by public
/// calls loads again.
pub proof fn lemma_repr_round_trip<T>(a: &GenerationalArena<T>)
    requires
        a.wf(),
    ensures
        repr_defect(a.slot_seq(), a.free_set()) is None,
{
    let slots = a.slot_seq();
    let free = a.free_set();
    assert forall|j: int| 0 <= j < slots.len() implies slot_consistent(
        #[trigger] slots[j],
        free.contains(j as u32),
    ) by {}
    lemma_no_defect_from(slots, free, 0);
}

impl<T> Default for GenerationalArena<T> {
    fn default() -> (a: Self)
        ensures
            a.wf(),
            a.slot_seq() == Seq::<Slot<T>>::empty(),
            a.free_set() == Set::<u32>::empty(),
    {
        Self::new()
    }
}

} // verus!
