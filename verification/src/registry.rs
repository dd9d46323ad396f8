//! Typed per-asset-kind storage with generational indices.

use vstd::prelude::*;
use crate::asset_id::{AssetId, lemma_asset_id_eq};
use crate::handles::SameHandle;

verus! {

/// Largest number of slots a registry can hold (slot indices stay below it).
pub const MAX_SLOTS: u32 = 0x00FF_FFFF;

/// The generation a slot takes when it is reused: one more, wrapping at 256.
pub open spec fn next_generation(g: u8) -> u8 {
    if g == 255 { 0 } else { (g + 1) as u8 }
}

/// Slots and free list after allocating one slot, with the new slot's index
/// and generation: the last free index is reused with its generation
/// advanced, or else a slot with generation 0 is appended.
pub open spec fn alloc_result<T>(slots: Seq<(u8, Option<T>)>, free: Seq<u32>) -> (Seq<(u8, Option<T>)>, Seq<u32>, nat, u8) {
    if free.len() > 0 {
        let i = free.last();
        let g = next_generation(slots[i as int].0);
        (slots.update(i as int, (g, None)), free.drop_last(), i as nat, g)
    } else {
        (slots.push((0u8, None)), free, slots.len(), 0u8)
    }
}

/// Slots and free list after inserting `value`: allocate, then store it.
pub open spec fn insert_result<T>(slots: Seq<(u8, Option<T>)>, free: Seq<u32>, value: T) -> (Seq<(u8, Option<T>)>, Seq<u32>) {
    let a = alloc_result(slots, free);
    (a.0.update(a.2 as int, (a.3, Some(value))), a.1)
}

/// Slots and free list after inserting each of `values` in turn.
pub open spec fn insert_all<T>(slots: Seq<(u8, Option<T>)>, free: Seq<u32>, values: Seq<T>) -> (Seq<(u8, Option<T>)>, Seq<u32>)
    decreases values.len(),
{
    if values.len() == 0 {
        (slots, free)
    } else {
        let before = insert_all(slots, free, values.drop_last());
        insert_result(before.0, before.1, values.last())
    }
}

/// How many more slots can be allocated: the free ones and the room left.
pub open spec fn capacity_of<T>(slots: Seq<(u8, Option<T>)>, free: Seq<u32>) -> int {
    free.len() + (MAX_SLOTS - slots.len())
}

/// Typed storage for one kind of GPU handle (mesh, texture, material).
pub struct AssetRegistry<T: Copy> {
    /// Generational slots: (generation, Option<handle>).
    slots: Vec<(u8, Option<T>)>,
    /// Free slot indices for reuse, reused last-in first-out.
    free_list: Vec<u32>,
}

impl<T: Copy> AssetRegistry<T> {
    /// The slots: for each index, its current generation and handle.
    pub closed spec fn slots(&self) -> Seq<(u8, Option<T>)> {
        self.slots@
    }

    /// The free list, the slot reused next being the last.
    pub closed spec fn free(&self) -> Seq<u32> {
        self.free_list@
    }

    /// No slot index reaches `MAX_SLOTS`; every free index names a slot, is
    /// listed once, and its slot holds no handle.
    pub open spec fn wf(&self) -> bool {
        &&& self.slots().len() <= MAX_SLOTS
        &&& free_list_ok(self.slots(), self.free())
    }

    /// Whether a further `allocate` can succeed: a slot is free, or a new one fits.
    pub open spec fn can_allocate(&self) -> bool {
        self.free().len() > 0 || self.slots().len() < MAX_SLOTS
    }

    /// Whether `id` is live: it names an allocated slot (not one freed by
    /// `remove`) whose generation it carries.
    pub open spec fn is_current(&self, id: AssetId) -> bool {
        current_in(self.slots(), self.free(), id)
    }

    /// What `get` answers for `id`.
    pub open spec fn lookup(&self, id: AssetId) -> Option<T> {
        lookup_in(self.slots(), self.free(), id)
    }

    /// The slots and free list after `allocate` on `self`, and the id it returns.
    pub open spec fn allocate_spec(&self) -> (Seq<(u8, Option<T>)>, Seq<u32>, nat, u8) {
        alloc_result(self.slots(), self.free())
    }

    /// How many more slots can be allocated.
    pub open spec fn capacity(&self) -> int {
        capacity_of(self.slots(), self.free())
    }

    /// Whether a further `allocate` can succeed.
    pub fn has_room(&self) -> (r: bool)
        ensures
            r == self.can_allocate(),
    {
        self.free_list.len() > 0 || self.slots.len() < MAX_SLOTS as usize
    }

    /// An empty registry.
    pub fn new() -> (r: Self)
        ensures
            r.wf(),
            r.slots() == Seq::<(u8, Option<T>)>::empty(),
            r.free() == Seq::<u32>::empty(),
    {
        AssetRegistry { slots: Vec::new(), free_list: Vec::new() }
    }

    /// Allocate a slot, returning an AssetId. The handle is initially None (loading).
    ///
    /// The most recently freed slot is reused with its generation advanced;
    /// with no free slot a new one is appended with generation 0.
    pub fn allocate(&mut self) -> (id: AssetId)
        requires
            old(self).wf(),
            old(self).can_allocate(),
        ensures
            final(self).wf(),
            final(self).slots() == old(self).allocate_spec().0,
            final(self).free() == old(self).allocate_spec().1,
            id.index_spec() == old(self).allocate_spec().2,
            id.generation_spec() == old(self).allocate_spec().3,
            final(self).lookup(id) == None::<T>,
            final(self).is_current(id),
    {
        let ghost slots0 = self.slots();
        let ghost free0 = self.free();
        if let Some(index) = self.free_list.pop() {
            let cur_gen = self.slots[index as usize].0;
            let new_gen = cur_gen.wrapping_add(1);
            assert(new_gen == next_generation(cur_gen));
            self.slots.set(index as usize, (new_gen, None));
            let id = AssetId::new(index, new_gen);
            proof {
                assert(index < MAX_SLOTS);
                assert(free0.last() == index);
                assert(free0.drop_last() == self.free());
                lemma_drop_last_distinct(free0);
                assert forall|k: int| 0 <= k < self.free().len() implies
                    #[trigger] self.free()[k] < self.slots().len() && self.slots()[self.free()[k] as int].1 is None by {
                    assert(self.free()[k] == free0[k]);
                    assert(free0[k] != free0[free0.len() - 1]);
                }
                assert(!self.free().contains(index)) by {
                    if self.free().contains(index) {
                        let k = choose|k: int| 0 <= k < self.free().len() && self.free()[k] == index;
                        assert(free0[k] == free0[free0.len() - 1]);
                    }
                }
            }
            id
        } else {
            let index = self.slots.len() as u32;
            self.slots.push((0, None));
            proof {
                assert forall|k: int| 0 <= k < self.free().len() implies
                    #[trigger] self.free()[k] < self.slots().len() && self.slots()[self.free()[k] as int].1 is None by {
                    assert(self.slots()[free0[k] as int] == slots0[free0[k] as int]);
                }
                assert(!self.free().contains(index)) by {
                    if self.free().contains(index) {
                        let k = choose|k: int| 0 <= k < self.free().len() && self.free()[k] == index;
                        assert(free0[k] < slots0.len());
                    }
                }
            }
            AssetId::new(index, 0)
        }
    }

    /// Insert a pre-loaded handle, returning an AssetId.
    pub fn insert(&mut self, value: T) -> (id: AssetId)
        requires
            old(self).wf(),
            old(self).can_allocate(),
        ensures
            final(self).wf(),
            (final(self).slots(), final(self).free()) == insert_result(old(self).slots(), old(self).free(), value),
            final(self).capacity() == old(self).capacity() - 1,
            id.index_spec() == old(self).allocate_spec().2,
            id.generation_spec() == old(self).allocate_spec().3,
            final(self).lookup(id) == Some(value),
    {
        let id = self.allocate();
        let i = id.index() as usize;
        let g = self.slots[i].0;
        let ghost free1 = self.free();
        self.slots.set(i, (g, Some(value)));
        proof {
            assert forall|k: int| 0 <= k < self.free().len() implies
                #[trigger] self.free()[k] < self.slots().len() && self.slots()[self.free()[k] as int].1 is None by {
                assert(self.free()[k] != i as u32);
            }
        }
        id
    }

    /// Whether slot `i` is on the free list.
    fn is_free(&self, i: u32) -> (r: bool)
        ensures
            r == self.free().contains(i),
    {
        let mut k: usize = 0;
        while k < self.free_list.len()
            invariant
                k <= self.free().len(),
                forall|j: int| 0 <= j < k ==> self.free()[j] != i,
            decreases self.free().len() - k,
        {
            if self.free_list[k] == i {
                assert(self.free()[k as int] == i);
                return true;
            }
            k = k + 1;
        }
        false
    }

    /// Whether `id` is live (see `is_current`).
    fn live(&self, id: AssetId) -> (r: bool)
        ensures
            r == self.is_current(id),
    {
        let i = id.index();
        if (i as usize) < self.slots.len() && self.slots[i as usize].0 == id.generation() {
            !self.is_free(i)
        } else {
            false
        }
    }

    /// Set the GPU handle for an allocated slot (after background loading completes).
    ///
    /// Returns whether `id` is live; only then is its slot changed.
    pub fn set(&mut self, id: AssetId, value: T) -> (ok: bool)
        requires
            old(self).wf(),
        ensures
            final(self).wf(),
            ok == old(self).is_current(id),
            ok ==> final(self).slots() == old(self).slots().update(
                id.index_spec() as int,
                (id.generation_spec() as u8, Some(value)),
            ),
            !ok ==> final(self).slots() == old(self).slots(),
            final(self).free() == old(self).free(),
    {
        if !self.live(id) {
            return false;
        }
        let i = id.index() as usize;
        let cur_gen = self.slots[i].0;
        self.slots.set(i, (cur_gen, Some(value)));
        proof {
            assert forall|k: int| 0 <= k < self.free().len() implies
                #[trigger] self.free()[k] < self.slots().len() && self.slots()[self.free()[k] as int].1 is None by {
                assert(self.free()[k] != i as u32);
            }
        }
        true
    }

    /// Get the GPU handle, or None if still loading or freed.
    pub fn get(&self, id: AssetId) -> (h: Option<T>)
        requires
            self.wf(),
        ensures
            h == self.lookup(id),
    {
        let i = id.index() as usize;
        if i < self.slots.len() {
            let (cur_gen, h) = self.slots[i];
            if cur_gen == id.generation() {
                proof {
                    if self.free().contains(i as u32) {
                        let k = choose|k: int| 0 <= k < self.free().len() && self.free()[k] == i as u32;
                        assert(self.slots()[self.free()[k] as int].1 is None);
                    }
                }
                return h;
            }
        }
        None
    }

    /// Free a slot for reuse.
    ///
    /// Returns whether `id` is live; only then is its handle cleared and its
    /// index pushed on the free list, after which the id is no longer live.
    pub fn remove(&mut self, id: AssetId) -> (ok: bool)
        requires
            old(self).wf(),
        ensures
            final(self).wf(),
            ok == old(self).is_current(id),
            ok ==> final(self).slots() == old(self).slots().update(
                id.index_spec() as int,
                (id.generation_spec() as u8, None),
            ),
            ok ==> final(self).free() == old(self).free().push(id.index_spec() as u32),
            ok ==> !final(self).is_current(id),
            !ok ==> final(self).slots() == old(self).slots() && final(self).free() == old(self).free(),
    {
        if !self.live(id) {
            return false;
        }
        let i = id.index();
        let cur_gen = self.slots[i as usize].0;
        let ghost free0 = self.free();
        self.slots.set(i as usize, (cur_gen, None));
        self.free_list.push(i);
        proof {
            assert(self.free()[free0.len() as int] == i);
            assert forall|a: int, b: int| 0 <= a < b < self.free().len() implies
                #[trigger] self.free()[a] != #[trigger] self.free()[b] by {
                if b < free0.len() {
                    assert(free0[a] != free0[b]);
                } else {
                    assert(self.free()[a] == free0[a]);
                    assert(!free0.contains(i));
                }
            }
            assert forall|k: int| 0 <= k < self.free().len() implies
                #[trigger] self.free()[k] < self.slots().len() && self.slots()[self.free()[k] as int].1 is None by {
                if k < free0.len() {
                    assert(self.free()[k] == free0[k]);
                }
            }
        }
        true
    }
}

impl<T: SameHandle> AssetRegistry<T> {
    /// The id of the lowest slot holding `value`, carrying that slot's generation.
    pub fn find_id_by_value(&self, value: T) -> (r: Option<AssetId>)
        requires
            self.wf(),
        ensures
            r is None ==> forall|k: int| 0 <= k < self.slots().len() ==> #[trigger] self.slots()[k].1 != Some(value),
            r matches Some(id) ==> {
                &&& id.index_spec() < self.slots().len()
                &&& self.slots()[id.index_spec() as int].1 == Some(value)
                &&& self.slots()[id.index_spec() as int].0 == id.generation_spec()
                &&& forall|k: int| 0 <= k < id.index_spec() ==> #[trigger] self.slots()[k].1 != Some(value)
            },
    {
        let mut i: usize = 0;
        while i < self.slots.len()
            invariant
                self.wf(),
                i <= self.slots().len(),
                forall|k: int| 0 <= k < i ==> #[trigger] self.slots()[k].1 != Some(value),
            decreases self.slots().len() - i,
        {
            let (g, h) = self.slots[i];
            let hit = match h {
                Some(x) => x.same(&value),
                None => false,
            };
            if hit {
                let id = AssetId::new(i as u32, g);
                return Some(id);
            }
            i = i + 1;
        }
        None
    }
}

/// Each free index names a slot, is listed once, and its slot holds no
/// handle.
pub open spec fn free_list_ok<T>(slots: Seq<(u8, Option<T>)>, free: Seq<u32>) -> bool {
    &&& forall|k: int| 0 <= k < free.len() ==> #[trigger] free[k] < slots.len() && slots[free[k] as int].1 is None
    &&& forall|a: int, b: int| 0 <= a < b < free.len() ==> #[trigger] free[a] != #[trigger] free[b]
}

/// Whether `id` is live in slots `slots` with free list `free`: its slot
/// exists, is not free, and carries its generation.
pub open spec fn current_in<T>(slots: Seq<(u8, Option<T>)>, free: Seq<u32>, id: AssetId) -> bool {
    &&& id.index_spec() < slots.len()
    &&& slots[id.index_spec() as int].0 == id.generation_spec()
    &&& !free.contains(id.index_spec() as u32)
}

/// The handle that `get` answers for `id` in slots `slots` with free list
/// `free`: the slot's handle when `id` is live, `None` otherwise.
pub open spec fn lookup_in<T>(slots: Seq<(u8, Option<T>)>, free: Seq<u32>, id: AssetId) -> Option<T> {
    if current_in(slots, free, id) {
        slots[id.index_spec() as int].1
    } else {
        None
    }
}

proof fn lemma_drop_last_distinct(free: Seq<u32>)
    requires
        free.len() > 0,
        forall|a: int, b: int| 0 <= a < b < free.len() ==> #[trigger] free[a] != #[trigger] free[b],
    ensures
        forall|a: int, b: int| 0 <= a < b < free.drop_last().len() ==> #[trigger] free.drop_last()[a] != #[trigger] free.drop_last()[b],
{
    assert forall|a: int, b: int| 0 <= a < b < free.drop_last().len() implies
        #[trigger] free.drop_last()[a] != #[trigger] free.drop_last()[b] by {
        assert(free.drop_last()[a] == free[a] && free.drop_last()[b] == free[b]);
    }
}

/// Read after write: once `set` has stored `value` under a live id, `get` of
/// that id answers `value`, and every id of another slot answers as before.
pub proof fn law_get_after_set<T: Copy>(r: &AssetRegistry<T>, id: AssetId, value: T, other: AssetId)
    requires
        r.wf(),
        r.is_current(id),
        other.index_spec() != id.index_spec(),
    ensures
        lookup_in(r.slots().update(id.index_spec() as int, (id.generation_spec() as u8, Some(value))), r.free(), id)
            == Some(value),
        lookup_in(r.slots().update(id.index_spec() as int, (id.generation_spec() as u8, Some(value))), r.free(), other)
            == r.lookup(other),
{
    lemma_asset_id_eq(id, id);
}

/// A generation always changes when a slot is reused.
pub proof fn lemma_next_generation_differs(g: u8)
    ensures
        next_generation(g) != g,
{
}

/// Allocating a slot invalidates every id issued earlier for that slot: after
/// `allocate`, any id of the allocated slot other than the new one answers
/// `None`, and ids of other slots answer as before.
pub proof fn law_allocate_invalidates_old_ids<T: Copy>(r: &AssetRegistry<T>, old_id: AssetId)
    requires
        r.wf(),
        r.can_allocate(),
    ensures
        old_id.index_spec() == r.allocate_spec().2 && old_id.generation_spec() != r.allocate_spec().3
            ==> lookup_in(r.allocate_spec().0, r.allocate_spec().1, old_id) == None::<T>,
        old_id.index_spec() == r.allocate_spec().2 ==> !r.is_current(old_id),
        old_id.index_spec() != r.allocate_spec().2
            ==> lookup_in(r.allocate_spec().0, r.allocate_spec().1, old_id) == r.lookup(old_id),
{
    lemma_asset_id_eq(old_id, old_id);
    let free = r.free();
    if free.len() > 0 {
        let i = free.last();
        assert(free[free.len() - 1] < r.slots().len());
        lemma_next_generation_differs(r.slots()[i as int].0);
        assert(free.contains(i));
        if old_id.index_spec() != i {
            let f1 = free.drop_last();
            assert(f1.contains(old_id.index_spec() as u32) <==> free.contains(old_id.index_spec() as u32)) by {
                if free.contains(old_id.index_spec() as u32) {
                    let k = choose|k: int| 0 <= k < free.len() && free[k] == old_id.index_spec() as u32;
                    assert(k != free.len() - 1);
                    assert(f1[k] == free[k]);
                }
                if f1.contains(old_id.index_spec() as u32) {
                    let k = choose|k: int| 0 <= k < f1.len() && f1[k] == old_id.index_spec() as u32;
                    assert(free[k] == f1[k]);
                }
            }
        }
    } else {
        if old_id.index_spec() == r.slots().len() {
            assert(!r.is_current(old_id));
        }
    }
}

/// A removed id is dead from then on: right after `remove` it answers `None`
/// and is no longer live (so `set` and `remove` refuse it), and the
/// `allocate` that reuses its slot hands out another generation.
pub proof fn law_removed_id_stays_stale<T: Copy>(r: &AssetRegistry<T>, id: AssetId)
    requires
        r.wf(),
        r.is_current(id),
    ensures
        ({
            let slots1 = r.slots().update(id.index_spec() as int, (id.generation_spec() as u8, None));
            let free1 = r.free().push(id.index_spec() as u32);
            let a = alloc_result(slots1, free1);
            &&& lookup_in(slots1, free1, id) == None::<T>
            &&& !current_in(slots1, free1, id)
            &&& a.2 == id.index_spec()
            &&& a.3 != id.generation_spec()
            &&& !current_in(a.0, a.1, id)
        }),
{
    lemma_asset_id_eq(id, id);
    let free1 = r.free().push(id.index_spec() as u32);
    assert(free1[free1.len() - 1] == id.index_spec() as u32);
    assert(free1.contains(id.index_spec() as u32));
    lemma_next_generation_differs(id.generation_spec() as u8);
}

/// A new registration leaves every earlier live id alone: `insert` hands out
/// an id of another slot, and each earlier live id stays live and answers
/// the same handle.
pub proof fn law_insert_keeps_live<T: Copy>(r: &AssetRegistry<T>, value: T, other: AssetId)
    requires
        r.wf(),
        r.can_allocate(),
        r.is_current(other),
    ensures
        ({
            let a = r.allocate_spec();
            let (slots2, free2) = insert_result(r.slots(), r.free(), value);
            &&& a.2 != other.index_spec()
            &&& current_in(slots2, free2, other)
            &&& lookup_in(slots2, free2, other) == r.lookup(other)
        }),
{
    law_allocate_invalidates_old_ids(r, other);
    let free = r.free();
    if free.len() > 0 {
        assert(free[free.len() - 1] == free.last());
        assert(free.contains(free.last()));
    }
}

} // verus!
