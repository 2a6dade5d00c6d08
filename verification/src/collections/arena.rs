use crate::collections::index::{Index, lemma_index_ext, lemma_mk_index, mk_index, next_generation};
use crate::vecs::{vec_capacity, vec_replace};
use vstd::prelude::*;

verus! {

broadcast use lemma_mk_index, lemma_index_ext;

#[derive(Clone, Debug)]
enum SlotData<T> {
    Free { next_free: Option<u32> },
    Occupied(T),
}

#[derive(Clone, Debug)]
struct Slot<T> {
    generation: u32,
    data: SlotData<T>,
}

/// A generational arena: values live in slots, vacated slots are recycled through a
/// free list (most recently vacated first), and every index carries the generation of
/// its slot so that indices to removed values never reach a later occupant.
pub struct Arena<T> {
    slots: Vec<Slot<T>>,
    free_list_head: Option<u32>,
    len: usize,
    free: Ghost<Seq<u32>>,
}

spec fn link_of(free: Seq<u32>, k: int) -> Option<u32> {
    if k + 1 < free.len() {
        Some(free[k + 1])
    } else {
        None
    }
}

spec fn head_of(free: Seq<u32>) -> Option<u32> {
    if free.len() == 0 {
        None
    } else {
        Some(free[0])
    }
}

spec fn links_ok<T>(slots: Seq<Slot<T>>, free: Seq<u32>) -> bool {
    forall|k: int|
        0 <= k < free.len() ==> {
            &&& free[k] < slots.len()
            &&& slots[free[k] as int].data == SlotData::<T>::Free { next_free: link_of(free, k) }
        }
}

spec fn complete<T>(slots: Seq<Slot<T>>, free: Seq<u32>) -> bool {
    forall|k: int| 0 <= k < slots.len() && slots[k].data is Free ==> free.contains(k as u32)
}

spec fn free_ok<T>(slots: Seq<Slot<T>>, free: Seq<u32>) -> bool {
    &&& links_ok(slots, free)
    &&& free.no_duplicates()
    &&& complete(slots, free)
    &&& slots.len() <= u32::MAX + 1
}

proof fn lemma_not_free<T>(slots: Seq<Slot<T>>, free: Seq<u32>, key: int)
    requires
        links_ok(slots, free),
        0 <= key < slots.len(),
        slots.len() <= u32::MAX + 1,
        slots[key].data is Occupied,
    ensures
        !free.contains(key as u32),
{
    if free.contains(key as u32) {
        let i = choose|i: int| 0 <= i < free.len() && free[i] == key as u32;
        assert(slots[free[i] as int].data is Free);
    }
}

proof fn lemma_take_head<T>(slots: Seq<Slot<T>>, free: Seq<u32>, v: T)
    requires
        free_ok(slots, free),
        free.len() > 0,
    ensures
        free_ok(
            slots.update(
                free[0] as int,
                Slot { generation: slots[free[0] as int].generation, data: SlotData::Occupied(v) },
            ),
            free.drop_first(),
        ),
{
    let s2 = slots.update(
        free[0] as int,
        Slot { generation: slots[free[0] as int].generation, data: SlotData::Occupied(v) },
    );
    let f2 = free.drop_first();
    assert(links_ok(s2, f2)) by {
        assert forall|k: int| 0 <= k < f2.len() implies {
            &&& f2[k] < s2.len()
            &&& s2[f2[k] as int].data == SlotData::<T>::Free { next_free: link_of(f2, k) }
        } by {
            assert(free[k + 1] != free[0]);
            assert(link_of(f2, k) == link_of(free, k + 1));
        }
    }
    assert(complete(s2, f2)) by {
        assert forall|k: int| 0 <= k < s2.len() && s2[k].data is Free implies f2.contains(
            k as u32,
        ) by {
            assert(k != free[0] as int);
            assert(s2[k] == slots[k]);
            assert(free.contains(k as u32));
            let i = choose|i: int| 0 <= i < free.len() && free[i] == k as u32;
            assert(i != 0);
            assert(f2[i - 1] == k as u32);
        }
    }
    assert(f2.no_duplicates()) by {
        assert forall|i: int, j: int| 0 <= i < j < f2.len() implies f2[i] != f2[j] by {
            assert(free[i + 1] != free[j + 1]);
        }
    }
}

proof fn lemma_push_slot<T>(slots: Seq<Slot<T>>, free: Seq<u32>, v: T)
    requires
        free_ok(slots, free),
        slots.len() <= u32::MAX,
    ensures
        free_ok(slots.push(Slot { generation: 1, data: SlotData::Occupied(v) }), free),
{
    let s2 = slots.push(Slot { generation: 1, data: SlotData::Occupied(v) });
    assert(links_ok(s2, free)) by {
        assert forall|k: int| 0 <= k < free.len() implies {
            &&& free[k] < s2.len()
            &&& s2[free[k] as int].data == SlotData::<T>::Free { next_free: link_of(free, k) }
        } by {
            assert(s2[free[k] as int] == slots[free[k] as int]);
        }
    }
    assert(complete(s2, free)) by {
        assert forall|k: int| 0 <= k < s2.len() && s2[k].data is Free implies free.contains(
            k as u32,
        ) by {
            assert(k < slots.len());
            assert(s2[k] == slots[k]);
        }
    }
}

proof fn lemma_vacate_links<T>(slots: Seq<Slot<T>>, free: Seq<u32>, key: int, g: u32)
    requires
        links_ok(slots, free),
        !free.contains(key as u32),
        0 <= key < slots.len(),
        slots.len() <= u32::MAX + 1,
    ensures
        links_ok(
            slots.update(key, Slot { generation: g, data: SlotData::Free { next_free: head_of(free) } }),
            seq![key as u32] + free,
        ),
{
    let s2 = slots.update(
        key,
        Slot { generation: g, data: SlotData::Free { next_free: head_of(free) } },
    );
    let f2 = seq![key as u32] + free;
    assert forall|k: int| 0 <= k < f2.len() implies {
        &&& f2[k] < s2.len()
        &&& s2[f2[k] as int].data == SlotData::<T>::Free { next_free: link_of(f2, k) }
    } by {
        if k > 0 {
            assert(f2[k] == free[k - 1]);
            assert(link_of(f2, k) == link_of(free, k - 1));
            if free[k - 1] == key as u32 {
                assert(free.contains(key as u32));
            }
        } else {
            assert(link_of(f2, 0) == head_of(free));
        }
    }
}

proof fn lemma_vacate_complete<T>(slots: Seq<Slot<T>>, free: Seq<u32>, key: int, g: u32)
    requires
        complete(slots, free),
        0 <= key < slots.len(),
        slots.len() <= u32::MAX + 1,
    ensures
        complete(
            slots.update(key, Slot { generation: g, data: SlotData::Free { next_free: head_of(free) } }),
            seq![key as u32] + free,
        ),
{
    let s2 = slots.update(
        key,
        Slot { generation: g, data: SlotData::Free { next_free: head_of(free) } },
    );
    let f2 = seq![key as u32] + free;
    assert forall|k: int| 0 <= k < s2.len() && s2[k].data is Free implies f2.contains(
        k as u32,
    ) by {
        if k == key {
            assert(f2[0] == key as u32);
        } else {
            assert(s2[k] == slots[k]);
            assert(free.contains(k as u32));
            let i = choose|i: int| 0 <= i < free.len() && free[i] == k as u32;
            assert(f2[i + 1] == k as u32);
        }
    }
}

proof fn lemma_cons_no_dup(free: Seq<u32>, key: u32)
    requires
        free.no_duplicates(),
        !free.contains(key),
    ensures
        (seq![key] + free).no_duplicates(),
{
    let f2 = seq![key] + free;
    assert forall|i: int, j: int| 0 <= i < j < f2.len() implies f2[i] != f2[j] by {
        if i == 0 {
            assert(f2[j] == free[j - 1]);
            if free[j - 1] == key {
                assert(free.contains(key));
            }
        } else {
            assert(f2[i] == free[i - 1]);
            assert(f2[j] == free[j - 1]);
        }
    }
}

proof fn lemma_vacate<T>(slots: Seq<Slot<T>>, free: Seq<u32>, key: int, g: u32)
    requires
        free_ok(slots, free),
        0 <= key < slots.len(),
        slots[key].data is Occupied,
    ensures
        free_ok(
            slots.update(key, Slot { generation: g, data: SlotData::Free { next_free: head_of(free) } }),
            seq![key as u32] + free,
        ),
{
    lemma_not_free(slots, free, key);
    lemma_vacate_links(slots, free, key, g);
    lemma_vacate_complete(slots, free, key, g);
    lemma_cons_no_dup(free, key as u32);
}

proof fn lemma_overwrite<T>(slots: Seq<Slot<T>>, free: Seq<u32>, key: int, v: T)
    requires
        free_ok(slots, free),
        0 <= key < slots.len(),
        slots[key].data is Occupied,
    ensures
        free_ok(
            slots.update(key, Slot { generation: slots[key].generation, data: SlotData::Occupied(v) }),
            free,
        ),
{
    lemma_not_free(slots, free, key);
    let s2 = slots.update(
        key,
        Slot { generation: slots[key].generation, data: SlotData::Occupied(v) },
    );
    assert(links_ok(s2, free)) by {
        assert forall|k: int| 0 <= k < free.len() implies {
            &&& free[k] < s2.len()
            &&& s2[free[k] as int].data == SlotData::<T>::Free { next_free: link_of(free, k) }
        } by {
            if free[k] as int == key {
                assert(free.contains(key as u32));
            }
        }
    }
}

/// The generation a slot takes when the arena is cleared: the next one if the slot
/// held a value, its own if it was already vacant.
spec fn cleared_generation<T>(slot: Slot<T>) -> u32 {
    if slot.data is Occupied {
        next_generation(slot.generation)
    } else {
        slot.generation
    }
}

impl<T> Arena<T> {
    /// The live indices and their values.
    pub closed spec fn view(&self) -> Map<Index, T> {
        Map::new(
            |i: Index|
                (i.spec_index() as int) < self.slots@.len() && self.slots@[i.spec_index() as int].generation
                    == i.spec_generation() && self.slots@[i.spec_index() as int].data is Occupied,
            |i: Index| self.slots@[i.spec_index() as int].data->Occupied_0,
        )
    }

    /// The number of slots (occupied or vacant).
    pub closed spec fn slot_count(&self) -> nat {
        self.slots@.len()
    }

    /// The current generation of slot `k`.
    pub closed spec fn generation_of(&self, k: int) -> u32 {
        self.slots@[k].generation
    }

    /// The vacant slots in the order in which they will be reused.
    pub closed spec fn free_list(&self) -> Seq<u32> {
        self.free@
    }

    /// The internal consistency of the arena.
    pub closed spec fn wf(&self) -> bool {
        &&& self.free_list_head == head_of(self.free@)
        &&& free_ok(self.slots@, self.free@)
        &&& self.len + self.free@.len() == self.slots@.len()
        &&& forall|k: int| 0 <= k < self.slots@.len() ==> self.slots@[k].generation >= 1
    }

    proof fn lemma_occupied_count(&self) -> (occ: Set<usize>)
        requires
            self.wf(),
        ensures
            occ.finite(),
            occ.len() + self.free@.len() == self.slots@.len(),
            forall|k: usize| #[trigger] occ.contains(k) <==> (k < self.slots@.len() && self.slots@[k as int].data is Occupied),
    {
        let n = self.slots@.len();
        let fr = self.free@.map_values(|x: u32| x as usize);
        let occ = Set::new(|k: usize| k < n && !fr.contains(k));
        assert(fr.no_duplicates()) by {
            assert forall|i: int, j: int| 0 <= i < j < fr.len() implies fr[i] != fr[j] by {
                assert(self.free@[i] != self.free@[j]);
            }
        }
        crate::lemmas::lemma_partition_len(n, fr, occ);
        assert forall|k: usize| #[trigger] occ.contains(k) <==> (k < n && self.slots@[k as int].data is Occupied) by {
            if k < n && self.slots@[k as int].data is Free {
                assert(self.free@.contains(k as u32));
                let i = choose|i: int| 0 <= i < self.free@.len() && self.free@[i] == k as u32;
                assert(fr[i] == k);
            }
            if k < n && fr.contains(k) {
                let t = choose|t: int| 0 <= t < fr.len() && fr[t] == k;
                assert(self.slots@[self.free@[t] as int].data is Free);
            }
        }
        occ
    }

    /// A well-formed arena holds finitely many values: as many as there are slots that
    /// are not on the free list.
    pub proof fn lemma_finite(&self)
        requires
            self.wf(),
        ensures
            self@.dom().finite(),
            self@.len() + self.free_list().len() == self.slot_count(),
    {
        self.lemma_len();
    }

    proof fn lemma_len(&self)
        requires
            self.wf(),
        ensures
            self@.dom().finite(),
            self@.len() == self.len,
    {
        let occ = self.lemma_occupied_count();
        let n = self.slots@.len();
        let f = |k: usize| mk_index(k as u32, self.slots@[k as int].generation);
        assert(vstd::relations::injective_on(f, occ)) by {
            assert forall|a: usize, b: usize|
                occ.contains(a) && occ.contains(b) && #[trigger] f(a) == #[trigger] f(b) implies a == b by {
                assert(f(a).spec_index() == a as u32);
                assert(f(b).spec_index() == b as u32);
            }
        }
        assert(occ.map(f) =~= self@.dom()) by {
            assert forall|i: Index| self@.dom().contains(i) implies occ.map(f).contains(i) by {
                let k = i.spec_index() as usize;
                assert(occ.contains(k));
                assert(f(k) == i);
            }
            assert forall|i: Index| occ.map(f).contains(i) implies self@.dom().contains(i) by {
                let k = choose|k: usize| occ.contains(k) && f(k) == i;
                assert(occ.contains(k));
            }
        }
        vstd::set_lib::lemma_map_size(occ, self@.dom(), f);
    }

    /// The free list holds exactly the vacant slots, each once: a slot below the slot
    /// count is listed if and only if the index of its current generation is not live,
    /// and every live index names a slot below the slot count at its current generation.
    pub proof fn lemma_free_list_is_vacant(&self)
        requires
            self.wf(),
        ensures
            forall|i: Index|
                #[trigger] self@.contains_key(i) ==> (i.spec_index() as nat) < self.slot_count()
                    && i.spec_generation() == self.generation_of(i.spec_index() as int),
            forall|k: u32|
                (k as nat) < self.slot_count() ==> (#[trigger] self.free_list().contains(k)
                    <==> !self@.contains_key(mk_index(k, self.generation_of(k as int)))),
            self.free_list().no_duplicates(),
            self@.dom().finite(),
            self.free_list().len() + self@.len() == self.slot_count(),
    {
        self.lemma_len();
        assert forall|k: u32|
            (k as nat) < self.slot_count() implies (#[trigger] self.free_list().contains(k)
                <==> !self@.contains_key(mk_index(k, self.generation_of(k as int)))) by {
            let i = mk_index(k, self.generation_of(k as int));
            assert(i.spec_index() == k && i.spec_generation() == self.generation_of(k as int));
            if self.free@.contains(k) {
                let t = choose|t: int| 0 <= t < self.free@.len() && self.free@[t] == k;
                assert(self.slots@[self.free@[t] as int].data is Free);
            } else {
                assert(!(self.slots@[k as int].data is Free));
            }
        }
    }

    /// Creates a new, empty `Arena`.
    pub fn new() -> (a: Self)
        ensures
            a.wf(),
            a@ == Map::<Index, T>::empty(),
            a.slot_count() == 0,
            a.free_list() == Seq::<u32>::empty(),
    {
        let a = Arena {
            slots: Vec::new(),
            free_list_head: None,
            len: 0,
            free: Ghost(Seq::empty()),
        };
        assert(a@ =~= Map::<Index, T>::empty());
        a
    }

    /// Creates a new, empty `Arena` whose backing store can hold `capacity` slots before
    /// it reallocates.
    pub fn with_capacity(capacity: usize) -> (a: Self)
        ensures
            a.wf(),
            a@ == Map::<Index, T>::empty(),
            a.slot_count() == 0,
            a.free_list() == Seq::<u32>::empty(),
    {
        let a = Arena {
            slots: Vec::with_capacity(capacity),
            free_list_head: None,
            len: 0,
            free: Ghost(Seq::empty()),
        };
        assert(a@ =~= Map::<Index, T>::empty());
        a
    }

    /// Returns the number of live values.
    pub fn len(&self) -> (r: usize)
        requires
            self.wf(),
        ensures
            r == self@.len(),
    {
        proof {
            self.lemma_len();
        }
        self.len
    }

    /// Returns `true` if the arena holds no live value.
    pub fn is_empty(&self) -> (r: bool)
        requires
            self.wf(),
        ensures
            r == (self@.len() == 0),
    {
        proof {
            self.lemma_len();
        }
        self.len == 0
    }

    /// Returns the capacity of the slot store.
    pub fn capacity(&self) -> (r: usize)
        ensures
            r >= self.slot_count(),
    {
        vec_capacity(&self.slots)
    }

    /// Inserts a value, returning its stable index.
    ///
    /// The most recently vacated slot is reused, keeping its current generation; when no
    /// slot is vacant a new slot with generation 1 is appended.
    pub fn insert(&mut self, value: T) -> (r: Index)
        requires
            old(self).wf(),
            old(self).free_list().len() > 0 || old(self).slot_count() <= u32::MAX,
        ensures
            final(self).wf(),
            !old(self)@.contains_key(r),
            final(self)@ == old(self)@.insert(r, value),
            old(self).free_list().len() == 0 ==> {
                &&& r == mk_index(old(self).slot_count() as u32, 1)
                &&& final(self).slot_count() == old(self).slot_count() + 1
                &&& final(self).free_list() == old(self).free_list()
                &&& final(self).generation_of(old(self).slot_count() as int) == 1
            },
            old(self).free_list().len() > 0 ==> {
                &&& r == mk_index(
                    old(self).free_list()[0],
                    old(self).generation_of(old(self).free_list()[0] as int),
                )
                &&& final(self).slot_count() == old(self).slot_count()
                &&& final(self).free_list() == old(self).free_list().drop_first()
            },
            forall|k: int|
                0 <= k < old(self).slot_count() ==> final(self).generation_of(k)
                    == old(self).generation_of(k),
    {
        let ghost old_view = self@;
        let ghost old_free = self.free@;
        let ghost old_slots = self.slots@;
        match self.free_list_head {
            Some(idx) => {
                assert(old_slots[old_free[0] as int].data == SlotData::<T>::Free {
                    next_free: link_of(old_free, 0),
                });
                let generation = self.slots[idx as usize].generation;
                let next_free = match &self.slots[idx as usize].data {
                    SlotData::Free { next_free } => *next_free,
                    SlotData::Occupied(..) => None,
                };
                self.free_list_head = next_free;
                let _n = self.slots.len();
                self.slots.set(idx as usize, Slot { generation, data: SlotData::Occupied(value) });
                self.len = self.len + 1;
                self.free = Ghost(old_free.drop_first());
                let r = Index::new(idx, generation);
                proof {
                    lemma_take_head(old_slots, old_free, value);
                    assert(!old_view.contains_key(r));
                    assert forall|i: Index| #[trigger] self@.dom().contains(i) <==> old_view.insert(r, value).dom().contains(i) by {
                        Index::lemma_eq(i, r);
                    }
                    assert(self@ =~= old_view.insert(r, value));
                }
                r
            },
            None => {
                let idx = self.slots.len();
                self.slots.push(Slot { generation: 1, data: SlotData::Occupied(value) });
                let _n = self.slots.len();
                self.len = self.len + 1;
                let r = Index::new(idx as u32, 1);
                proof {
                    lemma_push_slot(old_slots, old_free, value);
                    assert(!old_view.contains_key(r));
                    assert forall|i: Index| #[trigger] self@.dom().contains(i) <==> old_view.insert(r, value).dom().contains(i) by {
                        Index::lemma_eq(i, r);
                    }
                    assert(self@ =~= old_view.insert(r, value));
                }
                r
            },
        }
    }

    /// Removes the value at `index`, returning it if the index is live.
    ///
    /// The slot's generation advances (skipping 0 on wrap-around), which invalidates
    /// the index, and the slot becomes the head of the free list.
    pub fn remove(&mut self, index: Index) -> (r: Option<T>)
        requires
            old(self).wf(),
        ensures
            final(self).wf(),
            r == (if old(self)@.contains_key(index) {
                Some(old(self)@[index])
            } else {
                None
            }),
            old(self)@.contains_key(index) ==> {
                &&& final(self)@ == old(self)@.remove(index)
                &&& final(self).slot_count() == old(self).slot_count()
                &&& final(self).free_list() == seq![index.spec_index()] + old(self).free_list()
                &&& final(self).generation_of(index.spec_index() as int) == next_generation(
                    index.spec_generation(),
                )
                &&& forall|k: int|
                    0 <= k < old(self).slot_count() && k != index.spec_index() as int
                        ==> final(self).generation_of(k) == old(self).generation_of(k)
            },
            !old(self)@.contains_key(index) ==> *final(self) == *old(self),
    {
        let idx = index.index() as usize;
        if idx >= self.slots.len() {
            return None;
        }
        if self.slots[idx].generation != index.generation() {
            return None;
        }
        let occupied = match &self.slots[idx].data {
            SlotData::Occupied(..) => true,
            SlotData::Free { .. } => false,
        };
        if !occupied {
            return None;
        }
        let ghost old_view = self@;
        let ghost old_free = self.free@;
        let ghost old_slots = self.slots@;
        let generation = self.slots[idx].generation;
        let new_generation = if generation == u32::MAX {
            1
        } else {
            generation + 1
        };
        proof {
            lemma_vacate(old_slots, old_free, idx as int, new_generation);
            self.lemma_len();
            assert(self@.dom().contains(index));
        }
        let old_slot = vec_replace(
            &mut self.slots,
            idx,
            Slot { generation: new_generation, data: SlotData::Free { next_free: self.free_list_head } },
        );
        self.free_list_head = Some(index.index());
        self.len = self.len - 1;
        self.free = Ghost(seq![index.spec_index()] + old_free);
        proof {
            assert forall|i: Index| #[trigger] self@.dom().contains(i) <==> old_view.remove(index).dom().contains(i) by {
                Index::lemma_eq(i, index);
            }
            assert(self@ =~= old_view.remove(index));
        }
        match old_slot.data {
            SlotData::Occupied(value) => Some(value),
            SlotData::Free { .. } => None,
        }
    }

    /// Returns a shared reference to the value at `index`, if the index is live.
    pub fn get(&self, index: Index) -> (r: Option<&T>)
        ensures
            r == (if self@.contains_key(index) {
                Some(&self@[index])
            } else {
                None
            }),
    {
        let idx = index.index() as usize;
        if idx >= self.slots.len() {
            return None;
        }
        let slot = &self.slots[idx];
        if slot.generation != index.generation() {
            return None;
        }
        match &slot.data {
            SlotData::Occupied(value) => Some(value),
            SlotData::Free { .. } => None,
        }
    }

    /// Returns a mutable reference to the value at `index`, if the index is live.
    #[verifier::rlimit(40)]
    pub fn get_mut(&mut self, index: Index) -> (r: Option<&mut T>)
        requires
            old(self).wf(),
        ensures
            r is Some <==> old(self)@.contains_key(index),
            r matches Some(m) ==> *m == old(self)@[index],
            r matches Some(m) ==> final(self).wf(),
            r matches Some(m) ==> final(self)@ == old(self)@.insert(index, *final(m)),
            r matches Some(m) ==> final(self).slot_count() == old(self).slot_count(),
            r matches Some(m) ==> final(self).free_list() == old(self).free_list(),
            r matches Some(m) ==> forall|k: int|
                0 <= k < old(self).slot_count() ==> final(self).generation_of(k)
                    == old(self).generation_of(k),
            r is None ==> *final(self) == *old(self),
    {
        let idx = index.index() as usize;
        if idx >= self.slots.len() {
            return None;
        }
        if self.slots[idx].generation != index.generation() {
            return None;
        }
        let occupied = match &self.slots[idx].data {
            SlotData::Occupied(..) => true,
            SlotData::Free { .. } => false,
        };
        if !occupied {
            return None;
        }
        proof {
            lemma_overwrite(self.slots@, self.free@, idx as int, self.slots@[idx as int].data->Occupied_0);
        }
        match &mut self.slots[idx].data {
            SlotData::Occupied(value) => Some(value),
            SlotData::Free { .. } => None,
        }
    }

    /// Removes every value. The slots stay, all vacant and listed in increasing order;
    /// each slot that held a value moves to its next generation, so no index handed out
    /// before the call reaches a value inserted after it.
    pub fn clear(&mut self)
        requires
            old(self).wf(),
        ensures
            final(self).wf(),
            final(self)@ == Map::<Index, T>::empty(),
            final(self).slot_count() == old(self).slot_count(),
            final(self).free_list() == Seq::new(old(self).slot_count(), |k: int| k as u32),
            forall|k: int|
                0 <= k < old(self).slot_count() ==> #[trigger] final(self).generation_of(k) == (
                if old(self)@.contains_key(mk_index(k as u32, old(self).generation_of(k))) {
                    next_generation(old(self).generation_of(k))
                } else {
                    old(self).generation_of(k)
                }),
            forall|i: Index|
                #[trigger] old(self)@.contains_key(i) ==> final(self).generation_of(
                    i.spec_index() as int,
                ) != i.spec_generation(),
    {
        let n = self.slots.len();
        let ghost old_slots = self.slots@;
        let mut i: usize = 0;
        while i < n
            invariant
                n == self.slots@.len(),
                n == old_slots.len(),
                n <= u32::MAX + 1,
                i <= n,
                forall|k: int|
                    0 <= k < i ==> #[trigger] self.slots@[k] == (Slot {
                        generation: cleared_generation(old_slots[k]),
                        data: SlotData::<T>::Free {
                            next_free: if k + 1 < n {
                                Some((k + 1) as u32)
                            } else {
                                None
                            },
                        },
                    }),
                forall|k: int| i <= k < n ==> #[trigger] self.slots@[k] == old_slots[k],
            decreases n - i,
        {
            let g = self.slots[i].generation;
            let occupied = match &self.slots[i].data {
                SlotData::Occupied(_) => true,
                SlotData::Free { .. } => false,
            };
            let new_generation = if occupied {
                if g == u32::MAX {
                    1
                } else {
                    g + 1
                }
            } else {
                g
            };
            let next = if i + 1 < n {
                Some((i + 1) as u32)
            } else {
                None
            };
            let _ = vec_replace(
                &mut self.slots,
                i,
                Slot { generation: new_generation, data: SlotData::Free { next_free: next } },
            );
            i = i + 1;
        }
        self.free_list_head = if n > 0 {
            Some(0)
        } else {
            None
        };
        self.len = 0;
        self.free = Ghost(Seq::new(n as nat, |k: int| k as u32));
        proof {
            let free = self.free@;
            assert forall|k: int| 0 <= k < free.len() implies {
                &&& free[k] < self.slots@.len()
                &&& self.slots@[free[k] as int].data == SlotData::<T>::Free {
                    next_free: link_of(free, k),
                }
            } by {
                assert(free[k] as int == k);
                assert(self.slots@[k] == (Slot {
                    generation: cleared_generation(old_slots[k]),
                    data: SlotData::<T>::Free {
                        next_free: if k + 1 < n {
                            Some((k + 1) as u32)
                        } else {
                            None
                        },
                    },
                }));
            }
            assert forall|a: int, b: int| 0 <= a < free.len() && 0 <= b < free.len() && a != b
                implies free[a] != free[b] by {}
            assert forall|k: int| 0 <= k < self.slots@.len() && self.slots@[k].data is Free implies free.contains(
                k as u32,
            ) by {
                assert(free[k] == k as u32);
            }
            assert forall|k: int| 0 <= k < self.slots@.len() implies self.slots@[k].generation >= 1 by {
                assert(old_slots[k].generation >= 1);
            }
            assert(self@ =~= Map::<Index, T>::empty());
        }
    }

    /// Returns the live indices and their values, in increasing slot order.
    pub fn iter(&self) -> (r: Vec<(Index, &T)>)
        requires
            self.wf(),
        ensures
            forall|i: int|
                0 <= i < r@.len() ==> self@.contains_key(#[trigger] r@[i].0) && *r@[i].1
                    == self@[r@[i].0],
            forall|i: int, j: int|
                0 <= i < j < r@.len() ==> r@[i].0.spec_index() < r@[j].0.spec_index(),
            forall|k: Index|
                self@.contains_key(k) ==> exists|i: int| 0 <= i < r@.len() && #[trigger] r@[i].0 == k,
    {
        let mut r: Vec<(Index, &T)> = Vec::new();
        let mut i: usize = 0;
        while i < self.slots.len()
            invariant
                i <= self.slots@.len(),
                self.wf(),
                forall|t: int|
                    0 <= t < r@.len() ==> self@.contains_key(#[trigger] r@[t].0) && *r@[t].1
                        == self@[r@[t].0] && r@[t].0.spec_index() < i,
                forall|a: int, b: int|
                    0 <= a < b < r@.len() ==> r@[a].0.spec_index() < r@[b].0.spec_index(),
                forall|k: Index|
                    k.spec_index() < i && self@.contains_key(k) ==> exists|t: int|
                        0 <= t < r@.len() && #[trigger] r@[t].0 == k,
            decreases self.slots@.len() - i,
        {
            let ghost old_r = r@;
            let slot = &self.slots[i];
            match &slot.data {
                SlotData::Occupied(value) => {
                    let index = Index::new(i as u32, slot.generation);
                    r.push((index, value));
                    assert(r@[r@.len() - 1].0 == index);
                },
                SlotData::Free { .. } => {},
            }
            proof {
                assert forall|k: Index| k.spec_index() < i + 1 && self@.contains_key(k) implies exists|t: int|
                    0 <= t < r@.len() && #[trigger] r@[t].0 == k by {
                    if k.spec_index() == i as u32 {
                        Index::lemma_eq(k, r@[r@.len() - 1].0);
                        assert(r@[r@.len() - 1].0 == k);
                    } else {
                        let t = choose|t: int| 0 <= t < old_r.len() && #[trigger] old_r[t].0 == k;
                        assert(r@[t] == old_r[t]);
                    }
                }
            }
            i = i + 1;
        }
        r
    }
}

impl<T> Default for Arena<T> {
    /// An empty arena.
    fn default() -> (a: Self)
        ensures
            a.wf(),
            a@ == Map::<Index, T>::empty(),
            a.slot_count() == 0,
            a.free_list() == Seq::<u32>::empty(),
    {
        Self::new()
    }
}

/// An index removed from an arena is no longer live, and the insertion that follows,
/// which reuses its slot, hands out an index of a different generation: a stale index
/// never reaches the new value.
pub proof fn law_removed_index_not_reissued<T>(
    a: Arena<T>,
    b: Arena<T>,
    c: Arena<T>,
    idx: Index,
    fresh: Index,
    value: T,
)
    requires
        a@.contains_key(idx),
        b@ == a@.remove(idx),
        b.free_list() == seq![idx.spec_index()] + a.free_list(),
        b.generation_of(idx.spec_index() as int) == next_generation(idx.spec_generation()),
        fresh == mk_index(b.free_list()[0], b.generation_of(b.free_list()[0] as int)),
        c@ == b@.insert(fresh, value),
    ensures
        !b@.contains_key(idx),
        fresh.spec_index() == idx.spec_index(),
        fresh != idx,
        !c@.contains_key(idx),
        c@.contains_key(fresh) && c@[fresh] == value,
{
    broadcast use lemma_mk_index;

    Index::lemma_eq(fresh, idx);
}

/// An index live before a clear never reaches a value inserted after it: the clear
/// moves its slot to the next generation, and the insertion that follows hands out the
/// first listed slot at its current generation.
pub proof fn law_cleared_index_not_reissued<T>(
    a: Arena<T>,
    b: Arena<T>,
    c: Arena<T>,
    idx: Index,
    fresh: Index,
    value: T,
)
    requires
        a@.contains_key(idx),
        b@ == Map::<Index, T>::empty(),
        b.generation_of(idx.spec_index() as int) != idx.spec_generation(),
        b.free_list().len() > 0,
        fresh == mk_index(b.free_list()[0], b.generation_of(b.free_list()[0] as int)),
        c@ == b@.insert(fresh, value),
    ensures
        fresh != idx,
        !c@.contains_key(idx),
        c@.contains_key(fresh) && c@[fresh] == value,
{
    broadcast use lemma_mk_index;

    Index::lemma_eq(fresh, idx);
}

} // verus!
