use crate::collections::index::{Index, lemma_index_ext, lemma_mk_index, mk_index, next_generation};
use crate::vecs::{slice_iter_mut, vec_replace};
use vstd::prelude::*;

verus! {

broadcast use lemma_mk_index, lemma_index_ext;

#[derive(Clone, Debug)]
enum SlotData {
    Free { next_free: Option<u32> },
    Occupied { dense_idx: u32 },
}

#[derive(Clone, Debug)]
struct DenseSlot {
    generation: u32,
    data: SlotData,
}

/// A generational map whose values are stored contiguously: a slot table maps stable
/// indices to positions in a dense value array, and removal moves the last value into
/// the vacated position (swap-and-pop) so that the values stay contiguous.
pub struct DenseMap<T> {
    slots: Vec<DenseSlot>,
    dense: Vec<T>,
    reverse: Vec<u32>,
    free_list_head: Option<u32>,
    free: Ghost<Seq<u32>>,
}

spec fn link_of(free: Seq<u32>, k: int) -> Option<u32> {
    if k + 1 < free.len() {
        Some(free[k + 1])
    } else {
        None
    }
}

spec fn head_of(free: Seq<u32>) -> Option<u32> {
    if free.len() == 0 {
        None
    } else {
        Some(free[0])
    }
}

spec fn links_ok(slots: Seq<DenseSlot>, free: Seq<u32>) -> bool {
    forall|k: int|
        0 <= k < free.len() ==> {
            &&& free[k] < slots.len()
            &&& slots[free[k] as int].data == SlotData::Free { next_free: link_of(free, k) }
        }
}

spec fn complete(slots: Seq<DenseSlot>, free: Seq<u32>) -> bool {
    forall|k: int| 0 <= k < slots.len() && slots[k].data is Free ==> free.contains(k as u32)
}

spec fn free_ok(slots: Seq<DenseSlot>, free: Seq<u32>) -> bool {
    &&& links_ok(slots, free)
    &&& free.no_duplicates()
    &&& complete(slots, free)
    &&& slots.len() <= u32::MAX + 1
}

/// Dense position `d` and slot `reverse[d]` point at each other, for every position.
spec fn paired(slots: Seq<DenseSlot>, reverse: Seq<u32>) -> bool {
    &&& forall|d: int|
        0 <= d < reverse.len() ==> {
            &&& reverse[d] < slots.len()
            &&& slots[reverse[d] as int].data == SlotData::Occupied { dense_idx: d as u32 }
        }
    &&& forall|k: int|
        0 <= k < slots.len() && slots[k].data is Occupied ==> {
            let d = slots[k].data->dense_idx;
            &&& d < reverse.len()
            &&& reverse[d as int] == k as u32
        }
    &&& reverse.len() <= u32::MAX + 1
}

/// Moves the last element into position `d` and drops the last position.
pub open spec fn swap_pop<A>(s: Seq<A>, d: int) -> Seq<A> {
    s.update(d, s.last()).drop_last()
}

proof fn lemma_not_free(slots: Seq<DenseSlot>, free: Seq<u32>, key: int)
    requires
        links_ok(slots, free),
        0 <= key < slots.len(),
        slots.len() <= u32::MAX + 1,
        slots[key].data is Occupied,
    ensures
        !free.contains(key as u32),
{
    if free.contains(key as u32) {
        let i = choose|i: int| 0 <= i < free.len() && free[i] == key as u32;
        assert(slots[free[i] as int].data is Free);
    }
}

proof fn lemma_take_head(slots: Seq<DenseSlot>, free: Seq<u32>, d: u32)
    requires
        free_ok(slots, free),
        free.len() > 0,
    ensures
        free_ok(
            slots.update(
                free[0] as int,
                DenseSlot {
                    generation: slots[free[0] as int].generation,
                    data: SlotData::Occupied { dense_idx: d },
                },
            ),
            free.drop_first(),
        ),
{
    let s2 = slots.update(
        free[0] as int,
        DenseSlot {
            generation: slots[free[0] as int].generation,
            data: SlotData::Occupied { dense_idx: d },
        },
    );
    let f2 = free.drop_first();
    assert(links_ok(s2, f2)) by {
        assert forall|k: int| 0 <= k < f2.len() implies {
            &&& f2[k] < s2.len()
            &&& s2[f2[k] as int].data == SlotData::Free { next_free: link_of(f2, k) }
        } by {
            assert(free[k + 1] != free[0]);
            assert(link_of(f2, k) == link_of(free, k + 1));
        }
    }
    assert(complete(s2, f2)) by {
        assert forall|k: int| 0 <= k < s2.len() && s2[k].data is Free implies f2.contains(
            k as u32,
        ) by {
            assert(k != free[0] as int);
            assert(s2[k] == slots[k]);
            assert(free.contains(k as u32));
            let i = choose|i: int| 0 <= i < free.len() && free[i] == k as u32;
            assert(i != 0);
            assert(f2[i - 1] == k as u32);
        }
    }
    assert(f2.no_duplicates()) by {
        assert forall|i: int, j: int| 0 <= i < j < f2.len() implies f2[i] != f2[j] by {
            assert(free[i + 1] != free[j + 1]);
        }
    }
}

proof fn lemma_push_slot(slots: Seq<DenseSlot>, free: Seq<u32>, d: u32)
    requires
        free_ok(slots, free),
        slots.len() <= u32::MAX,
    ensures
        free_ok(
            slots.push(DenseSlot { generation: 1, data: SlotData::Occupied { dense_idx: d } }),
            free,
        ),
{
    let s2 = slots.push(DenseSlot { generation: 1, data: SlotData::Occupied { dense_idx: d } });
    assert(links_ok(s2, free)) by {
        assert forall|k: int| 0 <= k < free.len() implies {
            &&& free[k] < s2.len()
            &&& s2[free[k] as int].data == SlotData::Free { next_free: link_of(free, k) }
        } by {
            assert(s2[free[k] as int] == slots[free[k] as int]);
        }
    }
    assert(complete(s2, free)) by {
        assert forall|k: int| 0 <= k < s2.len() && s2[k].data is Free implies free.contains(
            k as u32,
        ) by {
            assert(k < slots.len());
            assert(s2[k] == slots[k]);
        }
    }
}

proof fn lemma_vacate_links(slots: Seq<DenseSlot>, free: Seq<u32>, key: int, g: u32)
    requires
        links_ok(slots, free),
        !free.contains(key as u32),
        0 <= key < slots.len(),
        slots.len() <= u32::MAX + 1,
    ensures
        links_ok(
            slots.update(
                key,
                DenseSlot { generation: g, data: SlotData::Free { next_free: head_of(free) } },
            ),
            seq![key as u32] + free,
        ),
{
    let s2 = slots.update(
        key,
        DenseSlot { generation: g, data: SlotData::Free { next_free: head_of(free) } },
    );
    let f2 = seq![key as u32] + free;
    assert forall|k: int| 0 <= k < f2.len() implies {
        &&& f2[k] < s2.len()
        &&& s2[f2[k] as int].data == SlotData::Free { next_free: link_of(f2, k) }
    } by {
        if k > 0 {
            assert(f2[k] == free[k - 1]);
            assert(link_of(f2, k) == link_of(free, k - 1));
            if free[k - 1] == key as u32 {
                assert(free.contains(key as u32));
            }
        } else {
            assert(link_of(f2, 0) == head_of(free));
        }
    }
}

proof fn lemma_vacate_complete(slots: Seq<DenseSlot>, free: Seq<u32>, key: int, g: u32)
    requires
        complete(slots, free),
        0 <= key < slots.len(),
        slots.len() <= u32::MAX + 1,
    ensures
        complete(
            slots.update(
                key,
                DenseSlot { generation: g, data: SlotData::Free { next_free: head_of(free) } },
            ),
            seq![key as u32] + free,
        ),
{
    let s2 = slots.update(
        key,
        DenseSlot { generation: g, data: SlotData::Free { next_free: head_of(free) } },
    );
    let f2 = seq![key as u32] + free;
    assert forall|k: int| 0 <= k < s2.len() && s2[k].data is Free implies f2.contains(
        k as u32,
    ) by {
        if k == key {
            assert(f2[0] == key as u32);
        } else {
            assert(s2[k] == slots[k]);
            assert(free.contains(k as u32));
            let i = choose|i: int| 0 <= i < free.len() && free[i] == k as u32;
            assert(f2[i + 1] == k as u32);
        }
    }
}

proof fn lemma_cons_no_dup(free: Seq<u32>, key: u32)
    requires
        free.no_duplicates(),
        !free.contains(key),
    ensures
        (seq![key] + free).no_duplicates(),
{
    let f2 = seq![key] + free;
    assert forall|i: int, j: int| 0 <= i < j < f2.len() implies f2[i] != f2[j] by {
        if i == 0 {
            assert(f2[j] == free[j - 1]);
            if free[j - 1] == key {
                assert(free.contains(key));
            }
        } else {
            assert(f2[i] == free[i - 1]);
            assert(f2[j] == free[j - 1]);
        }
    }
}

proof fn lemma_vacate(slots: Seq<DenseSlot>, free: Seq<u32>, key: int, g: u32)
    requires
        free_ok(slots, free),
        0 <= key < slots.len(),
        slots[key].data is Occupied,
    ensures
        free_ok(
            slots.update(
                key,
                DenseSlot { generation: g, data: SlotData::Free { next_free: head_of(free) } },
            ),
            seq![key as u32] + free,
        ),
{
    lemma_not_free(slots, free, key);
    lemma_vacate_links(slots, free, key, g);
    lemma_vacate_complete(slots, free, key, g);
    lemma_cons_no_dup(free, key as u32);
}

/// Re-pointing an occupied slot at another position keeps the free list intact.
proof fn lemma_repoint(slots: Seq<DenseSlot>, free: Seq<u32>, key: int, d: u32)
    requires
        free_ok(slots, free),
        0 <= key < slots.len(),
        slots[key].data is Occupied,
    ensures
        free_ok(
            slots.update(
                key,
                DenseSlot { generation: slots[key].generation, data: SlotData::Occupied { dense_idx: d } },
            ),
            free,
        ),
{
    lemma_not_free(slots, free, key);
    let s2 = slots.update(
        key,
        DenseSlot { generation: slots[key].generation, data: SlotData::Occupied { dense_idx: d } },
    );
    assert(links_ok(s2, free)) by {
        assert forall|k: int| 0 <= k < free.len() implies {
            &&& free[k] < s2.len()
            &&& s2[free[k] as int].data == SlotData::Free { next_free: link_of(free, k) }
        } by {
            if free[k] as int == key {
                assert(free.contains(key as u32));
            }
        }
    }
}

/// The generation a slot takes when the map is cleared: the next one if the slot held a
/// value, its own if it was already vacant.
spec fn cleared_generation(slot: DenseSlot) -> u32 {
    if slot.data is Occupied {
        next_generation(slot.generation)
    } else {
        slot.generation
    }
}

impl<T> DenseMap<T> {
    /// The live indices and their values.
    pub closed spec fn view(&self) -> Map<Index, T> {
        Map::new(
            |i: Index|
                (i.spec_index() as int) < self.slots@.len() && self.slots@[i.spec_index() as int].generation
                    == i.spec_generation() && self.slots@[i.spec_index() as int].data is Occupied,
            |i: Index| self.dense@[self.slots@[i.spec_index() as int].data->dense_idx as int],
        )
    }

    /// The values, in their contiguous storage order.
    pub closed spec fn values(&self) -> Seq<T> {
        self.dense@
    }

    /// The storage position of the value of a live index.
    pub closed spec fn position_of(&self, i: Index) -> int {
        self.slots@[i.spec_index() as int].data->dense_idx as int
    }

    /// Some live index has its value at storage position `d`.
    pub open spec fn position_taken(&self, d: int) -> bool {
        exists|i: Index| #[trigger] self@.contains_key(i) && self.position_of(i) == d
    }

    /// The number of slots (occupied or vacant).
    pub closed spec fn slot_count(&self) -> nat {
        self.slots@.len()
    }

    /// The current generation of slot `k`.
    pub closed spec fn generation_of(&self, k: int) -> u32 {
        self.slots@[k].generation
    }

    /// The vacant slots in the order in which they will be reused.
    pub closed spec fn free_list(&self) -> Seq<u32> {
        self.free@
    }

    /// The internal consistency of the map.
    pub closed spec fn wf(&self) -> bool {
        &&& self.free_list_head == head_of(self.free@)
        &&& free_ok(self.slots@, self.free@)
        &&& paired(self.slots@, self.reverse@)
        &&& self.dense@.len() == self.reverse@.len()
        &&& self.dense@.len() + self.free@.len() == self.slots@.len()
        &&& forall|k: int| 0 <= k < self.slots@.len() ==> self.slots@[k].generation >= 1
    }

    /// Every live index has a distinct position inside the value storage.
    pub proof fn lemma_positions(&self)
        requires
            self.wf(),
        ensures
            forall|i: Index|
                #[trigger] self@.contains_key(i) ==> 0 <= self.position_of(i) < self.values().len()
                    && self@[i] == self.values()[self.position_of(i)],
            forall|i: Index, j: Index|
                #[trigger] self@.contains_key(i) && #[trigger] self@.contains_key(j) && i != j
                    ==> self.position_of(i) != self.position_of(j),
            forall|d: int| 0 <= d < self.values().len() ==> #[trigger] self.position_taken(d),
    {
        assert forall|i: Index, j: Index|
            #[trigger] self@.contains_key(i) && #[trigger] self@.contains_key(j) && i != j
                implies self.position_of(i) != self.position_of(j) by {
            let di = self.position_of(i);
            assert(self.reverse@[di] == i.spec_index());
            if self.position_of(j) == di {
                assert(self.reverse@[di] == j.spec_index());
            }
        }
        assert forall|d: int| 0 <= d < self.values().len() implies #[trigger] self.position_taken(d) by {
            let k = self.reverse@[d];
            let i = mk_index(k, self.slots@[k as int].generation);
            assert(self.slots@[k as int].data == SlotData::Occupied { dense_idx: d as u32 });
            assert(i.spec_index() == k);
            assert(self@.contains_key(i));
            assert(self.position_of(i) == d);
            assert(self@[i] == self.values()[d]);
        }
    }

    /// A well-formed map holds finitely many live indices, one per stored value.
    pub proof fn lemma_len(&self)
        requires
            self.wf(),
        ensures
            self@.dom().finite(),
            self@.len() == self.values().len(),
    {
        let n = self.slots@.len();
        let fr = self.free@.map_values(|x: u32| x as usize);
        let occ = Set::new(|k: usize| k < n && !fr.contains(k));
        assert(fr.no_duplicates()) by {
            assert forall|i: int, j: int| 0 <= i < j < fr.len() implies fr[i] != fr[j] by {
                assert(self.free@[i] != self.free@[j]);
            }
        }
        crate::lemmas::lemma_partition_len(n, fr, occ);
        assert forall|k: usize| #[trigger] occ.contains(k) <==> (k < n && self.slots@[k as int].data is Occupied) by {
            if k < n && self.slots@[k as int].data is Free {
                assert(self.free@.contains(k as u32));
                let i = choose|i: int| 0 <= i < self.free@.len() && self.free@[i] == k as u32;
                assert(fr[i] == k);
            }
            if k < n && fr.contains(k) {
                let t = choose|t: int| 0 <= t < fr.len() && fr[t] == k;
                assert(self.slots@[self.free@[t] as int].data is Free);
            }
        }
        let f = |k: usize| mk_index(k as u32, self.slots@[k as int].generation);
        assert(vstd::relations::injective_on(f, occ)) by {
            assert forall|a: usize, b: usize|
                occ.contains(a) && occ.contains(b) && #[trigger] f(a) == #[trigger] f(b) implies a == b by {
                assert(f(a).spec_index() == a as u32);
                assert(f(b).spec_index() == b as u32);
            }
        }
        assert(occ.map(f) =~= self@.dom()) by {
            assert forall|i: Index| self@.dom().contains(i) implies occ.map(f).contains(i) by {
                let k = i.spec_index() as usize;
                assert(occ.contains(k));
                assert(f(k) == i);
            }
            assert forall|i: Index| occ.map(f).contains(i) implies self@.dom().contains(i) by {
                let k = choose|k: usize| occ.contains(k) && f(k) == i;
                assert(occ.contains(k));
            }
        }
        vstd::set_lib::lemma_map_size(occ, self@.dom(), f);
    }

    /// Creates a new, empty `DenseMap`.
    pub fn new() -> (m: Self)
        ensures
            m.wf(),
            m@ == Map::<Index, T>::empty(),
            m.values() == Seq::<T>::empty(),
            m.slot_count() == 0,
            m.free_list() == Seq::<u32>::empty(),
    {
        let m = DenseMap {
            slots: Vec::new(),
            dense: Vec::new(),
            reverse: Vec::new(),
            free_list_head: None,
            free: Ghost(Seq::empty()),
        };
        assert(m@ =~= Map::<Index, T>::empty());
        m
    }

    /// Creates a new, empty `DenseMap` with room for `capacity` values.
    pub fn with_capacity(capacity: usize) -> (m: Self)
        ensures
            m.wf(),
            m@ == Map::<Index, T>::empty(),
            m.values() == Seq::<T>::empty(),
            m.slot_count() == 0,
            m.free_list() == Seq::<u32>::empty(),
    {
        let m = DenseMap {
            slots: Vec::with_capacity(capacity),
            dense: Vec::with_capacity(capacity),
            reverse: Vec::with_capacity(capacity),
            free_list_head: None,
            free: Ghost(Seq::empty()),
        };
        assert(m@ =~= Map::<Index, T>::empty());
        m
    }

    /// Returns the number of live values.
    pub fn len(&self) -> (r: usize)
        requires
            self.wf(),
        ensures
            r == self@.len(),
            r == self.values().len(),
    {
        proof {
            self.lemma_len();
        }
        self.dense.len()
    }

    /// Returns `true` if the map holds no value.
    pub fn is_empty(&self) -> (r: bool)
        requires
            self.wf(),
        ensures
            r == (self@.len() == 0),
    {
        proof {
            self.lemma_len();
        }
        self.dense.len() == 0
    }

    /// Inserts a value at the end of the value storage, returning its stable index.
    ///
    /// The most recently vacated slot is reused, keeping its current generation; when no
    /// slot is vacant a new slot with generation 1 is appended.
    pub fn insert(&mut self, value: T) -> (r: Index)
        requires
            old(self).wf(),
            old(self).free_list().len() > 0 || old(self).slot_count() <= u32::MAX,
        ensures
            final(self).wf(),
            !old(self)@.contains_key(r),
            final(self)@ == old(self)@.insert(r, value),
            final(self).values() == old(self).values().push(value),
            final(self).position_of(r) == old(self).values().len(),
            forall|i: Index|
                #[trigger] old(self)@.contains_key(i) ==> final(self).position_of(i) == old(
                    self,
                ).position_of(i),
            old(self).free_list().len() == 0 ==> {
                &&& r == mk_index(old(self).slot_count() as u32, 1)
                &&& final(self).slot_count() == old(self).slot_count() + 1
                &&& final(self).free_list() == old(self).free_list()
                &&& final(self).generation_of(old(self).slot_count() as int) == 1
            },
            old(self).free_list().len() > 0 ==> {
                &&& r == mk_index(
                    old(self).free_list()[0],
                    old(self).generation_of(old(self).free_list()[0] as int),
                )
                &&& final(self).slot_count() == old(self).slot_count()
                &&& final(self).free_list() == old(self).free_list().drop_first()
            },
            forall|k: int|
                0 <= k < old(self).slot_count() ==> final(self).generation_of(k)
                    == old(self).generation_of(k),
    {
        let ghost old_view = self@;
        let ghost old_free = self.free@;
        let ghost old_slots = self.slots@;
        let ghost old_dense = self.dense@;
        let ghost old_reverse = self.reverse@;
        proof {
            if old_free.len() > 0 {
                assert(old_slots[old_free[0] as int].data is Free);
            }
        }
        let dense_idx = self.dense.len() as u32;
        self.dense.push(value);
        match self.free_list_head {
            Some(idx) => {
                assert(old_slots[old_free[0] as int].data == SlotData::Free {
                    next_free: link_of(old_free, 0),
                });
                let generation = self.slots[idx as usize].generation;
                let next_free = match &self.slots[idx as usize].data {
                    SlotData::Free { next_free } => *next_free,
                    SlotData::Occupied { .. } => None,
                };
                self.free_list_head = next_free;
                self.slots.set(
                    idx as usize,
                    DenseSlot { generation, data: SlotData::Occupied { dense_idx } },
                );
                self.reverse.push(idx);
                self.free = Ghost(old_free.drop_first());
                let r = Index::new(idx, generation);
                proof {
                    lemma_take_head(old_slots, old_free, dense_idx);
                    assert(paired(self.slots@, self.reverse@)) by {
                        assert forall|k: int|
                            0 <= k < self.slots@.len() && self.slots@[k].data is Occupied implies {
                                let d = self.slots@[k].data->dense_idx;
                                &&& d < self.reverse@.len()
                                &&& self.reverse@[d as int] == k as u32
                            } by {
                            if k != idx as int {
                                assert(self.slots@[k] == old_slots[k]);
                            }
                        }
                    }
                    assert(!old_view.contains_key(r));
                    assert(self@ =~= old_view.insert(r, value));
                }
                r
            },
            None => {
                let idx = self.slots.len();
                self.slots.push(DenseSlot { generation: 1, data: SlotData::Occupied { dense_idx } });
                let _n = self.slots.len();
                self.reverse.push(idx as u32);
                let r = Index::new(idx as u32, 1);
                proof {
                    lemma_push_slot(old_slots, old_free, dense_idx);
                    assert(paired(self.slots@, self.reverse@)) by {
                        assert forall|k: int|
                            0 <= k < self.slots@.len() && self.slots@[k].data is Occupied implies {
                                let d = self.slots@[k].data->dense_idx;
                                &&& d < self.reverse@.len()
                                &&& self.reverse@[d as int] == k as u32
                            } by {
                            if k != idx as int {
                                assert(self.slots@[k] == old_slots[k]);
                            }
                        }
                    }
                    assert(!old_view.contains_key(r));
                    assert(self@ =~= old_view.insert(r, value));
                }
                r
            },
        }
    }

    /// Removes the value at `index`, returning it if the index is live.
    ///
    /// The last stored value moves into the vacated position; the slot's generation
    /// advances (skipping 0 on wrap-around) and the slot becomes the head of the free list.
    pub fn remove(&mut self, index: Index) -> (r: Option<T>)
        requires
            old(self).wf(),
        ensures
            final(self).wf(),
            r == (if old(self)@.contains_key(index) {
                Some(old(self)@[index])
            } else {
                None
            }),
            old(self)@.contains_key(index) ==> {
                &&& final(self)@ == old(self)@.remove(index)
                &&& final(self).values() == swap_pop(old(self).values(), old(self).position_of(index))
                &&& final(self).slot_count() == old(self).slot_count()
                &&& final(self).free_list() == seq![index.spec_index()] + old(self).free_list()
                &&& final(self).generation_of(index.spec_index() as int) == next_generation(
                    index.spec_generation(),
                )
                &&& forall|k: int|
                    0 <= k < old(self).slot_count() && k != index.spec_index() as int
                        ==> final(self).generation_of(k) == old(self).generation_of(k)
                &&& forall|i: Index|
                    #[trigger] final(self)@.contains_key(i) && old(self).position_of(i) != old(
                        self,
                    ).values().len() - 1 ==> final(self).position_of(i) == old(self).position_of(i)
            },
            !old(self)@.contains_key(index) ==> *final(self) == *old(self),
    {
        let idx = index.index() as usize;
        if idx >= self.slots.len() {
            return None;
        }
        if self.slots[idx].generation != index.generation() {
            return None;
        }
        let dense_idx = match self.slots[idx].data {
            SlotData::Occupied { dense_idx } => dense_idx,
            SlotData::Free { .. } => {
                return None;
            },
        };
        let ghost old_view = self@;
        let ghost old_free = self.free@;
        let ghost old_slots = self.slots@;
        let ghost old_dense = self.dense@;
        let ghost old_reverse = self.reverse@;
        let generation = self.slots[idx].generation;
        let new_generation = if generation == u32::MAX {
            1
        } else {
            generation + 1
        };
        proof {
            lemma_vacate(old_slots, old_free, idx as int, new_generation);
        }
        self.slots.set(
            idx,
            DenseSlot {
                generation: new_generation,
                data: SlotData::Free { next_free: self.free_list_head },
            },
        );
        self.free_list_head = Some(index.index());
        self.free = Ghost(seq![index.spec_index()] + old_free);
        let ghost vacated_slots = self.slots@;
        let last_idx = self.dense.len() - 1;
        if dense_idx as usize == last_idx {
            self.reverse.pop();
            let r = self.dense.pop();
            proof {
                assert(paired(self.slots@, self.reverse@)) by {
                    assert forall|k: int|
                        0 <= k < self.slots@.len() && self.slots@[k].data is Occupied implies {
                            let d = self.slots@[k].data->dense_idx;
                            &&& d < self.reverse@.len()
                            &&& self.reverse@[d as int] == k as u32
                        } by {
                        assert(self.slots@[k] == old_slots[k]);
                        let d = old_slots[k].data->dense_idx;
                        if d == dense_idx {
                            assert(old_reverse[d as int] == idx as u32);
                        }
                    }
                }
                assert(self.dense@ =~= swap_pop(old_dense, dense_idx as int));
                assert forall|i: Index| #[trigger] self@.dom().contains(i) <==> old_view.remove(index).dom().contains(i) by {
                    Index::lemma_eq(i, index);
                }
                assert(self@ =~= old_view.remove(index));
            }
            r
        } else {
            let moved_value = self.dense.pop();
            let moved_slot = self.reverse.pop();
            match (moved_value, moved_slot) {
                (Some(moved_value), Some(moved_slot)) => {
                    let removed = vec_replace(&mut self.dense, dense_idx as usize, moved_value);
                    let _ = vec_replace(&mut self.reverse, dense_idx as usize, moved_slot);
                    proof {
                        assert(old_slots[moved_slot as int].data == SlotData::Occupied {
                            dense_idx: last_idx as u32,
                        });
                        assert(moved_slot != idx as u32);
                        lemma_repoint(vacated_slots, self.free@, moved_slot as int, dense_idx);
                    }
                    let moved_generation = self.slots[moved_slot as usize].generation;
                    self.slots.set(
                        moved_slot as usize,
                        DenseSlot { generation: moved_generation, data: SlotData::Occupied { dense_idx } },
                    );
                    proof {
                        assert(paired(self.slots@, self.reverse@)) by {
                            assert forall|d: int| 0 <= d < self.reverse@.len() implies {
                                &&& self.reverse@[d] < self.slots@.len()
                                &&& self.slots@[self.reverse@[d] as int].data == SlotData::Occupied {
                                    dense_idx: d as u32,
                                }
                            } by {
                                if d != dense_idx as int {
                                    assert(self.reverse@[d] == old_reverse[d]);
                                    assert(old_reverse[d] != idx as u32);
                                    assert(old_reverse[d] != moved_slot);
                                }
                            }
                            assert forall|k: int|
                                0 <= k < self.slots@.len() && self.slots@[k].data is Occupied implies {
                                    let d = self.slots@[k].data->dense_idx;
                                    &&& d < self.reverse@.len()
                                    &&& self.reverse@[d as int] == k as u32
                                } by {
                                if k != moved_slot as int {
                                    assert(self.slots@[k] == old_slots[k]);
                                    let d = old_slots[k].data->dense_idx;
                                    assert(old_reverse[d as int] == k as u32);
                                    assert(d != dense_idx);
                                    assert(d as int != last_idx as int);
                                }
                            }
                        }
                        assert(self.dense@ =~= swap_pop(old_dense, dense_idx as int));
                        assert forall|i: Index| #[trigger] self@.dom().contains(i) <==> old_view.remove(index).dom().contains(i) by {
                            Index::lemma_eq(i, index);
                        }
                        assert forall|i: Index| #[trigger] self@.dom().contains(i) implies self@[i] == old_view[i] by {
                            if i.spec_index() == moved_slot {
                                assert(self.dense@[dense_idx as int] == old_dense[last_idx as int]);
                            } else {
                                let d = old_slots[i.spec_index() as int].data->dense_idx;
                                assert(old_reverse[d as int] == i.spec_index());
                                assert(d != dense_idx);
                                assert(d as int != last_idx as int);
                            }
                        }
                        assert(self@ =~= old_view.remove(index));
                    }
                    Some(removed)
                },
                _ => None,
            }
        }
    }

    /// Returns a shared reference to the value at `index`, if the index is live.
    pub fn get(&self, index: Index) -> (r: Option<&T>)
        requires
            self.wf(),
        ensures
            r == (if self@.contains_key(index) {
                Some(&self@[index])
            } else {
                None
            }),
    {
        let idx = index.index() as usize;
        if idx >= self.slots.len() {
            return None;
        }
        let slot = &self.slots[idx];
        if slot.generation != index.generation() {
            return None;
        }
        match slot.data {
            SlotData::Occupied { dense_idx } => Some(&self.dense[dense_idx as usize]),
            SlotData::Free { .. } => None,
        }
    }

    /// Returns a mutable reference to the value at `index`, if the index is live.
    #[verifier::rlimit(40)]
    pub fn get_mut(&mut self, index: Index) -> (r: Option<&mut T>)
        requires
            old(self).wf(),
        ensures
            r is Some <==> old(self)@.contains_key(index),
            r matches Some(m) ==> *m == old(self)@[index],
            r matches Some(m) ==> final(self).wf(),
            r matches Some(m) ==> final(self)@ == old(self)@.insert(index, *final(m)),
            r matches Some(m) ==> final(self).values() == old(self).values().update(
                old(self).position_of(index),
                *final(m),
            ),
            r matches Some(m) ==> final(self).slot_count() == old(self).slot_count(),
            r matches Some(m) ==> final(self).free_list() == old(self).free_list(),
            r matches Some(m) ==> forall|k: int|
                0 <= k < old(self).slot_count() ==> final(self).generation_of(k)
                    == old(self).generation_of(k),
            r matches Some(m) ==> forall|i: Index|
                #[trigger] final(self).position_of(i) == old(self).position_of(i),
            r is None ==> *final(self) == *old(self),
    {
        let idx = index.index() as usize;
        if idx >= self.slots.len() {
            return None;
        }
        if self.slots[idx].generation != index.generation() {
            return None;
        }
        let dense_idx = match self.slots[idx].data {
            SlotData::Occupied { dense_idx } => dense_idx,
            SlotData::Free { .. } => {
                return None;
            },
        };
        proof {
            let ghost k = self.reverse@[dense_idx as int];
            assert(k == idx as u32);
        }
        Some(&mut self.dense[dense_idx as usize])
    }

    /// Returns the values as a contiguous slice, in storage order.
    pub fn as_slice(&self) -> (r: &[T])
        ensures
            r@ == self.values(),
    {
        self.dense.as_slice()
    }

    /// Returns the values as a contiguous mutable slice, in storage order.
    pub fn as_mut_slice(&mut self) -> (r: &mut [T])
        requires
            old(self).wf(),
        ensures
            r@ == old(self).values(),
            final(self).values() == final(r)@,
            forall|i: Index| #[trigger] final(self).position_of(i) == old(self).position_of(i),
            final(self).slot_count() == old(self).slot_count(),
            final(self).free_list() == old(self).free_list(),
            forall|k: int|
                0 <= k < old(self).slot_count() ==> final(self).generation_of(k)
                    == old(self).generation_of(k),
    {
        self.dense.as_mut_slice()
    }

    /// Returns an iterator over the values, in storage order.
    pub fn iter(&self) -> (r: core::slice::Iter<'_, T>)
        ensures
            vstd::std_specs::slice::into_iter_elts(r) == self.values(),
    {
        self.dense.iter()
    }

    /// Returns an iterator over mutable references to the values, in storage order.
    pub fn iter_mut(&mut self) -> (r: core::slice::IterMut<'_, T>)
        ensures
            old(self).wf() ==> final(self).wf(),
            final(self).values().len() == old(self).values().len(),
            forall|i: Index| #[trigger] final(self).position_of(i) == old(self).position_of(i),
            final(self).slot_count() == old(self).slot_count(),
            final(self).free_list() == old(self).free_list(),
            forall|k: int|
                0 <= k < old(self).slot_count() ==> final(self).generation_of(k)
                    == old(self).generation_of(k),
    {
        slice_iter_mut(self.dense.as_mut_slice())
    }

    /// Removes every value. The slots stay, all vacant and listed in increasing order;
    /// each slot that held a value moves to its next generation, so no index handed out
    /// before the call reaches a value inserted after it.
    pub fn clear(&mut self)
        requires
            old(self).wf(),
        ensures
            final(self).wf(),
            final(self)@ == Map::<Index, T>::empty(),
            final(self).values() == Seq::<T>::empty(),
            final(self).slot_count() == old(self).slot_count(),
            final(self).free_list() == Seq::new(old(self).slot_count(), |k: int| k as u32),
            forall|k: int|
                0 <= k < old(self).slot_count() ==> #[trigger] final(self).generation_of(k) == (
                if old(self)@.contains_key(mk_index(k as u32, old(self).generation_of(k))) {
                    next_generation(old(self).generation_of(k))
                } else {
                    old(self).generation_of(k)
                }),
            forall|i: Index|
                #[trigger] old(self)@.contains_key(i) ==> final(self).generation_of(
                    i.spec_index() as int,
                ) != i.spec_generation(),
    {
        let n = self.slots.len();
        let ghost old_slots = self.slots@;
        let mut i: usize = 0;
        while i < n
            invariant
                n == self.slots@.len(),
                n == old_slots.len(),
                n <= u32::MAX + 1,
                i <= n,
                forall|k: int|
                    0 <= k < i ==> #[trigger] self.slots@[k] == (DenseSlot {
                        generation: cleared_generation(old_slots[k]),
                        data: SlotData::Free {
                            next_free: if k + 1 < n {
                                Some((k + 1) as u32)
                            } else {
                                None
                            },
                        },
                    }),
                forall|k: int| i <= k < n ==> #[trigger] self.slots@[k] == old_slots[k],
            decreases n - i,
        {
            let g = self.slots[i].generation;
            let occupied = match &self.slots[i].data {
                SlotData::Occupied { .. } => true,
                SlotData::Free { .. } => false,
            };
            let new_generation = if occupied {
                if g == u32::MAX {
                    1
                } else {
                    g + 1
                }
            } else {
                g
            };
            let next = if i + 1 < n {
                Some((i + 1) as u32)
            } else {
                None
            };
            let _ = vec_replace(
                &mut self.slots,
                i,
                DenseSlot { generation: new_generation, data: SlotData::Free { next_free: next } },
            );
            i = i + 1;
        }
        self.dense.clear();
        self.reverse.clear();
        self.free_list_head = if n > 0 {
            Some(0)
        } else {
            None
        };
        self.free = Ghost(Seq::new(n as nat, |k: int| k as u32));
        proof {
            let free = self.free@;
            assert forall|k: int| 0 <= k < free.len() implies {
                &&& free[k] < self.slots@.len()
                &&& self.slots@[free[k] as int].data == SlotData::Free {
                    next_free: link_of(free, k),
                }
            } by {
                assert(free[k] as int == k);
                assert(self.slots@[k] == (DenseSlot {
                    generation: cleared_generation(old_slots[k]),
                    data: SlotData::Free {
                        next_free: if k + 1 < n {
                            Some((k + 1) as u32)
                        } else {
                            None
                        },
                    },
                }));
            }
            assert forall|a: int, b: int| 0 <= a < free.len() && 0 <= b < free.len() && a != b
                implies free[a] != free[b] by {}
            assert forall|k: int| 0 <= k < self.slots@.len() && self.slots@[k].data is Free implies free.contains(
                k as u32,
            ) by {
                assert(free[k] == k as u32);
            }
            assert forall|k: int| 0 <= k < self.slots@.len() implies self.slots@[k].generation >= 1 by {
                assert(old_slots[k].generation >= 1);
            }
            assert forall|k: int| 0 <= k < self.slots@.len() implies !(self.slots@[k].data is Occupied) by {
                assert(self.slots@[k].data is Free);
            }
            assert(self@ =~= Map::<Index, T>::empty());
        }
    }
}

impl<T> Default for DenseMap<T> {
    /// An empty map.
    fn default() -> (m: Self)
        ensures
            m.wf(),
            m@ == Map::<Index, T>::empty(),
            m.values() == Seq::<T>::empty(),
            m.slot_count() == 0,
            m.free_list() == Seq::<u32>::empty(),
    {
        Self::new()
    }
}

/// A key removed from a dense map is no longer live, and the insertion that follows,
/// which reuses its slot, hands out a key of a different generation: a stale key never
/// reaches the new value.
pub proof fn law_removed_key_not_reissued<T>(
    a: DenseMap<T>,
    b: DenseMap<T>,
    c: DenseMap<T>,
    idx: Index,
    fresh: Index,
    value: T,
)
    requires
        a@.contains_key(idx),
        b@ == a@.remove(idx),
        b.free_list() == seq![idx.spec_index()] + a.free_list(),
        b.generation_of(idx.spec_index() as int) == next_generation(idx.spec_generation()),
        fresh == mk_index(b.free_list()[0], b.generation_of(b.free_list()[0] as int)),
        c@ == b@.insert(fresh, value),
    ensures
        !b@.contains_key(idx),
        fresh.spec_index() == idx.spec_index(),
        fresh != idx,
        !c@.contains_key(idx),
        c@.contains_key(fresh) && c@[fresh] == value,
{
    broadcast use lemma_mk_index;

    Index::lemma_eq(fresh, idx);
}

/// An index live before a clear never reaches a value inserted after it: the clear
/// moves its slot to the next generation, and the insertion that follows hands out the
/// first listed slot at its current generation.
pub proof fn law_cleared_key_not_reissued<T>(
    a: DenseMap<T>,
    b: DenseMap<T>,
    c: DenseMap<T>,
    key: Index,
    fresh: Index,
    value: T,
)
    requires
        a@.contains_key(key),
        b@ == Map::<Index, T>::empty(),
        b.generation_of(key.spec_index() as int) != key.spec_generation(),
        b.free_list().len() > 0,
        fresh == mk_index(b.free_list()[0], b.generation_of(b.free_list()[0] as int)),
        c@ == b@.insert(fresh, value),
    ensures
        fresh != key,
        !c@.contains_key(key),
        c@.contains_key(fresh) && c@[fresh] == value,
{
    broadcast use lemma_mk_index;

    Index::lemma_eq(fresh, key);
}

} // verus!
