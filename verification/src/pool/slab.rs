use crate::vecs::{vec_capacity, vec_replace};
use vstd::prelude::*;

verus! {

/// An entry in the [`Slab`].
#[derive(Clone, Debug)]
pub enum Entry<T> {
    /// A vacant slot in the slab, storing a link to the next free slot.
    Free {
        /// Index of the next free slot.
        next: Option<usize>,
    },
    /// An occupied slot storing the active value.
    Occupied(T),
}

/// A homogeneous slab allocator: values live in slots addressed by their index,
/// and vacated slots are recycled through an internal free list (most recently
/// vacated first).
pub struct Slab<T> {
    entries: Vec<Entry<T>>,
    free_head: Option<usize>,
    len: usize,
    free: Ghost<Seq<usize>>,
}

/// The link that the free-list position `k` must hold.
pub open spec fn free_link(free: Seq<usize>, k: int) -> Option<usize> {
    if k + 1 < free.len() {
        Some(free[k + 1])
    } else {
        None
    }
}

/// The head of a free list.
pub open spec fn free_head_of(free: Seq<usize>) -> Option<usize> {
    if free.len() == 0 {
        None
    } else {
        Some(free[0])
    }
}

/// Each listed slot is vacant and links to the next listed one.
pub open spec fn free_links_ok<T>(entries: Seq<Entry<T>>, free: Seq<usize>) -> bool {
    forall|k: int|
        0 <= k < free.len() ==> {
            &&& free[k] < entries.len()
            &&& entries[free[k] as int] == Entry::<T>::Free { next: free_link(free, k) }
        }
}

/// Every vacant slot is listed.
pub open spec fn free_complete<T>(entries: Seq<Entry<T>>, free: Seq<usize>) -> bool {
    forall|k: usize| k < entries.len() && entries[k as int] is Free ==> free.contains(k)
}

/// The free list `free` threads exactly the vacant entries of `entries`, each once.
pub open spec fn free_list_ok<T>(entries: Seq<Entry<T>>, free: Seq<usize>) -> bool {
    &&& free_links_ok(entries, free)
    &&& free.no_duplicates()
    &&& free_complete(entries, free)
}

proof fn lemma_free_not_occupied<T>(entries: Seq<Entry<T>>, free: Seq<usize>, key: usize)
    requires
        free_links_ok(entries, free),
        key < entries.len(),
        entries[key as int] is Occupied,
    ensures
        !free.contains(key),
{
    if free.contains(key) {
        let i = choose|i: int| 0 <= i < free.len() && free[i] == key;
        assert(entries[free[i] as int] is Free);
    }
}

proof fn lemma_take_head<T>(entries: Seq<Entry<T>>, free: Seq<usize>, v: T)
    requires
        free_list_ok(entries, free),
        free.len() > 0,
    ensures
        free_list_ok(entries.update(free[0] as int, Entry::Occupied(v)), free.drop_first()),
{
    let e2 = entries.update(free[0] as int, Entry::Occupied(v));
    let f2 = free.drop_first();
    assert(free_links_ok(e2, f2)) by {
        assert forall|k: int| 0 <= k < f2.len() implies {
            &&& f2[k] < e2.len()
            &&& e2[f2[k] as int] == Entry::<T>::Free { next: free_link(f2, k) }
        } by {
            assert(free[k + 1] != free[0]);
            assert(free_link(f2, k) == free_link(free, k + 1));
        }
    }
    assert(free_complete(e2, f2)) by {
        assert forall|k: usize| k < e2.len() && e2[k as int] is Free implies f2.contains(k) by {
            assert(k != free[0]);
            assert(e2[k as int] == entries[k as int]);
            assert(free_complete(entries, free));
            assert(free.contains(k));
            let i = choose|i: int| 0 <= i < free.len() && free[i] == k;
            assert(i != 0);
            assert(f2[i - 1] == k);
        }
    }
    assert(f2.no_duplicates()) by {
        assert forall|i: int, j: int| 0 <= i < j < f2.len() implies f2[i] != f2[j] by {
            assert(free[i + 1] != free[j + 1]);
        }
    }
}

proof fn lemma_push_occupied<T>(entries: Seq<Entry<T>>, free: Seq<usize>, v: T)
    requires
        free_list_ok(entries, free),
    ensures
        free_list_ok(entries.push(Entry::Occupied(v)), free),
{
}

proof fn lemma_vacate_links<T>(entries: Seq<Entry<T>>, free: Seq<usize>, key: usize)
    requires
        free_links_ok(entries, free),
        !free.contains(key),
        key < entries.len(),
    ensures
        free_links_ok(
            entries.update(key as int, Entry::Free { next: free_head_of(free) }),
            seq![key] + free,
        ),
{
    let e2 = entries.update(key as int, Entry::Free { next: free_head_of(free) });
    let f2 = seq![key] + free;
    assert forall|k: int| 0 <= k < f2.len() implies {
        &&& f2[k] < e2.len()
        &&& e2[f2[k] as int] == Entry::<T>::Free { next: free_link(f2, k) }
    } by {
        if k > 0 {
            assert(f2[k] == free[k - 1]);
            assert(free_link(f2, k) == free_link(free, k - 1));
            if free[k - 1] == key {
                assert(free.contains(key));
            }
        } else {
            assert(free_link(f2, 0) == free_head_of(free));
        }
    }
}

proof fn lemma_vacate_complete<T>(entries: Seq<Entry<T>>, free: Seq<usize>, key: usize)
    requires
        free_complete(entries, free),
        key < entries.len(),
    ensures
        free_complete(
            entries.update(key as int, Entry::Free { next: free_head_of(free) }),
            seq![key] + free,
        ),
{
    let e2 = entries.update(key as int, Entry::Free { next: free_head_of(free) });
    let f2 = seq![key] + free;
    assert forall|k: usize| k < e2.len() && e2[k as int] is Free implies f2.contains(k) by {
        if k == key {
            assert(f2[0] == key);
        } else {
            assert(e2[k as int] == entries[k as int]);
            assert(free.contains(k));
            let i = choose|i: int| 0 <= i < free.len() && free[i] == k;
            assert(f2[i + 1] == k);
        }
    }
}

proof fn lemma_cons_no_dup(free: Seq<usize>, key: usize)
    requires
        free.no_duplicates(),
        !free.contains(key),
    ensures
        (seq![key] + free).no_duplicates(),
{
    let f2 = seq![key] + free;
    assert forall|i: int, j: int| 0 <= i < j < f2.len() implies f2[i] != f2[j] by {
        if i == 0 {
            assert(f2[j] == free[j - 1]);
            if free[j - 1] == key {
                assert(free.contains(key));
            }
        } else {
            assert(f2[i] == free[i - 1]);
            assert(f2[j] == free[j - 1]);
        }
    }
}

proof fn lemma_vacate<T>(entries: Seq<Entry<T>>, free: Seq<usize>, key: usize)
    requires
        free_list_ok(entries, free),
        key < entries.len(),
        entries[key as int] is Occupied,
    ensures
        free_list_ok(
            entries.update(key as int, Entry::Free { next: free_head_of(free) }),
            seq![key] + free,
        ),
{
    lemma_free_not_occupied(entries, free, key);
    lemma_vacate_links(entries, free, key);
    lemma_vacate_complete(entries, free, key);
    lemma_cons_no_dup(free, key);
}

proof fn lemma_overwrite<T>(entries: Seq<Entry<T>>, free: Seq<usize>, key: usize, v: T)
    requires
        free_list_ok(entries, free),
        key < entries.len(),
        entries[key as int] is Occupied,
    ensures
        free_list_ok(entries.update(key as int, Entry::Occupied(v)), free),
{
    lemma_free_not_occupied(entries, free, key);
}

impl<T> Slab<T> {
    /// The occupied slots and their values.
    pub closed spec fn view(&self) -> Map<usize, T> {
        Map::new(
            |k: usize| k < self.entries@.len() && self.entries@[k as int] is Occupied,
            |k: usize| self.entries@[k as int]->Occupied_0,
        )
    }

    /// The number of slots (occupied or vacant) in the backing store.
    pub closed spec fn slot_count(&self) -> nat {
        self.entries@.len()
    }

    /// The vacant slots in the order in which they will be reused.
    pub closed spec fn free_list(&self) -> Seq<usize> {
        self.free@
    }

    /// The internal consistency of the slab: the free list threads exactly the vacant
    /// slots, each once, and `len` counts the others.
    pub closed spec fn wf(&self) -> bool {
        &&& self.free_head == free_head_of(self.free@)
        &&& free_list_ok(self.entries@, self.free@)
        &&& self.len + self.free@.len() == self.entries@.len()
        &&& self.entries@.len() <= usize::MAX
    }

    /// The number of occupied slots is the size of the view.
    /// A well-formed slab holds finitely many values: as many as there are slots that
    /// are not on the free list.
    pub proof fn lemma_finite(&self)
        requires
            self.wf(),
        ensures
            self@.dom().finite(),
            self@.len() + self.free_list().len() == self.slot_count(),
    {
        self.lemma_len();
    }

    proof fn lemma_len(&self)
        requires
            self.wf(),
        ensures
            self@.dom().finite(),
            self@.len() == self.len,
    {
        assert forall|k: usize|
            self@.dom().contains(k) <==> (k < self.entries@.len() && !self.free@.contains(k)) by {
            if k < self.entries@.len() && self.free@.contains(k) {
                let i = choose|i: int| 0 <= i < self.free@.len() && self.free@[i] == k;
                assert(self.entries@[self.free@[i] as int] is Free);
            }
        }
        crate::lemmas::lemma_partition_len(self.entries@.len(), self.free@, self@.dom());
    }

    /// The free list holds exactly the vacant slots, each once: a slot below the slot
    /// count is listed if and only if it holds no value, and every key in use is below
    /// the slot count.
    pub proof fn lemma_free_list_is_vacant(&self)
        requires
            self.wf(),
        ensures
            forall|k: usize| #[trigger] self@.contains_key(k) ==> k < self.slot_count(),
            forall|k: usize|
                k < self.slot_count() ==> (#[trigger] self.free_list().contains(k)
                    <==> !self@.contains_key(k)),
            self.free_list().no_duplicates(),
            self@.dom().finite(),
            self.free_list().len() + self@.len() == self.slot_count(),
    {
        self.lemma_len();
        assert forall|k: usize|
            k < self.slot_count() implies (#[trigger] self.free_list().contains(k)
                <==> !self@.contains_key(k)) by {
            if self.free@.contains(k) {
                let i = choose|i: int| 0 <= i < self.free@.len() && self.free@[i] == k;
                assert(self.entries@[self.free@[i] as int] is Free);
            }
        }
    }

    /// Creates a new, empty `Slab`.
    pub fn new() -> (s: Self)
        ensures
            s.wf(),
            s@ == Map::<usize, T>::empty(),
            s.slot_count() == 0,
            s.free_list() == Seq::<usize>::empty(),
    {
        let s = Slab { entries: Vec::new(), free_head: None, len: 0, free: Ghost(Seq::empty()) };
        assert(s@ =~= Map::<usize, T>::empty());
        s
    }

    /// Creates a new, empty `Slab` whose backing store can hold `capacity` slots
    /// before it reallocates.
    pub fn with_capacity(capacity: usize) -> (s: Self)
        ensures
            s.wf(),
            s@ == Map::<usize, T>::empty(),
            s.slot_count() == 0,
            s.free_list() == Seq::<usize>::empty(),
    {
        let s = Slab {
            entries: Vec::with_capacity(capacity),
            free_head: None,
            len: 0,
            free: Ghost(Seq::empty()),
        };
        assert(s@ =~= Map::<usize, T>::empty());
        s
    }

    /// Returns the number of occupied slots.
    pub fn len(&self) -> (r: usize)
        requires
            self.wf(),
        ensures
            r == self@.len(),
    {
        proof {
            self.lemma_len();
        }
        self.len
    }

    /// Returns `true` if no slot is occupied.
    pub fn is_empty(&self) -> (r: bool)
        requires
            self.wf(),
        ensures
            r == (self@.len() == 0),
    {
        proof {
            self.lemma_len();
        }
        self.len == 0
    }

    /// Returns the capacity of the backing store.
    pub fn capacity(&self) -> (r: usize)
        ensures
            r >= self.slot_count(),
    {
        vec_capacity(&self.entries)
    }

    /// Inserts a value, returning the index of the slot that now holds it.
    ///
    /// The most recently vacated slot is reused first; when none is vacant a new slot
    /// is appended.
    pub fn insert(&mut self, value: T) -> (key: usize)
        requires
            old(self).wf(),
        ensures
            final(self).wf(),
            !old(self)@.contains_key(key),
            final(self)@ == old(self)@.insert(key, value),
            old(self).free_list().len() == 0 ==> {
                &&& key == old(self).slot_count()
                &&& final(self).slot_count() == old(self).slot_count() + 1
                &&& final(self).free_list() == old(self).free_list()
            },
            old(self).free_list().len() > 0 ==> {
                &&& key == old(self).free_list()[0]
                &&& final(self).slot_count() == old(self).slot_count()
                &&& final(self).free_list() == old(self).free_list().drop_first()
            },
            (exists|k: usize| k < old(self).slot_count() && !old(self)@.contains_key(k)) ==> key
                < old(self).slot_count(),
            !(exists|k: usize| k < old(self).slot_count() && !old(self)@.contains_key(k)) ==> key
                == old(self).slot_count(),
    {
        proof {
            self.lemma_free_list_is_vacant();
            if exists|k: usize| k < self.slot_count() && !self@.contains_key(k) {
                let k = choose|k: usize| k < self.slot_count() && !self@.contains_key(k);
                assert(self.free_list().contains(k));
            } else if self.free_list().len() > 0 {
                assert(self.free_list().contains(self.free_list()[0]));
            }
        }
        let ghost old_view = self@;
        let ghost old_free = self.free@;
        let ghost old_entries = self.entries@;
        match self.free_head {
            Some(idx) => {
                assert(self.entries@[old_free[0] as int] == Entry::<T>::Free {
                    next: free_link(old_free, 0),
                });
                let next_free = match &self.entries[idx] {
                    Entry::Free { next } => *next,
                    Entry::Occupied(..) => None,
                };
                self.free_head = next_free;
                let _n = self.entries.len();
                self.entries.set(idx, Entry::Occupied(value));
                self.len = self.len + 1;
                self.free = Ghost(old_free.drop_first());
                proof {
                    lemma_take_head(old_entries, old_free, value);
                    assert(!old_view.contains_key(idx));
                    assert(self@ =~= old_view.insert(idx, value));
                }
                idx
            },
            None => {
                let idx = self.entries.len();
                self.entries.push(Entry::Occupied(value));
                let _n = self.entries.len();
                self.len = self.len + 1;
                proof {
                    lemma_push_occupied(old_entries, old_free, value);
                    assert(!old_view.contains_key(idx));
                    assert(self@ =~= old_view.insert(idx, value));
                }
                idx
            },
        }
    }

    /// Removes the value at `key`, returning it if the slot was occupied.
    ///
    /// A vacated slot becomes the head of the free list.
    pub fn remove(&mut self, key: usize) -> (r: Option<T>)
        requires
            old(self).wf(),
        ensures
            final(self).wf(),
            r == (if old(self)@.contains_key(key) {
                Some(old(self)@[key])
            } else {
                None
            }),
            old(self)@.contains_key(key) ==> {
                &&& final(self)@ == old(self)@.remove(key)
                &&& final(self).slot_count() == old(self).slot_count()
                &&& final(self).free_list() == seq![key] + old(self).free_list()
            },
            !old(self)@.contains_key(key) ==> *final(self) == *old(self),
    {
        if key >= self.entries.len() {
            return None;
        }
        let occupied = match &self.entries[key] {
            Entry::Occupied(..) => true,
            Entry::Free { .. } => false,
        };
        if !occupied {
            return None;
        }
        let ghost old_view = self@;
        let ghost old_free = self.free@;
        let ghost old_entries = self.entries@;
        proof {
            lemma_vacate(old_entries, old_free, key);
            self.lemma_len();
            assert(self@.dom().contains(key));
        }
        let old_entry = vec_replace(&mut self.entries, key, Entry::Free { next: self.free_head });
        self.free_head = Some(key);
        self.len = self.len - 1;
        self.free = Ghost(seq![key] + old_free);
        proof {
            assert(self@ =~= old_view.remove(key));
        }
        match old_entry {
            Entry::Occupied(value) => Some(value),
            Entry::Free { .. } => None,
        }
    }

    /// Returns a shared reference to the value at `key`, if the slot is occupied.
    pub fn get(&self, key: usize) -> (r: Option<&T>)
        ensures
            r == (if self@.contains_key(key) {
                Some(&self@[key])
            } else {
                None
            }),
    {
        if key >= self.entries.len() {
            return None;
        }
        match &self.entries[key] {
            Entry::Occupied(value) => Some(value),
            Entry::Free { .. } => None,
        }
    }

    /// Returns a mutable reference to the value at `key`, if the slot is occupied.
    pub fn get_mut(&mut self, key: usize) -> (r: Option<&mut T>)
        requires
            old(self).wf(),
        ensures
            r is Some <==> old(self)@.contains_key(key),
            r matches Some(m) ==> *m == old(self)@[key],
            r matches Some(m) ==> final(self).wf(),
            r matches Some(m) ==> final(self)@ == old(self)@.insert(key, *final(m)),
            r matches Some(m) ==> final(self).slot_count() == old(self).slot_count(),
            r matches Some(m) ==> final(self).free_list() == old(self).free_list(),
            r is None ==> *final(self) == *old(self),
    {
        if key >= self.entries.len() {
            return None;
        }
        let occupied = match &self.entries[key] {
            Entry::Occupied(..) => true,
            Entry::Free { .. } => false,
        };
        if !occupied {
            return None;
        }
        proof {
            lemma_overwrite(self.entries@, self.free@, key, self.entries@[key as int]->Occupied_0);
        }
        match &mut self.entries[key] {
            Entry::Occupied(value) => Some(value),
            Entry::Free { .. } => None,
        }
    }

    /// Returns the occupied slots and their values, in increasing slot order.
    pub fn iter(&self) -> (r: Vec<(usize, &T)>)
        ensures
            forall|i: int|
                0 <= i < r@.len() ==> self@.contains_key(#[trigger] r@[i].0) && *r@[i].1
                    == self@[r@[i].0],
            forall|i: int, j: int| 0 <= i < j < r@.len() ==> r@[i].0 < r@[j].0,
            forall|k: usize|
                self@.contains_key(k) ==> exists|i: int| 0 <= i < r@.len() && #[trigger] r@[i].0 == k,
    {
        let mut r: Vec<(usize, &T)> = Vec::new();
        let mut i: usize = 0;
        while i < self.entries.len()
            invariant
                i <= self.entries@.len(),
                forall|t: int|
                    0 <= t < r@.len() ==> self@.contains_key(#[trigger] r@[t].0) && *r@[t].1
                        == self@[r@[t].0] && r@[t].0 < i,
                forall|a: int, b: int| 0 <= a < b < r@.len() ==> r@[a].0 < r@[b].0,
                forall|k: usize|
                    k < i && self@.contains_key(k) ==> exists|t: int|
                        0 <= t < r@.len() && #[trigger] r@[t].0 == k,
            decreases self.entries@.len() - i,
        {
            let ghost old_r = r@;
            match &self.entries[i] {
                Entry::Occupied(value) => {
                    r.push((i, value));
                    assert(r@[r@.len() - 1].0 == i);
                },
                Entry::Free { .. } => {},
            }
            proof {
                assert forall|k: usize| k < i + 1 && self@.contains_key(k) implies exists|t: int|
                    0 <= t < r@.len() && #[trigger] r@[t].0 == k by {
                    if k == i {
                        assert(r@[r@.len() - 1].0 == i);
                    } else {
                        let t = choose|t: int| 0 <= t < old_r.len() && #[trigger] old_r[t].0 == k;
                        assert(r@[t] == old_r[t]);
                    }
                }
            }
            i = i + 1;
        }
        r
    }

    /// Removes every value and every slot; the backing store keeps its allocation.
    pub fn clear(&mut self)
        ensures
            final(self).wf(),
            final(self)@ == Map::<usize, T>::empty(),
            final(self).slot_count() == 0,
            final(self).free_list() == Seq::<usize>::empty(),
    {
        self.entries.clear();
        self.free_head = None;
        self.len = 0;
        self.free = Ghost(Seq::empty());
        assert(self@ =~= Map::<usize, T>::empty());
    }
}

impl<T> Default for Slab<T> {
    /// An empty slab.
    fn default() -> (s: Self)
        ensures
            s.wf(),
            s@ == Map::<usize, T>::empty(),
            s.slot_count() == 0,
            s.free_list() == Seq::<usize>::empty(),
    {
        Self::new()
    }
}

/// A slab reuses the key it freed last: removing a key and then inserting hands the
/// same key out again, now holding the new value.
pub proof fn law_last_freed_key_reused<T>(
    a: Slab<T>,
    b: Slab<T>,
    c: Slab<T>,
    key: usize,
    fresh: usize,
    value: T,
)
    requires
        a@.contains_key(key),
        b@ == a@.remove(key),
        b.free_list() == seq![key] + a.free_list(),
        fresh == b.free_list()[0],
        c@ == b@.insert(fresh, value),
    ensures
        fresh == key,
        c@ == a@.insert(key, value),
{
    assert(c@ =~= a@.insert(key, value));
}

} // verus!
