use crate::error::{Error, Result};
use crate::hash::hasher::{BuildFxHasher, BuildHasher, HashKey};
use crate::hash::map::{
    bucket_count, capacity_after_insert, table_shape, HashMap, MAX_CAPACITY, MAX_ENTRIES,
};
use vstd::prelude::*;

verus! {

/// A hash set: the keys of a [`HashMap`] whose values are `()`.
#[derive(Clone)]
pub struct HashSet<T, S = BuildFxHasher> {
    map: HashMap<T, (), S>,
}

impl<T: HashKey, S: BuildHasher> HashSet<T, S> {
    /// The values of the set.
    pub closed spec fn view(&self) -> Set<T::V> {
        self.map@.dom()
    }

    /// The internal consistency of the underlying table.
    pub closed spec fn wf(&self) -> bool {
        self.map.wf()
    }

    /// The number of buckets.
    pub closed spec fn spec_capacity(&self) -> nat {
        self.map.spec_capacity()
    }

    /// The table has the shape of [`table_shape`].
    pub open spec fn shaped(&self) -> bool {
        table_shape(self.spec_capacity(), self@.len())
    }
}

impl<T: HashKey> HashSet<T, BuildFxHasher> {
    /// Creates an empty set with the default hasher; allocates nothing.
    pub fn new() -> (s: Self)
        ensures
            s.wf(),
            s@ == Set::<T::V>::empty(),
            s.spec_capacity() == 0,
            s.shaped(),
    {
        let s = HashSet { map: HashMap::new() };
        assert(s@ =~= Set::<T::V>::empty());
        s
    }

    /// Creates an empty set with room for at least `capacity` values (see
    /// [`bucket_count`]).
    pub fn with_capacity(capacity: usize) -> (s: Self)
        requires
            capacity <= MAX_CAPACITY / 2 || capacity > usize::MAX / 2 + 1,
        ensures
            s.wf(),
            s@ == Set::<T::V>::empty(),
            s.spec_capacity() == bucket_count(capacity as nat),
            s.shaped(),
    {
        let s = HashSet { map: HashMap::with_capacity(capacity) };
        assert(s@ =~= Set::<T::V>::empty());
        s
    }
}

impl<T: HashKey, S: BuildHasher> HashSet<T, S> {
    /// Creates an empty set with the given hash builder; allocates nothing.
    pub fn with_hasher(hash_builder: S) -> (s: Self)
        ensures
            s.wf(),
            s@ == Set::<T::V>::empty(),
            s.spec_capacity() == 0,
            s.shaped(),
    {
        let s = HashSet { map: HashMap::with_hasher(hash_builder) };
        assert(s@ =~= Set::<T::V>::empty());
        s
    }

    /// Creates an empty set with the given hash builder and room for at least
    /// `capacity` values (see [`bucket_count`]).
    pub fn with_capacity_and_hasher(capacity: usize, hash_builder: S) -> (s: Self)
        requires
            capacity <= MAX_CAPACITY / 2 || capacity > usize::MAX / 2 + 1,
        ensures
            s.wf(),
            s@ == Set::<T::V>::empty(),
            s.spec_capacity() == bucket_count(capacity as nat),
            s.shaped(),
    {
        let s = HashSet { map: HashMap::with_capacity_and_hasher(capacity, hash_builder) };
        assert(s@ =~= Set::<T::V>::empty());
        s
    }

    /// Returns the number of values.
    pub fn len(&self) -> (r: usize)
        requires
            self.wf(),
        ensures
            r == self@.len(),
    {
        self.map.len()
    }

    /// Returns `true` if the set holds no value.
    pub fn is_empty(&self) -> (r: bool)
        requires
            self.wf(),
        ensures
            r == (self@.len() == 0),
    {
        self.map.is_empty()
    }

    /// Returns the number of buckets.
    pub fn capacity(&self) -> (r: usize)
        ensures
            r == self.spec_capacity(),
    {
        self.map.capacity()
    }

    /// Removes every value, keeping the bucket count.
    pub fn clear(&mut self)
        requires
            old(self).wf(),
        ensures
            final(self).wf(),
            final(self)@ == Set::<T::V>::empty(),
            final(self).spec_capacity() == old(self).spec_capacity(),
            old(self).shaped() ==> final(self).shaped(),
    {
        self.map.clear();
        assert(self@ =~= Set::<T::V>::empty());
    }

}

impl<T: HashKey, S: BuildHasher + Clone> HashSet<T, S> {
    /// Returns `true` if the set holds `value`.
    pub fn contains(&self, value: &T) -> (r: bool)
        requires
            self.wf(),
        ensures
            r == self@.contains(value@),
    {
        match self.map.get(value) {
            Some(_) => true,
            None => false,
        }
    }

    /// Removes `value`; returns `true` if it was present.
    pub fn remove(&mut self, value: &T) -> (r: bool)
        requires
            old(self).wf(),
        ensures
            final(self).wf(),
            r == old(self)@.contains(value@),
            final(self)@ == old(self)@.remove(value@),
            final(self).spec_capacity() == old(self).spec_capacity(),
            old(self).shaped() ==> final(self).shaped(),
    {
        let r = match self.map.remove(value) {
            Some(_) => true,
            None => false,
        };
        assert(self@ =~= old(self)@.remove(value@));
        r
    }

    /// Returns every value once, in bucket order.
    pub fn iter(&self) -> (r: Vec<&T>)
        requires
            self.wf(),
        ensures
            forall|i: int| 0 <= i < r@.len() ==> self@.contains(#[trigger] r@[i]@),
            forall|i: int, j: int| 0 <= i < j < r@.len() ==> r@[i]@ != r@[j]@,
            forall|k: T::V| self@.contains(k) ==> exists|i: int| 0 <= i < r@.len() && #[trigger] r@[i]@ == k,
    {
        let pairs = self.map.iter();
        let mut r: Vec<&T> = Vec::new();
        let mut i: usize = 0;
        while i < pairs.len()
            invariant
                i <= pairs@.len(),
                r@.len() == i,
                forall|t: int| 0 <= t < i ==> r@[t] == pairs@[t].0,
            decreases pairs@.len() - i,
        {
            r.push(pairs[i].0);
            i = i + 1;
        }
        proof {
            assert forall|k: T::V| self@.contains(k) implies exists|t: int|
                0 <= t < r@.len() && #[trigger] r@[t]@ == k by {
                let t = choose|t: int| 0 <= t < pairs@.len() && #[trigger] pairs@[t].0@ == k;
                assert(r@[t] == pairs@[t].0);
            }
            assert forall|t: int| 0 <= t < r@.len() implies self@.contains(#[trigger] r@[t]@) by {
                assert(r@[t] == pairs@[t].0);
            }
            assert forall|t: int, u: int| 0 <= t < u < r@.len() implies r@[t]@ != r@[u]@ by {
                assert(r@[t] == pairs@[t].0);
                assert(r@[u] == pairs@[u].0);
            }
        }
        r
    }

    /// Adds `value`; returns `true` if it was not present.
    ///
    /// An unallocated table first gets 8 buckets; a table at least three quarters full
    /// first doubles its bucket count.
    pub fn insert(&mut self, value: T) -> (r: Result<bool>)
        requires
            old(self).wf(),
            old(self)@.len() < MAX_ENTRIES,
        ensures
            final(self).wf(),
            r == Ok::<bool, Error>(!old(self)@.contains(value@)),
            final(self)@ == old(self)@.insert(value@),
            final(self).spec_capacity() == capacity_after_insert(
                old(self).spec_capacity(),
                old(self)@.len(),
            ),
            old(self).shaped() ==> final(self).shaped(),
    {
        let r = match self.map.insert(value, ()) {
            Ok(prev) => Ok(prev.is_none()),
            Err(e) => Err(e),
        };
        assert(self@ =~= old(self)@.insert(value@));
        r
    }
}

impl<T: HashKey, S: BuildHasher + Default> Default for HashSet<T, S> {
    /// An empty set with a default hash builder; allocates nothing.
    fn default() -> (s: Self)
        ensures
            s.wf(),
            s@ == Set::<T::V>::empty(),
            s.spec_capacity() == 0,
            s.shaped(),
    {
        Self::with_hasher(S::default())
    }
}

/// A value reads as present right after it is inserted, and as absent right after it
/// is removed; other values are unaffected.
pub proof fn law_contains_after_insert_and_remove<T: HashKey, S: BuildHasher>(
    s: HashSet<T, S>,
    v: T::V,
    other: T::V,
)
    requires
        other != v,
    ensures
        s@.insert(v).contains(v),
        !s@.remove(v).contains(v),
        s@.insert(v).contains(other) == s@.contains(other),
        s@.remove(v).contains(other) == s@.contains(other),
{
}

/// Inserting grows the set by one value exactly when the value was absent.
pub proof fn law_len_after_insert<T: HashKey, S: BuildHasher>(s: HashSet<T, S>, v: T::V)
    requires
        s.wf(),
    ensures
        s@.insert(v).len() == s@.len() + (if s@.contains(v) {
            0int
        } else {
            1int
        }),
{
    s.map.lemma_finite();
    if s@.contains(v) {
        assert(s@.insert(v) =~= s@);
    }
}

} // verus!
