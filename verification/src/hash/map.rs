use crate::allocator::is_power_of_two;
use crate::error::{Error, Result};
use crate::hash::hasher::{BuildFxHasher, BuildHasher, FxHasher, HashKey};
use crate::vecs::vec_replace;
use vstd::prelude::*;

verus! {

/// The largest bucket count a table can reach.
pub const MAX_CAPACITY: usize = usize::MAX / 16 + 1;

/// The largest number of entries a table can be asked to hold.
pub const MAX_ENTRIES: usize = MAX_CAPACITY / 8 * 3;

#[derive(Clone)]
struct TableEntry<K, V> {
    hash: u64,
    key: K,
    value: V,
    dis: usize,
}

/// A bucket of a Robin Hood hash table.
#[derive(Clone)]
pub struct Bucket<K, V> {
    entry: Option<TableEntry<K, V>>,
}

/// A hash map using Robin Hood open addressing with backward-shift deletion.
///
/// Every entry sits `dis` buckets after its home bucket (the hash modulo the bucket
/// count), and no entry is farther from home than the entries it passed on its way.
#[derive(Clone)]
pub struct HashMap<K, V, S = BuildFxHasher> {
    buckets: Vec<Bucket<K, V>>,
    len: usize,
    capacity: usize,
    build_hasher: S,
}

/// Position `d` buckets after `a` in a table of `cap` buckets.
pub open spec fn step(a: int, d: int, cap: int) -> int {
    if a + d < cap {
        a + d
    } else {
        a + d - cap
    }
}

/// How many steps lead from bucket `a` to bucket `e` in a table of `cap` buckets.
spec fn gap(a: int, e: int, cap: int) -> int {
    if e >= a {
        e - a
    } else {
        e - a + cap
    }
}

/// The home bucket of a hash.
pub open spec fn home(h: u64, cap: int) -> int {
    (h as usize) as int % cap
}

spec fn occ<K, V>(b: Seq<Bucket<K, V>>, i: int) -> bool {
    b[i].entry is Some
}

spec fn ent<K, V>(b: Seq<Bucket<K, V>>, i: int) -> TableEntry<K, V> {
    b[i].entry->Some_0
}

/// The positions of the occupied buckets.
spec fn occupied<K, V>(b: Seq<Bucket<K, V>>) -> Set<int> {
    Set::new(|i: int| 0 <= i < b.len() && occ(b, i))
}

/// Each entry carries its key's hash and sits `dis` buckets after its home.
spec fn entries_ok<K: HashKey, V>(b: Seq<Bucket<K, V>>, seed: u64) -> bool {
    forall|i: int|
        0 <= i < b.len() && #[trigger] occ(b, i) ==> {
            &&& ent(b, i).hash == K::spec_hash(ent(b, i).key@, seed)
            &&& ent(b, i).dis < b.len()
            &&& step(home(ent(b, i).hash, b.len() as int), ent(b, i).dis as int, b.len() as int)
                == i
        }
}

/// The Robin Hood property: every bucket between an entry's home and the entry
/// (excluding `hole`) is occupied by an entry at least as far from its own home.
spec fn robin_hood<K, V>(b: Seq<Bucket<K, V>>, hole: int) -> bool {
    forall|i: int, t: int|
        #![trigger occ(b, i), step(home(ent(b, i).hash, b.len() as int), t, b.len() as int)]
        0 <= i < b.len() && occ(b, i) && 0 <= t < ent(b, i).dis ==> {
            let q = step(home(ent(b, i).hash, b.len() as int), t, b.len() as int);
            q == hole || (occ(b, q) && ent(b, q).dis >= t)
        }
}

/// No two entries hold equal keys.
spec fn distinct_keys<K: View, V>(b: Seq<Bucket<K, V>>) -> bool {
    forall|i: int, j: int|
        0 <= i < b.len() && 0 <= j < b.len() && i != j && #[trigger] occ(b, i) && #[trigger] occ(
            b,
            j,
        ) ==> ent(b, i).key@ != ent(b, j).key@
}

/// Whether some bucket holds key `k`.
spec fn holds<K: View, V>(b: Seq<Bucket<K, V>>, k: K::V) -> bool {
    exists|i: int| 0 <= i < b.len() && occ(b, i) && #[trigger] ent(b, i).key@ == k
}

/// The key-value pairs held by a table.
spec fn table_view<K: View, V>(b: Seq<Bucket<K, V>>) -> Map<K::V, V> {
    Map::new(
        |k: K::V| holds(b, k),
        |k: K::V| ent(b, choose|i: int| 0 <= i < b.len() && occ(b, i) && ent(b, i).key@ == k).value,
    )
}

proof fn lemma_view_at<K: View, V>(b: Seq<Bucket<K, V>>, i: int)
    requires
        distinct_keys(b),
        0 <= i < b.len(),
        occ(b, i),
    ensures
        table_view(b).contains_key(ent(b, i).key@),
        table_view(b)[ent(b, i).key@] == ent(b, i).value,
{
    let k = ent(b, i).key@;
    assert(holds(b, k));
    let j = choose|j: int| 0 <= j < b.len() && occ(b, j) && ent(b, j).key@ == k;
    if j != i {
        assert(ent(b, i).key@ != ent(b, j).key@);
    }
}

proof fn lemma_view_len<K: View, V>(b: Seq<Bucket<K, V>>)
    requires
        distinct_keys(b),
    ensures
        table_view(b).dom().finite(),
        table_view(b).dom().len() == occupied(b).len(),
        occupied(b).finite(),
{
    let occ_set = occupied(b);
    assert(occ_set.finite()) by {
        assert(occ_set.subset_of(vstd::set_lib::set_int_range(0, b.len() as int)));
        vstd::set_lib::lemma_int_range(0, b.len() as int);
        vstd::set_lib::lemma_len_subset(occ_set, vstd::set_lib::set_int_range(0, b.len() as int));
    }
    let f = |i: int| ent(b, i).key@;
    assert(vstd::relations::injective_on(f, occ_set)) by {
        assert forall|x: int, y: int|
            occ_set.contains(x) && occ_set.contains(y) && #[trigger] f(x) == #[trigger] f(y) implies x
            == y by {
            if x != y {
                assert(occ(b, x) && occ(b, y));
            }
        }
    }
    assert(occ_set.map(f) =~= table_view(b).dom()) by {
        assert forall|k: K::V| table_view(b).dom().contains(k) implies occ_set.map(f).contains(k) by {
            let i = choose|i: int| 0 <= i < b.len() && occ(b, i) && #[trigger] ent(b, i).key@ == k;
            assert(occ_set.contains(i));
            assert(f(i) == k);
        }
        assert forall|k: K::V| occ_set.map(f).contains(k) implies table_view(b).dom().contains(k) by {
            let i = choose|i: int| occ_set.contains(i) && f(i) == k;
            assert(holds(b, k));
        }
    }
    vstd::set_lib::lemma_map_size(occ_set, table_view(b).dom(), f);
}

/// Every position of a table is some step away from any position.
proof fn lemma_step_covers(a: int, j: int, cap: int)
    requires
        0 <= a < cap,
        0 <= j < cap,
    ensures
        ({
            let t = if j >= a {
                j - a
            } else {
                j - a + cap
            };
            0 <= t < cap && step(a, t, cap) == j
        }),
{
}

/// The table invariant: entries carry their hashes and distances, the Robin Hood
/// property holds, and keys are distinct.
spec fn table_inv<K: HashKey, V>(b: Seq<Bucket<K, V>>, seed: u64) -> bool {
    &&& entries_ok(b, seed)
    &&& robin_hood(b, -1)
    &&& distinct_keys(b)
}

/// An entry with hash `h` and key `k` that would sit at `idx`, `d` buckets from home,
/// has occupied buckets, no nearer to their homes than its probe, all the way from home.
spec fn carried_ok<K: HashKey, V>(
    b: Seq<Bucket<K, V>>,
    seed: u64,
    h: u64,
    k: K::V,
    d: int,
    idx: int,
) -> bool {
    let cap = b.len() as int;
    &&& h == K::spec_hash(k, seed)
    &&& 0 <= d < cap
    &&& 0 <= idx < cap
    &&& step(home(h, cap), d, cap) == idx
    &&& forall|t: int|
        0 <= t < d ==> #[trigger] occ(b, step(home(h, cap), t, cap)) && ent(
            b,
            step(home(h, cap), t, cap),
        ).dis >= t
}

proof fn lemma_home_range(h: u64, cap: int)
    requires
        cap > 0,
    ensures
        0 <= home(h, cap) < cap,
{
}

/// Distinct distances from one home lead to distinct buckets.
proof fn lemma_step_injective(a: int, t1: int, t2: int, cap: int)
    requires
        0 <= a < cap,
        0 <= t1 < cap,
        0 <= t2 < cap,
        t1 != t2,
    ensures
        step(a, t1, cap) != step(a, t2, cap),
{
}

/// Probing from `h` over `d + 1` occupied buckets cannot cover an empty bucket `e`.
proof fn lemma_probe_bound_at<K, V>(b: Seq<Bucket<K, V>>, h: int, d: int, e: int)
    requires
        0 <= h < b.len(),
        0 <= d < b.len(),
        0 <= e < b.len(),
        !occ(b, e),
        forall|t: int| 0 <= t <= d ==> #[trigger] occ(b, step(h, t, b.len() as int)),
    ensures
        d + 1 < b.len(),
{
    let cap = b.len() as int;
    lemma_step_covers(h, e, cap);
    let te = if e >= h {
        e - h
    } else {
        e - h + cap
    };
    if te <= d {
        assert(occ(b, step(h, te, cap)));
    }
}

/// The first `d` buckets of the probe from the home of `h` hold keys other than `k`.
spec fn probed_other<K: View, V>(b: Seq<Bucket<K, V>>, h: u64, k: K::V, d: int) -> bool {
    let cap = b.len() as int;
    forall|t: int|
        0 <= t < d ==> #[trigger] occ(b, step(home(h, cap), t, cap)) && ent(
            b,
            step(home(h, cap), t, cap),
        ).key@ != k
}

proof fn lemma_probed_extend<K: View, V>(b: Seq<Bucket<K, V>>, h: u64, k: K::V, d: int)
    requires
        probed_other(b, h, k, d),
        d >= 0,
        occ(b, step(home(h, b.len() as int), d, b.len() as int)),
        ent(b, step(home(h, b.len() as int), d, b.len() as int)).key@ != k,
    ensures
        probed_other(b, h, k, d + 1),
{
}

/// Every bucket of a probe so far holds another key at least as far from its home, and
/// so does the next one: then so do all of them, one bucket further.
proof fn lemma_passed_extend<K: View, V>(b: Seq<Bucket<K, V>>, cap: int, h: u64, k: K::V, d: int)
    requires
        cap == b.len(),
        d >= 0,
        forall|t: int|
            0 <= t < d ==> #[trigger] occ(b, step(home(h, cap), t, cap)) && ent(
                b,
                step(home(h, cap), t, cap),
            ).key@ != k && ent(b, step(home(h, cap), t, cap)).dis >= t,
        occ(b, step(home(h, cap), d, cap)),
        ent(b, step(home(h, cap), d, cap)).key@ != k,
        ent(b, step(home(h, cap), d, cap)).dis >= d,
    ensures
        forall|t: int|
            0 <= t < d + 1 ==> #[trigger] occ(b, step(home(h, cap), t, cap)) && ent(
                b,
                step(home(h, cap), t, cap),
            ).key@ != k && ent(b, step(home(h, cap), t, cap)).dis >= t,
{
}

/// The key `k` is absent when its probe reaches, after `d` steps, an empty bucket or an
/// entry nearer to its home, having passed only other keys.
proof fn lemma_absent_in<K: HashKey, V>(b: Seq<Bucket<K, V>>, seed: u64, k: K::V, h: u64, d: int)
    requires
        table_inv(b, seed),
        b.len() > 0,
        h == K::spec_hash(k, seed),
        0 <= d < b.len(),
        ({
            let q = step(home(h, b.len() as int), d, b.len() as int);
            !occ(b, q) || ent(b, q).dis < d
        }),
        probed_other(b, h, k, d),
    ensures
        !holds(b, k),
{
    let cap = b.len() as int;
    if holds(b, k) {
        let j = choose|j: int| 0 <= j < b.len() && occ(b, j) && #[trigger] ent(b, j).key@ == k;
        let dj = ent(b, j).dis as int;
        assert(ent(b, j).hash == h);
        if dj < d {
            assert(occ(b, step(home(h, cap), dj, cap)));
        } else if dj == d {
        } else {
            assert(occ(b, j));
            let q = step(home(ent(b, j).hash, cap), d, cap);
            assert(q == -1 || (occ(b, q) && ent(b, q).dis >= d));
        }
    }
}

proof fn lemma_place<K: HashKey, V>(b: Seq<Bucket<K, V>>, seed: u64, idx: int, e: TableEntry<K, V>)
    requires
        table_inv(b, seed),
        0 <= idx < b.len(),
        !occ(b, idx),
        carried_ok(b, seed, e.hash, e.key@, e.dis as int, idx),
        !holds(b, e.key@),
    ensures
        ({
            let b2 = b.update(idx, Bucket { entry: Some(e) });
            &&& table_inv(b2, seed)
            &&& occupied(b2) == occupied(b).insert(idx)
            &&& table_view(b2) == table_view(b).insert(e.key@, e.value)
        }),
{
    let b2 = b.update(idx, Bucket { entry: Some(e) });
    let cap = b.len() as int;
    assert(entries_ok(b2, seed)) by {
        assert forall|i: int| 0 <= i < b2.len() && #[trigger] occ(b2, i) implies {
            &&& ent(b2, i).hash == K::spec_hash(ent(b2, i).key@, seed)
            &&& ent(b2, i).dis < b2.len()
            &&& step(home(ent(b2, i).hash, b2.len() as int), ent(b2, i).dis as int, b2.len() as int)
                == i
        } by {
            if i != idx {
                assert(occ(b, i));
            }
        }
    }
    assert(robin_hood(b2, -1)) by {
        assert forall|i: int, t: int|
            #![trigger occ(b2, i), step(home(ent(b2, i).hash, b2.len() as int), t, b2.len() as int)]
            0 <= i < b2.len() && occ(b2, i) && 0 <= t < ent(b2, i).dis implies {
            let q = step(home(ent(b2, i).hash, b2.len() as int), t, b2.len() as int);
            q == -1 || (occ(b2, q) && ent(b2, q).dis >= t)
        } by {
            let q = step(home(ent(b2, i).hash, cap), t, cap);
            if i == idx {
                assert(occ(b, step(home(e.hash, cap), t, cap)));
            } else {
                assert(occ(b, i));
                assert(occ(b, q) && ent(b, q).dis >= t);
            }
        }
    }
    assert(distinct_keys(b2)) by {
        assert forall|i: int, j: int|
            0 <= i < b2.len() && 0 <= j < b2.len() && i != j && #[trigger] occ(b2, i)
                && #[trigger] occ(b2, j) implies ent(b2, i).key@ != ent(b2, j).key@ by {
            if i == idx {
                assert(occ(b, j));
            } else if j == idx {
                assert(occ(b, i));
            } else {
                assert(occ(b, i) && occ(b, j));
            }
        }
    }
    assert(occupied(b2) =~= occupied(b).insert(idx));
    assert(table_view(b2) =~= table_view(b).insert(e.key@, e.value)) by {
        assert forall|k: K::V| #[trigger] holds(b2, k) <==> (holds(b, k) || k == e.key@) by {
            if holds(b2, k) {
                let j = choose|j: int| 0 <= j < b2.len() && occ(b2, j) && #[trigger] ent(b2, j).key@ == k;
                if j != idx {
                    assert(occ(b, j) && ent(b, j).key@ == k);
                }
            }
            if holds(b, k) {
                let j = choose|j: int| 0 <= j < b.len() && occ(b, j) && #[trigger] ent(b, j).key@ == k;
                assert(occ(b2, j) && ent(b2, j).key@ == k);
            }
            if k == e.key@ {
                assert(occ(b2, idx) && ent(b2, idx).key@ == k);
            }
        }
        assert forall|k: K::V| #[trigger] table_view(b2).contains_key(k) implies table_view(b2)[k]
            == table_view(b).insert(e.key@, e.value)[k] by {
            let j = choose|j: int| 0 <= j < b2.len() && occ(b2, j) && #[trigger] ent(b2, j).key@ == k;
            lemma_view_at(b2, j);
            if j != idx {
                assert(occ(b, j));
                lemma_view_at(b, j);
            }
        }
    }
}

/// The table with the value in bucket `idx` replaced by `v`.
spec fn with_value<K, V>(b: Seq<Bucket<K, V>>, idx: int, v: V) -> Seq<Bucket<K, V>> {
    let old_e = ent(b, idx);
    b.update(
        idx,
        Bucket { entry: Some(TableEntry { hash: old_e.hash, key: old_e.key, value: v, dis: old_e.dis }) },
    )
}

proof fn lemma_set_value<K: HashKey, V>(b: Seq<Bucket<K, V>>, seed: u64, idx: int, v: V)
    requires
        table_inv(b, seed),
        0 <= idx < b.len(),
        occ(b, idx),
    ensures
        ({
            let old_e = ent(b, idx);
            let b2 = b.update(
                idx,
                Bucket {
                    entry: Some(
                        TableEntry { hash: old_e.hash, key: old_e.key, value: v, dis: old_e.dis },
                    ),
                },
            );
            &&& table_inv(b2, seed)
            &&& occupied(b2) == occupied(b)
            &&& table_view(b2) == table_view(b).insert(old_e.key@, v)
        }),
{
    let old_e = ent(b, idx);
    let e = TableEntry { hash: old_e.hash, key: old_e.key, value: v, dis: old_e.dis };
    let b2 = b.update(idx, Bucket { entry: Some(e) });
    let cap = b.len() as int;
    assert(entries_ok(b2, seed)) by {
        assert forall|i: int| 0 <= i < b2.len() && #[trigger] occ(b2, i) implies {
            &&& ent(b2, i).hash == K::spec_hash(ent(b2, i).key@, seed)
            &&& ent(b2, i).dis < b2.len()
            &&& step(home(ent(b2, i).hash, b2.len() as int), ent(b2, i).dis as int, b2.len() as int)
                == i
        } by {
            assert(occ(b, i));
        }
    }
    assert(robin_hood(b2, -1)) by {
        assert forall|i: int, t: int|
            #![trigger occ(b2, i), step(home(ent(b2, i).hash, b2.len() as int), t, b2.len() as int)]
            0 <= i < b2.len() && occ(b2, i) && 0 <= t < ent(b2, i).dis implies {
            let q = step(home(ent(b2, i).hash, b2.len() as int), t, b2.len() as int);
            q == -1 || (occ(b2, q) && ent(b2, q).dis >= t)
        } by {
            let q = step(home(ent(b2, i).hash, cap), t, cap);
            assert(occ(b, i));
            assert(occ(b, q) && ent(b, q).dis >= t);
        }
    }
    assert(distinct_keys(b2)) by {
        assert forall|i: int, j: int|
            0 <= i < b2.len() && 0 <= j < b2.len() && i != j && #[trigger] occ(b2, i)
                && #[trigger] occ(b2, j) implies ent(b2, i).key@ != ent(b2, j).key@ by {
            assert(occ(b, i) && occ(b, j));
        }
    }
    assert(occupied(b2) =~= occupied(b));
    assert(table_view(b2) =~= table_view(b).insert(e.key@, v)) by {
        assert forall|k: K::V| #[trigger] holds(b2, k) <==> holds(b, k) by {
            if holds(b2, k) {
                let j = choose|j: int| 0 <= j < b2.len() && occ(b2, j) && #[trigger] ent(b2, j).key@ == k;
                assert(occ(b, j) && ent(b, j).key@ == k);
            }
            if holds(b, k) {
                let j = choose|j: int| 0 <= j < b.len() && occ(b, j) && #[trigger] ent(b, j).key@ == k;
                assert(occ(b2, j) && ent(b2, j).key@ == k);
            }
        }
        lemma_view_at(b, idx);
        assert forall|k: K::V| #[trigger] table_view(b2).contains_key(k) implies table_view(b2)[k]
            == table_view(b).insert(e.key@, v)[k] by {
            let j = choose|j: int| 0 <= j < b2.len() && occ(b2, j) && #[trigger] ent(b2, j).key@ == k;
            lemma_view_at(b2, j);
            if j != idx {
                assert(occ(b, j));
                lemma_view_at(b, j);
            }
        }
    }
}

/// Passing an occupied bucket that is at least as far from its home keeps the probe
/// property one bucket further on.
proof fn lemma_extend<K: HashKey, V>(
    b: Seq<Bucket<K, V>>,
    seed: u64,
    h: u64,
    k: K::V,
    d: int,
    idx: int,
    e_pos: int,
)
    requires
        carried_ok(b, seed, h, k, d, idx),
        occ(b, idx),
        ent(b, idx).dis >= d,
        0 <= e_pos < b.len(),
        !occ(b, e_pos),
    ensures
        carried_ok(b, seed, h, k, d + 1, step(idx, 1, b.len() as int)),
{
    let cap = b.len() as int;
    lemma_home_range(h, cap);
    assert forall|t: int| 0 <= t <= d implies #[trigger] occ(b, step(home(h, cap), t, cap)) by {
        if t < d {
            assert(occ(b, step(home(h, cap), t, cap)));
        }
    }
    lemma_probe_bound_at(b, home(h, cap), d, e_pos);
    assert forall|t: int| 0 <= t < d + 1 implies #[trigger] occ(b, step(home(h, cap), t, cap))
        && ent(b, step(home(h, cap), t, cap)).dis >= t by {
        if t < d {
            assert(occ(b, step(home(h, cap), t, cap)));
        }
    }
}

/// Swapping the carried entry into a bucket whose entry is nearer to its home: the
/// displaced entry becomes the carried one.
proof fn lemma_swap<K: HashKey, V>(
    b: Seq<Bucket<K, V>>,
    seed: u64,
    idx: int,
    c: TableEntry<K, V>,
    e_pos: int,
)
    requires
        table_inv(b, seed),
        0 <= idx < b.len(),
        occ(b, idx),
        carried_ok(b, seed, c.hash, c.key@, c.dis as int, idx),
        ent(b, idx).dis < c.dis,
        !holds(b, c.key@),
        0 <= e_pos < b.len(),
        !occ(b, e_pos),
    ensures
        ({
            let ex = ent(b, idx);
            let b2 = b.update(idx, Bucket { entry: Some(c) });
            &&& table_inv(b2, seed)
            &&& occupied(b2) == occupied(b)
            &&& !holds(b2, ex.key@)
            &&& table_view(b2).insert(ex.key@, ex.value) == table_view(b).insert(c.key@, c.value)
            &&& carried_ok(b2, seed, ex.hash, ex.key@, ex.dis + 1, step(idx, 1, b.len() as int))
            &&& !occ(b2, e_pos)
        }),
{
    let ex = ent(b, idx);
    let b2 = b.update(idx, Bucket { entry: Some(c) });
    let cap = b.len() as int;
    lemma_home_range(c.hash, cap);
    lemma_home_range(ex.hash, cap);
    assert(occ(b, idx));
    assert(entries_ok(b2, seed)) by {
        assert forall|i: int| 0 <= i < b2.len() && #[trigger] occ(b2, i) implies {
            &&& ent(b2, i).hash == K::spec_hash(ent(b2, i).key@, seed)
            &&& ent(b2, i).dis < b2.len()
            &&& step(home(ent(b2, i).hash, b2.len() as int), ent(b2, i).dis as int, b2.len() as int)
                == i
        } by {
            if i != idx {
                assert(occ(b, i));
            }
        }
    }
    assert(robin_hood(b2, -1)) by {
        assert forall|i: int, t: int|
            #![trigger occ(b2, i), step(home(ent(b2, i).hash, b2.len() as int), t, b2.len() as int)]
            0 <= i < b2.len() && occ(b2, i) && 0 <= t < ent(b2, i).dis implies {
            let q = step(home(ent(b2, i).hash, b2.len() as int), t, b2.len() as int);
            q == -1 || (occ(b2, q) && ent(b2, q).dis >= t)
        } by {
            let q = step(home(ent(b2, i).hash, cap), t, cap);
            if i == idx {
                assert(occ(b, step(home(c.hash, cap), t, cap)));
                lemma_step_injective(home(c.hash, cap), t, c.dis as int, cap);
            } else {
                assert(occ(b, i));
                assert(occ(b, q) && ent(b, q).dis >= t);
            }
        }
    }
    assert(distinct_keys(b2)) by {
        assert forall|i: int, j: int|
            0 <= i < b2.len() && 0 <= j < b2.len() && i != j && #[trigger] occ(b2, i)
                && #[trigger] occ(b2, j) implies ent(b2, i).key@ != ent(b2, j).key@ by {
            if i == idx {
                assert(occ(b, j));
            } else if j == idx {
                assert(occ(b, i));
            } else {
                assert(occ(b, i) && occ(b, j));
            }
        }
    }
    assert(occupied(b2) =~= occupied(b));
    assert(c.key@ != ex.key@) by {
        assert(occ(b, idx));
    }
    assert(!holds(b2, ex.key@)) by {
        if holds(b2, ex.key@) {
            let j = choose|j: int| 0 <= j < b2.len() && occ(b2, j) && #[trigger] ent(b2, j).key@ == ex.key@;
            if j != idx {
                assert(occ(b, j));
            }
        }
    }
    assert(table_view(b2).insert(ex.key@, ex.value) =~= table_view(b).insert(c.key@, c.value)) by {
        assert forall|k: K::V| #[trigger] holds(b2, k) <==> ((holds(b, k) && k != ex.key@) || k == c.key@) by {
            if holds(b2, k) {
                let j = choose|j: int| 0 <= j < b2.len() && occ(b2, j) && #[trigger] ent(b2, j).key@ == k;
                if j != idx {
                    assert(occ(b, j) && ent(b, j).key@ == k);
                    assert(occ(b, idx));
                }
            }
            if holds(b, k) && k != ex.key@ {
                let j = choose|j: int| 0 <= j < b.len() && occ(b, j) && #[trigger] ent(b, j).key@ == k;
                assert(j != idx);
                assert(occ(b2, j) && ent(b2, j).key@ == k);
            }
            if k == c.key@ {
                assert(occ(b2, idx) && ent(b2, idx).key@ == k);
            }
        }
        lemma_view_at(b, idx);
        assert forall|k: K::V| #[trigger] table_view(b2).insert(ex.key@, ex.value).contains_key(k)
            implies table_view(b2).insert(ex.key@, ex.value)[k] == table_view(b).insert(
            c.key@,
            c.value,
        )[k] by {
            if k != ex.key@ {
                let j = choose|j: int| 0 <= j < b2.len() && occ(b2, j) && #[trigger] ent(b2, j).key@ == k;
                lemma_view_at(b2, j);
                if j != idx {
                    assert(occ(b, j));
                    lemma_view_at(b, j);
                }
            }
        }
    }
    assert(carried_ok(b2, seed, ex.hash, ex.key@, ex.dis + 1, step(idx, 1, cap))) by {
        assert forall|t: int| 0 <= t <= ex.dis implies #[trigger] occ(
            b2,
            step(home(ex.hash, cap), t, cap),
        ) && ent(b2, step(home(ex.hash, cap), t, cap)).dis >= t by {
            if t < ex.dis {
                assert(occ(b, idx));
                assert(occ(b, step(home(ex.hash, cap), t, cap)));
                lemma_step_injective(home(ex.hash, cap), t, ex.dis as int, cap);
            }
        }
        lemma_probe_bound_at(b2, home(ex.hash, cap), ex.dis as int, e_pos);
    }
}

proof fn lemma_prefix_step<K: View, V>(b: Seq<Bucket<K, V>>, i: int)
    requires
        distinct_keys(b),
        0 <= i < b.len(),
    ensures
        distinct_keys(b.take(i)),
        distinct_keys(b.take(i + 1)),
        occ(b, i) ==> !table_view(b.take(i)).contains_key(ent(b, i).key@),
        occ(b, i) ==> table_view(b.take(i + 1)) == table_view(b.take(i)).insert(
            ent(b, i).key@,
            ent(b, i).value,
        ),
        !occ(b, i) ==> table_view(b.take(i + 1)) == table_view(b.take(i)),
{
    let p = b.take(i);
    let q = b.take(i + 1);
    assert(distinct_keys(p)) by {
        assert forall|x: int, y: int|
            0 <= x < p.len() && 0 <= y < p.len() && x != y && #[trigger] occ(p, x) && #[trigger] occ(
                p,
                y,
            ) implies ent(p, x).key@ != ent(p, y).key@ by {
            assert(occ(b, x) && occ(b, y));
        }
    }
    assert(distinct_keys(q)) by {
        assert forall|x: int, y: int|
            0 <= x < q.len() && 0 <= y < q.len() && x != y && #[trigger] occ(q, x) && #[trigger] occ(
                q,
                y,
            ) implies ent(q, x).key@ != ent(q, y).key@ by {
            assert(occ(b, x) && occ(b, y));
        }
    }
    if occ(b, i) {
        if holds(p, ent(b, i).key@) {
            let j = choose|j: int| 0 <= j < p.len() && occ(p, j) && #[trigger] ent(p, j).key@ == ent(
                b,
                i,
            ).key@;
            assert(occ(b, j));
        }
    }
    assert forall|k: K::V| #[trigger] holds(q, k) <==> (holds(p, k) || (occ(b, i) && k == ent(
        b,
        i,
    ).key@)) by {
        if holds(q, k) {
            let j = choose|j: int| 0 <= j < q.len() && occ(q, j) && #[trigger] ent(q, j).key@ == k;
            if j < i {
                assert(occ(p, j) && ent(p, j).key@ == k);
            }
        }
        if holds(p, k) {
            let j = choose|j: int| 0 <= j < p.len() && occ(p, j) && #[trigger] ent(p, j).key@ == k;
            assert(occ(q, j) && ent(q, j).key@ == k);
        }
        if occ(b, i) && k == ent(b, i).key@ {
            assert(occ(q, i) && ent(q, i).key@ == k);
        }
    }
    if occ(b, i) {
        assert(table_view(q) =~= table_view(p).insert(ent(b, i).key@, ent(b, i).value)) by {
            assert forall|k: K::V| #[trigger] table_view(q).contains_key(k) implies table_view(q)[k]
                == table_view(p).insert(ent(b, i).key@, ent(b, i).value)[k] by {
                let j = choose|j: int| 0 <= j < q.len() && occ(q, j) && #[trigger] ent(q, j).key@ == k;
                lemma_view_at(q, j);
                if j < i {
                    assert(occ(p, j));
                    lemma_view_at(p, j);
                }
            }
        }
    } else {
        assert(table_view(q) =~= table_view(p)) by {
            assert forall|k: K::V| #[trigger] table_view(q).contains_key(k) implies table_view(q)[k]
                == table_view(p)[k] by {
                let j = choose|j: int| 0 <= j < q.len() && occ(q, j) && #[trigger] ent(q, j).key@ == k;
                lemma_view_at(q, j);
                assert(j < i);
                assert(occ(p, j));
                lemma_view_at(p, j);
            }
        }
    }
}

/// The bucket count after inserting into a table of `cap` buckets holding `len` entries:
/// an unallocated table gets 8 buckets, and a table at least three quarters full doubles.
pub open spec fn capacity_after_insert(cap: nat, len: nat) -> nat {
    if cap == 0 {
        8
    } else if len * 4 >= cap * 3 {
        cap * 2
    } else {
        cap
    }
}

/// The shape every table reached through the public operations keeps: an unallocated
/// table is empty, an allocated one has a power-of-two bucket count of at least 8, and at
/// most three quarters of the buckets are in use.
pub open spec fn table_shape(cap: nat, len: nat) -> bool {
    &&& cap == 0 ==> len == 0
    &&& cap == 0 || (cap >= 8 && is_power_of_two(cap))
    &&& len * 4 <= cap * 3
}

/// A power of two of at least 8 is a multiple of 4, and its double is a power of two.
proof fn lemma_power_of_two_facts(cap: nat)
    requires
        cap >= 8,
        is_power_of_two(cap),
    ensures
        cap % 4 == 0,
        is_power_of_two(cap * 2),
{
    assert(is_power_of_two(cap / 2));
    assert((cap * 2) / 2 == cap);
    assert(cap / 2 >= 4);
    assert((cap / 2) % 2 == 0);
}

/// Eight is a power of two.
proof fn lemma_eight_is_power_of_two()
    ensures
        is_power_of_two(8),
{
    reveal_with_fuel(is_power_of_two, 4);
}

/// The bucket count of a new table is a power of two of at least 8.
proof fn lemma_bucket_count_shape(n: nat)
    ensures
        table_shape(bucket_count(n), 0),
{
    lemma_next_power_of_two_is_power_of_two(n);
    lemma_eight_is_power_of_two();
}

/// `next_power_of_two` gives a power of two.
proof fn lemma_next_power_of_two_is_power_of_two(n: nat)
    ensures
        is_power_of_two(next_power_of_two(n)),
    decreases n,
{
    if n > 1 {
        let p = next_power_of_two(((n + 1) / 2) as nat);
        lemma_next_power_of_two_is_power_of_two(((n + 1) / 2) as nat);
        lemma_next_power_of_two_bounds(((n + 1) / 2) as nat);
        assert((2 * p) / 2 == p);
        assert((2 * p) % 2 == 0);
    }
}

/// How inserting or removing one key changes the number of keys of a finite map.
proof fn lemma_map_len_changes<A, B>(m: Map<A, B>)
    requires
        m.dom().finite(),
    ensures
        forall|k: A, v: B|
            #[trigger] m.insert(k, v).len() == (if m.contains_key(k) {
                m.len()
            } else {
                m.len() + 1
            }),
        forall|k: A| #[trigger] m.remove(k).len() <= m.len(),
{
    assert forall|k: A, v: B|
        #[trigger] m.insert(k, v).len() == (if m.contains_key(k) {
            m.len()
        } else {
            m.len() + 1
        }) by {
        assert(m.insert(k, v).dom() =~= m.dom().insert(k));
        vstd::set::axiom_set_insert_len(m.dom(), k);
    }
    assert forall|k: A| #[trigger] m.remove(k).len() <= m.len() by {
        assert(m.remove(k).dom() =~= m.dom().remove(k));
        vstd::set::axiom_set_remove_len(m.dom(), k);
    }
}

/// Inserting one key (new or present) keeps the shape, with the bucket count that
/// `insert` reaches.
#[verifier::spinoff_prover]
pub proof fn lemma_shape_after_insert(cap: nat, len: nat, new_len: nat)
    requires
        table_shape(cap, len),
        len <= new_len <= len + 1,
    ensures
        table_shape(capacity_after_insert(cap, len), new_len),
{
    let cap2 = capacity_after_insert(cap, len);
    if cap == 0 {
        lemma_eight_is_power_of_two();
        assert(cap2 == 8);
        assert(new_len <= 1);
    } else {
        lemma_power_of_two_facts(cap);
        let q = cap / 4;
        assert(cap == 4 * q);
        if len * 4 >= cap * 3 {
            assert(cap2 == cap * 2);
            assert(len * 4 <= 12 * q);
            assert(new_len * 4 <= 12 * q + 4);
            assert(new_len * 4 <= cap2 * 3);
        } else {
            assert(cap2 == cap);
            assert(len < 3 * q);
            assert(new_len * 4 <= cap2 * 3);
        }
    }
}

/// Removing keys, or allocating the first 8 buckets of an empty table, keeps the shape.
pub proof fn lemma_shape_after_shrink(cap: nat, len: nat, new_cap: nat, new_len: nat)
    requires
        table_shape(cap, len),
        new_len <= len,
        new_cap == cap || (cap == 0 && new_cap == 8),
    ensures
        table_shape(new_cap, new_len),
{
    lemma_eight_is_power_of_two();
}

/// Emptying the bucket of key `ent(b, idx).key` leaves a table whose only defect is the
/// hole at `idx`.
proof fn lemma_take_out<K: HashKey, V>(b: Seq<Bucket<K, V>>, seed: u64, idx: int)
    requires
        table_inv(b, seed),
        0 <= idx < b.len(),
        occ(b, idx),
    ensures
        ({
            let b2 = b.update(idx, Bucket { entry: None });
            &&& entries_ok(b2, seed)
            &&& robin_hood(b2, idx)
            &&& distinct_keys(b2)
            &&& occupied(b2) == occupied(b).remove(idx)
            &&& table_view(b2) == table_view(b).remove(ent(b, idx).key@)
        }),
{
    let b2 = b.update(idx, Bucket { entry: None });
    let cap = b.len() as int;
    let k = ent(b, idx).key@;
    assert(entries_ok(b2, seed)) by {
        assert forall|i: int| 0 <= i < b2.len() && #[trigger] occ(b2, i) implies {
            &&& ent(b2, i).hash == K::spec_hash(ent(b2, i).key@, seed)
            &&& ent(b2, i).dis < b2.len()
            &&& step(home(ent(b2, i).hash, b2.len() as int), ent(b2, i).dis as int, b2.len() as int)
                == i
        } by {
            assert(occ(b, i));
        }
    }
    assert(robin_hood(b2, idx)) by {
        assert forall|i: int, t: int|
            #![trigger occ(b2, i), step(home(ent(b2, i).hash, b2.len() as int), t, b2.len() as int)]
            0 <= i < b2.len() && occ(b2, i) && 0 <= t < ent(b2, i).dis implies {
            let q = step(home(ent(b2, i).hash, b2.len() as int), t, b2.len() as int);
            q == idx || (occ(b2, q) && ent(b2, q).dis >= t)
        } by {
            let q = step(home(ent(b2, i).hash, cap), t, cap);
            assert(occ(b, i));
            assert(occ(b, q) && ent(b, q).dis >= t);
        }
    }
    assert(distinct_keys(b2)) by {
        assert forall|i: int, j: int|
            0 <= i < b2.len() && 0 <= j < b2.len() && i != j && #[trigger] occ(b2, i)
                && #[trigger] occ(b2, j) implies ent(b2, i).key@ != ent(b2, j).key@ by {
            assert(occ(b, i) && occ(b, j));
        }
    }
    assert(occupied(b2) =~= occupied(b).remove(idx));
    lemma_view_at(b, idx);
    assert(table_view(b2) =~= table_view(b).remove(k)) by {
        assert forall|kk: K::V| #[trigger] holds(b2, kk) <==> (holds(b, kk) && kk != k) by {
            if holds(b2, kk) {
                let j = choose|j: int| 0 <= j < b2.len() && occ(b2, j) && #[trigger] ent(b2, j).key@ == kk;
                assert(occ(b, j) && ent(b, j).key@ == kk);
                assert(j != idx);
                assert(occ(b, idx));
            }
            if holds(b, kk) && kk != k {
                let j = choose|j: int| 0 <= j < b.len() && occ(b, j) && #[trigger] ent(b, j).key@ == kk;
                assert(j != idx);
                assert(occ(b2, j) && ent(b2, j).key@ == kk);
            }
        }
        assert forall|kk: K::V| #[trigger] table_view(b2).contains_key(kk) implies table_view(b2)[kk]
            == table_view(b).remove(k)[kk] by {
            let j = choose|j: int| 0 <= j < b2.len() && occ(b2, j) && #[trigger] ent(b2, j).key@ == kk;
            lemma_view_at(b2, j);
            assert(occ(b, j));
            lemma_view_at(b, j);
        }
    }
}

/// Moving the entry after the hole back into the hole (one bucket nearer its home)
/// moves the hole one bucket on.
proof fn lemma_shift<K: HashKey, V>(b: Seq<Bucket<K, V>>, seed: u64, curr: int)
    requires
        entries_ok(b, seed),
        robin_hood(b, curr),
        distinct_keys(b),
        b.len() >= 2,
        0 <= curr < b.len(),
        !occ(b, curr),
        occ(b, step(curr, 1, b.len() as int)),
        ent(b, step(curr, 1, b.len() as int)).dis > 0,
    ensures
        ({
            let next = step(curr, 1, b.len() as int);
            let e = ent(b, next);
            let b2 = b.update(
                curr,
                Bucket {
                    entry: Some(
                        TableEntry { hash: e.hash, key: e.key, value: e.value, dis: (e.dis - 1) as usize },
                    ),
                },
            ).update(next, Bucket { entry: None });
            &&& entries_ok(b2, seed)
            &&& robin_hood(b2, next)
            &&& distinct_keys(b2)
            &&& !occ(b2, next)
            &&& occupied(b2) == occupied(b).insert(curr).remove(next)
            &&& table_view(b2) == table_view(b)
        }),
{
    let cap = b.len() as int;
    let next = step(curr, 1, cap);
    let e = ent(b, next);
    let moved = TableEntry { hash: e.hash, key: e.key, value: e.value, dis: (e.dis - 1) as usize };
    let b2 = b.update(curr, Bucket { entry: Some(moved) }).update(next, Bucket { entry: None });
    assert(occ(b, next));
    lemma_home_range(e.hash, cap);
    assert(entries_ok(b2, seed)) by {
        assert forall|i: int| 0 <= i < b2.len() && #[trigger] occ(b2, i) implies {
            &&& ent(b2, i).hash == K::spec_hash(ent(b2, i).key@, seed)
            &&& ent(b2, i).dis < b2.len()
            &&& step(home(ent(b2, i).hash, b2.len() as int), ent(b2, i).dis as int, b2.len() as int)
                == i
        } by {
            if i != curr {
                assert(occ(b, i));
            }
        }
    }
    assert(robin_hood(b2, next)) by {
        assert forall|i: int, t: int|
            #![trigger occ(b2, i), step(home(ent(b2, i).hash, b2.len() as int), t, b2.len() as int)]
            0 <= i < b2.len() && occ(b2, i) && 0 <= t < ent(b2, i).dis implies {
            let q = step(home(ent(b2, i).hash, b2.len() as int), t, b2.len() as int);
            q == next || (occ(b2, q) && ent(b2, q).dis >= t)
        } by {
            let q = step(home(ent(b2, i).hash, cap), t, cap);
            if i == curr {
                assert(occ(b, step(home(e.hash, cap), t, cap)) || step(home(e.hash, cap), t, cap) == curr);
                lemma_step_injective(home(e.hash, cap), t, e.dis - 1, cap);
                lemma_step_injective(home(e.hash, cap), t, e.dis as int, cap);
            } else {
                assert(occ(b, i));
                lemma_home_range(ent(b, i).hash, cap);
                if q == curr {
                    let hi = home(ent(b, i).hash, cap);
                    if t + 1 < ent(b, i).dis {
                        assert(step(hi, t + 1, cap) == next);
                        assert(occ(b, step(hi, t + 1, cap)));
                    } else {
                        assert(step(hi, t + 1, cap) == next);
                        assert(i == next);
                    }
                } else if q != next {
                    assert(occ(b, q) && ent(b, q).dis >= t);
                }
            }
        }
    }
    assert(distinct_keys(b2)) by {
        assert forall|i: int, j: int|
            0 <= i < b2.len() && 0 <= j < b2.len() && i != j && #[trigger] occ(b2, i)
                && #[trigger] occ(b2, j) implies ent(b2, i).key@ != ent(b2, j).key@ by {
            let ii = if i == curr {
                next
            } else {
                i
            };
            let jj = if j == curr {
                next
            } else {
                j
            };
            assert(occ(b, ii) && occ(b, jj));
        }
    }
    assert(occupied(b2) =~= occupied(b).insert(curr).remove(next));
    assert(table_view(b2) =~= table_view(b)) by {
        assert forall|kk: K::V| #[trigger] holds(b2, kk) <==> holds(b, kk) by {
            if holds(b2, kk) {
                let j = choose|j: int| 0 <= j < b2.len() && occ(b2, j) && #[trigger] ent(b2, j).key@ == kk;
                if j == curr {
                    assert(occ(b, next) && ent(b, next).key@ == kk);
                } else {
                    assert(occ(b, j) && ent(b, j).key@ == kk);
                }
            }
            if holds(b, kk) {
                let j = choose|j: int| 0 <= j < b.len() && occ(b, j) && #[trigger] ent(b, j).key@ == kk;
                if j == next {
                    assert(occ(b2, curr) && ent(b2, curr).key@ == kk);
                } else {
                    assert(occ(b2, j) && ent(b2, j).key@ == kk);
                }
            }
        }
        assert forall|kk: K::V| #[trigger] table_view(b2).contains_key(kk) implies table_view(b2)[kk]
            == table_view(b)[kk] by {
            let j = choose|j: int| 0 <= j < b2.len() && occ(b2, j) && #[trigger] ent(b2, j).key@ == kk;
            lemma_view_at(b2, j);
            if j == curr {
                lemma_view_at(b, next);
            } else {
                assert(occ(b, j));
                lemma_view_at(b, j);
            }
        }
    }
}

/// The hole can stay where it is once the bucket after it is empty or holds an entry in
/// its home bucket.
proof fn lemma_shift_end<K, V>(b: Seq<Bucket<K, V>>, curr: int)
    requires
        robin_hood(b, curr),
        b.len() >= 2,
        0 <= curr < b.len(),
        !occ(b, curr),
        forall|i: int| 0 <= i < b.len() && #[trigger] occ(b, i) ==> ent(b, i).dis < b.len(),
        forall|i: int|
            0 <= i < b.len() && #[trigger] occ(b, i) ==> step(
                home(ent(b, i).hash, b.len() as int),
                ent(b, i).dis as int,
                b.len() as int,
            ) == i,
        !occ(b, step(curr, 1, b.len() as int)) || ent(b, step(curr, 1, b.len() as int)).dis == 0,
    ensures
        robin_hood(b, -1),
{
    let cap = b.len() as int;
    let next = step(curr, 1, cap);
    assert forall|i: int, t: int|
        #![trigger occ(b, i), step(home(ent(b, i).hash, b.len() as int), t, b.len() as int)]
        0 <= i < b.len() && occ(b, i) && 0 <= t < ent(b, i).dis implies {
        let q = step(home(ent(b, i).hash, b.len() as int), t, b.len() as int);
        q == -1 || (occ(b, q) && ent(b, q).dis >= t)
    } by {
        let hi = home(ent(b, i).hash, cap);
        lemma_home_range(ent(b, i).hash, cap);
        let q = step(hi, t, cap);
        if q == curr {
            if t + 1 < ent(b, i).dis {
                assert(step(hi, t + 1, cap) == next);
                assert(occ(b, step(hi, t + 1, cap)) || step(hi, t + 1, cap) == curr);
            } else {
                assert(step(hi, t + 1, cap) == next);
                assert(i == next);
            }
        }
    }
}

impl<K: HashKey, V, S: BuildHasher> HashMap<K, V, S> {
    /// The key-value pairs of the map.
    pub closed spec fn view(&self) -> Map<K::V, V> {
        table_view(self.buckets@)
    }

    /// The state from which keys are hashed.
    pub closed spec fn seed(&self) -> u64 {
        self.build_hasher.spec_initial()
    }

    /// The hash builder.
    pub closed spec fn hasher(&self) -> S {
        self.build_hasher
    }

    /// The number of buckets.
    pub closed spec fn spec_capacity(&self) -> nat {
        self.capacity as nat
    }

    /// The table has the shape of [`table_shape`].
    pub open spec fn shaped(&self) -> bool {
        table_shape(self.spec_capacity(), self@.len())
    }

    /// The internal consistency of the table.
    pub closed spec fn wf(&self) -> bool {
        let b = self.buckets@;
        &&& b.len() == self.capacity
        &&& self.capacity <= MAX_CAPACITY
        &&& self.capacity == 0 || self.capacity >= 8
        &&& occupied(b).len() == self.len
        &&& (self.capacity > 0 ==> self.len < self.capacity)
        &&& entries_ok(b, self.seed())
        &&& robin_hood(b, -1)
        &&& distinct_keys(b)
    }

    proof fn lemma_len(&self)
        requires
            self.wf(),
        ensures
            self@.dom().finite(),
            self@.len() == self.len,
    {
        lemma_view_len(self.buckets@);
    }

    /// A well-formed map holds finitely many keys, fewer than its buckets; a map with no
    /// buckets holds none.
    pub proof fn lemma_finite(&self)
        requires
            self.wf(),
        ensures
            self@.dom().finite(),
            self.spec_capacity() == 0 ==> self@.len() == 0,
            self.spec_capacity() > 0 ==> self@.len() < self.spec_capacity(),
    {
        self.lemma_len();
        if self.capacity == 0 {
            assert(occupied(self.buckets@) =~= Set::<int>::empty());
        }
    }

    /// A table that is not full has an empty bucket.
    proof fn lemma_has_empty(&self) -> (e: int)
        requires
            self.wf(),
            self.capacity > 0,
        ensures
            0 <= e < self.capacity,
            !occ(self.buckets@, e),
    {
        let b = self.buckets@;
        lemma_view_len(b);
        let full = vstd::set_lib::set_int_range(0, b.len() as int);
        vstd::set_lib::lemma_int_range(0, b.len() as int);
        if forall|e: int| 0 <= e < b.len() ==> occ(b, e) {
            assert(occupied(b) =~= full);
            assert(false);
        }
        choose|e: int| 0 <= e < b.len() && !occ(b, e)
    }
}

impl<K: HashKey, V> HashMap<K, V, BuildFxHasher> {
    /// Creates an empty map with the default hasher; allocates nothing.
    pub fn new() -> (m: Self)
        ensures
            m.wf(),
            m@ == Map::<K::V, V>::empty(),
            m.spec_capacity() == 0,
            m.shaped(),
    {
        Self::with_hasher(BuildFxHasher)
    }

    /// Creates an empty map with room for at least `capacity` entries (a power of two,
    /// at least 8, see [`bucket_count`]).
    pub fn with_capacity(capacity: usize) -> (m: Self)
        requires
            capacity <= MAX_CAPACITY / 2 || capacity > usize::MAX / 2 + 1,
        ensures
            m.wf(),
            m@ == Map::<K::V, V>::empty(),
            m.spec_capacity() == bucket_count(capacity as nat),
            m.shaped(),
    {
        Self::with_capacity_and_hasher(capacity, BuildFxHasher)
    }
}

/// The bucket count of a table asked to hold `n` entries: the next power of two, at
/// least 8; 8 where that power of two does not fit in a `usize`.
pub open spec fn bucket_count(n: nat) -> nat {
    let p = next_power_of_two(n);
    if p < 8 || p > usize::MAX {
        8
    } else {
        p
    }
}

/// The smallest power of two that is at least `n`.
pub open spec fn next_power_of_two(n: nat) -> nat
    decreases n,
{
    if n <= 1 {
        1
    } else {
        2 * next_power_of_two(((n + 1) / 2) as nat)
    }
}

/// The smallest power of two at least `n`, if it fits in a `usize`.
pub fn checked_next_power_of_two(n: usize) -> (r: Option<usize>)
    ensures
        r matches Some(p) ==> p == next_power_of_two(n as nat),
        r is None ==> next_power_of_two(n as nat) > usize::MAX,
    decreases n,
{
    if n <= 1 {
        return Some(1);
    }
    let half = ((n - 1) / 2) + 1;
    assert(half == (n + 1) / 2);
    match checked_next_power_of_two(half) {
        Some(p) => {
            if p > usize::MAX / 2 {
                None
            } else {
                Some(p * 2)
            }
        },
        None => None,
    }
}

/// A number above `2^k` has no power of two below `2^(k+1)` at or above it.
proof fn lemma_next_power_of_two_above(n: nat, k: nat)
    requires
        n > vstd::arithmetic::power2::pow2(k),
    ensures
        next_power_of_two(n) >= vstd::arithmetic::power2::pow2(k + 1),
    decreases k,
{
    vstd::arithmetic::power2::lemma_pow2_unfold(k + 1);
    vstd::arithmetic::power2::lemma_pow2_pos(k);
    if k > 0 {
        vstd::arithmetic::power2::lemma_pow2_unfold(k);
        lemma_next_power_of_two_above(((n + 1) / 2) as nat, (k - 1) as nat);
    } else {
        vstd::arithmetic::power2::lemma2_to64();
        lemma_next_power_of_two_bounds(((n + 1) / 2) as nat);
    }
}

/// No power of two above `usize::MAX / 2 + 1` fits in a `usize`.
proof fn lemma_next_power_of_two_overflows(n: nat)
    requires
        n > usize::MAX / 2 + 1,
    ensures
        next_power_of_two(n) > usize::MAX,
{
    vstd::arithmetic::power2::lemma2_to64();
    vstd::arithmetic::power2::lemma2_to64_rest();
    if usize::BITS == 32 {
        assert(usize::MAX == 0xffff_ffff);
        lemma_next_power_of_two_above(n, 31);
    } else {
        assert(usize::MAX == 0xffff_ffff_ffff_ffff);
        lemma_next_power_of_two_above(n, 63);
    }
}

proof fn lemma_next_power_of_two_bounds(n: nat)
    ensures
        n <= next_power_of_two(n),
        n >= 1 ==> next_power_of_two(n) < 2 * n,
        n > 1 ==> next_power_of_two(n) == 2 * next_power_of_two(((n + 1) / 2) as nat),
    decreases n,
{
    if n > 1 {
        lemma_next_power_of_two_bounds(((n + 1) / 2) as nat);
    }
}

impl<K: HashKey, V, S: BuildHasher> HashMap<K, V, S> {
    /// Creates an empty map with the given hash builder; allocates nothing.
    pub fn with_hasher(hash_builder: S) -> (m: Self)
        ensures
            m.wf(),
            m@ == Map::<K::V, V>::empty(),
            m.spec_capacity() == 0,
            m.hasher() == hash_builder,
            m.shaped(),
    {
        let m = HashMap { buckets: Vec::new(), len: 0, capacity: 0, build_hasher: hash_builder };
        proof {
            assert(occupied(m.buckets@) =~= Set::<int>::empty());
            assert(m@ =~= Map::<K::V, V>::empty());
        }
        m
    }

    /// Creates an empty map with the given hash builder and room for at least
    /// `capacity` entries (see [`bucket_count`]).
    pub fn with_capacity_and_hasher(capacity: usize, hash_builder: S) -> (m: Self)
        requires
            capacity <= MAX_CAPACITY / 2 || capacity > usize::MAX / 2 + 1,
        ensures
            m.wf(),
            m@ == Map::<K::V, V>::empty(),
            m.spec_capacity() == bucket_count(capacity as nat),
            m.hasher() == hash_builder,
            m.shaped(),
    {
        proof {
            lemma_bucket_count_shape(capacity as nat);
            lemma_next_power_of_two_bounds(capacity as nat);
            if capacity > usize::MAX / 2 + 1 {
                lemma_next_power_of_two_overflows(capacity as nat);
            }
        }
        let capacity = match checked_next_power_of_two(capacity) {
            Some(p) => p,
            None => 8,
        };
        let capacity = if capacity < 8 {
            8
        } else {
            capacity
        };
        Self::empty_table(capacity, hash_builder)
    }

    /// A table of `capacity` empty buckets.
    fn empty_table(capacity: usize, hash_builder: S) -> (m: Self)
        requires
            8 <= capacity <= MAX_CAPACITY,
        ensures
            m.wf(),
            m@ == Map::<K::V, V>::empty(),
            m.spec_capacity() == capacity,
            m.hasher() == hash_builder,
    {
        let mut buckets: Vec<Bucket<K, V>> = Vec::with_capacity(capacity);
        let mut i: usize = 0;
        while i < capacity
            invariant
                i <= capacity,
                buckets@.len() == i,
                forall|j: int| 0 <= j < i ==> !occ(buckets@, j),
            decreases capacity - i,
        {
            let ghost old_b = buckets@;
            buckets.push(Bucket { entry: None });
            proof {
                assert forall|j: int| 0 <= j < i + 1 implies !occ(buckets@, j) by {
                    if j == i {
                        assert(buckets@[j].entry is None);
                        assert(!occ(buckets@, j));
                    } else {
                        assert(buckets@[j] == old_b[j]);
                        assert(!occ(old_b, j));
                        assert(!occ(buckets@, j));
                    }
                }
            }
            i = i + 1;
        }
        let m = HashMap { buckets, len: 0, capacity, build_hasher: hash_builder };
        proof {
            assert(occupied(m.buckets@) =~= Set::<int>::empty());
            assert(m@ =~= Map::<K::V, V>::empty());
        }
        m
    }

    /// Returns the number of entries.
    pub fn len(&self) -> (r: usize)
        requires
            self.wf(),
        ensures
            r == self@.len(),
    {
        proof {
            self.lemma_len();
        }
        self.len
    }

    /// Returns `true` if the map holds no entry.
    pub fn is_empty(&self) -> (r: bool)
        requires
            self.wf(),
        ensures
            r == (self@.len() == 0),
    {
        proof {
            self.lemma_len();
        }
        self.len == 0
    }

    /// Returns the number of buckets.
    pub fn capacity(&self) -> (r: usize)
        ensures
            r == self.spec_capacity(),
    {
        self.capacity
    }

    /// Removes every entry, keeping the bucket count.
    pub fn clear(&mut self)
        requires
            old(self).wf(),
        ensures
            final(self).wf(),
            final(self)@ == Map::<K::V, V>::empty(),
            final(self).spec_capacity() == old(self).spec_capacity(),
            final(self).hasher() == old(self).hasher(),
            old(self).shaped() ==> final(self).shaped(),
    {
        proof {
            if self.shaped() {
                lemma_shape_after_shrink(self.spec_capacity(), self@.len(), self.spec_capacity(), 0);
            }
        }
        self.buckets.clear();
        let mut i: usize = 0;
        while i < self.capacity
            invariant
                i <= self.capacity,
                self.capacity <= MAX_CAPACITY,
                self.capacity == 0 || self.capacity >= 8,
                self.buckets@.len() == i,
                self.capacity == old(self).capacity,
                self.build_hasher == old(self).build_hasher,
                forall|j: int| 0 <= j < i ==> !occ(self.buckets@, j),
            decreases self.capacity - i,
        {
            let ghost old_b = self.buckets@;
            self.buckets.push(Bucket { entry: None });
            proof {
                assert forall|j: int| 0 <= j < i + 1 implies !occ(self.buckets@, j) by {
                    if j == i {
                        assert(self.buckets@[j].entry is None);
                        assert(!occ(self.buckets@, j));
                    } else {
                        assert(self.buckets@[j] == old_b[j]);
                        assert(!occ(old_b, j));
                        assert(!occ(self.buckets@, j));
                    }
                }
            }
            i = i + 1;
        }
        self.len = 0;
        proof {
            assert(occupied(self.buckets@) =~= Set::<int>::empty());
            assert(self@ =~= Map::<K::V, V>::empty());
        }
    }

    /// The hash of a key under this map's hash builder.
    fn hash_key(&self, key: &K) -> (r: u64)
        ensures
            r == K::spec_hash(key@, self.seed()),
    {
        let mut hasher = self.build_hasher.build_hasher();
        key.hash(&mut hasher);
        hasher.finish()
    }

    /// Finds the bucket holding `key`, if any.
    fn find(&self, key: &K) -> (r: Option<usize>)
        requires
            self.wf(),
        ensures
            r is Some <==> self@.contains_key(key@),
            r matches Some(i) ==> i < self.capacity && occ(self.buckets@, i as int) && ent(
                self.buckets@,
                i as int,
            ).key@ == key@,
    {
        if self.capacity == 0 {
            proof {
                assert(!self@.contains_key(key@));
            }
            return None;
        }
        let hash = self.hash_key(key);
        let (found, idx, _) = self.locate(key, hash);
        if found {
            Some(idx)
        } else {
            None
        }
    }

    /// Probes for `key` from its home bucket. Returns whether it was found, the bucket
    /// where the probe stopped and how far that bucket is from home: the key's bucket, or
    /// the first bucket that is empty or holds an entry nearer to its own home.
    #[verifier::spinoff_prover]
    fn locate(&self, key: &K, hash: u64) -> (r: (bool, usize, usize))
        requires
            self.wf(),
            self.capacity > 0,
            hash == K::spec_hash(key@, self.seed()),
        ensures
            r.0 <==> self@.contains_key(key@),
            r.1 < self.capacity,
            r.0 ==> occ(self.buckets@, r.1 as int) && ent(self.buckets@, r.1 as int).key@ == key@,
            !r.0 ==> carried_ok(self.buckets@, self.seed(), hash, key@, r.2 as int, r.1 as int),
            !r.0 ==> probed_other(self.buckets@, hash, key@, r.2 as int),
    {
        let ghost b = self.buckets@;
        let ghost cap = self.capacity as int;
        proof {
            lemma_home_range(hash, cap);
        }
        let mut idx = (#[verifier::truncate] (hash as usize)) % self.capacity;
        let mut dis: usize = 0;
        loop
            invariant
                self.wf(),
                b == self.buckets@,
                cap == self.capacity,
                cap > 0,
                hash == K::spec_hash(key@, self.seed()),
                dis < cap,
                idx == step(home(hash, cap), dis as int, cap),
                forall|t: int|
                    0 <= t < dis ==> #[trigger] occ(b, step(home(hash, cap), t, cap)) && ent(
                        b,
                        step(home(hash, cap), t, cap),
                    ).key@ != key@ && ent(b, step(home(hash, cap), t, cap)).dis >= t,
            decreases cap - dis,
        {
            match &self.buckets[idx].entry {
                None => {
                    proof {
                        self.lemma_absent(b, cap, key@, hash, dis as int);
                    }
                    return (false, idx, dis);
                },
                Some(entry) => {
                    assert(occ(b, idx as int));
                    if dis > entry.dis {
                        proof {
                            self.lemma_absent(b, cap, key@, hash, dis as int);
                        }
                        return (false, idx, dis);
                    }
                    if entry.hash == hash && entry.key.key_eq(key) {
                        proof {
                            lemma_view_at(b, idx as int);
                        }
                        return (true, idx, dis);
                    }
                    proof {
                        if entry.hash != hash {
                            assert(entry.key@ != key@);
                        }
                        assert(ent(b, idx as int).key@ != key@);
                        assert(ent(b, idx as int).dis >= dis);
                        self.lemma_probe_bound(hash, dis as int);
                    }
                    proof {
                        lemma_passed_extend(b, cap, hash, key@, dis as int);
                    }
                    dis = dis + 1;
                    idx = if idx + 1 == self.capacity {
                        0
                    } else {
                        idx + 1
                    };
                },
            }
        }
    }

    /// A probe from a home bucket cannot pass every bucket: some bucket is empty.
    proof fn lemma_probe_bound(&self, hash: u64, d: int)
        requires
            self.wf(),
            self.capacity > 0,
            0 <= d < self.capacity,
            forall|t: int|
                0 <= t <= d ==> #[trigger] occ(
                    self.buckets@,
                    step(home(hash, self.capacity as int), t, self.capacity as int),
                ),
        ensures
            d + 1 < self.capacity,
    {
        let cap = self.capacity as int;
        let e = self.lemma_has_empty();
        let h = home(hash, cap);
        lemma_step_covers(h, e, cap);
        let te = if e >= h {
            e - h
        } else {
            e - h + cap
        };
        if te <= d {
            assert(occ(self.buckets@, step(h, te, cap)));
        }
    }

    /// A key is absent when a probe from its home reaches, after `dis` steps, an empty
    /// bucket or an entry nearer to its home, having passed only other keys.
    proof fn lemma_absent(&self, b: Seq<Bucket<K, V>>, cap: int, k: K::V, hash: u64, dis: int)
        requires
            self.wf(),
            b == self.buckets@,
            cap == self.capacity,
            cap > 0,
            hash == K::spec_hash(k, self.seed()),
            0 <= dis < cap,
            ({
                let q = step(home(hash, cap), dis, cap);
                !occ(b, q) || ent(b, q).dis < dis
            }),
            forall|t: int|
                0 <= t < dis ==> #[trigger] occ(b, step(home(hash, cap), t, cap)) && ent(
                    b,
                    step(home(hash, cap), t, cap),
                ).key@ != k,
        ensures
            !self@.contains_key(k),
    {
        if holds(b, k) {
            let j = choose|j: int| 0 <= j < b.len() && occ(b, j) && #[trigger] ent(b, j).key@ == k;
            let dj = ent(b, j).dis as int;
            assert(ent(b, j).hash == hash);
            if dj < dis {
                assert(occ(b, step(home(hash, cap), dj, cap)));
            } else if dj == dis {
            } else {
                assert(occ(b, j));
                let q = step(home(ent(b, j).hash, cap), dis, cap);
                assert(q == -1 || (occ(b, q) && ent(b, q).dis >= dis));
            }
        }
    }

    /// Robin Hood insertion into a table with room for one more entry: probe from the
    /// home bucket; replace the value of an equal key; otherwise displace the first entry
    /// nearer to its home than the carried one, and carry the displaced entry on.
    fn insert_entry(&mut self, hash: u64, key: K, value: V) -> (r: Option<V>)
        requires
            old(self).wf(),
            old(self).capacity > 0,
            old(self).len + 1 < old(self).capacity,
            hash == K::spec_hash(key@, old(self).seed()),
        ensures
            final(self).wf(),
            final(self).spec_capacity() == old(self).spec_capacity(),
            final(self).hasher() == old(self).hasher(),
            r == (if old(self)@.contains_key(key@) {
                Some(old(self)@[key@])
            } else {
                None
            }),
            final(self)@ == old(self)@.insert(key@, value),
    {
        proof {
            lemma_home_range(hash, self.capacity as int);
        }
        let start = (hash as usize) % self.capacity;
        let (r, _) = self.insert_entry_at(hash, key, value, start, 0);
        r
    }

    /// Robin Hood insertion that resumes a probe already `dis` buckets past the home
    /// bucket, at bucket `idx`; also returns the bucket where the key ends up.
    #[verifier::spinoff_prover]
    fn insert_entry_at(&mut self, hash: u64, key: K, value: V, idx: usize, dis: usize) -> (r: (
        Option<V>,
        usize,
    ))
        requires
            old(self).wf(),
            old(self).capacity > 0,
            old(self).len + 1 < old(self).capacity,
            hash == K::spec_hash(key@, old(self).seed()),
            carried_ok(old(self).buckets@, old(self).seed(), hash, key@, dis as int, idx as int),
            probed_other(old(self).buckets@, hash, key@, dis as int),
        ensures
            final(self).wf(),
            final(self).spec_capacity() == old(self).spec_capacity(),
            final(self).hasher() == old(self).hasher(),
            r.0 == (if old(self)@.contains_key(key@) {
                Some(old(self)@[key@])
            } else {
                None
            }),
            final(self)@ == old(self)@.insert(key@, value),
            r.1 < final(self).capacity,
            occ(final(self).buckets@, r.1 as int),
            ent(final(self).buckets@, r.1 as int).key@ == key@,
            ent(final(self).buckets@, r.1 as int).value == value,
    {
        let ghost old_view = self@;
        let ghost old_b = self.buckets@;
        let ghost k0 = key@;
        let ghost v0 = value;
        let ghost seed = self.seed();
        let ghost cap = self.capacity as int;
        let ghost e_pos = self.lemma_has_empty();
        let ghost mut swapped = false;
        proof {
            lemma_home_range(hash, cap);
            lemma_view_len(old_b);
        }
        let mut entry = TableEntry { hash, key, value, dis };
        let mut idx = idx;
        let mut target: usize = idx;
        let mut first = true;
        loop
            invariant
                self.buckets@.len() == cap,
                self.capacity == cap,
                old(self).capacity == cap,
                cap > 0,
                self.len == old(self).len,
                self.len + 1 < cap,
                self.build_hasher == old(self).build_hasher,
                seed == self.seed(),
                hash == K::spec_hash(k0, seed),
                cap <= MAX_CAPACITY,
                cap >= 8,
                occupied(old_b).len() == self.len,
                occupied(old_b).finite(),
                old_view == table_view(old_b),
                old_view == old(self)@,
                k0 == key@,
                v0 == value,
                table_inv(self.buckets@, seed),
                occupied(self.buckets@) == occupied(old_b),
                carried_ok(self.buckets@, seed, entry.hash, entry.key@, entry.dis as int, idx as int),
                0 <= e_pos < cap,
                !occ(self.buckets@, e_pos),
                !swapped ==> {
                    &&& entry.key@ == k0
                    &&& entry.hash == hash
                    &&& entry.value == v0
                    &&& self.buckets@ == old_b
                    &&& probed_other(old_b, hash, k0, entry.dis as int)
                },
                swapped ==> {
                    &&& !holds(self.buckets@, entry.key@)
                    &&& table_view(self.buckets@).insert(entry.key@, entry.value) == old_view.insert(
                        k0,
                        v0,
                    )
                    &&& !old_view.contains_key(k0)
                    &&& target < cap
                    &&& occ(self.buckets@, target as int)
                    &&& ent(self.buckets@, target as int).key@ == k0
                    &&& ent(self.buckets@, target as int).value == v0
                    &&& gap(target as int, e_pos, cap) > gap(idx as int, e_pos, cap)
                },
                first == !swapped,
            decreases (if e_pos >= idx {
                e_pos - idx
            } else {
                e_pos - idx + cap
            }),
        {
            let ghost b = self.buckets@;
            let bucket = vec_replace(&mut self.buckets, idx, Bucket { entry: None });
            match bucket.entry {
                None => {
                    proof {
                        if !swapped {
                            lemma_absent_in(b, seed, k0, hash, entry.dis as int);
                        }
                        lemma_place(b, seed, idx as int, entry);
                    }
                    self.buckets.set(idx, Bucket { entry: Some(entry) });
                    self.len = self.len + 1;
                    proof {
                        assert(self.buckets@ =~= b.update(idx as int, Bucket { entry: Some(entry) }));
                        lemma_view_len(self.buckets@);
                        assert(self@ == table_view(b).insert(entry.key@, entry.value));
                        if !swapped {
                            assert(table_view(b) == old_view);
                            assert(!old_view.contains_key(k0));
                            assert(self@ == old_view.insert(k0, v0));
                        } else {
                            assert(self@ == old_view.insert(k0, v0));
                        }
                    }
                    if !first {
                        proof {
                            assert(self.buckets@[target as int] == b[target as int]);
                        }
                        return (None, target);
                    }
                    return (None, idx);
                },
                Some(existing) => {
                    assert(occ(b, idx as int));
                    if existing.hash == entry.hash && existing.key.key_eq(&entry.key) {
                        proof {
                            if swapped {
                                assert(holds(b, entry.key@));
                            }
                            lemma_set_value(b, seed, idx as int, entry.value);
                            lemma_view_at(b, idx as int);
                        }
                        let ghost new_value = entry.value;
                        let TableEntry { hash: h, key: k, value: old_value, dis: d } = existing;
                        self.buckets.set(
                            idx,
                            Bucket { entry: Some(TableEntry { hash: h, key: k, value: entry.value, dis: d }) },
                        );
                        proof {
                            assert(self.buckets@ =~= b.update(
                                idx as int,
                                Bucket {
                                    entry: Some(
                                        TableEntry {
                                            hash: ent(b, idx as int).hash,
                                            key: ent(b, idx as int).key,
                                            value: new_value,
                                            dis: ent(b, idx as int).dis,
                                        },
                                    ),
                                },
                            ));
                            lemma_view_len(self.buckets@);
                        }
                        return (Some(old_value), idx);
                    }
                    proof {
                        if existing.hash != entry.hash {
                            assert(existing.key@ != entry.key@);
                        }
                        assert(ent(b, idx as int).key@ != entry.key@);
                    }
                    if existing.dis < entry.dis {
                        proof {
                            if !swapped {
                                lemma_absent_in(b, seed, k0, hash, entry.dis as int);
                                assert(!old_view.contains_key(k0));
                            }
                            lemma_swap(b, seed, idx as int, entry, e_pos);
                            swapped = true;
                        }
                        if first {
                            target = idx;
                            first = false;
                        }
                        self.buckets.set(idx, Bucket { entry: Some(entry) });
                        proof {
                            assert(self.buckets@ =~= b.update(idx as int, Bucket { entry: Some(entry) }));
                        }
                        entry = existing;
                    } else {
                        self.buckets.set(idx, Bucket { entry: Some(existing) });
                        proof {
                            assert(self.buckets@ =~= b);
                            lemma_extend(b, seed, entry.hash, entry.key@, entry.dis as int, idx as int, e_pos);
    
                        }
                    }
                    let ghost prev_dis = entry.dis;
                    let ghost prev_idx = idx;
                    entry.dis = entry.dis + 1;
                    idx = if idx + 1 == self.capacity {
                        0
                    } else {
                        idx + 1
                    };
                    proof {
                        if !swapped {
                            assert(step(home(hash, cap), prev_dis as int, cap) == prev_idx);
                            lemma_probed_extend(old_b, hash, k0, prev_dis as int);
                        }
                    }
                },
            }
        }
    }

    /// Returns a reference to the value of `key`, if present.
    pub fn get(&self, key: &K) -> (r: Option<&V>)
        requires
            self.wf(),
        ensures
            r == (if self@.contains_key(key@) {
                Some(&self@[key@])
            } else {
                None
            }),
    {
        match self.find(key) {
            Some(i) => {
                proof {
                    lemma_view_at(self.buckets@, i as int);
                }
                match &self.buckets[i].entry {
                    Some(entry) => Some(&entry.value),
                    None => None,
                }
            },
            None => None,
        }
    }
}

impl<K: HashKey, V, S: BuildHasher> HashMap<K, V, S> {
    /// Returns a mutable reference to the value of `key`, if present.
    pub fn get_mut(&mut self, key: &K) -> (r: Option<&mut V>)
        requires
            old(self).wf(),
        ensures
            r is Some <==> old(self)@.contains_key(key@),
            r matches Some(m) ==> *m == old(self)@[key@],
            r matches Some(m) ==> final(self).wf(),
            r matches Some(m) ==> final(self)@ == old(self)@.insert(key@, *final(m)),
            r matches Some(m) ==> final(self).spec_capacity() == old(self).spec_capacity(),
            r matches Some(m) ==> final(self).hasher() == old(self).hasher(),
            r is None ==> *final(self) == *old(self),
            old(self).shaped() ==> final(self).shaped(),
    {
        proof {
            self.lemma_finite();
            lemma_map_len_changes(self@);
        }
        match self.find(key) {
            Some(i) => {
                let ghost b = self.buckets@;
                proof {
                    lemma_view_at(b, i as int);
                    lemma_view_len(b);
                    assert forall|v: V|
                        #![trigger with_value(b, i as int, v)]
                        table_inv(with_value(b, i as int, v), self.seed()) && occupied(
                            with_value(b, i as int, v),
                        ) == occupied(b) && table_view(with_value(b, i as int, v)) == table_view(
                            b,
                        ).insert(key@, v) by {
                        lemma_set_value(b, self.seed(), i as int, v);
                    }
                }
                Some(value_mut(&mut self.buckets, i))
            },
            None => None,
        }
    }
}

impl<K: HashKey, V, S: BuildHasher> HashMap<K, V, S> {
    /// Returns every key-value pair once, in bucket order.
    pub fn iter(&self) -> (r: Vec<(&K, &V)>)
        requires
            self.wf(),
        ensures
            forall|i: int|
                0 <= i < r@.len() ==> self@.contains_key(#[trigger] r@[i].0@) && self@[r@[i].0@]
                    == *r@[i].1,
            forall|i: int, j: int| 0 <= i < j < r@.len() ==> r@[i].0@ != r@[j].0@,
            forall|k: K::V|
                self@.contains_key(k) ==> exists|i: int| 0 <= i < r@.len() && #[trigger] r@[i].0@ == k,
    {
        let ghost b = self.buckets@;
        let mut r: Vec<(&K, &V)> = Vec::new();
        let ghost mut pos: Seq<int> = Seq::empty();
        let mut i: usize = 0;
        while i < self.buckets.len()
            invariant
                b == self.buckets@,
                self.wf(),
                i <= b.len(),
                pos.len() == r@.len(),
                forall|t: int|
                    0 <= t < pos.len() ==> 0 <= #[trigger] pos[t] < i && occ(b, pos[t])
                        && *r@[t].0 == ent(b, pos[t]).key && *r@[t].1 == ent(b, pos[t]).value,
                forall|t: int, u: int| 0 <= t < u < pos.len() ==> pos[t] < pos[u],
                forall|j: int| 0 <= j < i && occ(b, j) ==> exists|t: int| 0 <= t < pos.len() && #[trigger] pos[t] == j,
            decreases b.len() - i,
        {
            let ghost old_pos = pos;
            match &self.buckets[i].entry {
                Some(e) => {
                    r.push((&e.key, &e.value));
                    proof {
                        pos = pos.push(i as int);
                        assert(pos[pos.len() - 1] == i);
                    }
                },
                None => {},
            }
            proof {
                assert forall|j: int| 0 <= j < i + 1 && occ(b, j) implies exists|t: int|
                    0 <= t < pos.len() && #[trigger] pos[t] == j by {
                    if j < i {
                        let t = choose|t: int| 0 <= t < old_pos.len() && #[trigger] old_pos[t] == j;
                        assert(pos[t] == old_pos[t]);
                    } else {
                        assert(pos[pos.len() - 1] == j);
                    }
                }
            }
            i = i + 1;
        }
        proof {
            assert forall|t: int| 0 <= t < r@.len() implies self@.contains_key(#[trigger] r@[t].0@)
                && self@[r@[t].0@] == *r@[t].1 by {
                assert(0 <= pos[t] < b.len());
                lemma_view_at(b, pos[t]);
            }
            assert forall|t: int, u: int| 0 <= t < u < r@.len() implies r@[t].0@ != r@[u].0@ by {
                assert(0 <= pos[t] < b.len() && 0 <= pos[u] < b.len());
                assert(occ(b, pos[t]) && occ(b, pos[u]));
            }
            assert forall|k: K::V| self@.contains_key(k) implies exists|t: int|
                0 <= t < r@.len() && #[trigger] r@[t].0@ == k by {
                assert(holds(b, k));
                let j = choose|j: int| 0 <= j < b.len() && occ(b, j) && #[trigger] ent(b, j).key@ == k;
                let t = choose|t: int| 0 <= t < pos.len() && #[trigger] pos[t] == j;
                assert(r@[t].0@ == k);
            }
        }
        r
    }
}

/// The value in bucket `i`, to be changed in place.
fn value_mut<K, V>(buckets: &mut Vec<Bucket<K, V>>, i: usize) -> (r: &mut V)
    requires
        i < old(buckets).len(),
        occ(old(buckets)@, i as int),
    ensures
        *r == ent(old(buckets)@, i as int).value,
        final(buckets)@ == with_value(old(buckets)@, i as int, *final(r)),
{
    &mut buckets[i].entry.as_mut().unwrap().value
}

impl<K: HashKey, V, S: BuildHasher + Clone> HashMap<K, V, S> {
    /// Rebuilds the table with twice as many buckets, re-inserting every entry in bucket
    /// order.
    fn grow(&mut self) -> (r: Result<()>)
        requires
            old(self).wf(),
            old(self).capacity > 0,
            old(self).capacity * 2 <= MAX_CAPACITY,
        ensures
            r is Ok,
            final(self).wf(),
            final(self)@ == old(self)@,
            final(self).spec_capacity() == old(self).spec_capacity() * 2,
    {
        let ghost old_view = self@;
        let ghost old_b = self.buckets@;
        let cap = self.capacity;
        let mut new_map = Self::empty_table(cap * 2, self.build_hasher.clone());
        let mut old_buckets: Vec<Bucket<K, V>> = Vec::new();
        std::mem::swap(&mut old_buckets, &mut self.buckets);
        proof {
            lemma_view_len(old_b);
            assert(old_b.take(0) =~= Seq::<Bucket<K, V>>::empty());
            assert(table_view(old_b.take(0)) =~= Map::<K::V, V>::empty());
        }
        let mut i: usize = 0;
        while i < cap
            invariant
                i <= cap,
                cap == old_b.len(),
                cap > 0,
                cap * 2 <= MAX_CAPACITY,
                distinct_keys(old_b),
                occupied(old_b).len() < cap,
                occupied(old_b).finite(),
                old_view == table_view(old_b),
                old_buckets@.len() == cap,
                forall|j: int| i <= j < cap ==> old_buckets@[j] == old_b[j],
                new_map.wf(),
                new_map.spec_capacity() == cap * 2,
                new_map@ == table_view(old_b.take(i as int)),
            decreases cap - i,
        {
            proof {
                lemma_prefix_step(old_b, i as int);
                lemma_view_len(old_b.take(i as int));
                vstd::set_lib::lemma_len_subset(occupied(old_b.take(i as int)), occupied(old_b));
                new_map.lemma_len();
            }
            let bucket = vec_replace(&mut old_buckets, i, Bucket { entry: None });
            match bucket.entry {
                Some(entry) => {
                    let TableEntry { hash: _, key, value, dis: _ } = entry;
                    let hash = new_map.hash_key(&key);
                    let _ = new_map.insert_entry(hash, key, value);
                },
                None => {},
            }
            proof {
                assert forall|j: int| i + 1 <= j < cap implies old_buckets@[j] == old_b[j] by {}
            }
            i = i + 1;
        }
        proof {
            assert(old_b.take(cap as int) =~= old_b);
        }
        *self = new_map;
        Ok(())
    }


    /// Inserts a key-value pair, returning the previous value of the key if it was
    /// present.
    ///
    /// An unallocated table first gets 8 buckets; a table at least three quarters full
    /// first doubles its bucket count.
    pub fn insert(&mut self, key: K, value: V) -> (r: Result<Option<V>>)
        requires
            old(self).wf(),
            old(self)@.len() < MAX_ENTRIES,
        ensures
            final(self).wf(),
            r == Ok::<Option<V>, Error>(
                if old(self)@.contains_key(key@) {
                    Some(old(self)@[key@])
                } else {
                    None
                },
            ),
            final(self)@ == old(self)@.insert(key@, value),
            final(self).spec_capacity() == capacity_after_insert(
                old(self).spec_capacity(),
                old(self)@.len(),
            ),
            old(self).shaped() ==> final(self).shaped(),
    {
        proof {
            self.lemma_len();
            lemma_map_len_changes(self@);
            if self.shaped() {
                lemma_shape_after_insert(
                    self.spec_capacity(),
                    self@.len(),
                    self@.insert(key@, value).len(),
                );
            }
            assert(next_power_of_two(8) == 8) by {
                reveal_with_fuel(next_power_of_two, 5);
            }
            assert(bucket_count(8) == 8);
        }
        let ghost cap0 = self.capacity as nat;
        let ghost len0 = self.len as nat;
        if self.capacity == 0 {
            *self = Self::with_capacity_and_hasher(8, self.build_hasher.clone());
            proof {
                self.lemma_len();
            }
        }
        if self.len * 4 >= self.capacity * 3 {
            self.grow()?;
        }
        proof {
            self.lemma_len();
        }
        let hash = self.hash_key(&key);
        Ok(self.insert_entry(hash, key, value))
    }

    /// Removes `key`, returning its value if it was present.
    ///
    /// The entries after the emptied bucket move back one bucket each, up to the first
    /// empty bucket or entry in its home bucket (backward-shift deletion).
    #[verifier::spinoff_prover]
    pub fn remove(&mut self, key: &K) -> (r: Option<V>)
        requires
            old(self).wf(),
        ensures
            final(self).wf(),
            r == (if old(self)@.contains_key(key@) {
                Some(old(self)@[key@])
            } else {
                None
            }),
            final(self)@ == old(self)@.remove(key@),
            final(self).spec_capacity() == old(self).spec_capacity(),
            final(self).hasher() == old(self).hasher(),
            old(self).shaped() ==> final(self).shaped(),
    {
        proof {
            self.lemma_finite();
            lemma_map_len_changes(self@);
            if self.shaped() {
                lemma_shape_after_shrink(
                    self.spec_capacity(),
                    self@.len(),
                    self.spec_capacity(),
                    self@.remove(key@).len(),
                );
            }
        }
        let found = match self.find(key) {
            Some(i) => i,
            None => {
                proof {
                    assert(old(self)@.remove(key@) =~= old(self)@);
                }
                return None;
            },
        };
        let ghost old_view = self@;
        let ghost old_b = self.buckets@;
        let ghost seed = self.seed();
        let ghost cap = self.capacity as int;
        let ghost e_pos = self.lemma_has_empty();
        proof {
            lemma_take_out(old_b, seed, found as int);
            lemma_view_at(old_b, found as int);
            lemma_view_len(old_b);
        }
        let removed = vec_replace(&mut self.buckets, found, Bucket { entry: None });
        proof {
            assert(occupied(old_b).contains(found as int));
        }
        self.len = self.len - 1;
        let mut curr = found;
        loop
            invariant
                self.buckets@.len() == cap,
                self.capacity == cap,
                cap >= 8,
                cap <= MAX_CAPACITY,
                self.build_hasher == old(self).build_hasher,
                seed == self.seed(),
                0 <= curr < cap,
                !occ(self.buckets@, curr as int),
                entries_ok(self.buckets@, seed),
                robin_hood(self.buckets@, curr as int),
                distinct_keys(self.buckets@),
                occupied(self.buckets@).len() == self.len,
                occupied(self.buckets@).finite(),
                self.len < cap,
                table_view(self.buckets@) == old_view.remove(key@),
                0 <= e_pos < cap,
                e_pos != curr,
                !occ(self.buckets@, e_pos),
            ensures
                robin_hood(self.buckets@, -1),
            decreases (if e_pos >= curr {
                e_pos - curr
            } else {
                e_pos - curr + cap
            }),
        {
            let next = if curr + 1 == self.capacity {
                0
            } else {
                curr + 1
            };
            let stop = match &self.buckets[next].entry {
                None => true,
                Some(e) => e.dis == 0,
            };
            if stop {
                proof {
                    lemma_shift_end(self.buckets@, curr as int);
                }
                break;
            }
            let ghost b = self.buckets@;
            proof {
                assert(occ(b, next as int));
                lemma_shift(b, seed, curr as int);
                vstd::set::axiom_set_insert_finite(occupied(b), curr as int);
                vstd::set::axiom_set_insert_len(occupied(b), curr as int);
                vstd::set::axiom_set_remove_len(occupied(b).insert(curr as int), next as int);
                vstd::set::axiom_set_remove_finite(occupied(b).insert(curr as int), next as int);
            }
            let moved = vec_replace(&mut self.buckets, next, Bucket { entry: None });
            match moved.entry {
                Some(e) => {
                    let TableEntry { hash, key: k, value, dis } = e;
                    self.buckets.set(curr, Bucket { entry: Some(TableEntry { hash, key: k, value, dis: dis - 1 }) });
                },
                None => {},
            }
            proof {
                let e = ent(b, next as int);
                assert(self.buckets@ =~= b.update(
                    curr as int,
                    Bucket {
                        entry: Some(
                            TableEntry { hash: e.hash, key: e.key, value: e.value, dis: (e.dis - 1) as usize },
                        ),
                    },
                ).update(next as int, Bucket { entry: None }));
            }
            curr = next;
        }
        proof {
            lemma_view_len(self.buckets@);
        }
        match removed.entry {
            Some(e) => Some(e.value),
            None => None,
        }
    }
}

/// One key's place in a map: either the bucket that holds it or the point where it
/// would be inserted.
pub enum Entry<'a, K: HashKey, V, S: BuildHasher + Clone> {
    /// The key is present.
    Occupied(OccupiedEntry<'a, K, V, S>),
    /// The key is absent.
    Vacant(VacantEntry<'a, K, V, S>),
}

/// The bucket of a key present in a map.
pub struct OccupiedEntry<'a, K: HashKey, V, S: BuildHasher + Clone> {
    /// The map.
    pub map: &'a mut HashMap<K, V, S>,
    /// The bucket that holds the key.
    pub idx: usize,
}

/// The place where a key absent from a map would go: the bucket where its probe
/// stopped, and how far that bucket is from the key's home.
pub struct VacantEntry<'a, K: HashKey, V, S: BuildHasher + Clone> {
    /// The map.
    pub map: &'a mut HashMap<K, V, S>,
    /// The key.
    pub key: K,
    /// The key's hash.
    pub hash: u64,
    /// The bucket where the probe stopped.
    pub idx: usize,
    /// The distance of that bucket from the key's home.
    pub dis: usize,
}

impl<'a, K: HashKey, V, S: BuildHasher + Clone> OccupiedEntry<'a, K, V, S> {
    /// The entry points into its map at a bucket that holds a key.
    pub closed spec fn wf(&self) -> bool {
        &&& self.map.wf()
        &&& self.idx < self.map.capacity
        &&& occ(self.map.buckets@, self.idx as int)
    }

    /// The key of the entry.
    pub closed spec fn key(&self) -> K::V {
        ent(self.map.buckets@, self.idx as int).key@
    }

    /// The map's contents.
    pub closed spec fn map_view(&self) -> Map<K::V, V> {
        self.map@
    }

    /// Turns the entry into a mutable reference to its value.
    pub fn into_mut(self) -> (r: &'a mut V)
        requires
            self.wf(),
        ensures
            *r == self.map_view()[self.key()],
            final(self.map).wf(),
            final(self.map)@ == self.map_view().insert(self.key(), *final(r)),
            final(self.map).spec_capacity() == old(self.map).spec_capacity(),
            final(self.map).hasher() == old(self.map).hasher(),
            old(self.map).shaped() ==> final(self.map).shaped(),
    {
        let OccupiedEntry { map, idx } = self;
        let ghost b = map.buckets@;
        proof {
            map.lemma_finite();
            lemma_map_len_changes(map@);
            lemma_view_at(b, idx as int);
            lemma_view_len(b);
            assert forall|v: V|
                #![trigger with_value(b, idx as int, v)]
                table_inv(with_value(b, idx as int, v), map.seed()) && occupied(
                    with_value(b, idx as int, v),
                ) == occupied(b) && table_view(with_value(b, idx as int, v)) == table_view(
                    b,
                ).insert(ent(b, idx as int).key@, v) by {
                lemma_set_value(b, map.seed(), idx as int, v);
            }
        }
        value_mut(&mut map.buckets, idx)
    }
}

impl<'a, K: HashKey, V, S: BuildHasher + Clone> VacantEntry<'a, K, V, S> {
    /// The entry points into its map where its absent key's probe stopped.
    pub closed spec fn wf(&self) -> bool {
        let b = self.map.buckets@;
        &&& self.map.wf()
        &&& self.map.capacity > 0
        &&& !self.map@.contains_key(self.key@)
        &&& carried_ok(b, self.map.seed(), self.hash, self.key@, self.dis as int, self.idx as int)
        &&& probed_other(b, self.hash, self.key@, self.dis as int)
    }

    /// The map's contents.
    pub closed spec fn map_view(&self) -> Map<K::V, V> {
        self.map@
    }

    /// Inserts `value` under the entry's key and returns a mutable reference to it.
    ///
    /// A table at least three quarters full first doubles its bucket count.
    pub fn insert(self, value: V) -> (r: &'a mut V)
        requires
            self.wf(),
            self.map_view().len() < MAX_ENTRIES,
        ensures
            *r == value,
            final(self.map).wf(),
            final(self.map)@ == self.map_view().insert(self.key@, *final(r)),
            final(self.map).spec_capacity() == capacity_after_insert(
                old(self.map).spec_capacity(),
                self.map_view().len(),
            ),
            old(self.map).shaped() ==> final(self.map).shaped(),
    {
        let VacantEntry { map, key, hash, idx, dis } = self;
        proof {
            map.lemma_len();
            lemma_map_len_changes(map@);
            if map.shaped() {
                lemma_shape_after_insert(map.spec_capacity(), map@.len(), map@.len() + 1);
            }
        }
        let pos = if map.len * 4 >= map.capacity * 3 {
            let _ = map.grow();
            let hash = map.hash_key(&key);
            proof {
                map.lemma_len();
                lemma_home_range(hash, map.capacity as int);
            }
            let start = (#[verifier::truncate] (hash as usize)) % map.capacity;
            let (_, pos) = map.insert_entry_at(hash, key, value, start, 0);
            pos
        } else {
            let (_, pos) = map.insert_entry_at(hash, key, value, idx, dis);
            pos
        };
        let ghost b = map.buckets@;
        proof {
            lemma_view_at(b, pos as int);
            lemma_view_len(b);
            assert forall|v: V|
                #![trigger with_value(b, pos as int, v)]
                table_inv(with_value(b, pos as int, v), map.seed()) && occupied(
                    with_value(b, pos as int, v),
                ) == occupied(b) && table_view(with_value(b, pos as int, v)) == table_view(
                    b,
                ).insert(ent(b, pos as int).key@, v) by {
                lemma_set_value(b, map.seed(), pos as int, v);
            }
        }
        value_mut(&mut map.buckets, pos)
    }
}


impl<'a, K: HashKey, V, S: BuildHasher + Clone> Entry<'a, K, V, S> {
    /// The entry points into its map as `entry` left it, and an absent key still has
    /// room to go in.
    pub open spec fn wf(&self) -> bool {
        match self {
            Entry::Occupied(o) => o.wf(),
            Entry::Vacant(v) => v.wf() && v.map_view().len() < MAX_ENTRIES,
        }
    }

    /// Returns a mutable reference to the key's value, first inserting `default` if
    /// the key is absent.
    pub fn or_insert(self, default: V) -> (r: &'a mut V)
        requires
            self.wf(),
        ensures
            *r == (match self {
                Entry::Occupied(o) => o.map_view()[o.key()],
                Entry::Vacant(_) => default,
            }),
            self matches Entry::Occupied(o) ==> final(o.map).wf() && final(o.map)@
                == o.map_view().insert(o.key(), *final(r)),
            self matches Entry::Vacant(v) ==> final(v.map).wf() && final(v.map)@
                == v.map_view().insert(v.key@, *final(r)),
            self matches Entry::Occupied(o) ==> (o.map.shaped() ==> final(o.map).shaped()),
            self matches Entry::Vacant(v) ==> (v.map.shaped() ==> final(v.map).shaped()),
    {
        match self {
            Entry::Occupied(entry) => entry.into_mut(),
            Entry::Vacant(entry) => entry.insert(default),
        }
    }

    /// Returns a mutable reference to the key's value, first inserting the result of
    /// `default` if the key is absent.
    pub fn or_insert_with<F: FnOnce() -> V>(self, default: F) -> (r: &'a mut V)
        requires
            self.wf(),
            self is Vacant ==> default.requires(()),
        ensures
            self matches Entry::Occupied(o) ==> *r == o.map_view()[o.key()],
            self is Vacant ==> default.ensures((), *r),
            self matches Entry::Occupied(o) ==> final(o.map).wf() && final(o.map)@
                == o.map_view().insert(o.key(), *final(r)),
            self matches Entry::Vacant(v) ==> final(v.map).wf() && final(v.map)@
                == v.map_view().insert(v.key@, *final(r)),
            self matches Entry::Occupied(o) ==> (o.map.shaped() ==> final(o.map).shaped()),
            self matches Entry::Vacant(v) ==> (v.map.shaped() ==> final(v.map).shaped()),
    {
        match self {
            Entry::Occupied(entry) => entry.into_mut(),
            Entry::Vacant(entry) => entry.insert(default()),
        }
    }
}

impl<K: HashKey, V, S: BuildHasher + Clone> HashMap<K, V, S> {
    /// Finds the place of `key` in the map, for in-place manipulation. An unallocated
    /// table first gets 8 buckets.
    pub fn entry(&mut self, key: K) -> (r: Entry<'_, K, V, S>)
        requires
            old(self).wf(),
        ensures
            r is Occupied <==> old(self)@.contains_key(key@),
            r matches Entry::Occupied(o) ==> {
                &&& o.wf()
                &&& o.key() == key@
                &&& o.map_view() == old(self)@
                &&& o.map.wf()
                &&& o.map@ == old(self)@
                &&& o.map.hasher() == old(self).hasher()
                &&& o.map.spec_capacity() == old(self).spec_capacity()
                &&& old(self).shaped() ==> o.map.shaped()
                &&& *final(self) == *final(o.map)
            },
            r matches Entry::Vacant(v) ==> {
                &&& v.wf()
                &&& v.key@ == key@
                &&& v.map_view() == old(self)@
                &&& v.map.wf()
                &&& v.map@ == old(self)@
                &&& old(self).spec_capacity() > 0 ==> v.map.hasher() == old(self).hasher()
                &&& old(self).shaped() ==> v.map.shaped()
                &&& v.map.spec_capacity() == (if old(self).spec_capacity() == 0 {
                    8
                } else {
                    old(self).spec_capacity()
                })
                &&& *final(self) == *final(v.map)
            },
    {
        proof {
            assert(next_power_of_two(8) == 8) by {
                reveal_with_fuel(next_power_of_two, 5);
            }
            assert(bucket_count(8) == 8);
            if self.shaped() {
                lemma_shape_after_shrink(
                    self.spec_capacity(),
                    self@.len(),
                    if self.spec_capacity() == 0 {
                        8
                    } else {
                        self.spec_capacity()
                    },
                    self@.len(),
                );
            }
        }
        if self.capacity == 0 {
            *self = Self::with_capacity_and_hasher(8, self.build_hasher.clone());
        }
        let hash = self.hash_key(&key);
        let (found, idx, dis) = self.locate(&key, hash);
        if found {
            Entry::Occupied(OccupiedEntry { map: self, idx })
        } else {
            Entry::Vacant(VacantEntry { map: self, key, hash, idx, dis })
        }
    }
}

impl<K: HashKey, V, S: BuildHasher + Default> Default for HashMap<K, V, S> {
    /// An empty map with a default hash builder; allocates nothing.
    fn default() -> (m: Self)
        ensures
            m.wf(),
            m@ == Map::<K::V, V>::empty(),
            m.spec_capacity() == 0,
            m.shaped(),
    {
        Self::with_hasher(S::default())
    }
}

/// Reading a key right after inserting it gives the inserted value; every other key
/// keeps what it had.
pub proof fn law_get_after_insert<K: HashKey, V, S: BuildHasher>(
    before: HashMap<K, V, S>,
    after: HashMap<K, V, S>,
    k: K::V,
    v: V,
    other: K::V,
)
    requires
        after@ == before@.insert(k, v),
        other != k,
    ensures
        after@.contains_key(k),
        after@[k] == v,
        after@.contains_key(other) == before@.contains_key(other),
        before@.contains_key(other) ==> after@[other] == before@[other],
{
}

/// A removed key reads as absent; every other key keeps what it had.
pub proof fn law_get_after_remove<K: HashKey, V, S: BuildHasher>(
    before: HashMap<K, V, S>,
    after: HashMap<K, V, S>,
    k: K::V,
    other: K::V,
)
    requires
        after@ == before@.remove(k),
        other != k,
    ensures
        !after@.contains_key(k),
        after@.contains_key(other) == before@.contains_key(other),
        before@.contains_key(other) ==> after@[other] == before@[other],
{
}

/// Inserting grows the map by one entry exactly when the key was absent; removing
/// shrinks it by one exactly when the key was present.
pub proof fn law_len_after_insert_and_remove<K: HashKey, V, S: BuildHasher>(
    m: HashMap<K, V, S>,
    k: K::V,
    v: V,
)
    requires
        m.wf(),
    ensures
        m@.insert(k, v).len() == m@.len() + (if m@.contains_key(k) {
            0int
        } else {
            1int
        }),
        m@.remove(k).len() == m@.len() - (if m@.contains_key(k) {
            1int
        } else {
            0int
        }),
{
    m.lemma_len();
    if m@.contains_key(k) {
        assert(m@.insert(k, v).dom() =~= m@.dom());
    } else {
        assert(m@.remove(k).dom() =~= m@.dom());
    }
}

/// Inserting a key and then removing it gives back the map without that key.
pub proof fn law_remove_undoes_insert<K: HashKey, V, S: BuildHasher>(
    m: HashMap<K, V, S>,
    k: K::V,
    v: V,
)
    ensures
        m@.insert(k, v).remove(k) == m@.remove(k),
        !m@.contains_key(k) ==> m@.insert(k, v).remove(k) == m@,
{
    assert(m@.insert(k, v).remove(k) =~= m@.remove(k));
    if !m@.contains_key(k) {
        assert(m@.remove(k) =~= m@);
    }
}

/// Looking up an entry gives the map 8 buckets when it had none and keeps its bucket
/// count otherwise, whichever kind of entry comes back: a map without buckets holds no
/// key, so its entries are vacant.
pub proof fn law_entry_capacity<K: HashKey, V, S: BuildHasher>(
    m: HashMap<K, V, S>,
    key: K::V,
    occupied: bool,
    capacity_after: nat,
)
    requires
        m.wf(),
        occupied <==> m@.contains_key(key),
        occupied ==> capacity_after == m.spec_capacity(),
        !occupied ==> capacity_after == (if m.spec_capacity() == 0 {
            8
        } else {
            m.spec_capacity()
        }),
    ensures
        capacity_after == (if m.spec_capacity() == 0 {
            8
        } else {
            m.spec_capacity()
        }),
{
    m.lemma_finite();
    if m.spec_capacity() == 0 {
        assert(m@.dom() =~= Set::<K::V>::empty()) by {
            vstd::set_lib::lemma_set_empty_equivalency_len(m@.dom());
        }
    }
}

} // verus!
