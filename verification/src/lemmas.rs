use vstd::prelude::*;

verus! {

/// The slot indices below `n`.
pub open spec fn below(n: nat) -> Set<usize> {
    Set::new(|k: usize| k < n)
}

proof fn lemma_below_len(n: nat)
    requires
        n <= usize::MAX + 1,
    ensures
        below(n).finite(),
        below(n).len() == n,
    decreases n,
{
    if n == 0 {
        assert(below(n) =~= Set::<usize>::empty());
    } else {
        lemma_below_len((n - 1) as nat);
        assert(below(n) =~= below((n - 1) as nat).insert((n - 1) as usize));
    }
}

/// When the slots below `n` are split into the vacant ones listed (without repetition)
/// in `free` and the rest, the rest has `n - free.len()` members.
pub proof fn lemma_partition_len(n: nat, free: Seq<usize>, occupied: Set<usize>)
    requires
        n <= usize::MAX + 1,
        free.no_duplicates(),
        forall|i: int| 0 <= i < free.len() ==> free[i] < n,
        forall|k: usize| occupied.contains(k) <==> (k < n && !free.contains(k)),
    ensures
        occupied.finite(),
        occupied.len() + free.len() == n,
    decreases free.len(),
{
    if free.len() == 0 {
        lemma_below_len(n);
        assert(occupied =~= below(n));
    } else {
        let last = free.last();
        let rest = free.drop_last();
        let bigger = occupied.insert(last);
        assert forall|k: usize| bigger.contains(k) <==> (k < n && !rest.contains(k)) by {
            if k == last {
                assert(free[free.len() - 1] == last);
                if rest.contains(k) {
                    let i = choose|i: int| 0 <= i < rest.len() && rest[i] == k;
                    assert(free[i] == free[free.len() - 1]);
                }
            } else {
                if free.contains(k) {
                    let i = choose|i: int| 0 <= i < free.len() && free[i] == k;
                    assert(rest[i] == k);
                }
                if rest.contains(k) {
                    let i = choose|i: int| 0 <= i < rest.len() && rest[i] == k;
                    assert(free[i] == k);
                }
            }
        }
        lemma_partition_len(n, rest, bigger);
        assert(!occupied.contains(last)) by {
            assert(free[free.len() - 1] == last);
        }
        assert(bigger.remove(last) =~= occupied);
    }
}

} // verus!
