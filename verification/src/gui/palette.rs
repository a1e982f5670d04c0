//! Colors of the debug labels: each animation id gets the next color of a
//! repeating palette the first time it appears, and keeps it.

use vstd::prelude::*;

verus! {

/// The distinct ids of `ids`, in the order of their first appearance.
pub open spec fn first_keys(ids: Seq<u64>) -> Seq<u64>
    decreases ids.len(),
{
    if ids.len() == 0 {
        Seq::empty()
    } else {
        let f = first_keys(ids.drop_last());
        if f.contains(ids.last()) {
            f
        } else {
            f.push(ids.last())
        }
    }
}

proof fn lemma_first_keys(ids: Seq<u64>)
    ensures
        first_keys(ids).no_duplicates(),
        forall|x: u64| #[trigger] first_keys(ids).contains(x) <==> ids.contains(x),
        first_keys(ids).len() <= ids.len(),
    decreases ids.len(),
{
    if ids.len() > 0 {
        let p = ids.drop_last();
        lemma_first_keys(p);
        let f = first_keys(p);
        let l = ids.last();
        if !f.contains(l) {
            assert forall|x: u64| #[trigger] f.push(l).contains(x) <==> (f.contains(x) || x == l) by {
                if f.push(l).contains(x) {
                    let j = choose|j: int| 0 <= j < f.len() + 1 && f.push(l)[j] == x;
                    if j < f.len() {
                        assert(f[j] == x);
                    }
                }
                if f.contains(x) {
                    let j = choose|j: int| 0 <= j < f.len() && f[j] == x;
                    assert(f.push(l)[j] == x);
                }
                if x == l {
                    assert(f.push(l)[f.len() as int] == x);
                }
            }
        }
        assert forall|x: u64| #[trigger] ids.contains(x) <==> (p.contains(x) || x == ids.last()) by {
            if ids.contains(x) {
                let j = choose|j: int| 0 <= j < ids.len() && ids[j] == x;
                if j < p.len() {
                    assert(p[j] == x);
                }
            }
            if p.contains(x) {
                let j = choose|j: int| 0 <= j < p.len() && p[j] == x;
                assert(ids[j] == x);
            }
            if x == ids.last() {
                assert(ids[ids.len() - 1] == x);
            }
        }
    }
}

/// `s` is the position of `id` in `keys`, modulo `n`.
pub open spec fn slot_of(keys: Seq<u64>, id: u64, s: int, n: int) -> bool {
    exists|j: int| 0 <= j < keys.len() && keys[j] == id && s == j % n
}

/// The palette slot of each id of `ids`, for a palette of `n` colors taken
/// round and round: the position of the id among the distinct ids in order
/// of first appearance, modulo `n`.
pub fn palette_slots(ids: &Vec<u64>, n: usize) -> (r: Vec<usize>)
    requires
        n > 0,
    ensures
        r@.len() == ids@.len(),
        forall|i: int| 0 <= i < ids@.len() ==> #[trigger] slot_of(first_keys(ids@), ids@[i], r@[i] as int, n as int),
{
    let mut seen: Vec<u64> = Vec::new();
    let mut r: Vec<usize> = Vec::new();
    let mut k: usize = 0;
    while k < ids.len()
        invariant
            n > 0,
            k <= ids@.len(),
            seen@ == first_keys(ids@.take(k as int)),
            r@.len() == k,
            forall|i: int| 0 <= i < k ==> #[trigger] slot_of(seen@, ids@[i], r@[i] as int, n as int),
        decreases ids@.len() - k,
    {
        let id = ids[k];
        let ghost pre = seen@;
        proof {
            assert(ids@.take(k + 1).drop_last() =~= ids@.take(k as int));
            assert(ids@.take(k + 1).last() == id);
            lemma_first_keys(ids@.take(k as int));
        }
        let mut j: usize = 0;
        while j < seen.len() && seen[j] != id
            invariant
                j <= seen@.len(),
                forall|t: int| 0 <= t < j ==> seen@[t] != id,
            decreases seen@.len() - j,
        {
            j = j + 1;
        }
        if j == seen.len() {
            proof {
                assert(!seen@.contains(id));
            }
            seen.push(id);
        }
        r.push(j % n);
        proof {
            assert(seen@ == first_keys(ids@.take(k + 1)));
            assert forall|i: int| 0 <= i < k + 1 implies #[trigger] slot_of(seen@, ids@[i], r@[i] as int, n as int) by {
                if i < k {
                    assert(slot_of(pre, ids@[i], r@[i] as int, n as int));
                    let t = choose|t: int| 0 <= t < pre.len() && pre[t] == ids@[i] && r@[i] == t % (n as int);
                    assert(seen@[t] == pre[t]);
                } else {
                    assert(seen@[j as int] == id);
                    assert(r@[i] == j % n);
                }
            }
        }
        k = k + 1;
    }
    proof {
        assert(ids@.take(k as int) =~= ids@);
        assert(seen@ == first_keys(ids@));
    }
    r
}

} // verus!
