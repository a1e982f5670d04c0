//! "Computed" flags of the nodes: for each pair of keys, the set of nodes
//! whose result is up to date.

use vstd::prelude::*;

use crate::bitset::OffsetBitSet;

verus! {

/// Parameter used when calling `RelationRegistry.node_set_flag`
///
/// The flag consists two parts,
/// `flag_0` (i.e. Component key) is provided externally,
/// `flag_1` (e.i. Component method name) is provided along with this `FlagHandle`.
pub struct FlagHandle {
    flag_1: usize,
    recurse_up: bool,
    recurse_down: bool,
}

impl FlagHandle {
    /// The second part of the flag.
    pub closed spec fn key(&self) -> usize {
        self.flag_1
    }

    /// Whether resetting the flag of a node also resets it on its ancestors.
    pub closed spec fn up(&self) -> bool {
        self.recurse_up
    }

    /// Whether resetting the flag of a node also resets it on its descendants.
    pub closed spec fn down(&self) -> bool {
        self.recurse_down
    }

    pub(crate) fn new(flag_1: usize, recurse_up: bool, recurse_down: bool) -> (h: Self)
        ensures
            h.key() == flag_1,
            h.up() == recurse_up,
            h.down() == recurse_down,
    {
        FlagHandle { flag_1, recurse_up, recurse_down }
    }

    pub(crate) fn flag_1(&self) -> (r: usize)
        ensures
            r == self.key(),
    {
        self.flag_1
    }

    pub(crate) fn recurse_up(&self) -> (r: bool)
        ensures
            r == self.up(),
    {
        self.recurse_up
    }

    pub(crate) fn recurse_down(&self) -> (r: bool)
        ensures
            r == self.down(),
    {
        self.recurse_down
    }
}

/// The flag sets, one per pair of keys, and the names that keys were made
/// from.
pub struct FlagTable {
    sets: Vec<((usize, usize), OffsetBitSet)>,
    names: Vec<String>,
}

/// The keys of the entries of `v`, in order.
spec fn entry_keys(v: Seq<((usize, usize), OffsetBitSet)>) -> Seq<(usize, usize)> {
    v.map_values(|e: ((usize, usize), OffsetBitSet)| e.0)
}

impl FlagTable {
    /// The set of each pair of keys that has one.
    pub closed spec fn sets(&self) -> Map<(usize, usize), Set<int>> {
        Map::new(
            |k: (usize, usize)| exists|t: int| 0 <= t < self.sets@.len() && #[trigger] self.sets@[t].0 == k,
            |k: (usize, usize)| self.sets@[self.slot(k)].1@,
        )
    }

    /// Where the set of `k` is kept.
    spec fn slot(&self, k: (usize, usize)) -> int {
        choose|t: int| 0 <= t < self.sets@.len() && #[trigger] self.sets@[t].0 == k
    }

    /// The names that keys were made from; a name's key is its position.
    pub closed spec fn names(&self) -> Seq<Seq<char>> {
        self.names@.map_values(|s: String| s@)
    }

    /// Every pair of keys has at most one set, each set is well formed, and
    /// no name occurs twice.
    pub closed spec fn wf(&self) -> bool {
        &&& entry_keys(self.sets@).no_duplicates()
        &&& forall|t: int| 0 <= t < self.sets@.len() ==> (#[trigger] self.sets@[t]).1.wf()
        &&& self.names().no_duplicates()
    }

    /// No name occurs twice.
    pub proof fn lemma_names_distinct(&self)
        requires
            self.wf(),
        ensures
            self.names().no_duplicates(),
    {
    }

    pub fn new() -> (t: Self)
        ensures
            t.wf(),
            t.sets() == Map::<(usize, usize), Set<int>>::empty(),
            t.names() == Seq::<Seq<char>>::empty(),
    {
        let t = FlagTable { sets: Vec::new(), names: Vec::new() };
        proof {
            assert(t.sets() =~= Map::<(usize, usize), Set<int>>::empty());
            assert(t.names() =~= Seq::<Seq<char>>::empty());
            assert(entry_keys(t.sets@) =~= Seq::<(usize, usize)>::empty());
        }
        t
    }

    proof fn lemma_slot(&self, t: int)
        requires
            self.wf(),
            0 <= t < self.sets@.len(),
        ensures
            self.sets().contains_key(self.sets@[t].0),
            self.slot(self.sets@[t].0) == t,
            self.sets()[self.sets@[t].0] == self.sets@[t].1@,
    {
        let k = self.sets@[t].0;
        let u = self.slot(k);
        assert(self.sets@[u].0 == k);
        if u != t {
            assert(entry_keys(self.sets@)[u] == entry_keys(self.sets@)[t]);
        }
    }

    /// Position of the set of `k`, if it has one.
    fn find(&self, k: (usize, usize)) -> (r: Option<usize>)
        requires
            self.wf(),
        ensures
            match r {
                Some(t) => t < self.sets@.len() && self.sets@[t as int].0 == k && self.sets().contains_key(k)
                    && self.slot(k) == t,
                None => !self.sets().contains_key(k),
            },
    {
        let mut t: usize = 0;
        while t < self.sets.len()
            invariant
                self.wf(),
                t <= self.sets@.len(),
                forall|u: int| 0 <= u < t ==> self.sets@[u].0 != k,
            decreases self.sets@.len() - t,
        {
            if self.sets[t].0.0 == k.0 && self.sets[t].0.1 == k.1 {
                proof {
                    self.lemma_slot(t as int);
                }
                return Some(t);
            }
            t = t + 1;
        }
        None
    }

    /// Whether `index` is in the set of `k`; `false` when `k` has none.
    pub fn get(&self, k: (usize, usize), index: usize) -> (r: bool)
        requires
            self.wf(),
        ensures
            r == (self.sets().contains_key(k) && self.sets()[k].contains(index as int)),
    {
        match self.find(k) {
            Some(t) => {
                proof {
                    self.lemma_slot(t as int);
                }
                self.sets[t].1.contains(index)
            },
            None => false,
        }
    }

    /// Puts `index` into the set of `k`, when `k` has one.
    pub fn mark(&mut self, k: (usize, usize), index: usize)
        requires
            old(self).wf(),
        ensures
            final(self).wf(),
            final(self).names() == old(self).names(),
            final(self).sets() == if old(self).sets().contains_key(k) {
                old(self).sets().insert(k, old(self).sets()[k].insert(index as int))
            } else {
                old(self).sets()
            },
    {
        let ghost pre = *old(self);
        match self.find(k) {
            Some(t) => {
                proof {
                    pre.lemma_slot(t as int);
                }
                let mut entry = (k, OffsetBitSet::new());
                self.sets.set_and_swap(t, &mut entry);
                entry.1.insert(index);
                self.sets.set_and_swap(t, &mut entry);
                proof {
                    self.lemma_replaced(pre, t as int);
                }
            },
            None => {},
        }
    }

    /// After the set at `t` changed, the table is well formed and maps the
    /// key at `t` to the new set.
    proof fn lemma_replaced(&self, pre: FlagTable, t: int)
        requires
            pre.wf(),
            0 <= t < pre.sets@.len(),
            self.sets@.len() == pre.sets@.len(),
            self.sets@[t].0 == pre.sets@[t].0,
            self.sets@[t].1.wf(),
            forall|u: int| 0 <= u < pre.sets@.len() && u != t ==> self.sets@[u] == pre.sets@[u],
            self.names == pre.names,
        ensures
            self.wf(),
            self.names() == pre.names(),
            self.sets() == pre.sets().insert(pre.sets@[t].0, self.sets@[t].1@),
    {
        let k = pre.sets@[t].0;
        assert(entry_keys(self.sets@) =~= entry_keys(pre.sets@));
        assert forall|u: int| 0 <= u < self.sets@.len() implies (#[trigger] self.sets@[u]).1.wf() by {
            if u != t {
                assert(pre.sets@[u].1.wf());
            }
        }
        assert(self.wf());
        assert forall|j: (usize, usize)| #[trigger] self.sets().contains_key(j) == pre.sets().insert(k, self.sets@[t].1@).contains_key(j) by {
            if self.sets().contains_key(j) {
                let u = choose|u: int| 0 <= u < self.sets@.len() && #[trigger] self.sets@[u].0 == j;
                if u != t {
                    assert(pre.sets@[u].0 == j);
                }
            }
            if pre.sets().contains_key(j) {
                let u = choose|u: int| 0 <= u < pre.sets@.len() && #[trigger] pre.sets@[u].0 == j;
                if u != t {
                    assert(self.sets@[u].0 == j);
                }
            }
            if j == k {
                assert(self.sets@[t].0 == j);
            }
        }
        assert forall|j: (usize, usize)| #[trigger] self.sets().contains_key(j) implies self.sets()[j] == pre.sets().insert(k, self.sets@[t].1@)[j] by {
            let u = choose|u: int| 0 <= u < self.sets@.len() && #[trigger] self.sets@[u].0 == j;
            self.lemma_slot(u);
            if u != t {
                assert(pre.sets@[u] == self.sets@[u]);
                pre.lemma_slot(u);
                assert(entry_keys(pre.sets@)[u] != entry_keys(pre.sets@)[t]);
                assert(j != k);
            }
        }
        assert(self.sets() =~= pre.sets().insert(k, self.sets@[t].1@));
    }

    /// Makes sure `k` has a set, empty when it had none, and hands back its
    /// position.
    fn entry(&mut self, k: (usize, usize)) -> (t: usize)
        requires
            old(self).wf(),
        ensures
            final(self).wf(),
            final(self).names() == old(self).names(),
            final(self).sets() == if old(self).sets().contains_key(k) {
                old(self).sets()
            } else {
                old(self).sets().insert(k, Set::empty())
            },
            t < final(self).sets@.len(),
            final(self).sets@[t as int].0 == k,
    {
        let ghost pre = *old(self);
        match self.find(k) {
            Some(t) => t,
            None => {
                let t = self.sets.len();
                self.sets.push((k, OffsetBitSet::new()));
                proof {
                    assert(entry_keys(self.sets@) =~= entry_keys(pre.sets@).push(k));
                    assert(!entry_keys(pre.sets@).contains(k)) by {
                        if entry_keys(pre.sets@).contains(k) {
                            let u = choose|u: int| 0 <= u < pre.sets@.len() && entry_keys(pre.sets@)[u] == k;
                            assert(pre.sets@[u].0 == k);
                        }
                    }
                    assert forall|u: int| 0 <= u < self.sets@.len() implies (#[trigger] self.sets@[u]).1.wf() by {
                        if u < t {
                            assert(self.sets@[u] == pre.sets@[u]);
                        }
                    }
                    assert(self.sets@[t as int].1@ == Set::<int>::empty());
                    assert forall|j: (usize, usize)| #[trigger] self.sets().contains_key(j) == pre.sets().insert(k, Set::empty()).contains_key(j) by {
                        if self.sets().contains_key(j) {
                            let u = choose|u: int| 0 <= u < self.sets@.len() && #[trigger] self.sets@[u].0 == j;
                            if u < t {
                                assert(pre.sets@[u].0 == j);
                            }
                        }
                        if pre.sets().contains_key(j) {
                            let u = choose|u: int| 0 <= u < pre.sets@.len() && #[trigger] pre.sets@[u].0 == j;
                            assert(self.sets@[u].0 == j);
                        }
                        if j == k {
                            assert(self.sets@[t as int].0 == j);
                        }
                    }
                    assert forall|j: (usize, usize)| #[trigger] self.sets().contains_key(j) implies self.sets()[j] == pre.sets().insert(k, Set::empty())[j] by {
                        let u = choose|u: int| 0 <= u < self.sets@.len() && #[trigger] self.sets@[u].0 == j;
                        self.lemma_slot(u);
                        if u < t {
                            assert(pre.sets@[u] == self.sets@[u]);
                            pre.lemma_slot(u);
                        }
                    }
                    assert(self.sets() =~= pre.sets().insert(k, Set::empty()));
                }
                t
            },
        }
    }

    /// Takes `index` out of the set of `k`, which is made when missing.
    pub fn reset_one(&mut self, k: (usize, usize), index: usize)
        requires
            old(self).wf(),
        ensures
            final(self).wf(),
            final(self).names() == old(self).names(),
            final(self).sets() == old(self).sets().insert(
                k,
                if old(self).sets().contains_key(k) {
                    old(self).sets()[k]
                } else {
                    Set::empty()
                }.remove(index as int),
            ),
    {
        let t = self.entry(k);
        let ghost mid = *self;
        let mut entry = (k, OffsetBitSet::new());
        self.sets.set_and_swap(t, &mut entry);
        let _ = entry.1.take(index);
        self.sets.set_and_swap(t, &mut entry);
        proof {
            mid.lemma_slot(t as int);
            self.lemma_replaced(mid, t as int);
            assert(mid.sets().insert(k, self.sets@[t as int].1@) =~= old(self).sets().insert(
                k,
                if old(self).sets().contains_key(k) {
                    old(self).sets()[k]
                } else {
                    Set::empty()
                }.remove(index as int),
            ));
        }
    }

    /// Takes the nodes of `rel` out of the set of `k`, which is made when
    /// missing.
    pub fn reset_many(&mut self, k: (usize, usize), rel: &OffsetBitSet)
        requires
            old(self).wf(),
            rel.wf(),
        ensures
            final(self).wf(),
            final(self).names() == old(self).names(),
            final(self).sets() == old(self).sets().insert(
                k,
                if old(self).sets().contains_key(k) {
                    old(self).sets()[k]
                } else {
                    Set::empty()
                }.difference(rel@),
            ),
    {
        let t = self.entry(k);
        let ghost mid = *self;
        let mut entry = (k, OffsetBitSet::new());
        self.sets.set_and_swap(t, &mut entry);
        entry.1.difference_with(rel);
        self.sets.set_and_swap(t, &mut entry);
        proof {
            mid.lemma_slot(t as int);
            self.lemma_replaced(mid, t as int);
            assert(mid.sets().insert(k, self.sets@[t as int].1@) =~= old(self).sets().insert(
                k,
                if old(self).sets().contains_key(k) {
                    old(self).sets()[k]
                } else {
                    Set::empty()
                }.difference(rel@),
            ));
        }
    }

    /// Makes sure `k` has a set, empty when it had none.
    pub fn touch(&mut self, k: (usize, usize))
        requires
            old(self).wf(),
        ensures
            final(self).wf(),
            final(self).names() == old(self).names(),
            final(self).sets() == if old(self).sets().contains_key(k) {
                old(self).sets()
            } else {
                old(self).sets().insert(k, Set::empty())
            },
    {
        let _ = self.entry(k);
    }

    /// Shrinks the storage of every set to the words that hold its
    /// members; no set changes.
    pub fn cleanup(&mut self)
        requires
            old(self).wf(),
        ensures
            final(self).wf(),
            final(self).names() == old(self).names(),
            final(self).sets() == old(self).sets(),
            forall|k: (usize, usize)|
                #[trigger] final(self).sets().contains_key(k) ==> cleaned_range(
                    old(self).word_range(k),
                    final(self).sets()[k],
                    final(self).word_range(k),
                ),
    {
        let n = self.sets.len();
        let mut t: usize = 0;
        while t < n
            invariant
                t <= n,
                n == self.sets@.len(),
                n == old(self).sets@.len(),
                self.wf(),
                self.names() == old(self).names(),
                self.sets() == old(self).sets(),
                forall|u: int| 0 <= u < n ==> (#[trigger] self.sets@[u]).0 == old(self).sets@[u].0,
                forall|u: int| t <= u < n ==> #[trigger] self.sets@[u] == old(self).sets@[u],
                forall|u: int|
                    0 <= u < t ==> cleaned_range(
                        (old(self).sets@[u].1.word_start(), old(self).sets@[u].1.word_end()),
                        (#[trigger] self.sets@[u]).1@,
                        (self.sets@[u].1.word_start(), self.sets@[u].1.word_end()),
                    ),
            decreases n - t,
        {
            let ghost mid = *self;
            let mut entry = ((0, 0), OffsetBitSet::new());
            self.sets.set_and_swap(t, &mut entry);
            entry.1.cleanup();
            self.sets.set_and_swap(t, &mut entry);
            proof {
                mid.lemma_slot(t as int);
                self.lemma_replaced(mid, t as int);
                assert(mid.sets().insert(mid.sets@[t as int].0, self.sets@[t as int].1@) =~= mid.sets());
                assert(mid.sets@[t as int] == old(self).sets@[t as int]);
            }
            t = t + 1;
        }
        proof {
            assert forall|k: (usize, usize)| #[trigger] self.sets().contains_key(k) implies cleaned_range(
                old(self).word_range(k),
                self.sets()[k],
                self.word_range(k),
            ) by {
                let u = choose|u: int| 0 <= u < self.sets@.len() && #[trigger] self.sets@[u].0 == k;
                self.lemma_slot(u);
                old(self).lemma_slot(u);
            }
        }
    }

    /// Indexize a `str` to an corresponding `id`
    ///
    /// A name seen before gets its key back; a new one gets the next key.
    pub fn indexize_key(&mut self, key: &str) -> (r: usize)
        requires
            old(self).wf(),
        ensures
            final(self).wf(),
            final(self).sets() == old(self).sets(),
            old(self).names().contains(key@) ==> final(self).names() == old(self).names() && r < old(self).names().len()
                && old(self).names()[r as int] == key@,
            !old(self).names().contains(key@) ==> final(self).names() == old(self).names().push(key@) && r == old(
                self,
            ).names().len(),
    {
        let ghost pre = *old(self);
        let owned = key.to_owned();
        let mut t: usize = 0;
        while t < self.names.len()
            invariant
                *self == pre,
                pre.wf(),
                owned@ == key@,
                t <= self.names@.len(),
                forall|u: int| 0 <= u < t ==> self.names()[u] != key@,
            decreases self.names@.len() - t,
        {
            if self.names[t] == owned {
                proof {
                    assert(self.names()[t as int] == key@);
                }
                return t;
            }
            t = t + 1;
        }
        let id = self.names.len();
        self.names.push(owned);
        proof {
            assert(!pre.names().contains(key@)) by {
                if pre.names().contains(key@) {
                    let u = choose|u: int| 0 <= u < pre.names().len() && pre.names()[u] == key@;
                }
            }
            assert(self.names() =~= pre.names().push(key@));
        }
        id
    }
}


impl FlagTable {
    /// The word range of the storage of the set of `k`.
    pub closed spec fn word_range(&self, k: (usize, usize)) -> (int, int) {
        let set = self.sets@[self.slot(k)].1;
        (set.word_start(), set.word_end())
    }

    /// Each pair of keys that has a set, once, with the word range of its
    /// storage.
    pub fn summary(&self) -> (r: Vec<((usize, usize), (usize, usize))>)
        requires
            self.wf(),
        ensures
            r@.len() == self.sets().dom().len(),
            forall|t: int| 0 <= t < r@.len() ==> self.sets().contains_key(#[trigger] r@[t].0),
            forall|k: (usize, usize)| self.sets().contains_key(k) ==> exists|t: int| 0 <= t < r@.len() && #[trigger] r@[t].0 == k,
            forall|t: int| 0 <= t < r@.len() ==> ((#[trigger] r@[t]).1.0 as int, r@[t].1.1 as int) == self.word_range(r@[t].0),
    {
        let mut r: Vec<((usize, usize), (usize, usize))> = Vec::new();
        let mut t: usize = 0;
        while t < self.sets.len()
            invariant
                self.wf(),
                t <= self.sets@.len(),
                r@.len() == t,
                forall|u: int| 0 <= u < t ==> (#[trigger] r@[u]).0 == self.sets@[u].0,
                forall|u: int| 0 <= u < t ==> ((#[trigger] r@[u]).1.0 as int, r@[u].1.1 as int) == self.word_range(r@[u].0),
            decreases self.sets@.len() - t,
        {
            proof {
                self.lemma_slot(t as int);
            }
            let range = self.sets[t].1.range();
            r.push((self.sets[t].0, range));
            t = t + 1;
        }
        proof {
            let keys = entry_keys(self.sets@);
            keys.unique_seq_to_set();
            assert forall|k: (usize, usize)| #[trigger] self.sets().dom().contains(k) == keys.to_set().contains(k) by {
                if self.sets().contains_key(k) {
                    let u = choose|u: int| 0 <= u < self.sets@.len() && #[trigger] self.sets@[u].0 == k;
                    assert(keys[u] == k);
                }
                if keys.to_set().contains(k) {
                    let u = choose|u: int| 0 <= u < keys.len() && keys[u] == k;
                    assert(self.sets@[u].0 == k);
                }
            }
            assert(self.sets().dom() =~= keys.to_set());
            assert forall|u: int| 0 <= u < r@.len() implies self.sets().contains_key(#[trigger] r@[u].0) by {
                self.lemma_slot(u);
            }
            assert forall|k: (usize, usize)| self.sets().contains_key(k) implies exists|u: int| 0 <= u < r@.len() && #[trigger] r@[u].0 == k by {
                let u = choose|u: int| 0 <= u < self.sets@.len() && #[trigger] self.sets@[u].0 == k;
                assert(r@[u].0 == k);
            }
        }
        r
    }

    /// The name that key `key` was made from, if any.
    pub fn name_of(&self, key: usize) -> (r: Option<String>)
        ensures
            match r {
                Some(s) => key < self.names().len() && s@ == self.names()[key as int],
                None => key >= self.names().len(),
            },
    {
        if key < self.names.len() {
            Some(self.names[key].clone())
        } else {
            None
        }
    }
}

/// The storage window `after` of the set `s`, after shrinking the window
/// `before`: an empty set keeps no words, from where its window started; any
/// other set starts and ends at words that hold members.
pub open spec fn cleaned_range(before: (int, int), s: Set<int>, after: (int, int)) -> bool {
    if s == Set::<int>::empty() {
        after == (before.0, before.0)
    } else {
        &&& exists|x: int| #[trigger] s.contains(x) && x / 64 == after.0
        &&& exists|x: int| #[trigger] s.contains(x) && x / 64 == after.1 - 1
    }
}

} // verus!
