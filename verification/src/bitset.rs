//! A set of `usize` ids stored as a window of 64-bit words that starts at
//! a word offset.

use std::rc::Rc;

use vstd::prelude::*;

use vstd::math::{max, min};

use crate::word_bits::{
    bit_of, lemma_bit_and, lemma_clear_lowest, lemma_bit_and_not, lemma_bit_high_mask, lemma_bit_low_mask,
    lemma_bit_or, lemma_bit_single, lemma_bit_test, lemma_bit_zero, lemma_id_split, lemma_word_zero, lemma_zero_word_ops,
};

verus! {

/// Number of 64-bit words needed to address every `usize` id.
pub open spec fn word_limit() -> int {
    usize::MAX as int / 64 + 1
}

/// Ids of the set bits of `w` at bit `j` or above, ascending, each offset by `base`.
pub open spec fn word_ids(w: u64, base: int, j: int) -> Seq<int>
    decreases 64 - j,
{
    if j < 0 || j >= 64 {
        Seq::empty()
    } else {
        let rest = word_ids(w, base, j + 1);
        if bit_of(w, j as u64) {
            seq![base + j].add(rest)
        } else {
            rest
        }
    }
}

/// Ids of the set bits of the words `bits[lo..hi]`, ascending, where the first
/// word has index `offset`.
pub open spec fn ids_range(bits: Seq<u64>, offset: int, lo: int, hi: int) -> Seq<int>
    decreases hi - lo,
{
    if hi <= lo {
        Seq::empty()
    } else {
        ids_range(bits, offset, lo, hi - 1).add(
            word_ids(bits[hi - 1], (offset + hi - 1) * 64, 0),
        )
    }
}

/// A sequence of ids in strictly ascending order.
pub open spec fn ascending(s: Seq<int>) -> bool {
    forall|a: int, b: int| 0 <= a < b < s.len() ==> s[a] < s[b]
}

proof fn lemma_word_ids(w: u64, base: int, j: int)
    requires
        0 <= j <= 64,
    ensures
        ascending(word_ids(w, base, j)),
        forall|k: int|
            0 <= k < word_ids(w, base, j).len() ==> j <= #[trigger] word_ids(w, base, j)[k] - base
                < 64 && bit_of(w, (word_ids(w, base, j)[k] - base) as u64),
        forall|t: int| j <= t < 64 && #[trigger] bit_of(w, t as u64) ==> word_ids(w, base, j).contains(base + t),
    decreases 64 - j,
{
    if j < 64 {
        lemma_word_ids(w, base, j + 1);
        let rest = word_ids(w, base, j + 1);
        if bit_of(w, j as u64) {
            let s = seq![base + j].add(rest);
            assert forall|t: int| j <= t < 64 && #[trigger] bit_of(w, t as u64) implies s.contains(base + t) by {
                if t == j {
                    assert(s[0] == base + t);
                } else {
                    let k = choose|k: int| 0 <= k < rest.len() && rest[k] == base + t;
                    assert(s[k + 1] == base + t);
                }
            }
        }
    }
}

/// Words that agree on the bits at `j` and above list the same ids from `j`.
proof fn lemma_word_ids_agree(w1: u64, w2: u64, base: int, j: int)
    requires
        0 <= j <= 64,
        forall|k: u64| j <= k < 64 ==> #[trigger] bit_of(w1, k) == bit_of(w2, k),
    ensures
        word_ids(w1, base, j) == word_ids(w2, base, j),
    decreases 64 - j,
{
    if j < 64 {
        lemma_word_ids_agree(w1, w2, base, j + 1);
        assert(bit_of(w1, j as u64) == bit_of(w2, j as u64));
    }
}

/// Clear bits below `t` add nothing to the listing.
proof fn lemma_word_ids_skip(w: u64, base: int, j: int, t: int)
    requires
        0 <= j <= t <= 64,
        forall|k: u64| j <= k < t ==> !#[trigger] bit_of(w, k),
    ensures
        word_ids(w, base, j) == word_ids(w, base, t),
    decreases t - j,
{
    if j < t {
        assert(!bit_of(w, j as u64));
        lemma_word_ids_skip(w, base, j + 1, t);
    }
}

/// The listing of a word starts with its lowest set bit.
proof fn lemma_word_ids_step(w: u64, base: int)
    requires
        w != 0,
    ensures
        word_ids(w, base, 0) == seq![base + w.trailing_zeros()].add(
            word_ids(w & ((w - 1) as u64), base, 0),
        ),
        w & ((w - 1) as u64) < w,
{
    vstd::std_specs::bits::axiom_u64_trailing_zeros(w);
    let t = w.trailing_zeros() as u64;
    let w2 = w & ((w - 1) as u64);
    assert(w << ((64u64 - t) as u64) == 0);
    assert forall|k: u64| k < 64 implies #[trigger] bit_of(w2, k) == (bit_of(w, k) && k != t)
        && (k < t ==> !bit_of(w, k)) by {
        lemma_clear_lowest(w, t, k);
    }
    lemma_clear_lowest(w, t, 0);
    lemma_word_ids_skip(w, base, 0, t as int);
    assert forall|k: u64| 0 <= k < t + 1 implies !#[trigger] bit_of(w2, k) by {
        assert(bit_of(w2, k) == (bit_of(w, k) && k != t));
    }
    lemma_word_ids_skip(w2, base, 0, t + 1);
    assert forall|k: u64| t + 1 <= k < 64 implies #[trigger] bit_of(w, k) == bit_of(w2, k) by {
        assert(bit_of(w2, k) == (bit_of(w, k) && k != t));
    }
    lemma_word_ids_agree(w, w2, base, t + 1);
}

proof fn lemma_word_ids_zero(base: int, j: int)
    requires
        0 <= j <= 64,
    ensures
        word_ids(0u64, base, j) == Seq::<int>::empty(),
    decreases 64 - j,
{
    if j < 64 {
        lemma_bit_zero(j as u64);
        lemma_word_ids_zero(base, j + 1);
    }
}

/// Splitting the listing of a window of words at its first word.
proof fn lemma_ids_range_front(bits: Seq<u64>, offset: int, lo: int, hi: int)
    requires
        0 <= lo < hi <= bits.len(),
    ensures
        ids_range(bits, offset, lo, hi) == word_ids(bits[lo], (offset + lo) * 64, 0).add(
            ids_range(bits, offset, lo + 1, hi),
        ),
    decreases hi - lo,
{
    if hi - 1 == lo {
        assert(ids_range(bits, offset, lo, lo) == Seq::<int>::empty());
        assert(ids_range(bits, offset, lo + 1, hi) == Seq::<int>::empty());
        assert(ids_range(bits, offset, lo, hi) =~= word_ids(bits[lo], (offset + lo) * 64, 0).add(
            ids_range(bits, offset, lo + 1, hi),
        ));
    } else {
        lemma_ids_range_front(bits, offset, lo, hi - 1);
        let last = word_ids(bits[hi - 1], (offset + hi - 1) * 64, 0);
        assert(ids_range(bits, offset, lo, hi) =~= word_ids(bits[lo], (offset + lo) * 64, 0).add(
            ids_range(bits, offset, lo + 1, hi),
        ));
    }
}

/// The listing of a window of words: ascending, inside the window, and
/// exactly the set bits.
proof fn lemma_ids_range(bits: Seq<u64>, offset: int, lo: int, hi: int)
    requires
        0 <= lo <= hi <= bits.len(),
        0 <= offset,
    ensures
        ascending(ids_range(bits, offset, lo, hi)),
        forall|k: int|
            0 <= k < ids_range(bits, offset, lo, hi).len() ==> {
                let x = #[trigger] ids_range(bits, offset, lo, hi)[k];
                &&& (offset + lo) * 64 <= x < (offset + hi) * 64
                &&& bit_of(bits[x / 64 - offset], (x % 64) as u64)
            },
        forall|x: int|
            (offset + lo) * 64 <= x < (offset + hi) * 64 && bit_of(
                bits[x / 64 - offset],
                (x % 64) as u64,
            ) ==> #[trigger] ids_range(bits, offset, lo, hi).contains(x),
    decreases hi - lo,
{
    if lo < hi {
        lemma_ids_range(bits, offset, lo, hi - 1);
        let base = (offset + hi - 1) * 64;
        let w = bits[hi - 1];
        lemma_word_ids(w, base, 0);
        let a = ids_range(bits, offset, lo, hi - 1);
        let b = word_ids(w, base, 0);
        let s = a.add(b);
        assert forall|k: int| 0 <= k < b.len() implies {
            let x = #[trigger] b[k];
            &&& x / 64 == offset + hi - 1
            &&& x % 64 == x - base
        } by {
            let x = b[k];
            assert(0 <= x - base < 64);
        }
        assert forall|k: int| 0 <= k < s.len() implies {
            let x = #[trigger] s[k];
            &&& (offset + lo) * 64 <= x < (offset + hi) * 64
            &&& bit_of(bits[x / 64 - offset], (x % 64) as u64)
        } by {
            if k >= a.len() {
                assert(s[k] == b[k - a.len()]);
            } else {
                assert(s[k] == a[k]);
            }
        }
        assert forall|p: int, q: int| 0 <= p < q < s.len() implies s[p] < s[q] by {
            if q < a.len() {
            } else if p >= a.len() {
                assert(s[p] == b[p - a.len()]);
                assert(s[q] == b[q - a.len()]);
            } else {
                assert(s[p] == a[p]);
                assert(s[q] == b[q - a.len()]);
            }
        }
        assert forall|x: int|
            (offset + lo) * 64 <= x < (offset + hi) * 64 && bit_of(
                bits[x / 64 - offset],
                (x % 64) as u64,
            ) implies #[trigger] s.contains(x) by {
            if x < (offset + hi - 1) * 64 {
                assert(a.contains(x));
                let k = choose|k: int| 0 <= k < a.len() && a[k] == x;
                assert(s[k] == x);
            } else {
                assert(x / 64 == offset + hi - 1);
                let t = x - base;
                assert(x % 64 == t);
                assert(b.contains(base + t));
                let k = choose|k: int| 0 <= k < b.len() && b[k] == base + t;
                assert(s[k + a.len()] == x);
            }
        }
    }
}

/// Bitset, mapping indices to boolean flags
///
/// ```plain
///        | <-------  word  --------> | <-------  word  --------> | ...
/// (mask) | 1<<0 1<<1 ... 1<<62 1<<63 | 1<<0 1<<1 ... 1<<62 1<<63 | ...
/// ```
#[derive(Clone, Debug)]
pub struct OffsetBitSet {
    /// First word index, e.g. `offset = 3` indicates the id of the first bit is `3 * 64 = 192`
    offset: usize,
    /// Bit flags
    bits: Vec<u64>,
}

impl OffsetBitSet {
    /// First word index of the stored window.
    pub closed spec fn word_start(&self) -> int {
        self.offset as int
    }

    /// One past the last word index of the stored window.
    pub closed spec fn word_end(&self) -> int {
        self.offset + self.bits@.len()
    }

    /// The window of words fits the addressable ids.
    pub closed spec fn wf(&self) -> bool {
        self.word_end() <= word_limit()
    }

    /// The stored word with index `w`, zero outside the window.
    pub closed spec fn word_at(&self, w: int) -> u64 {
        if self.offset <= w < self.offset + self.bits@.len() {
            self.bits@[w - self.offset]
        } else {
            0u64
        }
    }

    /// The members in ascending order.
    pub closed spec fn ids(&self) -> Seq<int> {
        ids_range(self.bits@, self.offset as int, 0, self.bits@.len() as int)
    }

    /// Whether id `id` is a member.
    pub closed spec fn has(&self, id: int) -> bool {
        0 <= id && bit_of(self.word_at(id / 64), (id % 64) as u64)
    }
}

/// Two bitsets with the same words hold the same ids.
pub proof fn lemma_same_words(a: OffsetBitSet, b: OffsetBitSet)
    requires
        forall|w: int| a.word_at(w) == b.word_at(w),
    ensures
        a@ == b@,
{
    assert(a@ =~= b@);
}

/// Or-ing the words of two bitsets unites their ids.
pub proof fn lemma_union_words(r: OffsetBitSet, a: OffsetBitSet, b: OffsetBitSet)
    requires
        forall|w: int| r.word_at(w) == a.word_at(w) | b.word_at(w),
    ensures
        r@ == a@.union(b@),
{
    assert forall|x: int| #[trigger] r@.contains(x) == a@.union(b@).contains(x) by {
        if 0 <= x {
            lemma_bit_or(a.word_at(x / 64), b.word_at(x / 64), (x % 64) as u64);
        }
        assert(r@.contains(x) == r.has(x));
        assert(a@.contains(x) == a.has(x));
        assert(b@.contains(x) == b.has(x));
    }
    assert(r@ =~= a@.union(b@));
}

/// Masking the words of one bitset by the complement of another's
/// removes the other's ids.
pub proof fn lemma_difference_words(r: OffsetBitSet, a: OffsetBitSet, b: OffsetBitSet)
    requires
        forall|w: int| r.word_at(w) == a.word_at(w) & !b.word_at(w),
    ensures
        r@ == a@.difference(b@),
{
    assert forall|x: int| #[trigger] r@.contains(x) == a@.difference(b@).contains(x) by {
        if 0 <= x {
            lemma_bit_and_not(a.word_at(x / 64), b.word_at(x / 64), (x % 64) as u64);
        }
        assert(r@.contains(x) == r.has(x));
        assert(a@.contains(x) == a.has(x));
        assert(b@.contains(x) == b.has(x));
    }
    assert(r@ =~= a@.difference(b@));
}

/// The stored window of words starts no later than it ends.
pub proof fn lemma_window_ordered(s: OffsetBitSet)
    ensures
        s.word_start() <= s.word_end(),
{
}

/// Every member lies in a word of the stored window.
pub proof fn lemma_view_in_window(s: OffsetBitSet)
    ensures
        forall|x: int| #[trigger] s@.contains(x) ==> 0 <= x && s.word_start() <= x / 64 < s.word_end(),
{
    assert forall|x: int| #[trigger] s@.contains(x) implies 0 <= x && s.word_start() <= x / 64
        < s.word_end() by {
        assert(s.has(x));
        if !(s.word_start() <= x / 64 < s.word_end()) {
            lemma_bit_zero((x % 64) as u64);
        }
    }
}

/// The ascending listing of a bitset holds exactly its members, each an
/// id that fits in `usize`.
pub proof fn lemma_ids(s: OffsetBitSet)
    requires
        s.wf(),
    ensures
        ascending(s.ids()),
        forall|x: int| #[trigger] s.ids().contains(x) == s@.contains(x),
        forall|k: int| 0 <= k < s.ids().len() ==> 0 <= #[trigger] s.ids()[k] <= usize::MAX,
{
    let n = s.bits@.len() as int;
    lemma_ids_range(s.bits@, s.offset as int, 0, n);
    assert forall|x: int| #[trigger] s.ids().contains(x) == s@.contains(x) by {
        assert(s@.contains(x) == s.has(x));
        if s.ids().contains(x) {
            let k = choose|k: int| 0 <= k < s.ids().len() && s.ids()[k] == x;
        }
        if s.has(x) {
            lemma_view_in_window(s);
            assert(s@.contains(x));
        }
    }
}

/// Membership of an id is the bit of its word.
pub proof fn lemma_has(s: OffsetBitSet, id: int)
    requires
        0 <= id,
    ensures
        s@.contains(id) == bit_of(s.word_at(id / 64), (id % 64) as u64),
{
}

impl View for OffsetBitSet {
    type V = Set<int>;

    closed spec fn view(&self) -> Set<int> {
        Set::new(|id: int| self.has(id))
    }
}

impl OffsetBitSet {
    /// Creates an empty [`OffsetBitSet`].
    pub fn new() -> (s: Self)
        ensures
            s.wf(),
            s@ == Set::<int>::empty(),
            s.word_start() == 0,
            s.word_end() == 0,
    {
        let s = OffsetBitSet { offset: 0, bits: Vec::new() };
        proof {
            assert forall|id: int| !s.has(id) by {
                if 0 <= id {
                    lemma_bit_zero((id % 64) as u64);
                }
            }
            assert(s@ =~= Set::<int>::empty());
        }
        s
    }

    /// Returns the bit mask corresponding to the given bit id within its word.
    fn bit_mask(id: usize) -> (m: u64)
        ensures
            m == 1u64 << ((id % 64) as u64),
            forall|j: u64| j < 64 ==> #[trigger] bit_of(m, j) == (j == (id % 64) as u64),
    {
        proof {
            lemma_id_split(id);
            assert forall|j: u64| j < 64 implies #[trigger] bit_of(1u64 << ((id % 64) as u64), j)
                == (j == (id % 64) as u64) by {
                lemma_bit_single((id % 64) as u64, j);
            }
        }
        1u64 << ((id & 63) as u64)
    }

    /// Checks whether the given id is set in the bitset.
    pub fn contains(&self, id: usize) -> (r: bool)
        ensures
            r == self@.contains(id as int),
    {
        proof {
            lemma_id_split(id);
            lemma_has(*self, id as int);
        }
        let word = id >> 6;
        if word < self.offset {
            proof {
                lemma_bit_zero((id % 64) as u64);
            }
            return false;
        }
        let index = word - self.offset;
        if index >= self.bits.len() {
            proof {
                lemma_bit_zero((id % 64) as u64);
            }
            return false;
        }
        proof {
            lemma_bit_test(self.bits@[index as int], (id % 64) as u64);
        }
        self.bits[index] & Self::bit_mask(id) != 0
    }

    /// Removes the given id from the bitset.
    ///
    /// Returns `true` if the bit was set before removal, or `false` if the id
    /// was not present.
    pub fn take(&mut self, id: usize) -> (existed: bool)
        requires
            old(self).wf(),
        ensures
            final(self).wf(),
            existed == old(self)@.contains(id as int),
            final(self)@ == old(self)@.remove(id as int),
            final(self).word_start() == old(self).word_start(),
            final(self).word_end() == old(self).word_end(),
    {
        proof {
            lemma_id_split(id);
            lemma_has(*self, id as int);
        }
        let word = id >> 6;
        if word < self.offset {
            proof {
                lemma_bit_zero((id % 64) as u64);
                assert(self@ =~= self@.remove(id as int));
            }
            return false;
        }
        let index = word - self.offset;
        if index >= self.bits.len() {
            proof {
                lemma_bit_zero((id % 64) as u64);
                assert(self@ =~= self@.remove(id as int));
            }
            return false;
        }
        let mask = Self::bit_mask(id);
        let old_word = self.bits[index];
        let existed = old_word & mask != 0;
        proof {
            lemma_bit_test(old_word, (id % 64) as u64);
        }
        self.bits.set(index, old_word & !mask);
        proof {
            let ghost pre = *old(self);
            assert forall|x: int| self.has(x) == (pre.has(x) && x != id as int) by {
                if 0 <= x {
                    let j = (x % 64) as u64;
                    if x / 64 == word as int {
                        lemma_bit_and_not(old_word, mask, j);
                    }
                }
            }
            assert(self@ =~= pre@.remove(id as int));
        }
        existed
    }

    /// Inserts the given id into the bitset.
    ///
    /// The bitset is expanded if the id is outside the current range.
    /// If the id is before the current offset, the internal storage is shifted
    /// to include the new word range.
    pub fn insert(&mut self, id: usize)
        requires
            old(self).wf(),
        ensures
            final(self).wf(),
            final(self)@ == old(self)@.insert(id as int),
            old(self).word_start() == old(self).word_end() ==> final(self).word_start() == id
                as int / 64 && final(self).word_end() == id as int / 64 + 1,
            old(self).word_start() < old(self).word_end() ==> final(self).word_start() == min(
                old(self).word_start(),
                id as int / 64,
            ) && final(self).word_end() == max(old(self).word_end(), id as int / 64 + 1),
    {
        proof {
            lemma_id_split(id);
        }
        let ghost pre = *old(self);
        let word = id >> 6;
        if self.bits.len() == 0 {
            self.offset = word;
            self.bits.push(0);
        }
        assert(forall|w: int| self.word_at(w) == pre.word_at(w));
        assert(self.word_start() <= word as int || pre.word_start() < pre.word_end());
        if word < self.offset {
            let word_shift = self.offset - word;
            let len = self.bits.len();
            let mut new_bits: Vec<u64> = Vec::new();
            let mut i: usize = 0;
            while i < word_shift
                invariant
                    i <= word_shift,
                    new_bits@.len() == i,
                    forall|k: int| 0 <= k < i ==> new_bits@[k] == 0u64,
                decreases word_shift - i,
            {
                new_bits.push(0u64);
                i = i + 1;
            }
            let mut k: usize = 0;
            while k < len
                invariant
                    k <= len,
                    len == self.bits@.len(),
                    new_bits@.len() == word_shift + k,
                    forall|t: int| 0 <= t < word_shift ==> new_bits@[t] == 0u64,
                    forall|t: int| 0 <= t < k ==> new_bits@[word_shift + t] == self.bits@[t],
                decreases len - k,
            {
                new_bits.push(self.bits[k]);
                k = k + 1;
            }
            let ghost mid = *self;
            self.bits = new_bits;
            self.offset = word;
            assert forall|w: int| self.word_at(w) == mid.word_at(w) by {
                if mid.offset <= w < mid.offset + mid.bits@.len() {
                    assert(self.bits@[w - self.offset] == mid.bits@[w - mid.offset]);
                }
            }
        }
        let index = word - self.offset;
        if index >= self.bits.len() {
            let ghost mid = *self;
            while self.bits.len() <= index
                invariant
                    mid.bits@.len() <= self.bits@.len() <= index + 1,
                    self.offset == mid.offset,
                    forall|t: int| 0 <= t < mid.bits@.len() ==> self.bits@[t] == mid.bits@[t],
                    forall|t: int| mid.bits@.len() <= t < self.bits@.len() ==> self.bits@[t] == 0u64,
                decreases index + 1 - self.bits@.len(),
            {
                self.bits.push(0u64);
            }
            assert forall|w: int| self.word_at(w) == mid.word_at(w) by {}
        }
        let ghost mid = *self;
        let mask = Self::bit_mask(id);
        let old_word = self.bits[index];
        self.bits.set(index, old_word | mask);
        proof {
            assert forall|w: int| w != word as int implies self.word_at(w) == pre.word_at(w) by {
                assert(self.word_at(w) == mid.word_at(w));
            }
            assert forall|x: int| self.has(x) == (pre.has(x) || x == id as int) by {
                if 0 <= x {
                    let j = (x % 64) as u64;
                    if x / 64 == word as int {
                        lemma_bit_or(old_word, mask, j);
                    }
                }
            }
            assert forall|x: int| #[trigger] self@.contains(x) == pre@.insert(id as int).contains(
                x,
            ) by {
                assert(self@.contains(x) == self.has(x));
                assert(pre@.contains(x) == pre.has(x));
            }
            assert(self@ =~= pre@.insert(id as int));
        }
    }

    /// Merges all bits from `other` into this bitset.
    ///
    /// The resulting bitset contains every bit that was set in either `self` or
    /// `other`. The internal storage is expanded when necessary.
    pub fn union_with(&mut self, other: &Self)
        requires
            old(self).wf(),
            other.wf(),
        ensures
            final(self).wf(),
            final(self)@ == old(self)@.union(other@),
            other.word_start() == other.word_end() ==> final(self).word_start() == old(self).word_start()
                && final(self).word_end() == old(self).word_end(),
            other.word_start() < other.word_end() && old(self).word_start() == old(self).word_end()
                ==> final(self).word_start() == other.word_start() && final(self).word_end()
                == other.word_end(),
            other.word_start() < other.word_end() && old(self).word_start() < old(self).word_end()
                ==> final(self).word_start() == min(old(self).word_start(), other.word_start())
                && final(self).word_end() == max(old(self).word_end(), other.word_end()),
    {
        let ghost pre = *old(self);
        if other.bits.len() == 0 {
            proof {
                assert forall|w: int| #[trigger] self.word_at(w) == pre.word_at(w) | other.word_at(w) by {
                    lemma_zero_word_ops(pre.word_at(w));
                }
                lemma_union_words(*self, pre, *other);
            }
            return;
        }
        if self.bits.len() == 0 {
            let bits = other.bits.clone();
            *self = OffsetBitSet { offset: other.offset, bits };
            proof {
                assert(self.bits@ =~= other.bits@);
                assert forall|w: int| #[trigger] self.word_at(w) == pre.word_at(w) | other.word_at(w) by {
                    lemma_zero_word_ops(other.word_at(w));
                }
                lemma_union_words(*self, pre, *other);
            }
            return;
        }
        let self_end = self.offset + self.bits.len();
        let other_end = other.offset + other.bits.len();

        // `other` is fully contained inside `self`
        if self.offset <= other.offset && self_end >= other_end {
            let offset = other.offset - self.offset;
            let n = other.bits.len();
            let slen = self.bits.len();
            let mut i: usize = 0;
            while i < n
                invariant
                    i <= n,
                    slen == self.bits@.len(),
                    n == other.bits@.len(),
                    offset == other.offset - pre.offset,
                    offset + n <= pre.bits@.len(),
                    self.offset == pre.offset,
                    self.bits@.len() == pre.bits@.len(),
                    forall|t: int|
                        0 <= t < self.bits@.len() ==> #[trigger] self.bits@[t] == if offset <= t
                            < offset + i {
                            pre.bits@[t] | other.bits@[t - offset]
                        } else {
                            pre.bits@[t]
                        },
                decreases n - i,
            {
                let v = self.bits[offset + i];
                self.bits.set(offset + i, v | other.bits[i]);
                i = i + 1;
            }
            proof {
                assert forall|w: int| #[trigger] self.word_at(w) == pre.word_at(w) | other.word_at(w) by {
                    lemma_zero_word_ops(pre.word_at(w));
                }
                lemma_union_words(*self, pre, *other);
            }
            return;
        }
        let new_offset = if self.offset < other.offset {
            self.offset
        } else {
            other.offset
        };
        let new_end = if self_end > other_end {
            self_end
        } else {
            other_end
        };
        let n = new_end - new_offset;
        let mut new_bits: Vec<u64> = Vec::new();
        let mut i: usize = 0;
        while i < n
            invariant
                i <= n,
                new_bits@.len() == i,
                forall|t: int| 0 <= t < i ==> new_bits@[t] == 0u64,
            decreases n - i,
        {
            new_bits.push(0u64);
            i = i + 1;
        }
        let so = self.offset - new_offset;
        let sn = self.bits.len();
        let mut i: usize = 0;
        while i < sn
            invariant
                i <= sn,
                sn == pre.bits@.len(),
                so == pre.offset - new_offset,
                so + sn <= n,
                new_bits@.len() == n,
                *self == pre,
                forall|t: int|
                    0 <= t < n ==> #[trigger] new_bits@[t] == if so <= t < so + i {
                        pre.bits@[t - so]
                    } else {
                        0u64
                    },
            decreases sn - i,
        {
            let v = new_bits[so + i];
            proof {
                lemma_zero_word_ops(self.bits@[i as int]);
            }
            new_bits.set(so + i, v | self.bits[i]);
            i = i + 1;
        }
        let oo = other.offset - new_offset;
        let on = other.bits.len();
        let mut i: usize = 0;
        while i < on
            invariant
                i <= on,
                on == other.bits@.len(),
                oo == other.offset - new_offset,
                oo + on <= n,
                new_bits@.len() == n,
                forall|t: int|
                    0 <= t < n ==> #[trigger] new_bits@[t] == if oo <= t < oo + i {
                        pre.word_at(new_offset + t) | other.bits@[t - oo]
                    } else {
                        pre.word_at(new_offset + t)
                    },
            decreases on - i,
        {
            let v = new_bits[oo + i];
            new_bits.set(oo + i, v | other.bits[i]);
            i = i + 1;
        }
        self.offset = new_offset;
        self.bits = new_bits;
        proof {
            assert forall|w: int| #[trigger] self.word_at(w) == pre.word_at(w) | other.word_at(w) by {
                lemma_zero_word_ops(pre.word_at(w));
                lemma_zero_word_ops(0u64);
            }
            lemma_union_words(*self, pre, *other);
        }
    }

    /// Removes all bits from `self` that are also set in `other`.
    ///
    /// The resulting bitset contains `self \ other`.
    pub fn difference_with(&mut self, other: &Self)
        requires
            old(self).wf(),
            other.wf(),
        ensures
            final(self).wf(),
            final(self)@ == old(self)@.difference(other@),
            final(self).word_start() == old(self).word_start(),
            final(self).word_end() == old(self).word_end(),
    {
        let ghost pre = *old(self);
        if self.bits.len() == 0 || other.bits.len() == 0 {
            proof {
                assert forall|w: int| #[trigger] self.word_at(w) == pre.word_at(w) & !other.word_at(w) by {
                    lemma_zero_word_ops(pre.word_at(w));
                    lemma_zero_word_ops(!other.word_at(w));
                }
                lemma_difference_words(*self, pre, *other);
            }
            return;
        }
        let self_end = self.offset + self.bits.len();
        let other_end = other.offset + other.bits.len();

        // No overlap between the two ranges.
        if self_end <= other.offset || other_end <= self.offset {
            proof {
                assert forall|w: int| #[trigger] self.word_at(w) == pre.word_at(w) & !other.word_at(w) by {
                    lemma_zero_word_ops(pre.word_at(w));
                    lemma_zero_word_ops(!other.word_at(w));
                }
                lemma_difference_words(*self, pre, *other);
            }
            return;
        }
        let start = if self.offset > other.offset {
            self.offset
        } else {
            other.offset
        };
        let end = if self_end < other_end {
            self_end
        } else {
            other_end
        };
        let self_offset = start - self.offset;
        let other_offset = start - other.offset;
        let n = end - start;
        let mut i: usize = 0;
        while i < n
            invariant
                i <= n,
                n == end - start,
                self_offset == start - pre.offset,
                other_offset == start - other.offset,
                self_offset + n <= pre.bits@.len(),
                other_offset + n <= other.bits@.len(),
                self.offset == pre.offset,
                self.bits@.len() == pre.bits@.len(),
                forall|t: int|
                    0 <= t < self.bits@.len() ==> #[trigger] self.bits@[t] == if self_offset <= t
                        < self_offset + i {
                        pre.bits@[t] & !other.bits@[t - self_offset + other_offset]
                    } else {
                        pre.bits@[t]
                    },
            decreases n - i,
        {
            let v = self.bits[self_offset + i];
            self.bits.set(self_offset + i, v & !other.bits[other_offset + i]);
            i = i + 1;
        }
        proof {
            assert forall|w: int| #[trigger] self.word_at(w) == pre.word_at(w) & !other.word_at(w) by {
                lemma_zero_word_ops(pre.word_at(w));
                lemma_zero_word_ops(!other.word_at(w));
            }
            lemma_difference_words(*self, pre, *other);
        }
    }

    /// Removes unused leading and trailing zero words from the bitset.
    ///
    /// After cleanup, `offset` points to the first word that contains a set bit,
    /// and the internal storage contains no redundant zero words at either end.
    pub fn cleanup(&mut self)
        requires
            old(self).wf(),
        ensures
            final(self).wf(),
            final(self)@ == old(self)@,
            final(self)@ == Set::<int>::empty() ==> final(self).word_start() == old(self).word_start()
                && final(self).word_end() == old(self).word_start(),
            final(self)@ != Set::<int>::empty() ==> (exists|x: int| #[trigger]
                final(self)@.contains(x) && x / 64 == final(self).word_start()) && (exists|x: int|
                #[trigger] final(self)@.contains(x) && x / 64 == final(self).word_end() - 1),
    {
        let ghost pre = *old(self);
        // remove trailing zero words
        while self.bits.len() > 0 && self.bits[self.bits.len() - 1] == 0
            invariant
                self.offset == pre.offset,
                self.bits@.len() <= pre.bits@.len(),
                forall|t: int| 0 <= t < self.bits@.len() ==> self.bits@[t] == pre.bits@[t],
                forall|t: int| self.bits@.len() <= t < pre.bits@.len() ==> pre.bits@[t] == 0u64,
            decreases self.bits@.len(),
        {
            self.bits.pop();
        }
        // remove leading zero words
        let len = self.bits.len();
        let mut leading: usize = 0;
        while leading < len && self.bits[leading] == 0
            invariant
                leading <= len,
                len == self.bits@.len(),
                forall|t: int| 0 <= t < leading ==> self.bits@[t] == 0u64,
            decreases len - leading,
        {
            leading = leading + 1;
        }
        let ghost mid = *self;
        assert forall|w: int| #[trigger] mid.word_at(w) == pre.word_at(w) by {}
        if leading > 0 {
            let mut new_bits: Vec<u64> = Vec::new();
            let mut k: usize = leading;
            while k < len
                invariant
                    leading <= k <= len,
                    len == self.bits@.len(),
                    new_bits@.len() == k - leading,
                    forall|t: int| 0 <= t < k - leading ==> new_bits@[t] == self.bits@[t + leading],
                decreases len - k,
            {
                new_bits.push(self.bits[k]);
                k = k + 1;
            }
            self.bits = new_bits;
            self.offset = self.offset + leading;
            assert forall|w: int| #[trigger] self.word_at(w) == mid.word_at(w) by {
                if mid.offset <= w < mid.offset + leading {
                    assert(mid.bits@[w - mid.offset] == 0u64);
                }
            }
        }
        proof {
            assert forall|w: int| #[trigger] self.word_at(w) == pre.word_at(w) by {
                assert(self.word_at(w) == mid.word_at(w));
            }
            lemma_same_words(*self, pre);
            if self.bits@.len() > 0 {
                let first = self.bits@[0];
                let last = self.bits@[self.bits@.len() - 1];
                lemma_word_zero(first);
                lemma_word_zero(last);
                let j0 = choose|j: u64| j < 64 && bit_of(first, j);
                let j1 = choose|j: u64| j < 64 && bit_of(last, j);
                let x0 = self.offset * 64 + j0;
                let x1 = (self.offset + self.bits@.len() - 1) * 64 + j1;
                assert(x0 / 64 == self.offset && x0 % 64 == j0);
                assert(x1 / 64 == self.offset + self.bits@.len() - 1 && x1 % 64 == j1);
                assert(self.has(x0));
                assert(self.has(x1));
                assert(self@.contains(x0));
                assert(self@.contains(x1));
                assert(self@ != Set::<int>::empty());
            } else {
                assert forall|x: int| !self.has(x) by {
                    if 0 <= x {
                        lemma_bit_zero((x % 64) as u64);
                    }
                }
                assert(self@ =~= Set::<int>::empty());
            }
        }
    }

    /// Trims the bitset to the given bit-id range `[start, end)`.
    ///
    /// Bits outside the range are removed. The internal storage is also adjusted
    /// so that its range only covers the specified interval.
    ///
    /// If `start >= end`, the bitset becomes empty.
    pub fn trim(&mut self, start: usize, end: usize)
        requires
            old(self).wf(),
        ensures
            final(self).wf(),
            final(self)@ == old(self)@.filter(|x: int| start <= x < end),
            ({
                let sw = start as int / 64;
                let ew = (end - 1) / 64;
                let pre_start = old(self).word_start();
                let pre_end = old(self).word_end();
                if pre_start == pre_end || start >= end || ew < pre_start || sw >= pre_end {
                    final(self).word_start() == 0 && final(self).word_end() == 0
                } else {
                    &&& final(self).word_start() == max(pre_start, sw)
                    &&& final(self).word_end() == min(pre_end, ew + 1)
                }
            }),
    {
        let ghost pre = *old(self);
        let ghost target = pre@.filter(|x: int| start <= x < end);
        proof {
            lemma_view_in_window(pre);
        }
        if self.bits.len() == 0 || start >= end {
            self.bits.clear();
            self.offset = 0;
            proof {
                assert forall|x: int| !self.has(x) by {
                    if 0 <= x {
                        lemma_bit_zero((x % 64) as u64);
                    }
                }
                assert(self@ =~= target);
            }
            return;
        }
        proof {
            lemma_id_split(start);
            lemma_id_split((end - 1) as usize);
            lemma_id_split(end);
        }
        let start_word = start >> 6;
        let end_word = (end - 1) >> 6;
        let self_end = self.offset + self.bits.len();

        // No overlap with [start_word, end_word].
        if end_word < self.offset || start_word >= self_end {
            self.bits.clear();
            self.offset = 0;
            proof {
                assert forall|x: int| !self.has(x) by {
                    if 0 <= x {
                        lemma_bit_zero((x % 64) as u64);
                    }
                }
                assert(self@ =~= target);
            }
            return;
        }
        let new_offset = if self.offset > start_word {
            self.offset
        } else {
            start_word
        };
        let new_end = if self_end < end_word + 1 {
            self_end
        } else {
            end_word + 1
        };
        let begin = new_offset - self.offset;
        let len = new_end - new_offset;

        // Keep only the overlapping words.
        let slen = self.bits.len();
        let mut new_bits: Vec<u64> = Vec::new();
        let mut k: usize = 0;
        while k < len
            invariant
                k <= len,
                slen == self.bits@.len(),
                begin + len <= slen,
                new_bits@.len() == k,
                forall|t: int| 0 <= t < k ==> new_bits@[t] == self.bits@[t + begin],
            decreases len - k,
        {
            new_bits.push(self.bits[begin + k]);
            k = k + 1;
        }
        self.bits = new_bits;
        self.offset = new_offset;
        let ghost copied = *self;
        assert forall|w: int| new_offset <= w < new_end implies #[trigger] copied.word_at(w)
            == pre.word_at(w) by {}

        // Clear bits before `start`.
        let sbit = start & 63;
        if start_word == self.offset {
            if sbit != 0 {
                let v = self.bits[0];
                self.bits.set(0, v & (0xffff_ffff_ffff_ffffu64 << (sbit as u64)));
            }
        }
        let ghost mid = *self;
        // Clear bits at or after `end`.
        let ebit = end & 63;
        if end_word == self.offset + self.bits.len() - 1 {
            if ebit != 0 {
                let last = self.bits.len() - 1;
                let v = self.bits[last];
                proof {
                    lemma_bit_low_mask(ebit as u64, 0);
                }
                self.bits.set(last, v & ((1u64 << (ebit as u64)) - 1));
            }
        }
        proof {
            assert forall|x: int| #[trigger] self@.contains(x) == target.contains(x) by {
                assert(self@.contains(x) == self.has(x));
                assert(pre@.contains(x) == pre.has(x));
                if 0 <= x {
                    let w = x / 64;
                    let j = (x % 64) as u64;
                    if new_offset <= w < new_end {
                        let c = copied.word_at(w);
                        let m = mid.word_at(w);
                        if w == start_word && sbit != 0 {
                            lemma_bit_and(c, 0xffff_ffff_ffff_ffffu64 << (sbit as u64), j);
                            lemma_bit_high_mask(sbit as u64, j);
                        } else {
                            assert(m == c);
                        }
                        if w == end_word && ebit != 0 {
                            lemma_bit_and(m, ((1u64 << (ebit as u64)) - 1) as u64, j);
                            lemma_bit_low_mask(ebit as u64, j);
                        } else {
                            assert(self.word_at(w) == m);
                        }
                    } else {
                        lemma_bit_zero(j);
                    }
                }
            }
            assert(self@ =~= target);
        }
    }

    /// Get the range of word index
    pub fn range(&self) -> (r: (usize, usize))
        requires
            self.wf(),
        ensures
            r.0 == self.word_start(),
            r.1 == self.word_end(),
            r.0 <= r.1,
            forall|x: int| #[trigger] self@.contains(x) ==> r.0 <= x / 64 < r.1,
    {
        proof {
            lemma_view_in_window(*self);
            lemma_window_ordered(*self);
        }
        (self.offset, self.offset + self.bits.len())
    }
}

impl OffsetBitSet {
    /// Returns all set bit ids in ascending order.
    pub fn iter(&self) -> (r: Vec<usize>)
        requires
            self.wf(),
        ensures
            r@.map_values(|v: usize| v as int) == self.ids(),
            forall|a: int, b: int| 0 <= a < b < r@.len() ==> r@[a] < r@[b],
            forall|x: int| self@.contains(x) <==> r@.map_values(|v: usize| v as int).contains(x),
    {
        let mut r: Vec<usize> = Vec::new();
        let n = self.bits.len();
        let mut i: usize = 0;
        while i < n
            invariant
                i <= n,
                n == self.bits@.len(),
                self.wf(),
                r@.map_values(|v: usize| v as int) == ids_range(
                    self.bits@,
                    self.offset as int,
                    0,
                    i as int,
                ),
            decreases n - i,
        {
            proof {
                lemma_word_base(self.offset as int + i);
            }
            let mut it = BitIter { word: self.bits[i], base: (self.offset + i) * 64 };
            let ghost before = r@.map_values(|v: usize| v as int);
            while it.word != 0
                invariant
                    it.wf(),
                    it.base == (self.offset + i) * 64,
                    0 <= i < n,
                    n == self.bits@.len(),
                    r@.map_values(|v: usize| v as int).add(it.remaining()) == before.add(
                        word_ids(self.bits@[i as int], (self.offset + i) * 64, 0),
                    ),
                decreases it.word,
            {
                let ghost old_it = it;
                let v = it.next();
                proof {
                    assert(v is Some);
                }
                let v = v.unwrap();
                r.push(v);
                assert(r@.map_values(|v: usize| v as int).add(it.remaining()) =~= before.add(
                    word_ids(self.bits@[i as int], (self.offset + i) * 64, 0),
                )) by {
                    assert(old_it.remaining() =~= seq![v as int].add(it.remaining()));
                }
            }
            proof {
                lemma_word_ids_zero(it.base as int, 0);
                assert(r@.map_values(|v: usize| v as int) =~= ids_range(
                    self.bits@,
                    self.offset as int,
                    0,
                    i + 1,
                ));
            }
            i = i + 1;
        }
        proof {
            lemma_ids(*self);
            let m = r@.map_values(|v: usize| v as int);
            assert forall|a: int, b: int| 0 <= a < b < r@.len() implies r@[a] < r@[b] by {
                assert(m[a] < m[b]);
            }
        }
        r
    }

    /// Make `Rc<OffsetBitSet>` into an iterator over all set bit ids in ascending order.
    pub fn into_iter(self: Rc<Self>) -> (it: OffsetBitSetIter)
        requires
            self.wf(),
        ensures
            it.wf(),
            it.remaining() == self.ids(),
    {
        let it = OffsetBitSetIter { set: self, word_index: 0, current: BitIter { word: 0, base: 0 } };
        proof {
            lemma_word_ids_zero(0, 0);
            assert(it.remaining() =~= it.set.ids());
        }
        it
    }
}

proof fn lemma_word_base(w: int)
    requires
        0 <= w < word_limit(),
    ensures
        w * 64 + 64 <= usize::MAX + 1,
{
}

/// Iterator over the set bits of one word.
struct BitIter {
    word: u64,
    base: usize,
}

impl BitIter {
    /// The ids still to come, ascending.
    spec fn remaining(&self) -> Seq<int> {
        word_ids(self.word, self.base as int, 0)
    }

    /// Every id of the word fits in `usize`.
    spec fn wf(&self) -> bool {
        self.base + 64 <= usize::MAX + 1
    }

    /// Yields the lowest remaining set bit.
    fn next(&mut self) -> (r: Option<usize>)
        requires
            old(self).wf(),
        ensures
            final(self).wf(),
            final(self).base == old(self).base,
            old(self).remaining().len() == 0 <==> r is None,
            r is None ==> final(self).remaining() == old(self).remaining(),
            r is Some ==> r->0 as int == old(self).remaining()[0] && final(self).remaining()
                == old(self).remaining().drop_first(),
            old(self).word == 0 <==> r is None,
            old(self).word != 0 ==> final(self).word < old(self).word,
    {
        if self.word == 0 {
            proof {
                lemma_word_ids_zero(self.base as int, 0);
            }
            return None;
        }
        let ghost w = self.word;
        proof {
            lemma_word_ids_step(w, self.base as int);
            vstd::std_specs::bits::axiom_u64_trailing_zeros(w);
        }
        let bit = self.word.trailing_zeros() as usize;
        self.word = self.word & (self.word - 1);
        proof {
            assert(old(self).remaining() =~= seq![self.base + bit].add(self.remaining()));
        }
        Some(self.base + bit)
    }
}

/// Iterator over the ids of a shared [`OffsetBitSet`], in ascending order.
pub struct OffsetBitSetIter {
    set: Rc<OffsetBitSet>,
    word_index: usize,
    current: BitIter,
}

impl OffsetBitSetIter {
    /// The ids still to come, ascending.
    pub closed spec fn remaining(&self) -> Seq<int> {
        self.current.remaining().add(
            ids_range(
                self.set.bits@,
                self.set.offset as int,
                self.word_index as int,
                self.set.bits@.len() as int,
            ),
        )
    }

    pub closed spec fn wf(&self) -> bool {
        &&& self.set.wf()
        &&& self.word_index <= self.set.bits@.len()
        &&& self.current.wf()
    }

    /// Yields the next id, or `None` when all are done.
    pub fn next(&mut self) -> (r: Option<usize>)
        requires
            old(self).wf(),
        ensures
            final(self).wf(),
            old(self).remaining().len() == 0 <==> r is None,
            r is None ==> final(self).remaining() == old(self).remaining(),
            r is Some ==> r->0 as int == old(self).remaining()[0] && final(self).remaining()
                == old(self).remaining().drop_first(),
    {
        let ghost pre = *old(self);
        loop
            invariant
                pre == *old(self),
                self.wf(),
                self.set == pre.set,
                self.remaining() == pre.remaining(),
            decreases self.set.bits@.len() - self.word_index, self.current.word,
        {
            let ghost before = *self;
            if let Some(value) = self.current.next() {
                proof {
                    assert(self.set == before.set && self.word_index == before.word_index);
                    assert(before.current.remaining() =~= seq![value as int].add(
                        self.current.remaining(),
                    ));
                    assert(before.remaining() =~= seq![value as int].add(self.remaining()));
                    assert(pre.remaining() == before.remaining());
                    assert(pre.remaining()[0] == value as int);
                    assert(pre.remaining().drop_first() =~= self.remaining());
                }
                return Some(value);
            }
            assert(before.current.remaining() =~= Seq::<int>::empty()) by {
                lemma_word_ids_zero(before.current.base as int, 0);
            }
            if self.word_index >= self.set.bits.len() {
                assert(self.remaining() =~= Seq::<int>::empty());
                return None;
            }
            let word = self.set.bits[self.word_index];
            proof {
                lemma_word_base(self.set.offset + self.word_index);
                lemma_ids_range_front(
                    self.set.bits@,
                    self.set.offset as int,
                    self.word_index as int,
                    self.set.bits@.len() as int,
                );
            }
            self.current = BitIter { word, base: (self.set.offset + self.word_index) * 64 };
            self.word_index = self.word_index + 1;
            assert(self.remaining() =~= pre.remaining());
        }
    }
}

impl Default for OffsetBitSet {
    fn default() -> (s: Self)
        ensures
            s.wf(),
            s@ == Set::<int>::empty(),
            s.word_start() == 0,
            s.word_end() == 0,
    {
        OffsetBitSet::new()
    }
}

} // verus!
