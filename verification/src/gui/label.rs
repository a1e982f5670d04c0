//! The layout of the time labels of the timeline viewer: labels and groups
//! of labels, stacked into layers so that labels that overlap in time get
//! rows of their own, and the vertical offsets and heights that follow.
//!
//! What a label shows (its text, colours and time range) is a payload of
//! the caller's, `I`; the highlight of a group is `H`. The layout reads
//! neither: where two labels are compared in time, the caller hands over
//! integer keys that order them as their times do.

use vstd::prelude::*;

verus! {

/// The index of a label in its layout.
pub type LabelId = usize;

/// The height of a label created without one.
pub const LABEL_DEFAULT_HEIGHT: i32 = 3;

/// The height of the header of a collapsed group.
pub const LABEL_GROUP_HEADER_COLLAPSED_HEIGHT: i32 = 3;

/// The height of the header of an expanded group.
pub const LABEL_GROUP_HEADER_EXPANDED_HEIGHT: i32 = 2;

/// A group with more children than this also keeps them by layer.
pub const LABEL_LAYERS_THRESHOLD: usize = 32;

/// Where a label stands among its siblings.
pub struct LabelState {
    /// The group the label belongs to.
    pub parent: Option<LabelId>,
    /// The siblings whose bottom this label is placed under.
    pub above_labels: Vec<LabelId>,
    /// The siblings placed under this label.
    pub below_labels: Vec<LabelId>,
    /// All labels placed under this label, directly or not, once computed.
    pub all_below_labels: Option<Vec<LabelId>>,
    /// The vertical offset of the label in its group, once computed.
    pub y: Option<i32>,
}

/// A single label.
pub struct LabelItemData {
    pub height: i32,
}

/// A group of labels.
pub struct LabelGroupData<H> {
    /// The children, in the order in which they were stacked.
    pub children: Vec<LabelId>,
    /// With many children, the children again by layer: the labels of one
    /// layer do not overlap in time.
    pub layers: Option<Vec<Vec<LabelId>>>,
    /// Whether the group is collapsed, which hides its children.
    pub collapsed: bool,
    /// Whether the header of the group is shown.
    pub header: bool,
    /// The height of the group, once computed.
    pub height: Option<i32>,
    pub highlight: H,
}

pub enum LabelData<H> {
    LabelItem(LabelItemData),
    LabelGroup(LabelGroupData<H>),
}

/// A label or group, with what it shows.
pub struct LabelNode<I, H> {
    pub info: I,
    pub state: LabelState,
    pub data: LabelData<H>,
}

/// All labels and groups of a time-labels bar.
pub struct LabelLayout<I, H> {
    nodes: Vec<LabelNode<I, H>>,
    /// For each label, the layer it was stacked in within its group.
    levels: Ghost<Seq<int>>,
}

impl LabelItemData {
    /// The data of a label of height `height`.
    pub fn new<H>(height: i32) -> (r: LabelData<H>)
        ensures
            r == LabelData::<H>::LabelItem(LabelItemData { height }),
    {
        LabelData::LabelItem(LabelItemData { height })
    }
}

impl<H> LabelGroupData<H> {
    /// The data of a group, its height not yet computed.
    pub fn new(
        children: Vec<LabelId>,
        layers: Option<Vec<Vec<LabelId>>>,
        collapsed: bool,
        header: bool,
        highlight: H,
    ) -> (r: LabelData<H>)
        ensures
            r == LabelData::LabelGroup(
                LabelGroupData { children, layers, collapsed, header, height: None, highlight },
            ),
    {
        LabelData::LabelGroup(
            LabelGroupData { children, layers, collapsed, header, height: None, highlight },
        )
    }

    /// The height of the header: that of a collapsed header or that of an
    /// expanded one.
    pub fn header_height(&self) -> (r: i32)
        ensures
            r == header_height_of(self.collapsed),
    {
        if self.collapsed {
            LABEL_GROUP_HEADER_COLLAPSED_HEIGHT
        } else {
            LABEL_GROUP_HEADER_EXPANDED_HEIGHT
        }
    }
}

/// The height of the header of a group that is collapsed or not.
pub open spec fn header_height_of(collapsed: bool) -> int {
    if collapsed {
        LABEL_GROUP_HEADER_COLLAPSED_HEIGHT as int
    } else {
        LABEL_GROUP_HEADER_EXPANDED_HEIGHT as int
    }
}

/// How the children of a group are stacked, each child named by its
/// position among the children.
pub struct Stacking {
    /// For each open layer, the child that was stacked in it last.
    pub stack: Seq<usize>,
    /// The children of each layer, in the order in which they came.
    pub layers: Seq<Seq<usize>>,
    /// For each child, the children recorded as placed above it.
    pub above: Seq<Seq<usize>>,
    /// For each child, the children recorded as placed below it.
    pub below: Seq<Seq<usize>>,
    /// For each child stacked so far, the layer it was stacked in.
    pub lvl: Seq<int>,
}

impl Stacking {
    /// Nothing stacked yet, of `n` children.
    pub open spec fn start(n: nat) -> Stacking {
        Stacking {
            stack: Seq::empty(),
            layers: Seq::empty(),
            above: Seq::new(n, |_j: int| Seq::<usize>::empty()),
            below: Seq::new(n, |_j: int| Seq::<usize>::empty()),
            lvl: Seq::new(n, |_j: int| 0int),
        }
    }

    /// Records `a` as placed above `x`, and `x` as placed below `a`.
    pub open spec fn link(self, x: usize, a: usize) -> Stacking {
        Stacking {
            above: self.above.update(x as int, self.above[x as int].push(a)),
            below: self.below.update(a as int, self.below[a as int].push(x)),
            ..self
        }
    }

    /// Stacks child `k` in the open layer `i`.
    pub open spec fn settle(self, i: int, k: usize) -> Stacking {
        Stacking {
            stack: self.stack.update(i, k),
            layers: self.layers.update(i, self.layers[i].push(k)),
            lvl: self.lvl.update(k as int, i),
            ..self
        }
    }

    /// Stacks child `k` in a new layer under the open ones.
    pub open spec fn open_layer(self, k: usize) -> Stacking {
        let l = self.stack.len() as int;
        Stacking {
            stack: self.stack.push(k),
            layers: if l == self.layers.len() {
                self.layers.push(seq![k])
            } else {
                self.layers.update(l, self.layers[l].push(k))
            },
            lvl: self.lvl.update(k as int, l),
            ..self
        }
    }
}

/// Whether child `o` ends before child `k` starts, by their keys.
pub open spec fn clears(keys: Seq<(u64, u64)>, o: int, k: int) -> bool {
    keys[o].1 <= keys[k].0
}

/// Child `k` goes through the open layers from layer `i` on: it is stacked
/// in the first layer whose last child ends before it starts, and it is
/// linked with the last child of each layer that it overlaps; `last` is
/// the last such layer, or the one it was stacked in.
pub open spec fn scan(
    keys: Seq<(u64, u64)>,
    s: Stacking,
    k: usize,
    i: int,
    found: bool,
    last: int,
) -> (Stacking, bool, int)
    decreases s.stack.len() - i,
{
    if i < 0 || i >= s.stack.len() {
        (s, found, last)
    } else {
        let o = s.stack[i];
        if clears(keys, o as int, k as int) {
            if !found {
                scan(keys, s.settle(i, k), k, i + 1, true, i)
            } else {
                scan(keys, s, k, i + 1, found, last)
            }
        } else if found {
            scan(keys, s.link(k, o), k, i + 1, found, i)
        } else {
            scan(keys, s.link(o, k), k, i + 1, found, i)
        }
    }
}

/// Stacks child `k`: in the first layer that it fits in, closing the
/// layers after the last one it met; or else in a new layer.
pub open spec fn place(keys: Seq<(u64, u64)>, s: Stacking, k: usize) -> Stacking {
    let (t, found, last) = scan(keys, s, k, 0, false, 0);
    if found {
        Stacking { stack: t.stack.take(last + 1), ..t }
    } else {
        t.open_layer(k)
    }
}

/// The stacking of the first `k` children, with the keys `keys` of all.
pub open spec fn stacked(keys: Seq<(u64, u64)>, k: nat) -> Stacking
    decreases k,
{
    if k == 0 {
        Stacking::start(keys.len())
    } else {
        place(keys, stacked(keys, (k - 1) as nat), (k - 1) as usize)
    }
}

/// The labels at the positions `ps` among the children `children`.
pub open spec fn ids_of(children: Seq<LabelId>, ps: Seq<usize>) -> Seq<LabelId> {
    ps.map_values(|p: usize| children[p as int])
}

/// The lengths of the stacking of `n` children fit, and the open layers end
/// with children before position `m`.
pub open spec fn bounded(s: Stacking, n: int, m: int) -> bool {
    &&& s.above.len() == n
    &&& s.below.len() == n
    &&& s.lvl.len() == n
    &&& s.stack.len() <= s.layers.len()
    &&& forall|j: int| 0 <= j < s.stack.len() ==> #[trigger] s.stack[j] < m
}

proof fn lemma_scan_shape(
    keys: Seq<(u64, u64)>,
    s: Stacking,
    k: usize,
    i: int,
    found: bool,
    last: int,
)
    requires
        k < keys.len(),
        bounded(s, keys.len() as int, k + 1),
        0 <= i,
        forall|j: int| i <= j < s.stack.len() ==> #[trigger] s.stack[j] < k,
        found ==> 0 <= last < s.stack.len(),
    ensures
        ({
            let (t, f, l) = scan(keys, s, k, i, found, last);
            &&& bounded(t, keys.len() as int, k + 1)
            &&& t.stack.len() == s.stack.len()
            &&& t.layers.len() == s.layers.len()
            &&& f ==> 0 <= l < t.stack.len()
            &&& !f ==> !found
        }),
    decreases s.stack.len() - i,
{
    if i < s.stack.len() {
        let o = s.stack[i];
        if clears(keys, o as int, k as int) {
            if !found {
                lemma_scan_shape(keys, s.settle(i, k), k, i + 1, true, i);
            } else {
                lemma_scan_shape(keys, s, k, i + 1, found, last);
            }
        } else if found {
            lemma_scan_shape(keys, s.link(k, o), k, i + 1, found, i);
        } else {
            lemma_scan_shape(keys, s.link(o, k), k, i + 1, found, i);
        }
    }
}

proof fn lemma_stacked_shape(keys: Seq<(u64, u64)>, k: nat)
    requires
        k <= keys.len() <= usize::MAX,
    ensures
        bounded(stacked(keys, k), keys.len() as int, k as int),
        stacked(keys, k).stack.len() <= k,
    decreases k,
{
    if k > 0 {
        let s = stacked(keys, (k - 1) as nat);
        lemma_stacked_shape(keys, (k - 1) as nat);
        assert(bounded(s, keys.len() as int, k as int));
        lemma_scan_shape(keys, s, (k - 1) as usize, 0, false, 0);
    }
}

/// The layer of child `x` while child `k` is being stacked: child `k`
/// counts as under all open layers until it has found one.
pub open spec fn lv(s: Stacking, k: int, found: bool, x: int) -> int {
    if x == k {
        if found {
            s.lvl[k]
        } else {
            s.stack.len() as int
        }
    } else {
        s.lvl[x]
    }
}

/// The links of the stacking of `n` children while child `k` is stacked:
/// only children up to `k` are linked, each child recorded above another
/// is in a deeper layer and records the other as below it, and the other
/// way round.
pub open spec fn links_ok(s: Stacking, n: int, k: int, found: bool) -> bool {
    &&& forall|j: int, t: int|
        #![trigger s.above[j][t]]
        0 <= j < n && 0 <= t < s.above[j].len() ==> above_link(s, k, found, j, t)
    &&& forall|j: int, t: int|
        #![trigger s.below[j][t]]
        0 <= j < n && 0 <= t < s.below[j].len() ==> below_link(s, k, found, j, t)
}

/// The `t`-th child recorded above child `j` is linked back, and in a
/// deeper layer.
pub open spec fn above_link(s: Stacking, k: int, found: bool, j: int, t: int) -> bool {
    let a = s.above[j][t] as int;
    &&& j <= k
    &&& a <= k
    &&& lv(s, k, found, a) > lv(s, k, found, j)
    &&& s.below[a].contains(j as usize)
}

/// The `t`-th child recorded below child `j` is linked back, and in a
/// shallower layer.
pub open spec fn below_link(s: Stacking, k: int, found: bool, j: int, t: int) -> bool {
    let b = s.below[j][t] as int;
    &&& j <= k
    &&& b <= k
    &&& lv(s, k, found, b) < lv(s, k, found, j)
    &&& s.above[b].contains(j as usize)
}

/// The open layers end with children of their own layer, and each child
/// stacked before `k` is in one of the first `k` layers.
pub open spec fn levels_ok(s: Stacking, k: int) -> bool {
    &&& forall|i: int| 0 <= i < s.stack.len() ==> s.lvl[#[trigger] s.stack[i] as int] == i
    &&& forall|j: int| 0 <= j < k ==> 0 <= #[trigger] s.lvl[j] < k
    &&& s.stack.len() <= k
}

proof fn lemma_scan_links(
    keys: Seq<(u64, u64)>,
    s: Stacking,
    k: usize,
    i: int,
    found: bool,
    last: int,
)
    requires
        k < keys.len(),
        bounded(s, keys.len() as int, k + 1),
        0 <= i <= s.stack.len(),
        forall|j: int| i <= j < s.stack.len() ==> #[trigger] s.stack[j] < k,
        found ==> 0 <= last < i,
        links_ok(s, keys.len() as int, k as int, found),
        forall|x: int| 0 <= x < s.stack.len() ==> s.lvl[#[trigger] s.stack[x] as int] == x,
        forall|j: int| 0 <= j < k ==> 0 <= #[trigger] s.lvl[j] < k,
        s.stack.len() <= k,
        found ==> 0 <= s.lvl[k as int] < i && s.stack[s.lvl[k as int]] == k && s.lvl[k as int] <= last,
        !found ==> forall|x: int| 0 <= x < i ==> s.stack[x] != k,
        !found ==> s.above[k as int].len() == 0,
        !found ==> forall|j: int, t: int|
            0 <= j < keys.len() && 0 <= t < s.below[j].len() ==> #[trigger] s.below[j][t] != k,
        !found ==> forall|j: int, t: int|
            0 <= j < keys.len() && 0 <= t < s.above[j].len() && #[trigger] s.above[j][t] == k ==> s.lvl[j] < i,
        !found ==> forall|t: int| 0 <= t < s.below[k as int].len() ==> #[trigger] s.lvl[s.below[k as int][t] as int] < i,
        forall|j: int| i <= j < s.stack.len() ==> s.lvl[#[trigger] s.stack[j] as int] == j,
    ensures
        ({
            let (t, f, l) = scan(keys, s, k, i, found, last);
            &&& links_ok(t, keys.len() as int, k as int, f)
            &&& forall|x: int| 0 <= x < t.stack.len() ==> t.lvl[#[trigger] t.stack[x] as int] == x
            &&& forall|j: int| 0 <= j < k ==> #[trigger] t.lvl[j] == s.lvl[j]
            &&& forall|j: int| k < j < keys.len() ==> #[trigger] t.lvl[j] == s.lvl[j]
            &&& f ==> 0 <= t.lvl[k as int] <= l && t.stack[t.lvl[k as int]] == k
            &&& !f ==> forall|x: int| 0 <= x < t.stack.len() ==> t.stack[x] != k
            &&& forall|j: int| k < j < keys.len() ==> #[trigger] t.above[j] == s.above[j]
            &&& forall|j: int| k < j < keys.len() ==> #[trigger] t.below[j] == s.below[j]
        }),
    decreases s.stack.len() - i,
{
    if i < s.stack.len() {
        let o = s.stack[i];
        let n = keys.len() as int;
        if clears(keys, o as int, k as int) {
            if !found {
                let s2 = s.settle(i, k);
                assert(links_ok(s2, n, k as int, true)) by {
                    assert forall|j: int, t: int| 0 <= j < n && 0 <= t < s2.above[j].len() implies #[trigger] above_link(s2, k as int, true, j, t) by {
                        let a = s.above[j][t] as int;
                        if a == k {
                            assert(s.lvl[j] < i);
                        }
                        if j == k {
                            assert(s.lvl[a] > s.stack.len() as int || true);
                        }
                    }
                    assert forall|j: int, t: int| 0 <= j < n && 0 <= t < s2.below[j].len() implies #[trigger] below_link(s2, k as int, true, j, t) by {
                        let b = s.below[j][t] as int;
                        if j == k {
                            assert(s.lvl[b] < i);
                        }
                    }
                }
                lemma_scan_links(keys, s2, k, i + 1, true, i);
            } else {
                lemma_scan_links(keys, s, k, i + 1, found, last);
            }
        } else if found {
            let s2 = s.link(k, o);
            assert(s.lvl[o as int] == i);
            assert forall|j: int, t: int| 0 <= j < n && 0 <= t < s2.above[j].len() implies #[trigger] above_link(s2, k as int, true, j, t) by {
                if j == k && t == s.above[j].len() {
                    assert(s2.below[o as int].last() == k);
                } else {
                    let a = s.above[j][t] as int;
                    assert(above_link(s, k as int, true, j, t));
                    let w = choose|w: int| 0 <= w < s.below[a].len() && s.below[a][w] == j as usize;
                    assert(s2.below[a][w] == j as usize);
                }
            }
            assert forall|j: int, t: int| 0 <= j < n && 0 <= t < s2.below[j].len() implies #[trigger] below_link(s2, k as int, true, j, t) by {
                if j == o && t == s.below[j].len() {
                    assert(s2.above[k as int].last() == o);
                } else {
                    let b = s.below[j][t] as int;
                    assert(below_link(s, k as int, true, j, t));
                    let w = choose|w: int| 0 <= w < s.above[b].len() && s.above[b][w] == j as usize;
                    assert(s2.above[b][w] == j as usize);
                }
            }
            lemma_scan_links(keys, s2, k, i + 1, found, i);
        } else {
            let s2 = s.link(o, k);
            assert(s.lvl[o as int] == i);
            assert forall|j: int, t: int| 0 <= j < n && 0 <= t < s2.above[j].len() implies #[trigger] above_link(s2, k as int, false, j, t) by {
                if j == o && t == s.above[j].len() {
                    assert(s2.below[k as int].last() == o);
                } else {
                    let a = s.above[j][t] as int;
                    assert(s.below[a].contains(j as usize));
                    let w = choose|w: int| 0 <= w < s.below[a].len() && s.below[a][w] == j as usize;
                    assert(s2.below[a][w] == j as usize);
                }
            }
            assert forall|j: int, t: int| 0 <= j < n && 0 <= t < s2.below[j].len() implies #[trigger] below_link(s2, k as int, false, j, t) by {
                if j == k && t == s.below[j].len() {
                    assert(s2.above[o as int].last() == k);
                } else {
                    let b = s.below[j][t] as int;
                    assert(s.above[b].contains(j as usize));
                    let w = choose|w: int| 0 <= w < s.above[b].len() && s.above[b][w] == j as usize;
                    assert(s2.above[b][w] == j as usize);
                }
            }
            assert(links_ok(s2, n, k as int, false));
            lemma_scan_links(keys, s2, k, i + 1, found, i);
        }
    }
}

/// The stacking of the first `k` of `n` children: its links and layers
/// hold, and nothing is recorded of the children after them.
pub open spec fn stacking_ok(s: Stacking, n: int, k: int) -> bool {
    &&& bounded(s, n, k)
    &&& links_ok(s, n, k, false)
    &&& levels_ok(s, k)
    &&& forall|j: int, t: int| 0 <= j < n && 0 <= t < s.above[j].len() ==> #[trigger] s.above[j][t] < k
    &&& forall|j: int, t: int| 0 <= j < n && 0 <= t < s.below[j].len() ==> #[trigger] s.below[j][t] < k
    &&& forall|j: int| k <= j < n ==> (#[trigger] s.above[j]).len() == 0 && s.below[j].len() == 0
}

proof fn lemma_place_ok(keys: Seq<(u64, u64)>, s: Stacking, m: usize)
    requires
        m < keys.len() <= usize::MAX,
        stacking_ok(s, keys.len() as int, m as int),
    ensures
        stacking_ok(place(keys, s, m), keys.len() as int, m + 1),
        forall|j: int| 0 <= j < m ==> #[trigger] place(keys, s, m).lvl[j] == s.lvl[j],
{
    let n = keys.len() as int;
    let k = m + 1;
    assert(bounded(s, n, m + 1));
    assert forall|j: int, t: int|
        0 <= j < n && 0 <= t < s.above[j].len() && #[trigger] s.above[j][t] == m implies s.lvl[j] < 0 by {}
    lemma_scan_links(keys, s, m, 0, false, 0);
    lemma_scan_shape(keys, s, m, 0, false, 0);
    let (t, f, l) = scan(keys, s, m, 0, false, 0);
    let r = place(keys, s, m);
    assert forall|j: int, u: int| 0 <= j < n && 0 <= u < r.above[j].len() implies #[trigger] above_link(r, k as int, false, j, u) by {
        assert(above_link(t, m as int, f, j, u));
    }
    assert forall|j: int, u: int| 0 <= j < n && 0 <= u < r.below[j].len() implies #[trigger] below_link(r, k as int, false, j, u) by {
        let b = t.below[j][u];
        assert(below_link(t, m as int, f, j, u));
    }
    assert(links_ok(r, n, k as int, false));
    assert forall|j: int, u: int| 0 <= j < n && 0 <= u < r.above[j].len() implies #[trigger] r.above[j][u] < k by {
        assert(above_link(t, m as int, f, j, u));
    }
    assert forall|j: int, u: int| 0 <= j < n && 0 <= u < r.below[j].len() implies #[trigger] r.below[j][u] < k by {
        let b = t.below[j][u];
        assert(below_link(t, m as int, f, j, u));
    }
    assert(levels_ok(r, k as int));
}

proof fn lemma_stacked_ok(keys: Seq<(u64, u64)>, k: nat)
    requires
        k <= keys.len() <= usize::MAX,
    ensures
        stacking_ok(stacked(keys, k), keys.len() as int, k as int),
        k > 0 ==> forall|j: int|
            0 <= j < k - 1 ==> #[trigger] stacked(keys, k).lvl[j] == stacked(keys, (k - 1) as nat).lvl[j],
    decreases k,
{
    let n = keys.len() as int;
    lemma_stacked_shape(keys, k);
    if k == 0 {
        let s = stacked(keys, 0);
        assert(links_ok(s, n, 0, false));
        assert forall|j: int| 0 <= j < n implies (#[trigger] s.above[j]).len() == 0 && s.below[j].len() == 0 by {
            assert(s.above[j] == Seq::<usize>::empty());
            assert(s.below[j] == Seq::<usize>::empty());
        }
    } else {
        let m = (k - 1) as usize;
        lemma_stacked_ok(keys, m as nat);
        lemma_place_ok(keys, stacked(keys, m as nat), m);
    }
}

/// Children come in the order of their start keys.
pub open spec fn starts_sorted(keys: Seq<(u64, u64)>) -> bool {
    forall|a: int, b: int| 0 <= a <= b < keys.len() ==> #[trigger] keys[a].0 <= #[trigger] keys[b].0
}

/// Within each layer, each child ends before the next one starts.
pub open spec fn layers_disjoint(keys: Seq<(u64, u64)>, ls: Seq<Seq<usize>>) -> bool {
    forall|j: int, t: int|
        #![trigger ls[j][t]]
        0 <= j < ls.len() && 0 <= t < ls[j].len() - 1 ==> keys[ls[j][t] as int].1 <= keys[ls[j][t + 1] as int].0
}

/// Each open layer ends with the child that the stack names for it.
pub open spec fn tops_ok(s: Stacking) -> bool {
    forall|j: int| #![trigger s.stack[j]] 0 <= j < s.stack.len() ==> top_ok(s, j)
}

/// Open layer `j` ends with the child that the stack names for it.
pub open spec fn top_ok(s: Stacking, j: int) -> bool {
    &&& s.layers[j].len() > 0
    &&& s.layers[j][s.layers[j].len() - 1] == s.stack[j]
}

/// Each closed layer ends with a child that ends by `lo`.
pub open spec fn closed_by(keys: Seq<(u64, u64)>, s: Stacking, lo: int) -> bool {
    forall|j: int| #![trigger s.layers[j]] s.stack.len() <= j < s.layers.len() ==> ends_by(keys, s.layers[j], lo)
}

/// Layer `l` ends with a child that ends by `lo`.
pub open spec fn ends_by(keys: Seq<(u64, u64)>, l: Seq<usize>, lo: int) -> bool {
    &&& l.len() > 0
    &&& keys[l[l.len() - 1] as int].1 <= lo
}

proof fn lemma_scan_layers(
    keys: Seq<(u64, u64)>,
    s: Stacking,
    k: usize,
    i: int,
    found: bool,
    last: int,
    lo: int,
)
    requires
        k < keys.len(),
        bounded(s, keys.len() as int, k + 1),
        0 <= i <= s.stack.len(),
        forall|j: int| i <= j < s.stack.len() ==> #[trigger] s.stack[j] < k,
        found ==> 0 <= last < i,
        found ==> forall|j: int| last < j < i ==> clears(keys, #[trigger] s.stack[j] as int, k as int),
        layers_disjoint(keys, s.layers),
        tops_ok(s),
        closed_by(keys, s, lo),
        lo <= keys[k as int].0,
    ensures
        ({
            let (t, f, l) = scan(keys, s, k, i, found, last);
            &&& layers_disjoint(keys, t.layers)
            &&& tops_ok(t)
            &&& closed_by(keys, t, lo)
            &&& f ==> forall|j: int| l < j < t.stack.len() ==> clears(keys, #[trigger] t.stack[j] as int, k as int)
        }),
    decreases s.stack.len() - i,
{
    if i < s.stack.len() {
        let o = s.stack[i];
        lemma_scan_shape(keys, s, k, i, found, last);
        if clears(keys, o as int, k as int) {
            if !found {
                let s2 = s.settle(i, k);
                assert(top_ok(s, i));
                assert forall|j: int, t: int|
                    0 <= j < s2.layers.len() && 0 <= t < s2.layers[j].len() - 1 implies keys[s2.layers[j][t] as int].1
                    <= keys[s2.layers[j][t + 1] as int].0 by {
                    if j != i || t < s.layers[j].len() - 1 {
                        assert(s2.layers[j][t] == s.layers[j][t]);
                        assert(s2.layers[j][t + 1] == s.layers[j][t + 1]);
                    }
                }
                assert forall|j: int| 0 <= j < s2.stack.len() implies #[trigger] top_ok(s2, j) by {
                    if j != i {
                        assert(s.stack[j] == s2.stack[j]);
                        assert(top_ok(s, j));
                    }
                }
                assert(tops_ok(s2));
                assert forall|j: int| s2.stack.len() <= j < s2.layers.len() implies ends_by(keys, #[trigger] s2.layers[j], lo) by {
                    assert(s2.layers[j] == s.layers[j]);
                }
                lemma_scan_layers(keys, s2, k, i + 1, true, i, lo);
            } else {
                lemma_scan_layers(keys, s, k, i + 1, found, last, lo);
            }
        } else if found {
            let s2 = s.link(k, o);
            assert(s2.layers == s.layers && s2.stack == s.stack);
            assert forall|j: int| 0 <= j < s2.stack.len() implies #[trigger] top_ok(s2, j) by {
                let _ = s.stack[j];
                assert(top_ok(s, j));
            }
            assert forall|j: int| s2.stack.len() <= j < s2.layers.len() implies ends_by(keys, #[trigger] s2.layers[j], lo) by {
                let _ = s.layers[j];
            }
            lemma_scan_layers(keys, s2, k, i + 1, found, i, lo);
        } else {
            let s2 = s.link(o, k);
            assert(s2.layers == s.layers && s2.stack == s.stack);
            assert forall|j: int| 0 <= j < s2.stack.len() implies #[trigger] top_ok(s2, j) by {
                let _ = s.stack[j];
                assert(top_ok(s, j));
            }
            assert forall|j: int| s2.stack.len() <= j < s2.layers.len() implies ends_by(keys, #[trigger] s2.layers[j], lo) by {
                let _ = s.layers[j];
            }
            lemma_scan_layers(keys, s2, k, i + 1, found, i, lo);
        }
    }
}

proof fn lemma_place_layers(keys: Seq<(u64, u64)>, s: Stacking, m: usize, lo: int)
    requires
        m < keys.len() <= usize::MAX,
        bounded(s, keys.len() as int, m + 1),
        forall|j: int| 0 <= j < s.stack.len() ==> #[trigger] s.stack[j] < m,
        layers_disjoint(keys, s.layers),
        tops_ok(s),
        closed_by(keys, s, lo),
        lo <= keys[m as int].0,
    ensures
        layers_disjoint(keys, place(keys, s, m).layers),
        tops_ok(place(keys, s, m)),
        closed_by(keys, place(keys, s, m), keys[m as int].0 as int),
{
    lemma_scan_layers(keys, s, m, 0, false, 0, lo);
    lemma_scan_shape(keys, s, m, 0, false, 0);
    let (t, f, l) = scan(keys, s, m, 0, false, 0);
    let r = place(keys, s, m);
    let hi = keys[m as int].0 as int;
    if f {
        assert forall|j: int| r.stack.len() <= j < r.layers.len() implies #[trigger] ends_by(keys, r.layers[j], hi) by {
            if j < t.stack.len() {
                let _ = t.stack[j];
                assert(top_ok(t, j));
                assert(clears(keys, t.stack[j] as int, m as int));
            } else {
                assert(t.layers[j] == r.layers[j]);
                assert(ends_by(keys, t.layers[j], lo));
            }
        }
        assert forall|j: int| 0 <= j < r.stack.len() implies #[trigger] top_ok(r, j) by {
            let _ = t.stack[j];
            assert(top_ok(t, j));
        }
    } else {
        let ln = t.stack.len() as int;
        if ln < t.layers.len() {
            assert(ends_by(keys, t.layers[ln], lo));
            assert forall|j: int, u: int|
                0 <= j < r.layers.len() && 0 <= u < r.layers[j].len() - 1 implies keys[r.layers[j][u] as int].1
                <= keys[r.layers[j][u + 1] as int].0 by {
                if j != ln || u < t.layers[j].len() - 1 {
                    assert(r.layers[j][u] == t.layers[j][u]);
                    assert(r.layers[j][u + 1] == t.layers[j][u + 1]);
                }
            }
        } else {
            assert forall|j: int, u: int|
                0 <= j < r.layers.len() && 0 <= u < r.layers[j].len() - 1 implies keys[r.layers[j][u] as int].1
                <= keys[r.layers[j][u + 1] as int].0 by {
                assert(r.layers[j][u] == t.layers[j][u]);
                assert(r.layers[j][u + 1] == t.layers[j][u + 1]);
            }
        }
        assert forall|j: int| 0 <= j < r.stack.len() implies #[trigger] top_ok(r, j) by {
            if j < ln {
                let _ = t.stack[j];
                assert(top_ok(t, j));
            }
        }
        assert forall|j: int| r.stack.len() <= j < r.layers.len() implies #[trigger] ends_by(keys, r.layers[j], hi) by {
            assert(r.layers[j] == t.layers[j]);
            assert(ends_by(keys, t.layers[j], lo));
        }
    }
}

proof fn lemma_stacked_layers(keys: Seq<(u64, u64)>, k: nat)
    requires
        k <= keys.len() <= usize::MAX,
        starts_sorted(keys),
    ensures
        layers_disjoint(keys, stacked(keys, k).layers),
        tops_ok(stacked(keys, k)),
        closed_by(keys, stacked(keys, k), if k == 0 { 0 } else { keys[k - 1].0 as int }),
    decreases k,
{
    if k > 0 {
        let m = (k - 1) as usize;
        let s = stacked(keys, m as nat);
        let lo: int = if m == 0 { 0 } else { keys[m - 1].0 as int };
        lemma_stacked_layers(keys, m as nat);
        lemma_stacked_shape(keys, m as nat);
        assert(bounded(s, keys.len() as int, m + 1));
        if m > 0 {
            assert(keys[m - 1].0 <= keys[m as int].0);
        }
        lemma_place_layers(keys, s, m, lo);
    }
}

/// When the children come in the order of their start keys, the children
/// that a layer keeps do not overlap: each ends before the next one of its
/// layer starts.
pub proof fn lemma_layers_do_not_overlap(keys: Seq<(u64, u64)>, j: int, t: int)
    requires
        keys.len() <= usize::MAX,
        starts_sorted(keys),
        0 <= j < stacked(keys, keys.len() as nat).layers.len(),
        0 <= t < stacked(keys, keys.len() as nat).layers[j].len() - 1,
    ensures
        ({
            let l = stacked(keys, keys.len() as nat).layers[j];
            keys[l[t] as int].1 <= keys[l[t + 1] as int].0
        }),
{
    lemma_stacked_layers(keys, keys.len() as nat);
    let _ = stacked(keys, keys.len() as nat).layers[j][t];
}

proof fn lemma_scan_keeps(keys: Seq<(u64, u64)>, s: Stacking, k: usize, i: int, found: bool, last: int, x: int, y: usize)
    requires
        0 <= x < s.above.len(),
        k < s.above.len(),
        forall|j: int| 0 <= j < s.stack.len() ==> #[trigger] s.stack[j] < s.above.len(),
        s.above[x].contains(y),
    ensures
        scan(keys, s, k, i, found, last).0.above[x].contains(y),
    decreases s.stack.len() - i,
{
    if 0 <= i < s.stack.len() {
        let o = s.stack[i];
        if clears(keys, o as int, k as int) {
            if !found {
                lemma_scan_keeps(keys, s.settle(i, k), k, i + 1, true, i, x, y);
            } else {
                lemma_scan_keeps(keys, s, k, i + 1, found, last, x, y);
            }
        } else {
            let s2 = if found { s.link(k, o) } else { s.link(o, k) };
            assert(s2.stack == s.stack && s2.above.len() == s.above.len());
            assert(s2.above[x].contains(y)) by {
                let w = choose|w: int| 0 <= w < s.above[x].len() && s.above[x][w] == y;
                assert(s2.above[x][w] == y);
            }
            lemma_scan_keeps(keys, s2, k, i + 1, found, i, x, y);
        }
    }
}

/// Stacking child `k` through the open layers from `i` on links it with
/// the child that ends open layer `i0` when the two overlap.
proof fn lemma_scan_meets(keys: Seq<(u64, u64)>, s: Stacking, k: usize, i: int, found: bool, last: int, i0: int)
    requires
        0 <= i <= i0 < s.stack.len(),
        s.stack[i0] != k,
        forall|j: int| 0 <= j < s.stack.len() ==> #[trigger] s.stack[j] < s.above.len(),
        k < s.above.len(),
        !clears(keys, s.stack[i0] as int, k as int),
    ensures
        ({
            let t = scan(keys, s, k, i, found, last).0;
            t.above[k as int].contains(s.stack[i0]) || t.above[s.stack[i0] as int].contains(k)
        }),
    decreases s.stack.len() - i,
{
    let o = s.stack[i];
    let a = s.stack[i0];
    if i < i0 {
        if clears(keys, o as int, k as int) {
            if !found {
                lemma_scan_meets(keys, s.settle(i, k), k, i + 1, true, i, i0);
            } else {
                lemma_scan_meets(keys, s, k, i + 1, found, last, i0);
            }
        } else if found {
            lemma_scan_meets(keys, s.link(k, o), k, i + 1, found, i, i0);
        } else {
            lemma_scan_meets(keys, s.link(o, k), k, i + 1, found, i, i0);
        }
    } else if found {
        let s2 = s.link(k, o);
        assert(s2.above[k as int][s.above[k as int].len() as int] == a);
        assert(s2.stack == s.stack && s2.above.len() == s.above.len());
        lemma_scan_keeps(keys, s2, k, i + 1, found, i, k as int, a);
    } else {
        let s2 = s.link(o, k);
        assert(s2.above[a as int][s.above[a as int].len() as int] == k);
        assert(s2.stack == s.stack && s2.above.len() == s.above.len());
        lemma_scan_keeps(keys, s2, k, i + 1, found, i, a as int, k);
    }
}

proof fn lemma_stacked_keeps(keys: Seq<(u64, u64)>, k1: nat, k2: nat, x: int, y: usize)
    requires
        k1 <= k2 <= keys.len() <= usize::MAX,
        0 <= x < keys.len(),
        stacked(keys, k1).above[x].contains(y),
    ensures
        stacked(keys, k2).above[x].contains(y),
    decreases k2,
{
    if k1 < k2 {
        let m = (k2 - 1) as usize;
        lemma_stacked_keeps(keys, k1, m as nat, x, y);
        let s = stacked(keys, m as nat);
        lemma_stacked_shape(keys, m as nat);
        lemma_scan_keeps(keys, s, m, 0, false, 0, x, y);
        let (t, f, l) = scan(keys, s, m, 0, false, 0);
        assert(place(keys, s, m).above == t.above);
    }
}

/// When the children come in the order of their start keys, two children
/// whose times overlap are linked: one is recorded above the other.
pub proof fn lemma_overlapping_children_linked(keys: Seq<(u64, u64)>, a: int, b: int)
    requires
        keys.len() <= usize::MAX,
        starts_sorted(keys),
        0 <= a < b < keys.len(),
        keys[b].0 < keys[a].1,
    ensures
        ({
            let s = stacked(keys, keys.len() as nat);
            s.above[b].contains(a as usize) || s.above[a].contains(b as usize)
        }),
{
    let s = stacked(keys, b as nat);
    lemma_stacked_layers(keys, b as nat);
    lemma_stacked_partition(keys, b as nat);
    lemma_stacked_shape(keys, b as nat);
    let lv = s.lvl[a];
    let l = s.layers[lv];
    let t = choose|t: int| 0 <= t < l.len() && l[t] == a as usize;
    if t < l.len() - 1 {
        let _ = s.layers[lv][t];
        assert(keys[l[t] as int].1 <= keys[l[t + 1] as int].0);
        let _ = s.layers[lv][t + 1];
        assert(l[t + 1] < b);
        assert(keys[l[t + 1] as int].0 <= keys[b].0);
    }
    if lv >= s.stack.len() {
        let _ = s.layers[lv];
        assert(ends_by(keys, s.layers[lv], keys[b - 1].0 as int));
        assert(keys[b - 1].0 <= keys[b].0);
    }
    let _ = s.stack[lv];
    assert(top_ok(s, lv));
    assert(s.stack[lv] == a);
    lemma_scan_meets(keys, s, b as usize, 0, false, 0, lv);
    let (tt, f, ll) = scan(keys, s, b as usize, 0, false, 0);
    assert(place(keys, s, b as usize).above == tt.above);
    assert(stacked(keys, (b + 1) as nat) == place(keys, s, b as usize));
    if tt.above[b].contains(a as usize) {
        lemma_stacked_keeps(keys, (b + 1) as nat, keys.len() as nat, b, a as usize);
    } else {
        lemma_stacked_keeps(keys, (b + 1) as nat, keys.len() as nat, a, b as usize);
    }
}

/// Each layer holds children stacked so far, in the order they came, each
/// in the layer it was stacked in, and each child stacked so far is in its
/// layer.
pub open spec fn layers_partition(s: Stacking, k: int) -> bool {
    &&& forall|j: int, t: int|
        #![trigger s.layers[j][t]]
        0 <= j < s.layers.len() && 0 <= t < s.layers[j].len() ==> s.layers[j][t] < k && s.lvl[s.layers[j][t] as int]
            == j
    &&& forall|j: int, t: int, u: int|
        #![trigger s.layers[j][t], s.layers[j][u]]
        0 <= j < s.layers.len() && 0 <= t < u < s.layers[j].len() ==> s.layers[j][t] < s.layers[j][u]
    &&& forall|p: int|
        0 <= p < k ==> 0 <= #[trigger] s.lvl[p] < s.layers.len() && s.layers[s.lvl[p]].contains(p as usize)
}

#[verifier::spinoff_prover]
proof fn lemma_scan_partition(
    keys: Seq<(u64, u64)>,
    s: Stacking,
    k: usize,
    i: int,
    found: bool,
    last: int,
)
    requires
        k < keys.len(),
        bounded(s, keys.len() as int, k + 1),
        0 <= i <= s.stack.len(),
        forall|j: int| i <= j < s.stack.len() ==> #[trigger] s.stack[j] < k,
        found ==> 0 <= last < i,
        found ==> layers_partition(s, k + 1),
        !found ==> layers_partition(s, k as int),
    ensures
        ({
            let (t, f, l) = scan(keys, s, k, i, found, last);
            &&& f ==> layers_partition(t, k + 1)
            &&& !f ==> layers_partition(t, k as int) && t.layers == s.layers
            &&& !f ==> forall|j: int| 0 <= j < k ==> #[trigger] t.lvl[j] == s.lvl[j]
        }),
    decreases s.stack.len() - i,
{
    if i < s.stack.len() {
        let o = s.stack[i];
        lemma_scan_shape(keys, s, k, i, found, last);
        if clears(keys, o as int, k as int) {
            if !found {
                let s2 = s.settle(i, k);
                assert forall|j: int, t: int|
                    0 <= j < s2.layers.len() && 0 <= t < s2.layers[j].len() implies s2.layers[j][t] < k + 1
                    && s2.lvl[#[trigger] s2.layers[j][t] as int] == j by {
                    if j != i || t < s.layers[j].len() {
                        assert(s2.layers[j][t] == s.layers[j][t]);
                    }
                }
                assert forall|j: int, t: int, u: int|
                    0 <= j < s2.layers.len() && 0 <= t < u < s2.layers[j].len() implies #[trigger] s2.layers[j][t]
                    < #[trigger] s2.layers[j][u] by {
                    if j != i || u < s.layers[j].len() {
                        assert(s2.layers[j][t] == s.layers[j][t]);
                        assert(s2.layers[j][u] == s.layers[j][u]);
                    } else {
                        assert(s2.layers[j][t] == s.layers[j][t]);
                    }
                }
                assert forall|p: int| 0 <= p < k + 1 implies 0 <= #[trigger] s2.lvl[p] < s2.layers.len()
                    && s2.layers[s2.lvl[p]].contains(p as usize) by {
                    if p == k {
                        assert(s2.layers[i][s.layers[i].len() as int] == k);
                    } else {
                        let q = s.lvl[p];
                        let w = choose|w: int| 0 <= w < s.layers[q].len() && s.layers[q][w] == p as usize;
                        assert(s2.layers[q][w] == p as usize);
                    }
                }
                lemma_scan_partition(keys, s2, k, i + 1, true, i);
            } else {
                lemma_scan_partition(keys, s, k, i + 1, found, last);
            }
        } else if found {
            let s2 = s.link(k, o);
            assert(s2.layers == s.layers && s2.lvl == s.lvl);
            lemma_scan_partition(keys, s2, k, i + 1, found, i);
        } else {
            let s2 = s.link(o, k);
            assert(s2.layers == s.layers && s2.lvl == s.lvl);
            lemma_scan_partition(keys, s2, k, i + 1, found, i);
        }
    }
}

proof fn lemma_place_partition(keys: Seq<(u64, u64)>, s: Stacking, m: usize)
    requires
        m < keys.len() <= usize::MAX,
        bounded(s, keys.len() as int, m + 1),
        forall|j: int| 0 <= j < s.stack.len() ==> #[trigger] s.stack[j] < m,
        layers_partition(s, m as int),
    ensures
        layers_partition(place(keys, s, m), m + 1),
{
    lemma_scan_partition(keys, s, m, 0, false, 0);
    lemma_scan_shape(keys, s, m, 0, false, 0);
    let (t, f, l) = scan(keys, s, m, 0, false, 0);
    let r = place(keys, s, m);
    if !f {
        let ln = t.stack.len() as int;
        assert forall|j: int, u: int|
            0 <= j < r.layers.len() && 0 <= u < r.layers[j].len() implies r.layers[j][u] < m + 1 && r.lvl[
            #[trigger] r.layers[j][u] as int] == j by {
            if j < t.layers.len() && u < t.layers[j].len() {
                assert(r.layers[j][u] == t.layers[j][u]);
            }
        }
        assert forall|j: int, u: int, v: int|
            0 <= j < r.layers.len() && 0 <= u < v < r.layers[j].len() implies #[trigger] r.layers[j][u]
            < #[trigger] r.layers[j][v] by {
            if j < t.layers.len() {
                assert(r.layers[j][u] == t.layers[j][u]);
                if v < t.layers[j].len() {
                    assert(r.layers[j][v] == t.layers[j][v]);
                }
            }
        }
        assert forall|p: int| 0 <= p < m + 1 implies 0 <= #[trigger] r.lvl[p] < r.layers.len()
            && r.layers[r.lvl[p]].contains(p as usize) by {
            if p == m {
                if ln == t.layers.len() {
                    assert(r.layers[ln][0] == m);
                } else {
                    assert(r.layers[ln][t.layers[ln].len() as int] == m);
                }
            } else {
                let q = t.lvl[p];
                let w = choose|w: int| 0 <= w < t.layers[q].len() && t.layers[q][w] == p as usize;
                assert(r.layers[q][w] == p as usize);
            }
        }
    }
}

proof fn lemma_stacked_partition(keys: Seq<(u64, u64)>, k: nat)
    requires
        k <= keys.len() <= usize::MAX,
    ensures
        layers_partition(stacked(keys, k), k as int),
    decreases k,
{
    if k > 0 {
        let m = (k - 1) as usize;
        lemma_stacked_partition(keys, m as nat);
        lemma_stacked_shape(keys, m as nat);
        lemma_place_partition(keys, stacked(keys, m as nat), m);
    }
}

/// Each child is kept in exactly one layer, and there once: in the layer
/// it was stacked in, and each layer holds its children in the order they
/// came.
pub proof fn lemma_each_child_in_one_layer(keys: Seq<(u64, u64)>, p: int)
    requires
        keys.len() <= usize::MAX,
        0 <= p < keys.len(),
    ensures
        ({
            let s = stacked(keys, keys.len() as nat);
            &&& 0 <= s.lvl[p] < s.layers.len()
            &&& s.layers[s.lvl[p]].contains(p as usize)
            &&& forall|j: int, t: int|
                0 <= j < s.layers.len() && 0 <= t < s.layers[j].len() && #[trigger] s.layers[j][t] == p ==> j
                    == s.lvl[p]
            &&& forall|j: int| 0 <= j < s.layers.len() ==> (#[trigger] s.layers[j]).no_duplicates()
        }),
{
    let s = stacked(keys, keys.len() as nat);
    lemma_stacked_partition(keys, keys.len() as nat);
    assert forall|j: int| 0 <= j < s.layers.len() implies (#[trigger] s.layers[j]).no_duplicates() by {
        assert forall|t: int, u: int| 0 <= t < s.layers[j].len() && 0 <= u < s.layers[j].len() && t != u implies s.layers[j][t]
            != s.layers[j][u] by {
            if t < u {
                assert(s.layers[j][t] < s.layers[j][u]);
            } else {
                assert(s.layers[j][u] < s.layers[j][t]);
            }
        }
    }
}

/// `acc` with `y` at its end unless it holds `y` already.
pub open spec fn add_one(acc: Seq<LabelId>, y: LabelId) -> Seq<LabelId> {
    if acc.contains(y) {
        acc
    } else {
        acc.push(y)
    }
}

/// `acc` with each label of `s` in turn added once.
pub open spec fn add_all(acc: Seq<LabelId>, s: Seq<LabelId>) -> Seq<LabelId>
    decreases s.len(),
{
    if s.len() == 0 {
        acc
    } else {
        add_one(add_all(acc, s.drop_last()), s.last())
    }
}

proof fn lemma_add_all_keeps(acc: Seq<LabelId>, s: Seq<LabelId>, y: LabelId)
    requires
        acc.contains(y) || s.contains(y),
    ensures
        add_all(acc, s).contains(y),
    decreases s.len(),
{
    if s.len() > 0 {
        let r = add_all(acc, s.drop_last());
        if acc.contains(y) || s.drop_last().contains(y) {
            lemma_add_all_keeps(acc, s.drop_last(), y);
        }
        if r.contains(y) {
            let w = choose|w: int| 0 <= w < r.len() && r[w] == y;
            assert(add_one(r, s.last())[w] == y);
        } else {
            let w = choose|w: int| 0 <= w < s.len() && s[w] == y;
            if w < s.len() - 1 {
                assert(s.drop_last()[w] == y);
            } else {
                assert(add_one(r, s.last())[r.len() as int] == y);
            }
        }
    }
}

proof fn lemma_add_all_only(acc: Seq<LabelId>, s: Seq<LabelId>, y: LabelId)
    requires
        add_all(acc, s).contains(y),
    ensures
        acc.contains(y) || s.contains(y),
    decreases s.len(),
{
    if s.len() > 0 {
        let r = add_all(acc, s.drop_last());
        if r.contains(y) {
            lemma_add_all_only(acc, s.drop_last(), y);
            if s.drop_last().contains(y) {
                let w = choose|w: int| 0 <= w < s.drop_last().len() && s.drop_last()[w] == y;
                assert(s[w] == y);
            }
        } else {
            assert(add_one(r, s.last()) == r.push(s.last()));
            let w = choose|w: int| 0 <= w < r.len() + 1 && r.push(s.last())[w] == y;
            assert(w == r.len());
            assert(s[s.len() - 1] == y);
        }
    }
}

proof fn lemma_add_all_distinct(acc: Seq<LabelId>, s: Seq<LabelId>)
    requires
        acc.no_duplicates(),
    ensures
        add_all(acc, s).no_duplicates(),
    decreases s.len(),
{
    if s.len() > 0 {
        lemma_add_all_distinct(acc, s.drop_last());
    }
}

/// The label or group `n` without its stored offset and height.
pub open spec fn strip<I, H>(n: LabelNode<I, H>) -> LabelNode<I, H> {
    LabelNode {
        info: n.info,
        state: LabelState { y: None, all_below_labels: None, ..n.state },
        data: match n.data {
            LabelData::LabelGroup(d) => LabelData::LabelGroup(LabelGroupData { height: None, ..d }),
            LabelData::LabelItem(d) => LabelData::LabelItem(d),
        },
    }
}

/// The value in `o` as an integer, if any.
pub open spec fn opt_int(o: Option<i32>) -> Option<int> {
    match o {
        Some(v) => Some(v as int),
        None => None,
    }
}

/// The larger of `v` and the value in `acc`, if any.
pub open spec fn max_or(acc: Option<int>, v: int) -> int {
    match acc {
        Some(r) => if r < v {
            v
        } else {
            r
        },
        None => v,
    }
}

/// The value in `o`, or 0 for none.
pub open spec fn or_zero(o: Option<int>) -> int {
    match o {
        Some(v) => v,
        None => 0,
    }
}

/// The layers `vs` are the layers `ls` of the stacking, named by id.
pub open spec fn layers_match(vs: Seq<Vec<LabelId>>, children: Seq<LabelId>, ls: Seq<Seq<usize>>) -> bool {
    &&& vs.len() == ls.len()
    &&& forall|j: int| 0 <= j < vs.len() ==> (#[trigger] vs[j])@ == ids_of(children, ls[j])
}

/// The layers kept by a group: the layers `ls` of its stacking, named by
/// id, where it keeps them.
pub open spec fn layers_are(
    kept: Option<Vec<Vec<LabelId>>>,
    children: Seq<LabelId>,
    ls: Seq<Seq<usize>>,
    enabled: bool,
) -> bool {
    if enabled {
        kept matches Some(vs) && layers_match(vs@, children, ls)
    } else {
        kept is None
    }
}

/// The group of child `j` while the first `k` children have joined group
/// `id`.
pub open spec fn grouped_before(j: int, k: int, id: LabelId) -> Option<LabelId> {
    if j < k {
        Some(id)
    } else {
        None
    }
}

impl<I, H> LabelNode<I, H> {
    /// A label or group that belongs to no group yet.
    pub fn new(info: I, data: LabelData<H>) -> (r: Self)
        ensures
            r.info == info,
            r.data == data,
            r.state.parent is None,
            r.state.above_labels@ == Seq::<LabelId>::empty(),
            r.state.below_labels@ == Seq::<LabelId>::empty(),
            r.state.all_below_labels is None,
            r.state.y is None,
    {
        LabelNode {
            info,
            state: LabelState {
                parent: None,
                above_labels: Vec::new(),
                below_labels: Vec::new(),
                all_below_labels: None,
                y: None,
            },
            data,
        }
    }
}

impl<I, H> LabelLayout<I, H> {
    /// The number of labels and groups.
    pub closed spec fn size(&self) -> int {
        self.nodes@.len() as int
    }

    /// The label or group `x`.
    pub closed spec fn node_at(&self, x: int) -> LabelNode<I, H> {
        self.nodes@[x]
    }

    pub open spec fn parent(&self, x: int) -> Option<LabelId> {
        self.node_at(x).state.parent
    }

    pub open spec fn above(&self, x: int) -> Seq<LabelId> {
        self.node_at(x).state.above_labels@
    }

    pub open spec fn below(&self, x: int) -> Seq<LabelId> {
        self.node_at(x).state.below_labels@
    }

    pub closed spec fn level(&self, x: int) -> int {
        self.levels@[x]
    }

    pub open spec fn children(&self, g: int) -> Seq<LabelId> {
        match self.node_at(g).data {
            LabelData::LabelGroup(d) => d.children@,
            LabelData::LabelItem(_) => Seq::empty(),
        }
    }

    /// Label `x` is where its group says, it is linked both ways with the
    /// siblings it is stacked against, in deeper layers above it and in
    /// shallower ones below it, and its children (for a group) came before
    /// it and name it as their group.
    pub closed spec fn node_wf(&self, x: int) -> bool {
        &&& match self.parent(x) {
            None => self.above(x).len() == 0 && self.below(x).len() == 0,
            Some(p) => {
                &&& x < p < self.size()
                &&& self.children(p as int).contains(x as usize)
                &&& 0 <= self.level(x) < self.children(p as int).len()
            },
        }
        &&& forall|t: int|
            #![trigger self.above(x)[t]]
            0 <= t < self.above(x).len() ==> self.above_ok(x, t)
        &&& forall|t: int|
            #![trigger self.below(x)[t]]
            0 <= t < self.below(x).len() ==> self.below_ok(x, t)
        &&& forall|t: int|
            #![trigger self.children(x)[t]]
            0 <= t < self.children(x).len() ==> self.child_ok(x, t)
        &&& self.children(x).no_duplicates()
    }

    pub closed spec fn above_ok(&self, x: int, t: int) -> bool {
        let a = self.above(x)[t] as int;
        &&& a < self.size()
        &&& self.parent(a) == self.parent(x)
        &&& self.level(a) > self.level(x)
        &&& self.below(a).contains(x as usize)
    }

    pub closed spec fn below_ok(&self, x: int, t: int) -> bool {
        let b = self.below(x)[t] as int;
        &&& b < self.size()
        &&& self.parent(b) == self.parent(x)
        &&& self.level(b) < self.level(x)
        &&& self.above(b).contains(x as usize)
    }

    pub closed spec fn child_ok(&self, g: int, t: int) -> bool {
        let c = self.children(g)[t] as int;
        &&& c < g
        &&& self.parent(c) == Some(g as usize)
    }

    /// The layout holds together: groups and children name each other,
    /// the stacking links go both ways and down the layers.
    pub closed spec fn wf(&self) -> bool {
        &&& self.levels@.len() == self.nodes@.len()
        &&& self.nodes@.len() <= usize::MAX
        &&& forall|x: int| 0 <= x < self.size() ==> #[trigger] self.node_wf(x)
    }

    /// The group of `x`, or 0 for a label of no group.
    pub closed spec fn par(&self, x: int) -> int {
        match self.parent(x) {
            Some(p) => p as int,
            None => 0,
        }
    }

    /// How many layers of its group lie from `x` down to the last one.
    pub closed spec fn depth(&self, x: int) -> int {
        match self.parent(x) {
            Some(p) => self.children(p as int).len() - self.level(x),
            None => 0,
        }
    }

    /// Label `a` is a sibling of `x` in a deeper layer of their group.
    pub closed spec fn steps_down(&self, x: int, a: int) -> bool {
        match self.parent(x) {
            Some(p) => {
                &&& self.parent(a) == Some(p)
                &&& 0 <= a < p
                &&& self.level(x) < self.level(a) < self.children(p as int).len()
            },
            None => false,
        }
    }

    /// Child `c` of group `g` is a child in the layers of `g`.
    pub closed spec fn steps_in(&self, g: int, c: int) -> bool {
        &&& self.parent(c) == Some(g as usize)
        &&& 0 <= c < g
        &&& 0 <= self.level(c) < self.children(g).len()
    }

    /// The vertical offset of `x` in its group: its stored offset where it
    /// has one, else the lowest bottom of the labels recorded above it, or
    /// 0 under none.
    pub closed spec fn y_of(&self, x: int) -> int
        decreases self.par(x), 0int, self.depth(x), self.above(x).len() + 1,
    {
        match self.node_at(x).state.y {
            Some(v) => v as int,
            None => or_zero(self.above_max(x, self.above(x).len() as int)),
        }
    }

    /// The lowest bottom of the first `m` labels recorded above `x`.
    pub closed spec fn above_max(&self, x: int, m: int) -> Option<int>
        decreases self.par(x), 0int, self.depth(x), m,
    {
        if m <= 0 || m > self.above(x).len() {
            None
        } else {
            let rest = self.above_max(x, m - 1);
            let a = self.above(x)[m - 1] as int;
            if self.steps_down(x, a) {
                Some(max_or(rest, self.y_of(a) + self.height_of(a)))
            } else {
                rest
            }
        }
    }

    /// The height of `x`: that of a label, or the stored height of a group
    /// where it has one, else its header alone when it is collapsed, or its
    /// header and the lowest bottom of its children.
    pub closed spec fn height_of(&self, x: int) -> int
        decreases x, 2int, 0int, 0int,
    {
        match self.node_at(x).data {
            LabelData::LabelItem(d) => d.height as int,
            LabelData::LabelGroup(d) => match d.height {
                Some(h) => h as int,
                None => if d.collapsed {
                    header_height_of(true)
                } else {
                    header_height_of(false) + or_zero(self.children_max(x, self.children(x).len() as int))
                },
            },
        }
    }

    /// The lowest bottom of the first `m` children of group `g`.
    pub closed spec fn children_max(&self, g: int, m: int) -> Option<int>
        decreases g, 1int, 0int, m,
    {
        if m <= 0 || m > self.children(g).len() {
            None
        } else {
            let rest = self.children_max(g, m - 1);
            let c = self.children(g)[m - 1] as int;
            if self.steps_in(g, c) {
                Some(max_or(rest, self.y_of(c) + self.height_of(c)))
            } else {
                rest
            }
        }
    }

    /// `post` has the labels, groups and links of `pre`.
    pub closed spec fn same_shape(&self, post: &Self) -> bool {
        &&& post.nodes@.len() == self.nodes@.len()
        &&& post.levels@ == self.levels@
        &&& forall|x: int| 0 <= x < self.size() ==> #[trigger] strip(post.node_at(x)) == strip(self.node_at(x))
    }

    /// The stored height of `x`, for a group.
    pub open spec fn stored_height(&self, x: int) -> Option<i32> {
        match self.node_at(x).data {
            LabelData::LabelGroup(d) => d.height,
            LabelData::LabelItem(_) => None,
        }
    }

    /// `post` is `pre` with some offsets and heights stored that were not
    /// stored yet, each the one that `pre` gives.
    pub open spec fn stores_from(&self, post: &Self) -> bool {
        &&& self.same_shape(post)
        &&& forall|x: int|
            0 <= x < self.size() ==> {
                ||| #[trigger] post.node_at(x).state.y == self.node_at(x).state.y
                ||| self.node_at(x).state.y is None && post.node_at(x).state.y == Some(self.y_of(x) as i32) && i32::MIN
                    <= self.y_of(x) <= i32::MAX
            }
        &&& forall|x: int|
            0 <= x < self.size() ==> {
                ||| #[trigger] post.stored_height(x) == self.stored_height(x)
                ||| self.stored_height(x) is None && post.stored_height(x) == Some(self.height_of(x) as i32) && i32::MIN
                    <= self.height_of(x) <= i32::MAX
            }
    }

    /// Every offset and height of the layout, and every bottom (offset and
    /// height together), fits in an `i32`.
    pub closed spec fn fits(&self) -> bool {
        forall|x: int|
            0 <= x < self.size() ==> {
                &&& i32::MIN <= #[trigger] self.y_of(x) <= i32::MAX
                &&& i32::MIN <= self.height_of(x) <= i32::MAX
                &&& i32::MIN <= self.y_of(x) + self.height_of(x) <= i32::MAX
            }
    }

    proof fn lemma_shape_facts(&self, post: &Self, x: int)
        requires
            self.same_shape(post),
            0 <= x < self.size(),
        ensures
            post.parent(x) == self.parent(x),
            post.above(x) == self.above(x),
            post.below(x) == self.below(x),
            post.children(x) == self.children(x),
            post.level(x) == self.level(x),
            post.node_at(x).info == self.node_at(x).info,
            post.par(x) == self.par(x),
            post.size() == self.size(),
    {
        assert(strip(post.node_at(x)) == strip(self.node_at(x)));
        match (post.node_at(x).data, self.node_at(x).data) {
            (LabelData::LabelGroup(d1), LabelData::LabelGroup(d2)) => {
                assert(d1.children == d2.children);
            },
            _ => {},
        }
    }

    proof fn lemma_memo_y(&self, post: &Self, x: int)
        requires
            self.wf(),
            self.stores_from(post),
            0 <= x < self.size(),
        ensures
            post.y_of(x) == self.y_of(x),
        decreases self.par(x), 0int, self.depth(x), self.above(x).len() + 1,
    {
        self.lemma_shape_facts(post, x);
        if post.node_at(x).state.y is None {
            self.lemma_memo_above(post, x, self.above(x).len() as int);
        }
    }

    proof fn lemma_memo_above(&self, post: &Self, x: int, m: int)
        requires
            self.wf(),
            self.stores_from(post),
            0 <= x < self.size(),
        ensures
            post.above_max(x, m) == self.above_max(x, m),
        decreases self.par(x), 0int, self.depth(x), m,
    {
        self.lemma_shape_facts(post, x);
        if 0 < m <= self.above(x).len() {
            self.lemma_memo_above(post, x, m - 1);
            let a = self.above(x)[m - 1] as int;
            assert(self.node_wf(x));
            assert(self.above_ok(x, m - 1));
            self.lemma_shape_facts(post, a);
            let p = self.parent(x).unwrap() as int;
            self.lemma_shape_facts(post, p);
            if self.steps_down(x, a) {
                self.lemma_memo_y(post, a);
                self.lemma_memo_height(post, a);
            }
        }
    }

    proof fn lemma_memo_height(&self, post: &Self, x: int)
        requires
            self.wf(),
            self.stores_from(post),
            0 <= x < self.size(),
        ensures
            post.height_of(x) == self.height_of(x),
        decreases x, 2int, 0int, 0int,
    {
        self.lemma_shape_facts(post, x);
        assert(strip(post.node_at(x)) == strip(self.node_at(x)));
        if post.stored_height(x) is None {
            self.lemma_memo_children(post, x, self.children(x).len() as int);
        }
    }

    proof fn lemma_memo_children(&self, post: &Self, g: int, m: int)
        requires
            self.wf(),
            self.stores_from(post),
            0 <= g < self.size(),
        ensures
            post.children_max(g, m) == self.children_max(g, m),
        decreases g, 1int, 0int, m,
    {
        self.lemma_shape_facts(post, g);
        if 0 < m <= self.children(g).len() {
            self.lemma_memo_children(post, g, m - 1);
            let c = self.children(g)[m - 1] as int;
            if self.steps_in(g, c) {
                self.lemma_shape_facts(post, c);
                self.lemma_memo_y(post, c);
                self.lemma_memo_height(post, c);
            } else if 0 <= c < g {
                self.lemma_shape_facts(post, c);
            } else {
                assert(self.node_wf(g));
                assert(self.child_ok(g, m - 1));
            }
        }
    }

    proof fn lemma_memo(&self, post: &Self)
        requires
            self.wf(),
            self.stores_from(post),
        ensures
            post.wf(),
            post.fits() == self.fits(),
            forall|x: int| 0 <= x < self.size() ==> #[trigger] post.y_of(x) == self.y_of(x),
            forall|x: int| 0 <= x < self.size() ==> #[trigger] post.height_of(x) == self.height_of(x),
    {
        assert forall|x: int| 0 <= x < self.size() implies #[trigger] post.y_of(x) == self.y_of(x) by {
            self.lemma_memo_y(post, x);
        }
        assert forall|x: int| 0 <= x < self.size() implies #[trigger] post.height_of(x) == self.height_of(x) by {
            self.lemma_memo_height(post, x);
        }
        assert forall|x: int| 0 <= x < post.size() implies #[trigger] post.node_wf(x) by {
            assert(self.node_wf(x));
            self.lemma_shape_facts(post, x);
            match self.parent(x) {
                Some(p) => {
                    self.lemma_shape_facts(post, p as int);
                },
                None => {},
            }
            assert forall|t: int| 0 <= t < post.above(x).len() implies post.above_ok(x, t) by {
                assert(self.above_ok(x, t));
                self.lemma_shape_facts(post, self.above(x)[t] as int);
            }
            assert forall|t: int| 0 <= t < post.below(x).len() implies post.below_ok(x, t) by {
                assert(self.below_ok(x, t));
                self.lemma_shape_facts(post, self.below(x)[t] as int);
            }
            assert forall|t: int| 0 <= t < post.children(x).len() implies post.child_ok(x, t) by {
                assert(self.child_ok(x, t));
                self.lemma_shape_facts(post, self.children(x)[t] as int);
            }
        }
        assert(post.size() == self.size());
        if self.fits() {
            assert forall|x: int| 0 <= x < post.size() implies {
                &&& i32::MIN <= #[trigger] post.y_of(x) <= i32::MAX
                &&& i32::MIN <= post.height_of(x) <= i32::MAX
                &&& i32::MIN <= post.y_of(x) + post.height_of(x) <= i32::MAX
            } by {
                assert(i32::MIN <= self.y_of(x) <= i32::MAX);
            }
        }
        if post.fits() {
            assert forall|x: int| 0 <= x < self.size() implies {
                &&& i32::MIN <= #[trigger] self.y_of(x) <= i32::MAX
                &&& i32::MIN <= self.height_of(x) <= i32::MAX
                &&& i32::MIN <= self.y_of(x) + self.height_of(x) <= i32::MAX
            } by {
                assert(i32::MIN <= post.y_of(x) <= i32::MAX);
            }
        }
    }

    proof fn lemma_stores_refl(&self)
        ensures
            self.stores_from(self),
    {
    }

    proof fn lemma_stores_trans(&self, mid: &Self, post: &Self)
        requires
            self.wf(),
            self.stores_from(mid),
            mid.stores_from(post),
        ensures
            self.stores_from(post),
    {
        self.lemma_memo(mid);
        assert forall|x: int| 0 <= x < self.size() implies #[trigger] strip(post.node_at(x)) == strip(
            self.node_at(x),
        ) by {
            assert(strip(mid.node_at(x)) == strip(self.node_at(x)));
            assert(strip(post.node_at(x)) == strip(mid.node_at(x)));
        }
        assert forall|x: int| 0 <= x < self.size() implies {
            ||| #[trigger] post.node_at(x).state.y == self.node_at(x).state.y
            ||| self.node_at(x).state.y is None && post.node_at(x).state.y == Some(self.y_of(x) as i32) && i32::MIN
                <= self.y_of(x) <= i32::MAX
        } by {
            assert(mid.node_at(x).state.y == self.node_at(x).state.y || self.node_at(x).state.y is None
                && mid.node_at(x).state.y == Some(self.y_of(x) as i32) && i32::MIN <= self.y_of(x) <= i32::MAX);
            assert(post.node_at(x).state.y == mid.node_at(x).state.y || mid.node_at(x).state.y is None
                && post.node_at(x).state.y == Some(mid.y_of(x) as i32) && i32::MIN <= mid.y_of(x) <= i32::MAX);
        }
        assert forall|x: int| 0 <= x < self.size() implies {
            ||| #[trigger] post.stored_height(x) == self.stored_height(x)
            ||| self.stored_height(x) is None && post.stored_height(x) == Some(self.height_of(x) as i32) && i32::MIN
                <= self.height_of(x) <= i32::MAX
        } by {
            assert(mid.stored_height(x) == self.stored_height(x) || self.stored_height(x) is None
                && mid.stored_height(x) == Some(self.height_of(x) as i32) && i32::MIN <= self.height_of(x) <= i32::MAX);
            assert(post.stored_height(x) == mid.stored_height(x) || mid.stored_height(x) is None
                && post.stored_height(x) == Some(mid.height_of(x) as i32) && i32::MIN <= mid.height_of(x) <= i32::MAX);
        }
    }

    /// Label `b` is a sibling of `x` in a shallower layer.
    pub closed spec fn steps_up(&self, x: int, b: int) -> bool {
        match self.parent(x) {
            Some(p) => {
                &&& self.parent(b) == Some(p)
                &&& 0 <= b < self.size()
                &&& 0 <= self.level(b) < self.level(x)
            },
            None => false,
        }
    }

    /// The labels placed under `x`, directly or not: its stored list where
    /// it has one, else each label recorded below it followed by the labels
    /// under that one, each taken once, in this order.
    pub closed spec fn all_below_of(&self, x: int) -> Seq<LabelId>
        decreases self.level(x), 1int, 0int,
    {
        match self.node_at(x).state.all_below_labels {
            Some(v) => v@,
            None => self.below_fold(x, self.below(x).len() as int),
        }
    }

    /// The labels under the first `m` labels recorded below `x`, and these.
    pub closed spec fn below_fold(&self, x: int, m: int) -> Seq<LabelId>
        decreases self.level(x), 0int, m,
    {
        if m <= 0 || m > self.below(x).len() {
            Seq::empty()
        } else {
            let acc = self.below_fold(x, m - 1);
            let b = self.below(x)[m - 1];
            if self.steps_up(x, b as int) {
                add_all(add_one(acc, b), self.all_below_of(b as int))
            } else {
                acc
            }
        }
    }

    /// The stored list of the labels under `x`.
    pub open spec fn stored_below(&self, x: int) -> Option<Vec<LabelId>> {
        self.node_at(x).state.all_below_labels
    }

    /// `post` has the shape of `pre`, and stores some lists of the labels
    /// under a label that `pre` did not store, each the one `pre` gives.
    pub open spec fn lists_from(&self, post: &Self) -> bool {
        &&& self.same_shape(post)
        &&& forall|x: int|
            0 <= x < self.size() ==> {
                ||| #[trigger] post.stored_below(x) == self.stored_below(x)
                ||| self.stored_below(x) is None && (post.stored_below(x) matches Some(v) && v@
                    == self.all_below_of(x))
            }
    }

    proof fn lemma_shape_wf(&self, post: &Self)
        requires
            self.wf(),
            self.same_shape(post),
        ensures
            post.wf(),
    {
        assert forall|x: int| 0 <= x < post.size() implies #[trigger] post.node_wf(x) by {
            assert(self.node_wf(x));
            self.lemma_shape_facts(post, x);
            match self.parent(x) {
                Some(p) => {
                    self.lemma_shape_facts(post, p as int);
                },
                None => {},
            }
            assert forall|t: int| 0 <= t < post.above(x).len() implies post.above_ok(x, t) by {
                assert(self.above_ok(x, t));
                self.lemma_shape_facts(post, self.above(x)[t] as int);
            }
            assert forall|t: int| 0 <= t < post.below(x).len() implies post.below_ok(x, t) by {
                assert(self.below_ok(x, t));
                self.lemma_shape_facts(post, self.below(x)[t] as int);
            }
            assert forall|t: int| 0 <= t < post.children(x).len() implies post.child_ok(x, t) by {
                assert(self.child_ok(x, t));
                self.lemma_shape_facts(post, self.children(x)[t] as int);
            }
        }
    }

    proof fn lemma_lists_below(&self, post: &Self, x: int)
        requires
            self.wf(),
            self.lists_from(post),
            0 <= x < self.size(),
        ensures
            post.all_below_of(x) == self.all_below_of(x),
        decreases self.level(x), 1int, 0int,
    {
        self.lemma_shape_facts(post, x);
        if post.stored_below(x) is None {
            self.lemma_lists_fold(post, x, self.below(x).len() as int);
        }
    }

    proof fn lemma_lists_fold(&self, post: &Self, x: int, m: int)
        requires
            self.wf(),
            self.lists_from(post),
            0 <= x < self.size(),
        ensures
            post.below_fold(x, m) == self.below_fold(x, m),
        decreases self.level(x), 0int, m,
    {
        self.lemma_shape_facts(post, x);
        if 0 < m <= self.below(x).len() {
            self.lemma_lists_fold(post, x, m - 1);
            let b = self.below(x)[m - 1] as int;
            assert(self.node_wf(x));
            assert(self.below_ok(x, m - 1));
            self.lemma_shape_facts(post, b);
            if self.steps_up(x, b) {
                self.lemma_lists_below(post, b);
            }
        }
    }

    proof fn lemma_lists_trans(&self, mid: &Self, post: &Self)
        requires
            self.wf(),
            self.lists_from(mid),
            mid.lists_from(post),
        ensures
            self.lists_from(post),
    {
        assert forall|x: int| 0 <= x < self.size() implies #[trigger] strip(post.node_at(x)) == strip(
            self.node_at(x),
        ) by {
            assert(strip(mid.node_at(x)) == strip(self.node_at(x)));
            assert(strip(post.node_at(x)) == strip(mid.node_at(x)));
        }
        assert forall|x: int| 0 <= x < self.size() implies {
            ||| #[trigger] post.stored_below(x) == self.stored_below(x)
            ||| self.stored_below(x) is None && (post.stored_below(x) matches Some(v) && v@ == self.all_below_of(x))
        } by {
            self.lemma_lists_below(mid, x);
            assert(mid.stored_below(x) == self.stored_below(x) || self.stored_below(x) is None && (mid.stored_below(
                x,
            ) matches Some(v) && v@ == self.all_below_of(x)));
            assert(post.stored_below(x) == mid.stored_below(x) || mid.stored_below(x) is None && (post.stored_below(
                x,
            ) matches Some(v) && v@ == mid.all_below_of(x)));
        }
    }

    /// The labels whose heights a refresh from `x` forgets: `x` and every
    /// label under it, and the same from the group of `x` on up.
    pub closed spec fn refreshed(&self, x: int) -> Set<int>
        decreases self.size() - x,
    {
        let here = Set::new(|y: int| y == x || (0 <= y && self.all_below_of(x).contains(y as usize)));
        match self.parent(x) {
            Some(p) => if x < p < self.size() {
                here.union(self.refreshed(p as int))
            } else {
                here
            },
            None => here,
        }
    }

    /// The labels whose offsets a refresh from `x` forgets: every label
    /// under `x`, and the same from the group of `x` on up.
    pub closed spec fn unplaced(&self, x: int) -> Set<int>
        decreases self.size() - x,
    {
        let here = Set::new(|y: int| 0 <= y && self.all_below_of(x).contains(y as usize));
        match self.parent(x) {
            Some(p) => if x < p < self.size() {
                here.union(self.unplaced(p as int))
            } else {
                here
            },
            None => here,
        }
    }

    proof fn lemma_lists_refresh(&self, post: &Self, x: int)
        requires
            self.wf(),
            self.lists_from(post),
            0 <= x < self.size(),
        ensures
            post.refreshed(x) == self.refreshed(x),
            post.unplaced(x) == self.unplaced(x),
        decreases self.size() - x,
    {
        self.lemma_shape_facts(post, x);
        self.lemma_lists_below(post, x);
        match self.parent(x) {
            Some(p) => {
                if x < p < self.size() {
                    self.lemma_lists_refresh(post, p as int);
                }
            },
            None => {},
        }
        assert(post.refreshed(x) =~= self.refreshed(x));
        assert(post.unplaced(x) =~= self.unplaced(x));
    }

    /// Each label recorded below `x` is among the labels under `x`, where
    /// `x` stores no list of them.
    pub proof fn lemma_below_is_under(&self, x: int, t: int)
        requires
            self.wf(),
            0 <= x < self.size(),
            self.stored_below(x) is None,
            0 <= t < self.below(x).len(),
        ensures
            self.all_below_of(x).contains(self.below(x)[t]),
    {
        self.lemma_fold_has_below(x, self.below(x).len() as int, t);
    }

    proof fn lemma_fold_has_below(&self, x: int, m: int, t: int)
        requires
            self.wf(),
            0 <= x < self.size(),
            0 <= t < m <= self.below(x).len(),
        ensures
            self.below_fold(x, m).contains(self.below(x)[t]),
        decreases m,
    {
        let b = self.below(x)[m - 1];
        assert(self.node_wf(x));
        assert(self.below_ok(x, m - 1));
        assert(self.node_wf(b as int));
        assert(self.steps_up(x, b as int));
        let acc = self.below_fold(x, m - 1);
        if t < m - 1 {
            self.lemma_fold_has_below(x, m - 1, t);
            let w = choose|w: int| 0 <= w < acc.len() && acc[w] == self.below(x)[t];
            assert(add_one(acc, b)[w] == self.below(x)[t]);
            lemma_add_all_keeps(add_one(acc, b), self.all_below_of(b as int), self.below(x)[t]);
        } else {
            if !acc.contains(b) {
                assert(add_one(acc, b)[acc.len() as int] == b);
            }
            lemma_add_all_keeps(add_one(acc, b), self.all_below_of(b as int), b);
        }
    }

    /// The labels under `x` hold, with each label recorded below `x`, every
    /// label under that one: nested labels are included.
    pub proof fn lemma_all_below_closed(&self, x: int, t: int, y: LabelId)
        requires
            self.wf(),
            0 <= x < self.size(),
            self.stored_below(x) is None,
            0 <= t < self.below(x).len(),
            self.all_below_of(self.below(x)[t] as int).contains(y),
        ensures
            self.all_below_of(x).contains(y),
    {
        self.lemma_fold_has_under(x, self.below(x).len() as int, t, y);
    }

    proof fn lemma_fold_has_under(&self, x: int, m: int, t: int, y: LabelId)
        requires
            self.wf(),
            0 <= x < self.size(),
            0 <= t < m <= self.below(x).len(),
            self.all_below_of(self.below(x)[t] as int).contains(y),
        ensures
            self.below_fold(x, m).contains(y),
        decreases m,
    {
        let b = self.below(x)[m - 1];
        assert(self.node_wf(x));
        assert(self.below_ok(x, m - 1));
        assert(self.node_wf(b as int));
        assert(self.steps_up(x, b as int));
        let acc = self.below_fold(x, m - 1);
        if t < m - 1 {
            self.lemma_fold_has_under(x, m - 1, t, y);
            let w = choose|w: int| 0 <= w < acc.len() && acc[w] == y;
            if !acc.contains(b) {
                assert(add_one(acc, b)[w] == y);
            }
            lemma_add_all_keeps(add_one(acc, b), self.all_below_of(b as int), y);
        } else {
            lemma_add_all_keeps(add_one(acc, b), self.all_below_of(b as int), y);
        }
    }

    /// Every label under `x` is one recorded below `x` or a label under
    /// one of those.
    pub proof fn lemma_all_below_only(&self, x: int, y: LabelId)
        requires
            self.wf(),
            0 <= x < self.size(),
            self.stored_below(x) is None,
            self.all_below_of(x).contains(y),
        ensures
            exists|t: int|
                0 <= t < self.below(x).len() && (self.below(x)[t] == y || self.all_below_of(#[trigger] self.below(x)[t] as int).contains(y)),
    {
        self.lemma_fold_only(x, self.below(x).len() as int, y);
    }

    proof fn lemma_fold_only(&self, x: int, m: int, y: LabelId)
        requires
            self.wf(),
            0 <= x < self.size(),
            self.below_fold(x, m).contains(y),
        ensures
            exists|t: int|
                0 <= t < self.below(x).len() && (self.below(x)[t] == y || self.all_below_of(#[trigger] self.below(x)[t] as int).contains(y)),
        decreases m,
    {
        if 0 < m <= self.below(x).len() {
            let b = self.below(x)[m - 1];
            let acc = self.below_fold(x, m - 1);
            if self.steps_up(x, b as int) {
                lemma_add_all_only(add_one(acc, b), self.all_below_of(b as int), y);
                if add_one(acc, b).contains(y) {
                    if acc.contains(y) {
                        self.lemma_fold_only(x, m - 1, y);
                    } else {
                        assert(!acc.contains(b));
                        let w = choose|w: int| 0 <= w < acc.len() + 1 && acc.push(b)[w] == y;
                        assert(w == acc.len());
                        assert(self.below(x)[m - 1] == y);
                    }
                } else {
                    assert(self.all_below_of(self.below(x)[m - 1] as int).contains(y));
                }
            } else {
                self.lemma_fold_only(x, m - 1, y);
            }
        }
    }

    /// Where no stored list holds a label twice, the labels under a label
    /// are each listed once.
    pub proof fn lemma_under_listed_once(&self, x: int)
        requires
            self.wf(),
            0 <= x < self.size(),
            forall|y: int| 0 <= y < self.size() ==> (#[trigger] self.stored_below(y) matches Some(v) ==> v@.no_duplicates()),
        ensures
            self.all_below_of(x).no_duplicates(),
        decreases self.level(x), 1int, 0int,
    {
        if self.stored_below(x) is None {
            self.lemma_fold_listed_once(x, self.below(x).len() as int);
        }
    }

    proof fn lemma_fold_listed_once(&self, x: int, m: int)
        requires
            self.wf(),
            0 <= x < self.size(),
            forall|y: int| 0 <= y < self.size() ==> (#[trigger] self.stored_below(y) matches Some(v) ==> v@.no_duplicates()),
        ensures
            self.below_fold(x, m).no_duplicates(),
        decreases self.level(x), 0int, m,
    {
        if 0 < m <= self.below(x).len() {
            self.lemma_fold_listed_once(x, m - 1);
            let b = self.below(x)[m - 1];
            let acc = self.below_fold(x, m - 1);
            if self.steps_up(x, b as int) {
                self.lemma_under_listed_once(b as int);
                lemma_add_all_distinct(add_one(acc, b), self.all_below_of(b as int));
            }
        }
    }

    /// Computing offsets and heights changes none of them: a layout that
    /// stores some of the offsets and heights of another gives the same
    /// offsets and heights.
    pub proof fn lemma_stored_values_stay(&self, post: &Self)
        requires
            self.wf(),
            self.stores_from(post),
        ensures
            forall|x: int| 0 <= x < self.size() ==> #[trigger] post.y_of(x) == self.y_of(x),
            forall|x: int| 0 <= x < self.size() ==> #[trigger] post.height_of(x) == self.height_of(x),
    {
        self.lemma_memo(post);
    }

    proof fn lemma_above_max_ge(&self, x: int, m: int, t: int)
        requires
            self.wf(),
            0 <= x < self.size(),
            0 <= t < m <= self.above(x).len(),
        ensures
            self.above_max(x, m) is Some,
            self.above_max(x, m)->0 >= self.y_of(self.above(x)[t] as int) + self.height_of(
                self.above(x)[t] as int,
            ),
        decreases m,
    {
        assert(self.node_wf(x));
        let a = self.above(x)[m - 1] as int;
        assert(self.above_ok(x, m - 1));
        assert(self.node_wf(a));
        assert(self.steps_down(x, a));
        if t < m - 1 {
            self.lemma_above_max_ge(x, m - 1, t);
        }
    }

    proof fn lemma_children_max_ge(&self, g: int, m: int, t: int)
        requires
            self.wf(),
            0 <= g < self.size(),
            0 <= t < m <= self.children(g).len(),
        ensures
            self.children_max(g, m) is Some,
            self.children_max(g, m)->0 >= self.y_of(self.children(g)[t] as int) + self.height_of(
                self.children(g)[t] as int,
            ),
        decreases m,
    {
        assert(self.node_wf(g));
        let c = self.children(g)[m - 1] as int;
        assert(self.child_ok(g, m - 1));
        assert(self.node_wf(c));
        assert(self.steps_in(g, c));
        if t < m - 1 {
            self.lemma_children_max_ge(g, m - 1, t);
        }
    }

    /// A label whose offset is not stored lies under every label recorded
    /// above it: its offset is at least their bottoms.
    pub proof fn lemma_under_those_above(&self, x: int, t: int)
        requires
            self.wf(),
            0 <= x < self.size(),
            self.node_at(x).state.y is None,
            0 <= t < self.above(x).len(),
        ensures
            self.y_of(x) >= self.y_of(self.above(x)[t] as int) + self.height_of(self.above(x)[t] as int),
    {
        self.lemma_above_max_ge(x, self.above(x).len() as int, t);
    }

    /// Siblings whose times overlap get rows apart: in a group made from
    /// `children` stacked by `keys` in the order of their start keys, of two
    /// children whose times overlap and whose offsets are not stored, one
    /// lies under the bottom of the other.
    pub proof fn lemma_overlapping_siblings_apart(
        &self,
        pre: &Self,
        children: Seq<LabelId>,
        keys: Seq<(u64, u64)>,
        group: Option<LabelId>,
        ja: int,
        jb: int,
    )
        requires
            self.wf(),
            keys.len() == children.len(),
            keys.len() <= usize::MAX,
            starts_sorted(keys),
            forall|j: int| 0 <= j < children.len() ==> (#[trigger] children[j]) < self.size(),
            forall|j: int|
                0 <= j < children.len() ==> self.child_matches(pre, children, stacked(keys, keys.len() as nat), j, group),
            0 <= ja < jb < keys.len(),
            keys[jb].0 < keys[ja].1,
            self.node_at(children[ja] as int).state.y is None,
            self.node_at(children[jb] as int).state.y is None,
        ensures
            ({
                let a = children[ja] as int;
                let b = children[jb] as int;
                self.y_of(a) + self.height_of(a) <= self.y_of(b) || self.y_of(b) + self.height_of(b) <= self.y_of(a)
            }),
    {
        let s = stacked(keys, keys.len() as nat);
        let a = children[ja] as int;
        let b = children[jb] as int;
        lemma_overlapping_children_linked(keys, ja, jb);
        assert(self.child_matches(pre, children, s, ja, group));
        assert(self.child_matches(pre, children, s, jb, group));
        if s.above[jb].contains(ja as usize) {
            let u = choose|u: int| 0 <= u < s.above[jb].len() && s.above[jb][u] == ja as usize;
            assert(self.above(b)[u] == children[ja]);
            self.lemma_under_those_above(b, u);
        } else {
            let u = choose|u: int| 0 <= u < s.above[ja].len() && s.above[ja][u] == jb as usize;
            assert(self.above(a)[u] == children[jb]);
            self.lemma_under_those_above(a, u);
        }
    }

    /// An expanded group whose height is not stored holds its header and
    /// every child: its height is at least the header's and a child's bottom
    /// together.
    pub proof fn lemma_group_holds_children(&self, g: int, t: int)
        requires
            self.wf(),
            0 <= g < self.size(),
            self.stored_height(g) is None,
            self.node_at(g).data matches LabelData::LabelGroup(d) && !d.collapsed,
            0 <= t < self.children(g).len(),
        ensures
            self.height_of(g) >= header_height_of(false) + self.y_of(self.children(g)[t] as int) + self.height_of(
                self.children(g)[t] as int,
            ),
    {
        self.lemma_children_max_ge(g, self.children(g).len() as int, t);
    }

    /// A collapsed group whose height is not stored shows its header only:
    /// its hidden children take no height.
    pub proof fn lemma_collapsed_group_height(&self, g: int)
        requires
            0 <= g < self.size(),
            self.stored_height(g) is None,
            self.node_at(g).data matches LabelData::LabelGroup(d) && d.collapsed,
        ensures
            self.height_of(g) == header_height_of(true),
    {
    }

    /// An empty layout.
    pub fn new() -> (r: Self)
        ensures
            r.wf(),
            r.size() == 0,
    {
        LabelLayout { nodes: Vec::new(), levels: Ghost(Seq::empty()) }
    }

    /// The number of labels and groups.
    pub fn len(&self) -> (r: usize)
        ensures
            r == self.size(),
    {
        self.nodes.len()
    }

    /// The label or group `id`.
    pub fn node(&self, id: LabelId) -> (r: &LabelNode<I, H>)
        requires
            id < self.size(),
        ensures
            *r == self.node_at(id as int),
    {
        &self.nodes[id]
    }

    /// Adds a label of height `height` (or of the default height) that
    /// belongs to no group yet, and returns its id.
    pub fn create_label(&mut self, info: I, height: Option<i32>) -> (id: LabelId)
        requires
            old(self).wf(),
            old(self).size() < usize::MAX,
        ensures
            final(self).wf(),
            id == old(self).size(),
            final(self).size() == old(self).size() + 1,
            forall|x: int| 0 <= x < old(self).size() ==> final(self).node_at(x) == old(self).node_at(x),
            final(self).node_at(id as int).info == info,
            final(self).node_at(id as int).data == LabelData::<H>::LabelItem(
                LabelItemData {
                    height: match height {
                        Some(h) => h,
                        None => LABEL_DEFAULT_HEIGHT,
                    },
                },
            ),
            final(self).parent(id as int) is None,
            final(self).above(id as int) == Seq::<LabelId>::empty(),
            final(self).below(id as int) == Seq::<LabelId>::empty(),
            final(self).node_at(id as int).state.y is None,
            final(self).stored_below(id as int) is None,
    {
        let id = self.nodes.len();
        let h = match height {
            Some(h) => h,
            None => LABEL_DEFAULT_HEIGHT,
        };
        let ghost pre = *self;
        self.nodes.push(LabelNode::new(info, LabelItemData::new(h)));
        proof {
            self.levels@ = self.levels@.push(0);
            assert forall|x: int| 0 <= x < self.size() implies #[trigger] self.node_wf(x) by {
                if x < pre.size() {
                    assert(pre.node_wf(x));
                    assert forall|t: int| 0 <= t < self.above(x).len() implies self.above_ok(x, t) by {
                        assert(pre.above_ok(x, t));
                    }
                    assert forall|t: int| 0 <= t < self.below(x).len() implies self.below_ok(x, t) by {
                        assert(pre.below_ok(x, t));
                    }
                    assert forall|t: int| 0 <= t < self.children(x).len() implies self.child_ok(x, t) by {
                        assert(pre.child_ok(x, t));
                    }
                } else {
                    assert(self.children(x) =~= Seq::<LabelId>::empty());
                }
            }
        }
        id
    }

    /// Child `j` of `children` is label `children[j]` of `pre` with its
    /// group set to `parent` and its links those of `s`, all named by id.
    pub open spec fn child_matches(
        &self,
        pre: &Self,
        children: Seq<LabelId>,
        s: Stacking,
        j: int,
        parent: Option<LabelId>,
    ) -> bool {
        let c = children[j] as int;
        &&& self.node_at(c).info == pre.node_at(c).info
        &&& self.node_at(c).data == pre.node_at(c).data
        &&& self.node_at(c).state.y == pre.node_at(c).state.y
        &&& self.node_at(c).state.all_below_labels == pre.node_at(c).state.all_below_labels
        &&& self.parent(c) == parent
        &&& self.above(c) == ids_of(children, s.above[j])
        &&& self.below(c) == ids_of(children, s.below[j])
    }

    /// The layout `post` that adds to `pre` group `id` of the labels
    /// `children`, stacked with the keys `keys`, holds together.
    proof fn lemma_group_wf(pre: Self, post: Self, children: Seq<LabelId>, keys: Seq<(u64, u64)>, id: int)
        requires
            pre.wf(),
            id == pre.size(),
            id < usize::MAX,
            post.size() == id + 1,
            post.levels@.len() == post.nodes@.len(),
            keys.len() == children.len() <= usize::MAX,
            children.no_duplicates(),
            forall|j: int| 0 <= j < children.len() ==> (#[trigger] children[j]) < id,
            forall|j: int| 0 <= j < children.len() ==> pre.parent(#[trigger] children[j] as int) is None,
            forall|x: int|
                0 <= x < id && !children.contains(x as usize) ==> post.node_at(x) == pre.node_at(x)
                    && post.level(x) == pre.level(x),
            forall|j: int|
                0 <= j < children.len() ==> #[trigger] post.child_matches(
                    &pre,
                    children,
                    stacked(keys, keys.len() as nat),
                    j,
                    Some(id as usize),
                ),
            forall|j: int|
                0 <= j < children.len() ==> post.level(#[trigger] children[j] as int) == stacked(
                    keys,
                    keys.len() as nat,
                ).lvl[j],
            post.parent(id) is None,
            post.above(id).len() == 0,
            post.below(id).len() == 0,
            post.children(id) == children,
        ensures
            post.wf(),
    {
        let n = children.len() as int;
        let run = stacked(keys, keys.len() as nat);
        lemma_stacked_ok(keys, keys.len() as nat);
        assert forall|x: int| 0 <= x < post.size() implies #[trigger] post.node_wf(x) by {
            if x == id {
                assert forall|t: int| 0 <= t < post.children(x).len() implies post.child_ok(x, t) by {
                    assert(post.child_matches(&pre, children, run, t, Some(id as usize)));
                }
            } else if children.contains(x as usize) {
                let j = choose|j: int| 0 <= j < n && children[j] == x as usize;
                assert(post.child_matches(&pre, children, run, j, Some(id as usize)));
                assert(children[j] as int == x);
                assert(post.above(x) == ids_of(children, run.above[j]));
                assert(post.below(x) == ids_of(children, run.below[j]));
                assert(pre.node_wf(x));
                assert(levels_ok(run, n));
                assert(run.lvl[j] < n);
                assert forall|t: int| 0 <= t < post.above(x).len() implies post.above_ok(x, t) by {
                    assert(post.above(x) == ids_of(children, run.above[j]));
                    assert(t < run.above[j].len());
                    let pa = run.above[j][t] as int;
                    assert(above_link(run, n, false, j, t));
                    assert(pa < n);
                    assert(post.child_matches(&pre, children, run, pa, Some(id as usize)));
                    let w = choose|w: int| 0 <= w < run.below[pa].len() && run.below[pa][w] == j as usize;
                    assert(post.below(children[pa] as int)[w] == x as usize);
                }
                assert forall|t: int| 0 <= t < post.below(x).len() implies post.below_ok(x, t) by {
                    let pb = run.below[j][t] as int;
                    assert(below_link(run, n, false, j, t));
                    assert(pb < n);
                    assert(post.child_matches(&pre, children, run, pb, Some(id as usize)));
                    let w = choose|w: int| 0 <= w < run.above[pb].len() && run.above[pb][w] == j as usize;
                    assert(post.above(children[pb] as int)[w] == x as usize);
                }
                assert forall|t: int| 0 <= t < post.children(x).len() implies post.child_ok(x, t) by {
                    assert(pre.child_ok(x, t));
                    let c = pre.children(x)[t];
                    if children.contains(c) {
                        let jc = choose|jc: int| 0 <= jc < n && children[jc] == c;
                        assert(pre.parent(children[jc] as int) is None);
                    }
                }
            } else {
                assert(pre.node_wf(x));
                assert(post.node_at(x) == pre.node_at(x));
                match pre.parent(x) {
                    Some(p) => {
                        if children.contains(p) {
                            let jp = choose|jp: int| 0 <= jp < n && children[jp] == p;
                            assert(post.child_matches(&pre, children, run, jp, Some(id as usize)));
                        }
                    },
                    None => {},
                }
                assert forall|t: int| 0 <= t < post.above(x).len() implies post.above_ok(x, t) by {
                    assert(pre.above_ok(x, t));
                    let a = pre.above(x)[t];
                    if children.contains(a) {
                        let ja = choose|ja: int| 0 <= ja < n && children[ja] == a;
                        assert(pre.parent(children[ja] as int) is None);
                    }
                }
                assert forall|t: int| 0 <= t < post.below(x).len() implies post.below_ok(x, t) by {
                    assert(pre.below_ok(x, t));
                    let b = pre.below(x)[t];
                    if children.contains(b) {
                        let jb = choose|jb: int| 0 <= jb < n && children[jb] == b;
                        assert(pre.parent(children[jb] as int) is None);
                    }
                }
                assert forall|t: int| 0 <= t < post.children(x).len() implies post.child_ok(x, t) by {
                    assert(pre.child_ok(x, t));
                    let c = pre.children(x)[t];
                    if children.contains(c) {
                        let jc = choose|jc: int| 0 <= jc < n && children[jc] == c;
                        assert(pre.parent(children[jc] as int) is None);
                    }
                }
            }
        }
    }

    /// Adds a group of the labels `children_id`, stacked in this order:
    /// each child goes in the first layer whose last label ends before the
    /// child starts, by the (start, end) keys `keys` of the children, or in
    /// a new layer; with more than `LABEL_LAYERS_THRESHOLD` children, the
    /// group keeps the layers too. Returns the id of the group. With the
    /// children given in the order of their start keys, no two labels of a
    /// layer overlap: each ends before the next one starts.
    pub fn create_group(
        &mut self,
        info: I,
        children_id: Vec<LabelId>,
        keys: Vec<(u64, u64)>,
        collapsed: bool,
        header: bool,
        highlight: H,
    ) -> (id: LabelId)
        requires
            old(self).size() < usize::MAX,
            children_id.len() == keys.len(),
            children_id@.no_duplicates(),
            forall|j: int|
                0 <= j < children_id.len() ==> (#[trigger] children_id@[j]) < old(self).size(),
            forall|j: int|
                0 <= j < children_id.len() ==> old(self).parent(#[trigger] children_id@[j] as int) is None,
            old(self).wf(),
        ensures
            final(self).wf(),
            id == old(self).size(),
            final(self).size() == old(self).size() + 1,
            forall|x: int|
                0 <= x < old(self).size() && !children_id@.contains(x as usize)
                    ==> final(self).node_at(x) == old(self).node_at(x),
            forall|j: int|
                0 <= j < children_id.len() ==> final(self).child_matches(
                    &*old(self),
                    children_id@,
                    stacked(keys@, keys.len() as nat),
                    j,
                    Some(id),
                ),
            final(self).node_at(id as int).info == info,
            final(self).parent(id as int) is None,
            final(self).above(id as int) == Seq::<LabelId>::empty(),
            final(self).below(id as int) == Seq::<LabelId>::empty(),
            final(self).node_at(id as int).state.y is None,
            final(self).stored_below(id as int) is None,
            match final(self).node_at(id as int).data {
                LabelData::LabelGroup(d) => {
                    &&& d.children@ == children_id@
                    &&& d.collapsed == collapsed
                    &&& d.header == header
                    &&& d.height is None
                    &&& d.highlight == highlight
                    &&& layers_are(
                        d.layers,
                        children_id@,
                        stacked(keys@, keys.len() as nat).layers,
                        children_id.len() > LABEL_LAYERS_THRESHOLD,
                    )
                },
                LabelData::LabelItem(_) => false,
            },
            starts_sorted(keys@) ==> layers_disjoint(keys@, stacked(keys@, keys.len() as nat).layers),
    {
        let id = self.nodes.len();
        let n = children_id.len();
        let use_layers = n > LABEL_LAYERS_THRESHOLD;
        let mut layers: Vec<Vec<LabelId>> = Vec::new();
        let mut stack: Vec<usize> = Vec::new();
        let mut k: usize = 0;
        proof {
            assert forall|j: int| 0 <= j < n implies #[trigger] self.child_matches(
                &*old(self),
                children_id@,
                stacked(keys@, 0),
                j,
                grouped_before(j, 0, id),
            ) by {
                let c = children_id@[j] as int;
                assert(self.node_wf(c));
                assert(ids_of(children_id@, Seq::<usize>::empty()) =~= Seq::<LabelId>::empty());
                assert(self.above(c) =~= Seq::<LabelId>::empty());
                assert(self.below(c) =~= Seq::<LabelId>::empty());
            }
        }
        while k < n
            invariant
                k <= n,
                n == children_id.len(),
                n == keys.len(),
                id == old(self).size(),
                use_layers == (n > LABEL_LAYERS_THRESHOLD),
                children_id@.no_duplicates(),
                forall|j: int| 0 <= j < n ==> (#[trigger] children_id@[j]) < old(self).size(),
                self.size() == old(self).size(),
                old(self).wf(),
                self.levels@.len() == self.nodes@.len(),
                forall|x: int|
                    0 <= x < old(self).size() && !children_id@.contains(x as usize) ==> self.level(x)
                        == old(self).level(x),
                forall|j: int|
                    0 <= j < k ==> self.level(#[trigger] children_id@[j] as int) == stacked(
                        keys@,
                        k as nat,
                    ).lvl[j],
                bounded(stacked(keys@, k as nat), n as int, k as int),
                stack@ == stacked(keys@, k as nat).stack,
                use_layers ==> layers_match(layers@, children_id@, stacked(keys@, k as nat).layers),
                !use_layers ==> layers@.len() == 0,
                forall|x: int|
                    0 <= x < old(self).size() && !children_id@.contains(x as usize) ==> self.node_at(x)
                        == old(self).node_at(x),
                forall|j: int|
                    0 <= j < n ==> #[trigger] self.child_matches(
                        &*old(self),
                        children_id@,
                        stacked(keys@, k as nat),
                        j,
                        grouped_before(j, k as int, id),
                    ),
            decreases n - k,
        {
            let child_id = children_id[k];
            let ghost pre0 = *self;
            self.nodes[child_id].state.parent = Some(id);
            let ghost base = stacked(keys@, k as nat);
            let ghost mut cur = base;
            let mut found = false;
            let mut last: usize = 0;
            let mut i: usize = 0;
            proof {
                lemma_stacked_shape(keys@, k as nat);
                assert forall|j: int| 0 <= j < n implies #[trigger] self.child_matches(
                    &*old(self),
                    children_id@,
                    cur,
                    j,
                    grouped_before(j, k + 1, id),
                ) by {
                    assert(pre0.child_matches(
                        &*old(self),
                        children_id@,
                        base,
                        j,
                        grouped_before(j, k as int, id),
                    ));
                    if j != k {
                        assert(children_id@[j] != children_id@[k as int]);
                        assert(self.node_at(children_id@[j] as int) == pre0.node_at(
                            children_id@[j] as int,
                        ));
                    }
                }
                assert forall|x: int|
                    0 <= x < old(self).size() && !children_id@.contains(
                        x as usize,
                    ) implies self.node_at(x) == old(self).node_at(x) by {
                    assert(children_id@[k as int] == child_id);
                    assert(x != child_id);
                    assert(self.node_at(x) == pre0.node_at(x));
                }
            }
            while i < stack.len()
                invariant
                    k < n,
                    n == children_id.len(),
                    n == keys.len(),
                    child_id == children_id@[k as int],
                    use_layers == (n > LABEL_LAYERS_THRESHOLD),
                    children_id@.no_duplicates(),
                    forall|j: int| 0 <= j < n ==> (#[trigger] children_id@[j]) < old(self).size(),
                    self.size() == old(self).size(),
                    self.levels@.len() == self.nodes@.len(),
                    self.levels == pre0.levels,
                    base == stacked(keys@, k as nat),
                    scan(keys@, cur, k, i as int, found, last as int) == scan(
                        keys@,
                        base,
                        k,
                        0,
                        false,
                        0,
                    ),
                    bounded(cur, n as int, k + 1),
                    cur.stack.len() == base.stack.len(),
                    cur.layers.len() == base.layers.len(),
                    forall|j: int| i <= j < cur.stack.len() ==> #[trigger] cur.stack[j] < k,
                    found ==> last < i,
                    i <= stack.len(),
                    stack@ == cur.stack,
                    use_layers ==> layers_match(layers@, children_id@, cur.layers),
                    !use_layers ==> layers@.len() == 0,
                    forall|x: int|
                        0 <= x < old(self).size() && !children_id@.contains(x as usize)
                            ==> self.node_at(x) == old(self).node_at(x),
                    forall|j: int|
                        0 <= j < n ==> #[trigger] self.child_matches(
                            &*old(self),
                            children_id@,
                            cur,
                            j,
                            grouped_before(j, k + 1, id),
                        ),
                decreases stack.len() - i,
            {
                let o = stack[i];
                let other_id = children_id[o];
                let ghost pre = *self;
                let ghost cur0 = cur;
                proof {
                    assert(o < k);
                    assert(children_id@[o as int] != children_id@[k as int]);
                }
                if keys[o].1 <= keys[k].0 {
                    if !found {
                        if use_layers {
                            layers[i].push(child_id);
                            proof {
                                assert(ids_of(children_id@, cur.layers[i as int].push(k)) =~= ids_of(
                                    children_id@,
                                    cur.layers[i as int],
                                ).push(child_id));
                            }
                        }
                        stack.set(i, k);
                        proof {
                            cur = cur.settle(i as int, k);
                        }
                        found = true;
                        last = i;
                    }
                } else {
                    last = i;
                    if found {
                        self.nodes[other_id].state.below_labels.push(child_id);
                        self.nodes[child_id].state.above_labels.push(other_id);
                        proof {
                            let nxt = cur.link(k, o);
                            assert(ids_of(children_id@, nxt.above[k as int]) =~= ids_of(
                                children_id@,
                                cur.above[k as int],
                            ).push(other_id));
                            assert(ids_of(children_id@, nxt.below[o as int]) =~= ids_of(
                                children_id@,
                                cur.below[o as int],
                            ).push(child_id));
                            cur = nxt;
                        }
                    } else {
                        self.nodes[child_id].state.below_labels.push(other_id);
                        self.nodes[other_id].state.above_labels.push(child_id);
                        proof {
                            let nxt = cur.link(o, k);
                            assert(ids_of(children_id@, nxt.above[o as int]) =~= ids_of(
                                children_id@,
                                cur.above[o as int],
                            ).push(child_id));
                            assert(ids_of(children_id@, nxt.below[k as int]) =~= ids_of(
                                children_id@,
                                cur.below[k as int],
                            ).push(other_id));
                            cur = nxt;
                        }
                    }
                }
                proof {
                    assert forall|j: int| 0 <= j < n implies #[trigger] self.child_matches(
                        &*old(self),
                        children_id@,
                        cur,
                        j,
                        grouped_before(j, k + 1, id),
                    ) by {
                        assert(pre.child_matches(
                            &*old(self),
                            children_id@,
                            cur0,
                            j,
                            grouped_before(j, k + 1, id),
                        ));
                        let c = children_id@[j] as int;
                        if j != k && j != o {
                            assert(children_id@[j] != children_id@[k as int]);
                            assert(children_id@[j] != children_id@[o as int]);
                            assert(self.node_at(c) == pre.node_at(c));
                        }
                    }
                    assert forall|x: int|
                        0 <= x < old(self).size() && !children_id@.contains(
                            x as usize,
                        ) implies self.node_at(x) == old(self).node_at(x) by {
                        assert(x != child_id);
                        assert(x != other_id);
                        assert(self.node_at(x) == pre.node_at(x));
                    }
                }
                i += 1;
            }
            if found {
                if last != stack.len() {
                    stack.truncate(last + 1);
                }
            } else {
                if use_layers {
                    if stack.len() == layers.len() {
                        layers.push(vec![child_id]);
                        proof {
                            assert(ids_of(children_id@, seq![k]) =~= seq![child_id]);
                        }
                    } else {
                        let l = stack.len();
                        layers[l].push(child_id);
                        proof {
                            assert(ids_of(children_id@, cur.layers[l as int].push(k)) =~= ids_of(
                                children_id@,
                                cur.layers[l as int],
                            ).push(child_id));
                        }
                    }
                    proof {
                        let nl = cur.open_layer(k).layers;
                        assert forall|j: int| 0 <= j < layers@.len() implies (#[trigger] layers@[j])@
                            == ids_of(children_id@, nl[j]) by {}
                    }
                }
                stack.push(k);
            }
            proof {
                let pre_lv = *self;
                self.levels@ = self.levels@.update(child_id as int, stacked(keys@, (k + 1) as nat).lvl[k as int]);
                assert(scan(keys@, cur, k, i as int, found, last as int) == (cur, found, last as int));
                assert(stacked(keys@, (k + 1) as nat) == place(keys@, base, k));
                let nxt = stacked(keys@, (k + 1) as nat);
                assert(nxt.above == cur.above);
                assert(nxt.below == cur.below);
                assert forall|j: int| 0 <= j < n implies #[trigger] self.child_matches(
                    &*old(self),
                    children_id@,
                    nxt,
                    j,
                    grouped_before(j, k + 1, id),
                ) by {
                    assert(pre_lv.child_matches(
                        &*old(self),
                        children_id@,
                        cur,
                        j,
                        grouped_before(j, k + 1, id),
                    ));
                    assert(self.node_at(children_id@[j] as int) == pre_lv.node_at(children_id@[j] as int));
                }
                lemma_stacked_shape(keys@, (k + 1) as nat);
                lemma_stacked_ok(keys@, (k + 1) as nat);
                assert forall|j: int| 0 <= j < k + 1 implies self.level(
                    #[trigger] children_id@[j] as int,
                ) == nxt.lvl[j] by {
                    if j < k {
                        assert(children_id@[j] != children_id@[k as int]);
                        assert(pre0.level(children_id@[j] as int) == base.lvl[j]);
                    }
                }
                assert forall|x: int|
                    0 <= x < old(self).size() && !children_id@.contains(x as usize) implies self.level(x)
                    == old(self).level(x) by {
                    assert(x != child_id);
                    assert(pre0.level(x) == old(self).level(x));
                }
            }
            k += 1;
        }
        let layers = if use_layers {
            Some(layers)
        } else {
            None
        };
        let ghost pre_push = *self;
        self.nodes.push(
            LabelNode::new(info, LabelGroupData::new(children_id, layers, collapsed, header, highlight)),
        );
        proof {
            self.levels@ = self.levels@.push(0);
            let fin = stacked(keys@, n as nat);
            assert forall|j: int| 0 <= j < n implies self.level(#[trigger] children_id@[j] as int) == fin.lvl[j] by {
                assert(pre_push.level(children_id@[j] as int) == fin.lvl[j]);
            }
            assert forall|j: int| 0 <= j < n implies self.child_matches(
                &*old(self),
                children_id@,
                fin,
                j,
                Some(id),
            ) by {
                assert(pre_push.child_matches(
                    &*old(self),
                    children_id@,
                    fin,
                    j,
                    grouped_before(j, n as int, id),
                ));
                assert(self.node_at(children_id@[j] as int) == pre_push.node_at(
                    children_id@[j] as int,
                ));
            }
            assert forall|x: int|
                0 <= x < old(self).size() && !children_id@.contains(x as usize) implies self.node_at(x)
                == old(self).node_at(x) && self.level(x) == old(self).level(x) by {
                assert(self.node_at(x) == pre_push.node_at(x));
            }
            Self::lemma_group_wf(*old(self), *self, children_id@, keys@, id as int);
            if starts_sorted(keys@) {
                lemma_stacked_layers(keys@, keys@.len() as nat);
            }
        }
        id
    }

    /// The vertical offset of `id` in its group: its stored offset, or else
    /// the lowest bottom of the labels recorded above it (0 under none),
    /// which is then stored; `None` when an offset, a height or a bottom
    /// met on the way does not fit in an `i32`.
    pub fn try_node_y(&mut self, id: LabelId) -> (r: Option<i32>)
        requires
            old(self).wf(),
            id < old(self).size(),
        ensures
            r matches Some(v) ==> v == old(self).y_of(id as int),
            r is None ==> !old(self).fits(),
            old(self).stores_from(&*final(self)),
            final(self).wf(),
        decreases old(self).par(id as int), 0int, old(self).depth(id as int), old(self).above(id as int).len() + 1,
    {
        proof {
            self.lemma_stores_refl();
        }
        match self.nodes[id].state.y {
            Some(y) => Some(y),
            None => {
                let n = self.nodes[id].state.above_labels.len();
                let mut best: Option<i32> = None;
                let mut t: usize = 0;
                while t < n
                    invariant
                        old(self).wf(),
                        id < old(self).size(),
                        old(self).node_at(id as int).state.y is None,
                        n == old(self).above(id as int).len(),
                        t <= n,
                        old(self).stores_from(&*self),
                        self.wf(),
                        opt_int(best) == old(self).above_max(id as int, t as int),
                    decreases n - t,
                {
                    let ghost mid = *self;
                    proof {
                        old(self).lemma_shape_facts(&*self, id as int);
                        old(self).lemma_memo(&*self);
                        assert(old(self).node_wf(id as int));
                        assert(old(self).above_ok(id as int, t as int));
                    }
                    let a = self.nodes[id].state.above_labels[t];
                    proof {
                        let p = old(self).parent(id as int).unwrap() as int;
                        assert(old(self).node_wf(a as int));
                        old(self).lemma_shape_facts(&*self, a as int);
                        old(self).lemma_shape_facts(&*self, p);
                        assert(old(self).steps_down(id as int, a as int));
                    }
                    let ya = self.try_node_y(a);
                    proof {
                        old(self).lemma_stores_trans(&mid, &*self);
                        old(self).lemma_memo(&*self);
                        old(self).lemma_memo(&mid);
                        old(self).lemma_shape_facts(&*self, a as int);
                    }
                    let ya = match ya {
                        Some(v) => v,
                        None => {
                            return None;
                        },
                    };
                    let ghost mid2 = *self;
                    let ha = self.try_node_height(a);
                    proof {
                        old(self).lemma_stores_trans(&mid2, &*self);
                        old(self).lemma_memo(&*self);
                        old(self).lemma_memo(&mid2);
                    }
                    let ha = match ha {
                        Some(v) => v,
                        None => {
                            return None;
                        },
                    };
                    let v = match ya.checked_add(ha) {
                        Some(v) => v,
                        None => {
                            proof {
                                assert(ya + ha == old(self).y_of(a as int) + old(self).height_of(a as int));
                            }
                            return None;
                        },
                    };
                    best = match best {
                        Some(r) => if r < v {
                            Some(v)
                        } else {
                            Some(r)
                        },
                        None => Some(v),
                    };
                    t += 1;
                }
                let y = match best {
                    Some(v) => v,
                    None => 0,
                };
                let ghost before = *self;
                self.nodes[id].state.y = Some(y);
                proof {
                    old(self).lemma_memo(&before);
                    before.lemma_shape_facts(&*self, id as int);
                    assert forall|x: int| 0 <= x < before.size() implies #[trigger] strip(self.node_at(x))
                        == strip(before.node_at(x)) by {
                        if x != id {
                            assert(self.node_at(x) == before.node_at(x));
                        }
                    }
                    assert(before.stores_from(&*self));
                    old(self).lemma_stores_trans(&before, &*self);
                    old(self).lemma_memo(&*self);
                }
                Some(y)
            },
        }
    }

    /// The height of `id`: that of a label, or the stored height of a
    /// group, or else the header alone of a collapsed group, or the header
    /// and the lowest bottom of the children (0 for none) of an expanded
    /// one, which is then stored; `None` when an offset, a height or
    /// a bottom met on the way does not fit in an `i32`.
    pub fn try_node_height(&mut self, id: LabelId) -> (r: Option<i32>)
        requires
            old(self).wf(),
            id < old(self).size(),
        ensures
            r matches Some(v) ==> v == old(self).height_of(id as int),
            r is None ==> !old(self).fits(),
            old(self).stored_height(id as int) is None && (old(self).node_at(id as int).data matches LabelData::LabelGroup(d)
                && d.collapsed) ==> r == Some(LABEL_GROUP_HEADER_COLLAPSED_HEIGHT),
            old(self).stores_from(&*final(self)),
            final(self).wf(),
        decreases id, 2int, 0int, 0int,
    {
        proof {
            self.lemma_stores_refl();
        }
        let (collapsed, stored) = match &self.nodes[id].data {
            LabelData::LabelItem(d) => {
                return Some(d.height);
            },
            LabelData::LabelGroup(d) => (d.collapsed, d.height),
        };
        match stored {
            Some(h) => Some(h),
            None => {
                let n = match &self.nodes[id].data {
                    LabelData::LabelGroup(d) => if d.collapsed {
                        0
                    } else {
                        d.children.len()
                    },
                    LabelData::LabelItem(_) => 0,
                };
                let mut best: Option<i32> = None;
                let mut t: usize = 0;
                while t < n
                    invariant
                        old(self).wf(),
                        id < old(self).size(),
                        old(self).node_at(id as int).data is LabelGroup,
                        old(self).stored_height(id as int) is None,
                        n == (if collapsed { 0 } else { old(self).children(id as int).len() }),
                        old(self).node_at(id as int).data matches LabelData::LabelGroup(d) && d.collapsed == collapsed,
                        n <= old(self).children(id as int).len(),
                        t <= n,
                        old(self).stores_from(&*self),
                        self.wf(),
                        opt_int(best) == old(self).children_max(id as int, t as int),
                    decreases n - t,
                {
                    let ghost mid = *self;
                    proof {
                        old(self).lemma_shape_facts(&*self, id as int);
                        old(self).lemma_memo(&*self);
                        assert(old(self).node_wf(id as int));
                        assert(old(self).child_ok(id as int, t as int));
                        assert(strip(self.node_at(id as int)) == strip(old(self).node_at(id as int)));
                    }
                    let c = match &self.nodes[id].data {
                        LabelData::LabelGroup(d) => d.children[t],
                        LabelData::LabelItem(_) => 0,
                    };
                    proof {
                        assert(c == old(self).children(id as int)[t as int]);
                        assert(old(self).node_wf(c as int));
                        old(self).lemma_shape_facts(&*self, c as int);
                        assert(old(self).steps_in(id as int, c as int));
                    }
                    let yc = self.try_node_y(c);
                    proof {
                        old(self).lemma_stores_trans(&mid, &*self);
                        old(self).lemma_memo(&*self);
                        old(self).lemma_memo(&mid);
                        old(self).lemma_shape_facts(&*self, c as int);
                    }
                    let yc = match yc {
                        Some(v) => v,
                        None => {
                            return None;
                        },
                    };
                    let ghost mid2 = *self;
                    let hc = self.try_node_height(c);
                    proof {
                        old(self).lemma_stores_trans(&mid2, &*self);
                        old(self).lemma_memo(&*self);
                        old(self).lemma_memo(&mid2);
                    }
                    let hc = match hc {
                        Some(v) => v,
                        None => {
                            return None;
                        },
                    };
                    let v = match yc.checked_add(hc) {
                        Some(v) => v,
                        None => {
                            proof {
                                assert(yc + hc == old(self).y_of(c as int) + old(self).height_of(c as int));
                            }
                            return None;
                        },
                    };
                    best = match best {
                        Some(r) => if r < v {
                            Some(v)
                        } else {
                            Some(r)
                        },
                        None => Some(v),
                    };
                    t += 1;
                }
                let content = match best {
                    Some(v) => v,
                    None => 0,
                };
                let header = if collapsed {
                    LABEL_GROUP_HEADER_COLLAPSED_HEIGHT
                } else {
                    LABEL_GROUP_HEADER_EXPANDED_HEIGHT
                };
                let height = match header.checked_add(content) {
                    Some(v) => v,
                    None => {
                        proof {
                            assert(header + content == old(self).height_of(id as int));
                            if old(self).fits() {
                                assert(i32::MIN <= old(self).y_of(id as int) <= i32::MAX);
                            }
                        }
                        return None;
                    },
                };
                let ghost before = *self;
                match &mut self.nodes[id].data {
                    LabelData::LabelGroup(d) => {
                        d.height = Some(height);
                    },
                    LabelData::LabelItem(_) => {},
                }
                proof {
                    old(self).lemma_memo(&before);
                    before.lemma_shape_facts(&*self, id as int);
                    assert forall|x: int| 0 <= x < before.size() implies #[trigger] strip(self.node_at(x))
                        == strip(before.node_at(x)) by {
                        if x != id {
                            assert(self.node_at(x) == before.node_at(x));
                        }
                    }
                    assert(before.stores_from(&*self));
                    old(self).lemma_stores_trans(&before, &*self);
                    old(self).lemma_memo(&*self);
                }
                Some(height)
            },
        }
    }

    /// The vertical offset of `id` in its group: its stored offset, or else
    /// the lowest bottom of the labels recorded above it (0 under none),
    /// which is then stored.
    pub fn node_y(&mut self, id: LabelId) -> (r: i32)
        requires
            old(self).wf(),
            old(self).fits(),
            id < old(self).size(),
        ensures
            r == old(self).y_of(id as int),
            old(self).stores_from(&*final(self)),
            final(self).wf(),
            final(self).fits(),
    {
        let r = self.try_node_y(id);
        proof {
            old(self).lemma_memo(&*self);
        }
        match r {
            Some(v) => v,
            // not reached: the layout fits
            None => 0,
        }
    }

    /// The height of `id`: that of a label, or the stored height of a
    /// group, or else the header alone of a collapsed group, or the header
    /// and the lowest bottom of the children (0 for none) of an expanded
    /// one, which is then stored.
    pub fn node_height(&mut self, id: LabelId) -> (r: i32)
        requires
            old(self).wf(),
            old(self).fits(),
            id < old(self).size(),
        ensures
            r == old(self).height_of(id as int),
            old(self).stored_height(id as int) is None && (old(self).node_at(id as int).data matches LabelData::LabelGroup(d)
                && d.collapsed) ==> r == LABEL_GROUP_HEADER_COLLAPSED_HEIGHT,
            old(self).stores_from(&*final(self)),
            final(self).wf(),
            final(self).fits(),
    {
        let r = self.try_node_height(id);
        proof {
            old(self).lemma_memo(&*self);
        }
        match r {
            Some(v) => v,
            // not reached: the layout fits
            None => 0,
        }
    }

    /// `post` keeps the stored offsets and heights of `pre`.
    pub open spec fn same_stored(&self, post: &Self) -> bool {
        &&& forall|x: int| 0 <= x < self.size() ==> #[trigger] post.node_at(x).state.y == self.node_at(x).state.y
        &&& forall|x: int| 0 <= x < self.size() ==> #[trigger] post.stored_height(x) == self.stored_height(x)
    }

    /// All labels placed under `id`, directly or not: its stored list, or
    /// else each label recorded below it followed by the labels under that
    /// one, each taken once, which is then stored.
    pub fn all_below_labels(&mut self, id: LabelId) -> (r: Vec<LabelId>)
        requires
            old(self).wf(),
            id < old(self).size(),
        ensures
            r@ == old(self).all_below_of(id as int),
            old(self).stored_below(id as int) is None ==> forall|t: int| 0 <= t < old(self).below(id as int).len() ==> r@.contains(
                #[trigger] old(self).below(id as int)[t],
            ),
            old(self).stored_below(id as int) is None ==> forall|t: int, y: LabelId|
                0 <= t < old(self).below(id as int).len() && #[trigger] old(self).all_below_of(old(self).below(id as int)[t] as int).contains(y)
                    ==> r@.contains(y),
            old(self).stored_below(id as int) is None ==> forall|y: LabelId| #[trigger] r@.contains(y) ==> exists|t: int|
                0 <= t < old(self).below(id as int).len() && (old(self).below(id as int)[t] == y || old(self).all_below_of(
                    #[trigger] old(self).below(id as int)[t] as int,
                ).contains(y)),
            old(self).lists_from(&*final(self)),
            old(self).same_stored(&*final(self)),
            final(self).wf(),
            forall|x: int|
                0 <= x < old(self).size() && (old(self).parent(x) != old(self).parent(id as int)
                    || old(self).level(x) > old(self).level(id as int)) ==> #[trigger] final(self).stored_below(x)
                    == old(self).stored_below(x),
        decreases old(self).level(id as int), 1int, 0int,
    {
        proof {
            assert(self.same_shape(&*self));
        }
        let stored = match &self.nodes[id].state.all_below_labels {
            Some(v) => Some(copy_ids(v)),
            None => None,
        };
        match stored {
            Some(v) => v,
            None => {
                let mut result: Vec<LabelId> = Vec::new();
                let n = self.nodes[id].state.below_labels.len();
                let mut t: usize = 0;
                while t < n
                    invariant
                        old(self).wf(),
                        id < old(self).size(),
                        old(self).stored_below(id as int) is None,
                        n == old(self).below(id as int).len(),
                        t <= n,
                        old(self).lists_from(&*self),
                        old(self).same_stored(&*self),
                        self.wf(),
                        result@ == old(self).below_fold(id as int, t as int),
                        self.stored_below(id as int) is None,
                        forall|x: int|
                            0 <= x < old(self).size() && (old(self).parent(x) != old(self).parent(id as int)
                                || old(self).level(x) > old(self).level(id as int)) ==> #[trigger] self.stored_below(x)
                                == old(self).stored_below(x),
                    decreases n - t,
                {
                    let ghost mid = *self;
                    proof {
                        old(self).lemma_shape_facts(&*self, id as int);
                        assert(old(self).node_wf(id as int));
                        assert(old(self).below_ok(id as int, t as int));
                    }
                    let b = self.nodes[id].state.below_labels[t];
                    proof {
                        assert(old(self).node_wf(b as int));
                        old(self).lemma_shape_facts(&*self, b as int);
                        assert(old(self).steps_up(id as int, b as int));
                    }
                    if !contains_id(&result, b) {
                        result.push(b);
                    }
                    let ghost acc0 = result@;
                    proof {
                        assert(acc0 == add_one(old(self).below_fold(id as int, t as int), b));
                    }
                    let sub = self.all_below_labels(b);
                    proof {
                        old(self).lemma_lists_trans(&mid, &*self);
                        old(self).lemma_lists_below(&mid, b as int);
                        old(self).lemma_shape_wf(&*self);
                        old(self).lemma_shape_facts(&mid, b as int);
                        old(self).lemma_shape_facts(&mid, id as int);
                        assert(self.stored_below(id as int) == mid.stored_below(id as int));
                        assert forall|x: int|
                            0 <= x < old(self).size() && (old(self).parent(x) != old(self).parent(id as int)
                                || old(self).level(x) > old(self).level(id as int)) implies #[trigger] self.stored_below(x)
                            == old(self).stored_below(x) by {
                            old(self).lemma_shape_facts(&mid, x);
                            assert(mid.stored_below(x) == old(self).stored_below(x));
                        }
                        assert forall|x: int| 0 <= x < old(self).size() implies #[trigger] self.node_at(x).state.y
                            == old(self).node_at(x).state.y by {
                            assert(mid.node_at(x).state.y == old(self).node_at(x).state.y);
                            assert(self.node_at(x).state.y == mid.node_at(x).state.y);
                        }
                        assert forall|x: int| 0 <= x < old(self).size() implies #[trigger] self.stored_height(x)
                            == old(self).stored_height(x) by {
                            assert(mid.stored_height(x) == old(self).stored_height(x));
                            assert(self.stored_height(x) == mid.stored_height(x));
                        }
                    }
                    let mut u: usize = 0;
                    while u < sub.len()
                        invariant
                            u <= sub.len(),
                            result@ == add_all(acc0, sub@.take(u as int)),
                        decreases sub.len() - u,
                    {
                        let y = sub[u];
                        if !contains_id(&result, y) {
                            result.push(y);
                        }
                        proof {
                            assert(sub@.take(u + 1).drop_last() =~= sub@.take(u as int));
                        }
                        u += 1;
                    }
                    proof {
                        assert(sub@.take(sub.len() as int) =~= sub@);
                    }
                    t += 1;
                }
                let ghost before = *self;
                let kept = copy_ids(&result);
                self.nodes[id].state.all_below_labels = Some(kept);
                proof {
                    old(self).lemma_lists_below(&before, id as int);
                    before.lemma_shape_facts(&*self, id as int);
                    assert forall|x: int| 0 <= x < before.size() implies #[trigger] strip(self.node_at(x))
                        == strip(before.node_at(x)) by {
                        if x != id {
                            assert(self.node_at(x) == before.node_at(x));
                        }
                    }
                    assert(before.lists_from(&*self));
                    old(self).lemma_lists_trans(&before, &*self);
                    old(self).lemma_shape_wf(&*self);
                    assert forall|x: int| 0 <= x < old(self).size() implies #[trigger] self.node_at(x).state.y
                        == old(self).node_at(x).state.y by {
                        assert(before.node_at(x).state.y == old(self).node_at(x).state.y);
                        if x != id {
                            assert(self.node_at(x) == before.node_at(x));
                        }
                    }
                    assert forall|x: int| 0 <= x < old(self).size() implies #[trigger] self.stored_height(x)
                        == old(self).stored_height(x) by {
                        assert(before.stored_height(x) == old(self).stored_height(x));
                        if x != id {
                            assert(self.node_at(x) == before.node_at(x));
                        }
                    }
                    assert forall|x: int|
                        0 <= x < old(self).size() && (old(self).parent(x) != old(self).parent(id as int)
                            || old(self).level(x) > old(self).level(id as int)) implies #[trigger] self.stored_below(x)
                        == old(self).stored_below(x) by {
                        assert(before.stored_below(x) == old(self).stored_below(x));
                    }
                    let o = *old(self);
                    assert(result@ == o.all_below_of(id as int));
                    assert forall|t: int| 0 <= t < o.below(id as int).len() implies result@.contains(#[trigger] o.below(id as int)[t]) by {
                        o.lemma_below_is_under(id as int, t);
                    }
                    assert forall|t: int, y: LabelId|
                        0 <= t < o.below(id as int).len() && #[trigger] o.all_below_of(o.below(id as int)[t] as int).contains(y)
                        implies result@.contains(y) by {
                        o.lemma_all_below_closed(id as int, t, y);
                    }
                    assert forall|y: LabelId| #[trigger] result@.contains(y) implies exists|t: int|
                        0 <= t < o.below(id as int).len() && (o.below(id as int)[t] == y || o.all_below_of(
                            #[trigger] o.below(id as int)[t] as int,
                        ).contains(y)) by {
                        o.lemma_all_below_only(id as int, y);
                    }
                }
                result
            },
        }
    }

    /// Forgets the stored height of group `id`.
    fn forget_height(&mut self, id: LabelId)
        requires
            old(self).wf(),
            id < old(self).size(),
        ensures
            old(self).same_shape(&*final(self)),
            forall|x: int| 0 <= x < old(self).size() ==> #[trigger] final(self).stored_below(x) == old(self).stored_below(x),
            forall|x: int|
                0 <= x < old(self).size() ==> #[trigger] final(self).node_at(x).state.y == old(self).node_at(x).state.y,
            forall|x: int|
                0 <= x < old(self).size() ==> #[trigger] final(self).stored_height(x) == if x == id {
                    None
                } else {
                    old(self).stored_height(x)
                },
            final(self).wf(),
    {
        let ghost before = *self;
        match &mut self.nodes[id].data {
            LabelData::LabelGroup(d) => {
                d.height = None;
            },
            LabelData::LabelItem(_) => {},
        }
        proof {
            assert forall|x: int| 0 <= x < before.size() implies #[trigger] strip(self.node_at(x)) == strip(
                before.node_at(x),
            ) by {
                if x != id {
                    assert(self.node_at(x) == before.node_at(x));
                }
            }
            before.lemma_shape_wf(&*self);
        }
    }

    /// Forgets the stored offset of label `id`.
    fn forget_y(&mut self, id: LabelId)
        requires
            old(self).wf(),
            id < old(self).size(),
        ensures
            old(self).same_shape(&*final(self)),
            forall|x: int| 0 <= x < old(self).size() ==> #[trigger] final(self).stored_below(x) == old(self).stored_below(x),
            forall|x: int|
                0 <= x < old(self).size() ==> #[trigger] final(self).node_at(x).state.y == if x == id {
                    None
                } else {
                    old(self).node_at(x).state.y
                },
            forall|x: int| 0 <= x < old(self).size() ==> #[trigger] final(self).stored_height(x) == old(self).stored_height(x),
            final(self).wf(),
    {
        let ghost before = *self;
        self.nodes[id].state.y = None;
        proof {
            assert forall|x: int| 0 <= x < before.size() implies #[trigger] strip(self.node_at(x)) == strip(
                before.node_at(x),
            ) by {
                if x != id {
                    assert(self.node_at(x) == before.node_at(x));
                }
            }
            before.lemma_shape_wf(&*self);
        }
    }

    /// Marks group `id` as needing its height computed anew: forgets the
    /// stored height of `id` and the stored offset (and, for a group, the
    /// stored height) of every label under it, and does the same from the
    /// group of `id` on up.
    pub fn mark_needs_refresh_height(&mut self, id: LabelId)
        requires
            old(self).wf(),
            id < old(self).size(),
        ensures
            final(self).wf(),
            old(self).lists_from(&*final(self)),
            forall|x: int|
                0 <= x < old(self).size() ==> #[trigger] final(self).node_at(x).state.y == if old(self).unplaced(
                    id as int,
                ).contains(x) {
                    None
                } else {
                    old(self).node_at(x).state.y
                },
            forall|x: int|
                0 <= x < old(self).size() ==> #[trigger] final(self).stored_height(x) == if old(self).refreshed(
                    id as int,
                ).contains(x) {
                    None
                } else {
                    old(self).stored_height(x)
                },
        decreases old(self).size() - id,
    {
        self.forget_height(id);
        let ghost after_first = *self;
        proof {
            assert(old(self).lists_from(&*self));
        }
        let below = self.all_below_labels(id);
        proof {
            old(self).lemma_lists_trans(&after_first, &*self);
            old(self).lemma_lists_below(&after_first, id as int);
        }
        let mut t: usize = 0;
        while t < below.len()
            invariant
                old(self).wf(),
                id < old(self).size(),
                below@ == old(self).all_below_of(id as int),
                t <= below.len(),
                self.wf(),
                old(self).lists_from(&*self),
                forall|x: int|
                    0 <= x < old(self).size() ==> #[trigger] self.node_at(x).state.y == if exists|u: int|
                        0 <= u < t && below@[u] == x {
                        None
                    } else {
                        old(self).node_at(x).state.y
                    },
                forall|x: int|
                    0 <= x < old(self).size() ==> #[trigger] self.stored_height(x) == if x == id || exists|u: int|
                        0 <= u < t && below@[u] == x {
                        None
                    } else {
                        old(self).stored_height(x)
                    },
            decreases below.len() - t,
        {
            let o = below[t];
            proof {
                let _ = old(self).all_below_of(id as int)[t as int];
                old(self).lemma_shape_facts(&*self, id as int);
            }
            if o < self.nodes.len() {
                let ghost prev = *self;
                self.forget_height(o);
                let ghost prev2 = *self;
                self.forget_y(o);
                proof {
                    assert(prev.lists_from(&prev2));
                    old(self).lemma_lists_trans(&prev, &prev2);
                    assert(prev2.lists_from(&*self));
                    old(self).lemma_lists_trans(&prev2, &*self);
                    assert forall|x: int| 0 <= x < old(self).size() implies #[trigger] self.stored_height(x) == if x
                        == id || exists|u: int| 0 <= u < t + 1 && below@[u] == x {
                        None
                    } else {
                        old(self).stored_height(x)
                    } by {
                        assert(self.stored_height(x) == prev2.stored_height(x));
                        if x == o {
                            assert(below@[t as int] == x);
                        } else if exists|u: int| 0 <= u < t + 1 && below@[u] == x {
                            let u = choose|u: int| 0 <= u < t + 1 && below@[u] == x;
                            assert(u < t);
                        }
                    }
                    assert forall|x: int| 0 <= x < old(self).size() implies #[trigger] self.node_at(x).state.y == if exists|u: int|
                        0 <= u < t + 1 && below@[u] == x {
                        None
                    } else {
                        old(self).node_at(x).state.y
                    } by {
                        assert(prev2.node_at(x).state.y == prev.node_at(x).state.y);
                        if x == o {
                            assert(below@[t as int] == x);
                        } else if exists|u: int| 0 <= u < t + 1 && below@[u] == x {
                            let u = choose|u: int| 0 <= u < t + 1 && below@[u] == x;
                            assert(u < t);
                        }
                    }
                }
            } else {
                proof {
                    assert forall|x: int| 0 <= x < old(self).size() implies #[trigger] self.stored_height(x) == if x
                        == id || exists|u: int| 0 <= u < t + 1 && below@[u] == x {
                        None
                    } else {
                        old(self).stored_height(x)
                    } by {
                        if exists|u: int| 0 <= u < t + 1 && below@[u] == x {
                            let u = choose|u: int| 0 <= u < t + 1 && below@[u] == x;
                            assert(u < t);
                        }
                    }
                    assert forall|x: int| 0 <= x < old(self).size() implies #[trigger] self.node_at(x).state.y == if exists|u: int|
                        0 <= u < t + 1 && below@[u] == x {
                        None
                    } else {
                        old(self).node_at(x).state.y
                    } by {
                        if exists|u: int| 0 <= u < t + 1 && below@[u] == x {
                            let u = choose|u: int| 0 <= u < t + 1 && below@[u] == x;
                            assert(u < t);
                        }
                    }
                }
            }
            t += 1;
        }
        let ghost here = *self;
        proof {
            old(self).lemma_lists_refresh(&*self, id as int);
            assert(old(self).node_wf(id as int));
        }
        match self.nodes[id].state.parent {
            Some(p) => {
                proof {
                    old(self).lemma_shape_facts(&*self, id as int);
                    old(self).lemma_lists_refresh(&*self, p as int);
                }
                self.mark_needs_refresh_height(p);
                proof {
                    old(self).lemma_lists_trans(&here, &*self);
                    old(self).lemma_lists_refresh(&here, p as int);
                    assert forall|x: int| 0 <= x < old(self).size() implies #[trigger] self.node_at(x).state.y == if old(
                        self,
                    ).unplaced(id as int).contains(x) {
                        None
                    } else {
                        old(self).node_at(x).state.y
                    } by {
                        assert(old(self).unplaced(id as int).contains(x) == ((0 <= x && old(self).all_below_of(id as int).contains(
                            x as usize,
                        )) || old(self).unplaced(p as int).contains(x)));
                        assert(self.node_at(x).state.y == if here.unplaced(p as int).contains(x) {
                            None
                        } else {
                            here.node_at(x).state.y
                        });
                        if 0 <= x && old(self).all_below_of(id as int).contains(x as usize) {
                            let u = choose|u: int| 0 <= u < below@.len() && below@[u] == x as usize;
                            assert(below@[u] == x);
                        }
                        if exists|u: int| 0 <= u < below@.len() && below@[u] == x {
                            let u = choose|u: int| 0 <= u < below@.len() && below@[u] == x;
                            assert(old(self).all_below_of(id as int)[u] == x);
                        }
                    }
                    assert forall|x: int| 0 <= x < old(self).size() implies #[trigger] self.stored_height(x) == if old(
                        self,
                    ).refreshed(id as int).contains(x) {
                        None
                    } else {
                        old(self).stored_height(x)
                    } by {
                        assert(old(self).refreshed(id as int).contains(x) == (x == id || (0 <= x && old(
                            self,
                        ).all_below_of(id as int).contains(x as usize)) || old(self).refreshed(p as int).contains(x)));
                        if 0 <= x && old(self).all_below_of(id as int).contains(x as usize) {
                            let u = choose|u: int| 0 <= u < below@.len() && below@[u] == x as usize;
                            assert(below@[u] == x);
                        }
                    }
                }
            },
            None => {
                proof {
                    old(self).lemma_shape_facts(&*self, id as int);
                    assert forall|x: int| 0 <= x < old(self).size() implies #[trigger] self.node_at(x).state.y == if old(
                        self,
                    ).unplaced(id as int).contains(x) {
                        None
                    } else {
                        old(self).node_at(x).state.y
                    } by {
                        assert(old(self).unplaced(id as int).contains(x) == (0 <= x && old(self).all_below_of(id as int).contains(
                            x as usize,
                        )));
                        if 0 <= x && old(self).all_below_of(id as int).contains(x as usize) {
                            let u = choose|u: int| 0 <= u < below@.len() && below@[u] == x as usize;
                            assert(below@[u] == x);
                        }
                        if exists|u: int| 0 <= u < below@.len() && below@[u] == x {
                            let u = choose|u: int| 0 <= u < below@.len() && below@[u] == x;
                            assert(old(self).all_below_of(id as int)[u] == x);
                        }
                    }
                    assert forall|x: int| 0 <= x < old(self).size() implies #[trigger] self.stored_height(x) == if old(
                        self,
                    ).refreshed(id as int).contains(x) {
                        None
                    } else {
                        old(self).stored_height(x)
                    } by {
                        assert(old(self).refreshed(id as int).contains(x) == (x == id || (0 <= x && old(
                            self,
                        ).all_below_of(id as int).contains(x as usize))));
                        if 0 <= x && old(self).all_below_of(id as int).contains(x as usize) {
                            let u = choose|u: int| 0 <= u < below@.len() && below@[u] == x as usize;
                            assert(below@[u] == x);
                        }
                    }
                }
            },
        }
    }

    /// Flips whether group `id` is collapsed, and back, and forgets the
    /// stored heights and offsets as a refresh from `id` does.
    pub fn switch_collapse(&mut self, id: LabelId)
        requires
            old(self).wf(),
            id < old(self).size(),
        ensures
            final(self).wf(),
            old(self).lists_from(&*final(self)),
            forall|x: int|
                0 <= x < old(self).size() ==> #[trigger] final(self).node_at(x).state.y == if old(self).unplaced(
                    id as int,
                ).contains(x) {
                    None
                } else {
                    old(self).node_at(x).state.y
                },
            forall|x: int|
                0 <= x < old(self).size() ==> #[trigger] final(self).stored_height(x) == if old(self).refreshed(
                    id as int,
                ).contains(x) {
                    None
                } else {
                    old(self).stored_height(x)
                },
    {
        let ghost before = *self;
        match &mut self.nodes[id].data {
            LabelData::LabelItem(_) => {},
            LabelData::LabelGroup(data) => {
                data.collapsed = !data.collapsed;
            },
        }
        match &mut self.nodes[id].data {
            LabelData::LabelItem(_) => {},
            LabelData::LabelGroup(data) => {
                data.collapsed = !data.collapsed;
            },
        }
        proof {
            assert(self.nodes@ =~= before.nodes@);
            assert(self.levels == before.levels);
            assert(before.same_shape(&*self));
            before.lemma_shape_wf(&*self);
            assert(before.lists_from(&*self));
            before.lemma_lists_refresh(&*self, id as int);
        }
        let ghost mid = *self;
        self.mark_needs_refresh_height(id);
        proof {
            before.lemma_lists_trans(&mid, &*self);
        }
    }
}

/// Whether `v` holds `x`.
fn contains_id(v: &Vec<LabelId>, x: LabelId) -> (r: bool)
    ensures
        r == v@.contains(x),
{
    let mut i: usize = 0;
    while i < v.len()
        invariant
            i <= v.len(),
            forall|j: int| 0 <= j < i ==> v@[j] != x,
        decreases v.len() - i,
    {
        if v[i] == x {
            return true;
        }
        i += 1;
    }
    false
}

/// A copy of `v`.
fn copy_ids(v: &Vec<LabelId>) -> (r: Vec<LabelId>)
    ensures
        r@ == v@,
{
    let mut r: Vec<LabelId> = Vec::new();
    let mut i: usize = 0;
    while i < v.len()
        invariant
            i <= v.len(),
            r@ == v@.take(i as int),
        decreases v.len() - i,
    {
        r.push(v[i]);
        proof {
            assert(v@.take(i + 1) =~= v@.take(i as int).push(v@[i as int]));
        }
        i += 1;
    }
    proof {
        assert(v@.take(v.len() as int) =~= v@);
    }
    r
}

} // verus!
