//! Parent/child relations between items, kept as a DAG of nodes, with
//! cached ancestor and descendant sets.

pub mod flags;
pub mod nodes;

use std::rc::Rc;

use vstd::prelude::*;

use crate::bitset::OffsetBitSet;
use crate::cache::CacheState;
use flags::FlagHandle;
use nodes::{cleaned_layout, kept_chunks, Node, NodeIndex, Nodes};

verus! {

/// A path of exactly `n` steps from `i` to `j`, each step going from a node
/// to one of `g`'s neighbors of it.
pub open spec fn path(g: spec_fn(int) -> Seq<int>, i: int, j: int, n: nat) -> bool
    decreases n,
{
    if n == 0 {
        false
    } else if n == 1 {
        g(i).contains(j)
    } else {
        exists|k: int| #[trigger] g(i).contains(k) && path(g, k, j, (n - 1) as nat)
    }
}

/// `j` can be reached from `i` in one or more steps.
pub open spec fn reaches(g: spec_fn(int) -> Seq<int>, i: int, j: int) -> bool {
    exists|n: nat| #[trigger] path(g, i, j, n)
}

/// All nodes reachable from `i` in one or more steps.
pub open spec fn reach_set(g: spec_fn(int) -> Seq<int>, i: int) -> Set<int> {
    Set::new(|j: int| reaches(g, i, j))
}

/// Some node that `i` is or reaches lies on a cycle.
pub open spec fn cycle_from(g: spec_fn(int) -> Seq<int>, i: int) -> bool {
    exists|c: int| (c == i || reaches(g, i, c)) && #[trigger] reaches(g, c, c)
}

/// The union of each of `nb[..k]` and what it reaches.
pub open spec fn nbr_union(g: spec_fn(int) -> Seq<int>, nb: Seq<int>, k: int) -> Set<int>
    decreases k,
{
    if k <= 0 {
        Set::empty()
    } else {
        nbr_union(g, nb, k - 1).insert(nb[k - 1]).union(reach_set(g, nb[k - 1]))
    }
}

pub proof fn lemma_reaches_step(g: spec_fn(int) -> Seq<int>, i: int, j: int)
    requires
        g(i).contains(j),
    ensures
        reaches(g, i, j),
{
    assert(path(g, i, j, 1));
}

proof fn lemma_path_concat(g: spec_fn(int) -> Seq<int>, a: int, b: int, c: int, n: nat, m: nat)
    requires
        path(g, a, b, n),
        path(g, b, c, m),
    ensures
        path(g, a, c, n + m),
    decreases n,
{
    if n == 1 {
        assert(g(a).contains(b) && path(g, b, c, ((n + m) - 1) as nat));
    } else {
        let k = choose|k: int| #[trigger] g(a).contains(k) && path(g, k, b, (n - 1) as nat);
        lemma_path_concat(g, k, b, c, (n - 1) as nat, m);
        assert(g(a).contains(k) && path(g, k, c, ((n + m) - 1) as nat));
    }
}

pub proof fn lemma_reaches_trans(g: spec_fn(int) -> Seq<int>, a: int, b: int, c: int)
    requires
        reaches(g, a, b),
        reaches(g, b, c),
    ensures
        reaches(g, a, c),
{
    let n = choose|n: nat| #[trigger] path(g, a, b, n);
    let m = choose|m: nat| #[trigger] path(g, b, c, m);
    lemma_path_concat(g, a, b, c, n, m);
}

/// What `i` reaches is each neighbor and what each neighbor reaches.
/// A node that is or reaches a cycle has a neighbor that is or reaches
/// one.
pub proof fn lemma_cycle_step(g: spec_fn(int) -> Seq<int>, i: int)
    requires
        cycle_from(g, i),
    ensures
        exists|t: int| 0 <= t < g(i).len() && #[trigger] cycle_from(g, g(i)[t]),
{
    let c = choose|c: int| (c == i || reaches(g, i, c)) && #[trigger] reaches(g, c, c);
    let j = if c == i { i } else { c };
    assert(reaches(g, i, j)) by {
        if c == i {
        }
    }
    let n = choose|n: nat| #[trigger] path(g, i, j, n);
    let k: int = if n == 1 {
        j
    } else {
        choose|k: int| #[trigger] g(i).contains(k) && path(g, k, j, (n - 1) as nat)
    };
    assert(g(i).contains(k));
    if n != 1 {
        assert(path(g, k, j, (n - 1) as nat));
        assert(reaches(g, k, j));
    }
    assert(cycle_from(g, k));
    let t = choose|t: int| 0 <= t < g(i).len() && #[trigger] g(i)[t] == k;
    assert(cycle_from(g, g(i)[t]));
}

/// What a node reaches that is or reaches a cycle makes the node one that
/// is or reaches a cycle.
pub proof fn lemma_cycle_back(g: spec_fn(int) -> Seq<int>, i: int, c: int)
    requires
        reaches(g, i, c),
        cycle_from(g, c),
    ensures
        cycle_from(g, i),
{
    let d = choose|d: int| (d == c || reaches(g, c, d)) && #[trigger] reaches(g, d, d);
    if d != c {
        lemma_reaches_trans(g, i, c, d);
    }
    assert(reaches(g, i, d));
}

/// A node that `i` reaches is a neighbor of `i` or is reached from one.
proof fn lemma_reach_first(g: spec_fn(int) -> Seq<int>, i: int, y: int)
    requires
        reaches(g, i, y),
    ensures
        exists|n: int| #[trigger] g(i).contains(n) && (n == y || reaches(g, n, y)),
{
    let m = choose|m: nat| #[trigger] path(g, i, y, m);
    if m == 1 {
        assert(g(i).contains(y));
    } else {
        let k = choose|k: int| #[trigger] g(i).contains(k) && path(g, k, y, (m - 1) as nat);
        assert(reaches(g, k, y));
    }
}

pub proof fn lemma_reach_unfold(g: spec_fn(int) -> Seq<int>, i: int)
    ensures
        reach_set(g, i) == nbr_union(g, g(i), g(i).len() as int),
{
    let nb = g(i);
    lemma_nbr_union_members(g, nb, nb.len() as int);
    assert forall|x: int| #[trigger] reach_set(g, i).contains(x) == nbr_union(g, nb, nb.len() as int).contains(x) by {
        if reaches(g, i, x) {
            let n = choose|n: nat| #[trigger] path(g, i, x, n);
            if n == 1 {
                let t = choose|t: int| 0 <= t < nb.len() && nb[t] == x;
                assert(0 <= t < nb.len() && (x == nb[t] || reaches(g, nb[t], x)));
            } else {
                let k = choose|k: int| #[trigger] g(i).contains(k) && path(g, k, x, (n - 1) as nat);
                let t = choose|t: int| 0 <= t < nb.len() && nb[t] == k;
                assert(reaches(g, nb[t], x));
            }
        }
        if nbr_union(g, nb, nb.len() as int).contains(x) {
            let t = choose|t: int| 0 <= t < nb.len() && (x == nb[t] || reaches(g, nb[t], x));
            assert(g(i).contains(nb[t]));
            lemma_reaches_step(g, i, nb[t]);
            if x != nb[t] {
                lemma_reaches_trans(g, i, nb[t], x);
            }
        }
    }
    assert(reach_set(g, i) =~= nbr_union(g, nb, nb.len() as int));
}

proof fn lemma_nbr_union_members(g: spec_fn(int) -> Seq<int>, nb: Seq<int>, k: int)
    requires
        0 <= k <= nb.len(),
    ensures
        forall|x: int| #[trigger] nbr_union(g, nb, k).contains(x) <==> exists|t: int|
            0 <= t < k && (x == nb[t] || reaches(g, nb[t], x)),
    decreases k,
{
    if k > 0 {
        lemma_nbr_union_members(g, nb, k - 1);
        assert forall|x: int| #[trigger] nbr_union(g, nb, k).contains(x) <==> exists|t: int|
            0 <= t < k && (x == nb[t] || reaches(g, nb[t], x)) by {
            if exists|t: int| 0 <= t < k && (x == nb[t] || reaches(g, nb[t], x)) {
                let t = choose|t: int| 0 <= t < k && (x == nb[t] || reaches(g, nb[t], x));
                if t < k - 1 {
                    assert(nbr_union(g, nb, k - 1).contains(x));
                } else {
                    assert(x == nb[k - 1] || reach_set(g, nb[k - 1]).contains(x));
                }
            }
            if nbr_union(g, nb, k).contains(x) {
                if nbr_union(g, nb, k - 1).contains(x) {
                    let t = choose|t: int| 0 <= t < k - 1 && (x == nb[t] || reaches(g, nb[t], x));
                    assert(0 <= t < k && (x == nb[t] || reaches(g, nb[t], x)));
                } else {
                    assert(x == nb[k - 1] || reaches(g, nb[k - 1], x));
                    let t = k - 1;
                    assert(0 <= t < k && (x == nb[t] || reaches(g, nb[t], x)));
                }
            }
        }
    }
}

/// Every edge of `g1` is an edge of `g2`.
pub open spec fn subgraph(g1: spec_fn(int) -> Seq<int>, g2: spec_fn(int) -> Seq<int>) -> bool {
    forall|i: int, j: int| #[trigger] g1(i).contains(j) ==> g2(i).contains(j)
}

/// No node reaches itself.
pub open spec fn acyclic(g: spec_fn(int) -> Seq<int>) -> bool {
    forall|i: int| !#[trigger] reaches(g, i, i)
}

proof fn lemma_path_mono(g1: spec_fn(int) -> Seq<int>, g2: spec_fn(int) -> Seq<int>, i: int, j: int, n: nat)
    requires
        subgraph(g1, g2),
        path(g1, i, j, n),
    ensures
        path(g2, i, j, n),
    decreases n,
{
    if n > 1 {
        let k = choose|k: int| #[trigger] g1(i).contains(k) && path(g1, k, j, (n - 1) as nat);
        lemma_path_mono(g1, g2, k, j, (n - 1) as nat);
        assert(g2(i).contains(k));
    }
}

pub proof fn lemma_reach_mono(g1: spec_fn(int) -> Seq<int>, g2: spec_fn(int) -> Seq<int>, i: int, j: int)
    requires
        subgraph(g1, g2),
        reaches(g1, i, j),
    ensures
        reaches(g2, i, j),
{
    let n = choose|n: nat| #[trigger] path(g1, i, j, n);
    lemma_path_mono(g1, g2, i, j, n);
}

/// Paths from a node that does not reach `pivot` never pass `pivot`, so
/// changing only `pivot`'s edges keeps them.
proof fn lemma_path_unchanged(g: spec_fn(int) -> Seq<int>, g2: spec_fn(int) -> Seq<int>, pivot: int, x: int, j: int, n: nat)
    requires
        forall|i: int| i != pivot ==> #[trigger] g(i) == g2(i),
        x != pivot,
        !reaches(g, x, pivot),
    ensures
        path(g, x, j, n) == path(g2, x, j, n),
    decreases n,
{
    if n > 1 {
        assert(g(x) == g2(x));
        assert forall|k: int| #[trigger] g(x).contains(k) implies path(g, k, j, (n - 1) as nat) == path(g2, k, j, (n - 1) as nat) by {
            lemma_reaches_step(g, x, k);
            if k == pivot {
                assert(reaches(g, x, pivot));
            }
            if reaches(g, k, pivot) {
                lemma_reaches_trans(g, x, k, pivot);
            }
            lemma_path_unchanged(g, g2, pivot, k, j, (n - 1) as nat);
        }
        if path(g, x, j, n) {
            let k = choose|k: int| #[trigger] g(x).contains(k) && path(g, k, j, (n - 1) as nat);
            assert(g2(x).contains(k) && path(g2, k, j, (n - 1) as nat));
        }
        if path(g2, x, j, n) {
            let k = choose|k: int| #[trigger] g2(x).contains(k) && path(g2, k, j, (n - 1) as nat);
            assert(g(x).contains(k) && path(g, k, j, (n - 1) as nat));
        }
    } else if n == 1 {
        assert(g(x) == g2(x));
    }
}

pub proof fn lemma_reach_unchanged(g: spec_fn(int) -> Seq<int>, g2: spec_fn(int) -> Seq<int>, pivot: int, x: int)
    requires
        forall|i: int| i != pivot ==> #[trigger] g(i) == g2(i),
        x != pivot,
        !reaches(g, x, pivot),
    ensures
        reach_set(g, x) == reach_set(g2, x),
        !reaches(g2, x, pivot),
{
    assert forall|j: int| #[trigger] reach_set(g, x).contains(j) == reach_set(g2, x).contains(j) by {
        if reaches(g, x, j) {
            let n = choose|n: nat| #[trigger] path(g, x, j, n);
            lemma_path_unchanged(g, g2, pivot, x, j, n);
        }
        if reaches(g2, x, j) {
            let n = choose|n: nat| #[trigger] path(g2, x, j, n);
            lemma_path_unchanged(g, g2, pivot, x, j, n);
        }
    }
    assert(reach_set(g, x) =~= reach_set(g2, x));
    if reaches(g2, x, pivot) {
        let n = choose|n: nat| #[trigger] path(g2, x, pivot, n);
        lemma_path_unchanged(g, g2, pivot, x, pivot, n);
    }
}

/// In a graph where `pivot` is on no cycle, paths into `pivot` never leave
/// it, so changing only `pivot`'s edges keeps them.
proof fn lemma_path_to_pivot(g: spec_fn(int) -> Seq<int>, g2: spec_fn(int) -> Seq<int>, pivot: int, x: int, n: nat)
    requires
        forall|i: int| i != pivot ==> #[trigger] g(i) == g2(i),
        !reaches(g, pivot, pivot),
        path(g, x, pivot, n),
    ensures
        path(g2, x, pivot, n),
    decreases n,
{
    if x == pivot {
        assert(reaches(g, pivot, pivot));
    }
    assert(g(x) == g2(x));
    if n > 1 {
        let k = choose|k: int| #[trigger] g(x).contains(k) && path(g, k, pivot, (n - 1) as nat);
        lemma_path_to_pivot(g, g2, pivot, k, (n - 1) as nat);
        assert(g2(x).contains(k) && path(g2, k, pivot, (n - 1) as nat));
    }
}

pub proof fn lemma_reach_to_pivot(g: spec_fn(int) -> Seq<int>, g2: spec_fn(int) -> Seq<int>, pivot: int, x: int)
    requires
        forall|i: int| i != pivot ==> #[trigger] g(i) == g2(i),
        !reaches(g, pivot, pivot),
        reaches(g, x, pivot),
    ensures
        reaches(g2, x, pivot),
{
    let n = choose|n: nat| #[trigger] path(g, x, pivot, n);
    lemma_path_to_pivot(g, g2, pivot, x, n);
}

/// Graphs that list a child exactly when the child lists the parent: going
/// up from `i` reaches `j` exactly when going down from `j` reaches `i`.
proof fn lemma_path_dual(up: spec_fn(int) -> Seq<int>, down: spec_fn(int) -> Seq<int>, i: int, j: int, n: nat)
    requires
        forall|a: int, b: int| #[trigger] down(a).contains(b) <==> #[trigger] up(b).contains(a),
        path(up, i, j, n),
    ensures
        reaches(down, j, i),
    decreases n,
{
    if n == 1 {
        lemma_reaches_step(down, j, i);
    } else {
        let k = choose|k: int| #[trigger] up(i).contains(k) && path(up, k, j, (n - 1) as nat);
        lemma_path_dual(up, down, k, j, (n - 1) as nat);
        assert(down(k).contains(i));
        lemma_reaches_step(down, k, i);
        lemma_reaches_trans(down, j, k, i);
    }
}

pub proof fn lemma_reach_dual(up: spec_fn(int) -> Seq<int>, down: spec_fn(int) -> Seq<int>, i: int, j: int)
    requires
        forall|a: int, b: int| #[trigger] down(a).contains(b) <==> #[trigger] up(b).contains(a),
    ensures
        reaches(up, i, j) == reaches(down, j, i),
{
    if reaches(up, i, j) {
        let n = choose|n: nat| #[trigger] path(up, i, j, n);
        lemma_path_dual(up, down, i, j, n);
    }
    if reaches(down, j, i) {
        let n = choose|n: nat| #[trigger] path(down, j, i, n);
        assert forall|a: int, b: int| #[trigger] up(a).contains(b) <==> #[trigger] down(b).contains(a) by {}
        lemma_path_dual(down, up, j, i, n);
    }
}

/// `res` with `x` appended unless it already holds `x`.
pub open spec fn push_new(res: Seq<int>, x: int) -> Seq<int> {
    if res.contains(x) {
        res
    } else {
        res.push(x)
    }
}

/// The elements of `s[..k]` that `r` does not hold, in order.
pub open spec fn filter_out(s: Seq<int>, r: Seq<int>, k: int) -> Seq<int>
    decreases k,
{
    if k <= 0 {
        Seq::empty()
    } else {
        let p = filter_out(s, r, k - 1);
        if r.contains(s[k - 1]) {
            p
        } else {
            p.push(s[k - 1])
        }
    }
}

/// The depth-first listing built from the neighbors `nb[..k]`: each
/// neighbor, then the not yet listed nodes of its own listing `sub`.
pub open spec fn dfs_merge(nb: Seq<int>, lists: spec_fn(int) -> Seq<int>, k: int) -> Seq<int>
    decreases k,
{
    if k <= 0 {
        Seq::empty()
    } else {
        let r = push_new(dfs_merge(nb, lists, k - 1), nb[k - 1]);
        r + filter_out(lists(nb[k - 1]), r, lists(nb[k - 1]).len() as int)
    }
}

/// The depth-first listing from `i`, going at most `f` levels deep: each
/// neighbor, then the not yet listed nodes of its own listing.
pub open spec fn dfs_fuel(g: spec_fn(int) -> Seq<int>, i: int, f: nat) -> Seq<int>
    decreases f, 1nat,
{
    if f == 0 {
        Seq::empty()
    } else {
        dfs_merge(g(i), fuel_lists(g, (f - 1) as nat), g(i).len() as int)
    }
}

/// The listing of each node, going at most `f` levels deep.
pub open spec fn fuel_lists(g: spec_fn(int) -> Seq<int>, f: nat) -> spec_fn(int) -> Seq<int>
    decreases f, 2nat,
{
    |c: int| dfs_fuel(g, c, f)
}

/// The depth-first listing of each node.
pub open spec fn order_lists(g: spec_fn(int) -> Seq<int>) -> spec_fn(int) -> Seq<int> {
    |c: int| dfs_order(g, c)
}

/// The depth-first listing from `i`, deep enough for every node that `i`
/// reaches.
pub open spec fn dfs_order(g: spec_fn(int) -> Seq<int>, i: int) -> Seq<int> {
    dfs_fuel(g, i, (reach_set(g, i).len() + 1) as nat)
}

/// Past the depth of what `i` reaches, with no cycle on the way, more depth
/// changes nothing; so the listing of `i` is built from its neighbors'.
pub proof fn lemma_dfs_order_unfold(g: spec_fn(int) -> Seq<int>, i: int, f: nat)
    requires
        !cycle_from(g, i),
        reach_set(g, i).finite(),
        f >= reach_set(g, i).len() + 1,
    ensures
        dfs_fuel(g, i, f) == dfs_order(g, i),
        dfs_order(g, i) == dfs_merge(g(i), order_lists(g), g(i).len() as int),
    decreases reach_set(g, i).len(),
{
    let f0 = (reach_set(g, i).len() + 1) as nat;
    let nb = g(i);
    assert forall|t: int| 0 <= t < nb.len() implies #[trigger] dfs_fuel(g, nb[t], (f - 1) as nat) == dfs_order(g, nb[t])
        && dfs_fuel(g, nb[t], (f0 - 1) as nat) == dfs_order(g, nb[t]) by {
        let c = nb[t];
        assert(nb.contains(c));
        lemma_reaches_step(g, i, c);
        if cycle_from(g, c) {
            lemma_cycle_back(g, i, c);
        }
        assert(!reaches(g, c, c));
        assert(reach_set(g, c).subset_of(reach_set(g, i).remove(c))) by {
            assert forall|x: int| #[trigger] reach_set(g, c).contains(x) implies reach_set(g, i).remove(c).contains(x) by {
                lemma_reaches_trans(g, i, c, x);
            }
        }
        vstd::set_lib::lemma_len_subset(reach_set(g, c), reach_set(g, i).remove(c));
        lemma_dfs_order_unfold(g, c, (f - 1) as nat);
        lemma_dfs_order_unfold(g, c, (f0 - 1) as nat);
    }
    let s1 = fuel_lists(g, (f - 1) as nat);
    let s0 = fuel_lists(g, (f0 - 1) as nat);
    let so = order_lists(g);
    assert forall|t: int| 0 <= t < nb.len() implies #[trigger] s1(nb[t]) == so(nb[t]) by {
        assert(s1(nb[t]) == dfs_fuel(g, nb[t], (f - 1) as nat));
        assert(so(nb[t]) == dfs_order(g, nb[t]));
    }
    assert forall|t: int| 0 <= t < nb.len() implies #[trigger] s0(nb[t]) == so(nb[t]) by {
        assert(s0(nb[t]) == dfs_fuel(g, nb[t], (f0 - 1) as nat));
        assert(dfs_fuel(g, nb[t], (f - 1) as nat) == dfs_order(g, nb[t]));
        assert(so(nb[t]) == dfs_order(g, nb[t]));
    }
    lemma_dfs_merge_congr(nb, s1, so, nb.len() as int);
    lemma_dfs_merge_congr(nb, s0, so, nb.len() as int);
    assert(dfs_fuel(g, i, f) == dfs_merge(nb, s1, nb.len() as int));
    assert(dfs_fuel(g, i, f0) == dfs_merge(nb, s0, nb.len() as int));
}

proof fn lemma_agree_path(g1: spec_fn(int) -> Seq<int>, g2: spec_fn(int) -> Seq<int>, i: int, j: int, n: nat)
    requires
        forall|x: int| (x == i || reaches(g1, i, x)) ==> #[trigger] g1(x) == g2(x),
    ensures
        path(g1, i, j, n) == path(g2, i, j, n),
    decreases n,
{
    assert(g1(i) == g2(i));
    if n > 1 {
        assert forall|k: int| #[trigger] g1(i).contains(k) implies path(g1, k, j, (n - 1) as nat) == path(g2, k, j, (n - 1) as nat) by {
            lemma_reaches_step(g1, i, k);
            assert forall|x: int| (x == k || reaches(g1, k, x)) implies #[trigger] g1(x) == g2(x) by {
                if x != k {
                    lemma_reaches_trans(g1, i, k, x);
                }
            }
            lemma_agree_path(g1, g2, k, j, (n - 1) as nat);
        }
        if path(g2, i, j, n) {
            let k = choose|k: int| #[trigger] g2(i).contains(k) && path(g2, k, j, (n - 1) as nat);
            assert(g1(i).contains(k));
        }
    }
}

proof fn lemma_agree_dfs(g1: spec_fn(int) -> Seq<int>, g2: spec_fn(int) -> Seq<int>, i: int, f: nat)
    requires
        forall|x: int| (x == i || reaches(g1, i, x)) ==> #[trigger] g1(x) == g2(x),
    ensures
        dfs_fuel(g1, i, f) == dfs_fuel(g2, i, f),
    decreases f,
{
    if f > 0 {
        let nb = g1(i);
        assert(nb == g2(i));
        assert forall|t: int| 0 <= t < nb.len() implies #[trigger] dfs_fuel(g1, nb[t], (f - 1) as nat) == dfs_fuel(g2, nb[t], (f - 1) as nat) by {
            let k = nb[t];
            assert(nb.contains(k));
            lemma_reaches_step(g1, i, k);
            assert forall|x: int| (x == k || reaches(g1, k, x)) implies #[trigger] g1(x) == g2(x) by {
                if x != k {
                    lemma_reaches_trans(g1, i, k, x);
                }
            }
            lemma_agree_dfs(g1, g2, k, (f - 1) as nat);
        }
        let s1 = fuel_lists(g1, (f - 1) as nat);
        let s2 = fuel_lists(g2, (f - 1) as nat);
        assert forall|t: int| 0 <= t < nb.len() implies #[trigger] s1(nb[t]) == s2(nb[t]) by {
            assert(s1(nb[t]) == dfs_fuel(g1, nb[t], (f - 1) as nat));
            assert(s2(nb[t]) == dfs_fuel(g2, nb[t], (f - 1) as nat));
        }
        lemma_dfs_merge_congr(nb, s1, s2, nb.len() as int);
        assert(dfs_fuel(g1, i, f) == dfs_merge(nb, s1, nb.len() as int));
        assert(dfs_fuel(g2, i, f) == dfs_merge(nb, s2, nb.len() as int));
    }
}

/// Two graphs that give the same neighbors to `i` and every node it
/// reaches give `i` the same reach, the same cycles and the same
/// depth-first listing.
pub proof fn lemma_agree_region(g1: spec_fn(int) -> Seq<int>, g2: spec_fn(int) -> Seq<int>, i: int)
    requires
        forall|x: int| (x == i || reaches(g1, i, x)) ==> #[trigger] g1(x) == g2(x),
    ensures
        reach_set(g1, i) == reach_set(g2, i),
        cycle_from(g1, i) == cycle_from(g2, i),
        dfs_order(g1, i) == dfs_order(g2, i),
{
    assert forall|j: int| #[trigger] reaches(g1, i, j) == reaches(g2, i, j) by {
        if reaches(g1, i, j) {
            let n = choose|n: nat| #[trigger] path(g1, i, j, n);
            lemma_agree_path(g1, g2, i, j, n);
        }
        if reaches(g2, i, j) {
            let n = choose|n: nat| #[trigger] path(g2, i, j, n);
            lemma_agree_path(g1, g2, i, j, n);
        }
    }
    assert(reach_set(g1, i) =~= reach_set(g2, i));
    assert forall|c: int| (c == i || reaches(g1, i, c)) implies #[trigger] reaches(g1, c, c) == reaches(g2, c, c) by {
        assert forall|x: int| (x == c || reaches(g1, c, x)) implies #[trigger] g1(x) == g2(x) by {
            if x != c && c != i {
                lemma_reaches_trans(g1, i, c, x);
            }
        }
        if reaches(g1, c, c) {
            let n = choose|n: nat| #[trigger] path(g1, c, c, n);
            lemma_agree_path(g1, g2, c, c, n);
        }
        if reaches(g2, c, c) {
            let n = choose|n: nat| #[trigger] path(g2, c, c, n);
            lemma_agree_path(g1, g2, c, c, n);
        }
    }
    lemma_agree_dfs(g1, g2, i, (reach_set(g1, i).len() + 1) as nat);
    if cycle_from(g1, i) {
        let c = choose|c: int| (c == i || reaches(g1, i, c)) && #[trigger] reaches(g1, c, c);
        assert(reaches(g2, c, c));
        assert(c == i || reaches(g2, i, c));
    }
    if cycle_from(g2, i) {
        let c = choose|c: int| (c == i || reaches(g2, i, c)) && #[trigger] reaches(g2, c, c);
        assert(c == i || reaches(g1, i, c));
        assert(reaches(g1, c, c));
    }
}

proof fn lemma_filter_out(s: Seq<int>, r: Seq<int>, k: int)
    requires
        0 <= k <= s.len(),
        s.no_duplicates(),
    ensures
        filter_out(s, r, k).no_duplicates(),
        forall|x: int| #[trigger] filter_out(s, r, k).contains(x) <==> ((exists|t: int| 0 <= t < k && #[trigger] s[t] == x) && !r.contains(x)),
    decreases k,
{
    if k > 0 {
        lemma_filter_out(s, r, k - 1);
        let p = filter_out(s, r, k - 1);
        let f = filter_out(s, r, k);
        assert forall|x: int| p.contains(x) implies #[trigger] f.contains(x) by {
            let t = choose|t: int| 0 <= t < p.len() && p[t] == x;
            assert(f[t] == x);
        }
        assert forall|x: int| #[trigger] f.contains(x) <==> ((exists|t: int| 0 <= t < k && #[trigger] s[t] == x) && !r.contains(x)) by {
            if f.contains(x) {
                if p.contains(x) {
                    let t = choose|t: int| 0 <= t < k - 1 && #[trigger] s[t] == x;
                    assert(0 <= t < k && s[t] == x);
                } else {
                    let t = choose|t: int| 0 <= t < f.len() && f[t] == x;
                    assert(t == p.len());
                    assert(x == s[k - 1]);
                    assert(0 <= k - 1 < k && s[k - 1] == x);
                }
            }
            if (exists|t: int| 0 <= t < k && #[trigger] s[t] == x) && !r.contains(x) {
                let t = choose|t: int| 0 <= t < k && #[trigger] s[t] == x;
                if t < k - 1 {
                    assert(0 <= t < k - 1 && s[t] == x);
                    assert(p.contains(x));
                } else {
                    assert(f[p.len() as int] == x);
                }
            }
        }
        if !r.contains(s[k - 1]) {
            assert(!p.contains(s[k - 1])) by {
                if p.contains(s[k - 1]) {
                    let t = choose|t: int| 0 <= t < k - 1 && #[trigger] s[t] == s[k - 1];
                }
            }
        }
    }
}

proof fn lemma_ints_contains(v: Seq<usize>, x: usize)
    ensures
        v.contains(x) == v.map_values(|y: usize| y as int).contains(x as int),
{
    let w = v.map_values(|y: usize| y as int);
    if v.contains(x) {
        let t = choose|t: int| 0 <= t < v.len() && v[t] == x;
        assert(w[t] == x as int);
    }
    if w.contains(x as int) {
        let t = choose|t: int| 0 <= t < w.len() && w[t] == x as int;
        assert(v[t] == x);
    }
}

/// A depth-first listing built from correct sub-listings lists what the
/// neighbors reach, each node once.
proof fn lemma_dfs_merge(g: spec_fn(int) -> Seq<int>, nb: Seq<int>, lists: spec_fn(int) -> Seq<int>, k: int)
    requires
        0 <= k <= nb.len(),
        forall|t: int| 0 <= t < k ==> (#[trigger] lists(nb[t])).no_duplicates() && lists(nb[t]).to_set() == reach_set(g, nb[t]),
    ensures
        dfs_merge(nb, lists, k).no_duplicates(),
        dfs_merge(nb, lists, k).to_set() == nbr_union(g, nb, k),
    decreases k,
{
    if k > 0 {
        lemma_dfs_merge(g, nb, lists, k - 1);
        let x = nb[k - 1];
        let p = dfs_merge(nb, lists, k - 1);
        let r = push_new(p, x);
        let q = lists(x);
        assert(q.no_duplicates() && q.to_set() == reach_set(g, x));
        lemma_filter_out(q, r, q.len() as int);
        let f = filter_out(q, r, q.len() as int);
        assert(r.no_duplicates()) by {
            if !p.contains(x) {
                assert forall|a: int, b: int| 0 <= a < b < r.len() implies r[a] != r[b] by {
                    if b == p.len() {
                        assert(p.contains(p[a]));
                    }
                }
            }
        }
        assert((r + f).no_duplicates()) by {
            assert forall|a: int, b: int| 0 <= a < b < (r + f).len() implies (r + f)[a] != (r + f)[b] by {
                if a < r.len() && b >= r.len() {
                    assert(f.contains((r + f)[b]));
                    assert(r.contains((r + f)[a]));
                } else if a >= r.len() {
                    assert((r + f)[a] == f[a - r.len()]);
                    assert((r + f)[b] == f[b - r.len()]);
                }
            }
        }
        assert((r + f).to_set() =~= nbr_union(g, nb, k)) by {
            assert forall|y: int| #[trigger] (r + f).to_set().contains(y) == nbr_union(g, nb, k).contains(y) by {
                assert(r.to_set() =~= p.to_set().insert(x)) by {
                    assert forall|z: int| #[trigger] r.to_set().contains(z) == p.to_set().insert(x).contains(z) by {
                        if !p.contains(x) {
                            if r.contains(z) {
                                let t = choose|t: int| 0 <= t < r.len() && r[t] == z;
                                if t < p.len() {
                                    assert(p[t] == z);
                                }
                            }
                            if p.contains(z) {
                                let t = choose|t: int| 0 <= t < p.len() && p[t] == z;
                                assert(r[t] == z);
                            }
                            assert(r[p.len() as int] == x);
                        }
                    }
                }
                if (r + f).contains(y) {
                    let t = choose|t: int| 0 <= t < (r + f).len() && (r + f)[t] == y;
                    if t < r.len() {
                        assert(r.contains(y));
                    } else {
                        assert(f.contains(y));
                        let u = choose|u: int| 0 <= u < q.len() && #[trigger] q[u] == y;
                        assert(q.contains(y));
                        assert(q.to_set().contains(y));
                    }
                }
                if nbr_union(g, nb, k).contains(y) {
                    if r.contains(y) {
                        let t = choose|t: int| 0 <= t < r.len() && r[t] == y;
                        assert((r + f)[t] == y);
                    } else if reach_set(g, x).contains(y) {
                        assert(q.to_set().contains(y));
                        assert(q.contains(y));
                        let u = choose|u: int| 0 <= u < q.len() && q[u] == y;
                        assert(0 <= u < q.len() && #[trigger] q[u] == y);
                        assert(f.contains(y));
                        let t = choose|t: int| 0 <= t < f.len() && f[t] == y;
                        assert((r + f)[t + r.len()] == y);
                    } else {
                        assert(p.to_set().contains(y));
                    }
                }
            }
        }
    }
}

/// A change that the items owning the nodes are told about.
#[derive(Clone, Copy, Debug, PartialEq, Eq)]
pub enum Notice {
    /// The parents of the node changed.
    ParentsChanged(NodeIndex),
    /// The children of the node changed.
    ChildrenChanged(NodeIndex),
}

/// Reported when a computation over the relation graph meets a cycle.
#[derive(Clone, Copy, Debug, PartialEq, Eq)]
pub struct CycleError;

/// Used for create DAG relations between objects
pub struct RelationRegistry {
    nodes: Nodes,
    /// Nodes found dead by a cleanup but still stored, in a chunk that
    /// survived; nothing reaches them any more.
    dead: Ghost<Set<int>>,
    flags: flags::FlagTable,
}

impl RelationRegistry {
    /// The flag set of each pair of keys that has one.
    pub closed spec fn flag_sets(&self) -> Map<(usize, usize), Set<int>> {
        self.flags.sets()
    }

    /// The names that flag keys were made from; a name's key is its
    /// position.
    pub closed spec fn flag_names(&self) -> Seq<Seq<char>> {
        self.flags.names()
    }

    /// Whether node `i` is stored.
    pub closed spec fn contains(&self, i: int) -> bool {
        self.nodes.contains(i) && !self.dead@.contains(i)
    }

    /// The parents of node `i`, in link order.
    pub closed spec fn parents(&self, i: int) -> Seq<int> {
        if self.contains(i) {
            self.nodes.node_at(i).parents@.map_values(|x: usize| x as int)
        } else {
            Seq::empty()
        }
    }

    /// The children of node `i`, in display order.
    pub closed spec fn children(&self, i: int) -> Seq<int> {
        if self.contains(i) {
            self.nodes.node_at(i).children@.map_values(|x: usize| x as int)
        } else {
            Seq::empty()
        }
    }

    /// The graph going up to parents (`up`) or down to children.
    pub closed spec fn graph(&self, up: bool) -> spec_fn(int) -> Seq<int> {
        |i: int| if up { self.parents(i) } else { self.children(i) }
    }

    pub closed spec fn set_state(&self, up: bool, i: int) -> CacheState<OffsetBitSet> {
        if !self.contains(i) {
            CacheState::Outdated
        } else if up {
            self.nodes.node_at(i).ancestor_set.state()
        } else {
            self.nodes.node_at(i).descendant_set.state()
        }
    }

    pub closed spec fn dfs_state(&self, up: bool, i: int) -> CacheState<Vec<NodeIndex>> {
        if !self.contains(i) {
            CacheState::Outdated
        } else if up {
            self.nodes.node_at(i).ancestor_dfs.state()
        } else {
            self.nodes.node_at(i).descendant_dfs.state()
        }
    }

    /// A cached set of node `i` holds exactly what `i` reaches.
    spec fn set_ok(&self, up: bool, i: int) -> bool {
        self.set_state(up, i) matches CacheState::Valid(v) ==> (*v)@ == reach_set(self.graph(up), i)
    }

    /// Each cached set going up (`up`) or down holds at least what its node
    /// reaches in `h`.
    spec fn covers(&self, up: bool, h: spec_fn(int) -> Seq<int>) -> bool {
        forall|x: int| #[trigger] self.set_state(up, x) is Valid ==> reach_set(h, x).subset_of(self.set_members(up, x))
    }

    /// The members of the cached set of node `i`, empty when there is none.
    pub closed spec fn set_members(&self, up: bool, i: int) -> Set<int> {
        match self.set_state(up, i) {
            CacheState::Valid(v) => (*v)@,
            _ => Set::empty(),
        }
    }

    /// The cached listing of node `i`, empty when there is none.
    pub closed spec fn dfs_list(&self, up: bool, i: int) -> Seq<int> {
        match self.dfs_state(up, i) {
            CacheState::Valid(v) => (*v)@.map_values(|x: usize| x as int),
            _ => Seq::empty(),
        }
    }

    /// A cached listing of node `i` lists each node that `i` reaches, once,
    /// and, with no cycle on the way, in depth-first order.
    spec fn dfs_ok(&self, up: bool, i: int) -> bool {
        self.dfs_state(up, i) is Valid ==> {
            &&& self.dfs_list(up, i).no_duplicates()
            &&& self.dfs_list(up, i).to_set() == reach_set(self.graph(up), i)
            &&& !cycle_from(self.graph(up), i) ==> self.dfs_list(up, i) == dfs_order(self.graph(up), i)
        }
    }

    spec fn dfs_region_ok(&self, up: bool, i: int) -> bool {
        forall|c: int| (c == i || reaches(self.graph(up), i, c)) ==> #[trigger] self.dfs_ok(up, c)
    }

    spec fn dfs_computing(&self, up: bool) -> Set<int> {
        Set::new(|c: int| self.contains(c) && self.dfs_state(up, c) is Computing)
    }

    /// Every node that `i` is or reaches has a correct cached set.
    spec fn region_ok(&self, up: bool, i: int) -> bool {
        forall|c: int| (c == i || reaches(self.graph(up), i, c)) ==> #[trigger] self.set_ok(up, c)
    }

    spec fn set_computing(&self, up: bool) -> Set<int> {
        Set::new(|c: int| self.contains(c) && self.set_state(up, c) is Computing)
    }

    /// No node that `i` is or reaches, and that is or reaches a cycle, has
    /// a cached set going up (`up`) or down.
    pub open spec fn cycle_unmasked_set(&self, up: bool, i: int) -> bool {
        forall|c: int|
            (c == i || reaches(self.graph(up), i, c)) && cycle_from(self.graph(up), c) ==> !(#[trigger] self.set_state(
                up,
                c,
            ) is Valid)
    }

    /// No node that `i` is or reaches, and that is or reaches a cycle, has
    /// a cached listing going up (`up`) or down.
    pub open spec fn cycle_unmasked_dfs(&self, up: bool, i: int) -> bool {
        forall|c: int|
            (c == i || reaches(self.graph(up), i, c)) && cycle_from(self.graph(up), c) ==> !(#[trigger] self.dfs_state(
                up,
                c,
            ) is Valid)
    }

    /// Every cache holds what it should: a cached set exactly the nodes
    /// reached, a cached listing each of them once; and no cache stands on
    /// a node that is or reaches a cycle, so none hides one.
    pub closed spec fn sound(&self) -> bool {
        &&& forall|i: int, up: bool| #[trigger] self.set_ok(up, i)
        &&& forall|i: int, up: bool| #[trigger] self.dfs_ok(up, i)
        &&& self.unmasked()
    }

    /// No cached set going up (`up`) or down stands on a node that is or
    /// reaches a cycle.
    spec fn unmasked_set(&self, up: bool) -> bool {
        forall|i: int| #[trigger] self.set_state(up, i) is Valid ==> !cycle_from(self.graph(up), i)
    }

    /// No cached listing going up (`up`) or down stands on a node that is
    /// or reaches a cycle.
    spec fn unmasked_dfs(&self, up: bool) -> bool {
        forall|i: int| #[trigger] self.dfs_state(up, i) is Valid ==> !cycle_from(self.graph(up), i)
    }

    /// No cache stands on a node that is or reaches a cycle.
    pub closed spec fn unmasked(&self) -> bool {
        &&& self.unmasked_set(true)
        &&& self.unmasked_set(false)
        &&& self.unmasked_dfs(true)
        &&& self.unmasked_dfs(false)
    }

    /// Both caches of direction `up` of node `i` are correct.
    pub closed spec fn dir_ok(&self, up: bool, i: int) -> bool {
        self.set_ok(up, i) && self.dfs_ok(up, i)
    }

    /// Every cache is correct, except possibly the caches going up of the
    /// nodes in `up_stale` and those going down of the nodes in `down_stale`.
    pub closed spec fn ok_except(&self, up_stale: Set<int>, down_stale: Set<int>) -> bool {
        &&& self.dir_ok_except(true, up_stale)
        &&& self.dir_ok_except(false, down_stale)
    }

    /// The caches of direction `up` are correct except possibly those of the
    /// nodes in `stale`.
    pub closed spec fn dir_ok_except(&self, up: bool, stale: Set<int>) -> bool {
        forall|i: int| !stale.contains(i) ==> #[trigger] self.dir_ok(up, i)
    }

    /// Node `i` and the nodes it reaches going up (`up`) or down.
    pub closed spec fn reach_from(&self, up: bool, i: int) -> Set<int> {
        reach_set(self.graph(up), i).insert(i)
    }

    /// The storage layout of the nodes.
    pub closed spec fn layout(&self) -> Seq<nodes::ChunkLayout> {
        self.nodes.layout()
    }

    /// The id that the next created node gets.
    pub closed spec fn next_id(&self) -> int {
        self.nodes.next_id()
    }

    /// Every link points at a stored node, links have no duplicates, and a
    /// node lists a child exactly when the child lists it as a parent.
    pub closed spec fn links_ok(&self) -> bool {
        &&& forall|i: int| #[trigger] self.contains(i) ==> self.parents(i).no_duplicates() && self.children(i).no_duplicates()
        &&& forall|i: int, j: int| self.contains(i) && #[trigger] self.parents(i).contains(j) ==> self.contains(j)
        &&& forall|i: int, j: int| self.contains(i) && #[trigger] self.children(i).contains(j) ==> self.contains(j)
        &&& forall|i: int, j: int| self.contains(i) && self.contains(j) ==> (#[trigger] self.children(i).contains(j) <==> #[trigger] self.parents(j).contains(i))
    }

    /// The storage and the links are well formed and every cached set is a
    /// well-formed bitset.
    spec fn inner_ok(&self) -> bool {
        &&& self.nodes.wf()
        &&& self.links_ok()
        &&& forall|i: int, up: bool| self.contains(i) ==> (#[trigger] self.set_state(up, i) matches CacheState::Valid(v) ==> (*v).wf())
        &&& forall|i: int, up: bool, x: int| #[trigger] self.set_members(up, i).contains(x) ==> self.contains(x)
        &&& forall|i: int, up: bool, x: int| #[trigger] self.dfs_list(up, i).contains(x) ==> self.contains(x)
    }

    /// Well formed, and no computation is running.
    pub closed spec fn wf(&self) -> bool {
        &&& self.flags.wf()
        &&& self.inner_ok()
        &&& forall|i: int, up: bool| self.contains(i) ==> !(#[trigger] self.set_state(up, i) is Computing)
        &&& forall|i: int, up: bool| self.contains(i) ==> !(#[trigger] self.dfs_state(up, i) is Computing)
    }
}

/// `b` has the storage, the links and the caches of `a`, except the cache
/// of kind `dfs` (a list rather than a set) and direction `up`.
spec fn frame(a: RelationRegistry, b: RelationRegistry, dfs: bool, up: bool) -> bool {
    &&& b.dead == a.dead
    &&& b.flags == a.flags
    &&& b.nodes.layout() == a.nodes.layout()
    &&& b.nodes.next_id() == a.nodes.next_id()
    &&& b.nodes.no_gap() == a.nodes.no_gap()
    &&& forall|i: int| #[trigger] b.contains(i) == a.contains(i)
    &&& forall|i: int| a.contains(i) ==> {
        let na = a.nodes.node_at(i);
        let nb = #[trigger] b.nodes.node_at(i);
        &&& nb.parents == na.parents
        &&& nb.children == na.children
        &&& !(dfs && up) ==> nb.ancestor_dfs == na.ancestor_dfs
        &&& !(dfs && !up) ==> nb.descendant_dfs == na.descendant_dfs
        &&& !(!dfs && up) ==> nb.ancestor_set == na.ancestor_set
        &&& !(!dfs && !up) ==> nb.descendant_set == na.descendant_set
    }
}

proof fn lemma_frame(a: RelationRegistry, b: RelationRegistry, dfs: bool, up: bool)
    requires
        frame(a, b, dfs, up),
    ensures
        b.graph(true) == a.graph(true),
        b.graph(false) == a.graph(false),
        forall|i: int, d: bool| !(!dfs && d == up) ==> #[trigger] b.set_state(d, i) == a.set_state(d, i),
        forall|i: int, d: bool| !(dfs && d == up) ==> #[trigger] b.dfs_state(d, i) == a.dfs_state(d, i),
        forall|i: int| #[trigger] b.parents(i) == a.parents(i) && b.children(i) == a.children(i),
        a.links_ok() ==> b.links_ok(),
{
    assert forall|i: int| #[trigger] b.parents(i) == a.parents(i) && b.children(i) == a.children(i) by {
        if a.contains(i) {
            assert(b.nodes.node_at(i).parents == a.nodes.node_at(i).parents);
        }
    }
    assert forall|i: int, d: bool| !(!dfs && d == up) implies #[trigger] b.set_state(d, i) == a.set_state(d, i) by {
        if a.contains(i) {
            let _ = b.nodes.node_at(i);
        }
    }
    assert forall|i: int, d: bool| !(dfs && d == up) implies #[trigger] b.dfs_state(d, i) == a.dfs_state(d, i) by {
        if a.contains(i) {
            let _ = b.nodes.node_at(i);
        }
    }
    assert(b.graph(true) =~= a.graph(true));
    assert(b.graph(false) =~= a.graph(false));
}

/// The frame relation composes.
proof fn lemma_frame_trans(a: RelationRegistry, b: RelationRegistry, c: RelationRegistry, dfs: bool, up: bool)
    requires
        frame(a, b, dfs, up),
        frame(b, c, dfs, up),
    ensures
        frame(a, c, dfs, up),
{
    assert forall|i: int| a.contains(i) implies {
        let na = a.nodes.node_at(i);
        let nc = #[trigger] c.nodes.node_at(i);
        &&& nc.parents == na.parents
        &&& nc.children == na.children
        &&& !(dfs && up) ==> nc.ancestor_dfs == na.ancestor_dfs
        &&& !(dfs && !up) ==> nc.descendant_dfs == na.descendant_dfs
        &&& !(!dfs && up) ==> nc.ancestor_set == na.ancestor_set
        &&& !(!dfs && !up) ==> nc.descendant_set == na.descendant_set
    } by {
        assert(b.contains(i));
        let _ = b.nodes.node_at(i);
    }
}

/// A node that is reached is a neighbor of some node.
proof fn lemma_reach_last(g: spec_fn(int) -> Seq<int>, i: int, j: int, n: nat)
    requires
        path(g, i, j, n),
    ensures
        exists|k: int| #[trigger] g(k).contains(j),
    decreases n,
{
    if n > 1 {
        let k = choose|k: int| #[trigger] g(i).contains(k) && path(g, k, j, (n - 1) as nat);
        lemma_reach_last(g, k, j, (n - 1) as nat);
    }
}

impl RelationRegistry {
    /// What a node reaches is finite: it is made of stored nodes.
    proof fn lemma_reach_finite(&self, up: bool, i: int)
        requires
            self.nodes.wf(),
            self.links_ok(),
        ensures
            reach_set(self.graph(up), i).finite(),
    {
        let g = self.graph(up);
        self.nodes.lemma_contains_bounds(0);
        let r = vstd::set_lib::set_int_range(0, self.nodes.next_id());
        vstd::set_lib::lemma_int_range(0, self.nodes.next_id());
        assert forall|j: int| #[trigger] reach_set(g, i).contains(j) implies r.contains(j) by {
            let n = choose|n: nat| #[trigger] path(g, i, j, n);
            lemma_reach_last(g, i, j, n);
            let k = choose|k: int| #[trigger] g(k).contains(j);
            if up {
                assert(self.parents(k).contains(j));
            } else {
                assert(self.children(k).contains(j));
            }
            assert(self.contains(k));
            assert(self.contains(j));
            self.nodes.lemma_contains_bounds(j);
        }
        vstd::set_lib::lemma_len_subset(reach_set(g, i), r);
    }

    proof fn lemma_computing_finite(&self, up: bool)
        requires
            self.nodes.wf(),
        ensures
            self.set_computing(up).finite(),
            self.set_computing(up).len() <= self.nodes.next_id(),
    {
        self.nodes.lemma_contains_bounds(0);
        let r = vstd::set_lib::set_int_range(0, self.nodes.next_id());
        vstd::set_lib::lemma_int_range(0, self.nodes.next_id());
        assert forall|c: int| self.set_computing(up).contains(c) implies r.contains(c) by {
            self.nodes.lemma_contains_bounds(c);
        }
        vstd::set_lib::lemma_len_subset(self.set_computing(up), r);
    }

    /// Opens a request on the cached set of `index`.
    fn start_set(&mut self, up: bool, index: NodeIndex) -> (r: Option<Result<Rc<OffsetBitSet>, ()>>)
        requires
            old(self).inner_ok(),
            old(self).contains(index as int),
        ensures
            final(self).inner_ok(),
            frame(*old(self), *final(self), false, up),
            forall|c: int| c != index ==> #[trigger] final(self).set_state(up, c) == old(self).set_state(up, c),
            match old(self).set_state(up, index as int) {
                CacheState::Valid(v) => r == Some(Ok::<Rc<OffsetBitSet>, ()>(v)) && final(self).set_state(up, index as int)
                    == old(self).set_state(up, index as int),
                CacheState::Computing => r == Some(Err::<Rc<OffsetBitSet>, ()>(())) && final(self).set_state(up, index as int)
                    is Computing,
                CacheState::Outdated => r is None && final(self).set_state(up, index as int) is Computing,
            },
    {
        let ghost pre = *old(self);
        let mut node = self.nodes.replace_node(index, Node::new());
        let r = if up {
            node.ancestor_set.start()
        } else {
            node.descendant_set.start()
        };
        let _ = self.nodes.replace_node(index, node);
        proof {
            assert(self.contains(index as int));
            assert(self.set_state(up, index as int) == pre.set_state(up, index as int) || self.set_state(up, index as int) is Computing);
            assert forall|x: int| #[trigger] self.set_members(up, index as int).contains(x) implies self.contains(x) by {
                assert(pre.set_members(up, index as int).contains(x));
            }
            self.lemma_frame_after_replace(pre, false, up, index as int);
        }
        r
    }

    /// Closes a request opened by [`RelationRegistry::start_set`].
    fn finish_set(&mut self, up: bool, index: NodeIndex, value: Option<OffsetBitSet>) -> (r: Option<Rc<OffsetBitSet>>)
        requires
            old(self).inner_ok(),
            old(self).contains(index as int),
            value matches Some(v) ==> v.wf() && forall|x: int| #[trigger] v@.contains(x) ==> old(self).contains(x),
        ensures
            final(self).inner_ok(),
            frame(*old(self), *final(self), false, up),
            forall|c: int| c != index ==> #[trigger] final(self).set_state(up, c) == old(self).set_state(up, c),
            match value {
                Some(v) => r == Some(Rc::new(v)) && final(self).set_state(up, index as int) == CacheState::Valid(Rc::new(v)),
                None => r is None && final(self).set_state(up, index as int) is Outdated,
            },
    {
        let ghost pre = *old(self);
        let mut node = self.nodes.replace_node(index, Node::new());
        let r = if up {
            node.ancestor_set.finish(value)
        } else {
            node.descendant_set.finish(value)
        };
        let _ = self.nodes.replace_node(index, node);
        proof {
            assert(self.contains(index as int));
            assert forall|x: int| #[trigger] self.set_members(up, index as int).contains(x) implies self.contains(x) by {}
            self.lemma_frame_after_replace(pre, false, up, index as int);
        }
        r
    }

    /// After replacing the node at `index` by one that differs only in its
    /// cache of kind `dfs` and direction `up`, the frame holds.
    proof fn lemma_frame_after_replace(&self, pre: RelationRegistry, dfs: bool, up: bool, index: int)
        requires
            pre.inner_ok(),
            pre.contains(index),
            self.dead == pre.dead,
            self.flags == pre.flags,
            self.nodes.wf(),
            self.nodes.layout() == pre.nodes.layout(),
            self.nodes.next_id() == pre.nodes.next_id(),
            self.nodes.no_gap() == pre.nodes.no_gap(),
            forall|i: int| #[trigger] self.nodes.contains(i) == pre.nodes.contains(i),
            forall|i: int| i != index && pre.nodes.contains(i) ==> #[trigger] self.nodes.node_at(i) == pre.nodes.node_at(i),
            ({
                let na = pre.nodes.node_at(index);
                let nb = self.nodes.node_at(index);
                &&& nb.parents == na.parents
                &&& nb.children == na.children
                &&& !(dfs && up) ==> nb.ancestor_dfs == na.ancestor_dfs
                &&& !(dfs && !up) ==> nb.descendant_dfs == na.descendant_dfs
                &&& !(!dfs && up) ==> nb.ancestor_set == na.ancestor_set
                &&& !(!dfs && !up) ==> nb.descendant_set == na.descendant_set
            }),
            !dfs ==> (self.set_state(up, index) matches CacheState::Valid(v) ==> (*v).wf()),
            !dfs ==> forall|x: int| #[trigger] self.set_members(up, index).contains(x) ==> self.contains(x),
            dfs ==> forall|x: int| #[trigger] self.dfs_list(up, index).contains(x) ==> self.contains(x),
        ensures
            frame(pre, *self, dfs, up),
            self.inner_ok(),
            forall|c: int| c != index ==> #[trigger] self.set_state(up, c) == pre.set_state(up, c),
            forall|c: int| c != index ==> #[trigger] self.dfs_state(up, c) == pre.dfs_state(up, c),
    {
        assert forall|i: int| pre.contains(i) implies {
            let na = pre.nodes.node_at(i);
            let nb = #[trigger] self.nodes.node_at(i);
            &&& nb.parents == na.parents
            &&& nb.children == na.children
            &&& !(dfs && up) ==> nb.ancestor_dfs == na.ancestor_dfs
            &&& !(dfs && !up) ==> nb.descendant_dfs == na.descendant_dfs
            &&& !(!dfs && up) ==> nb.ancestor_set == na.ancestor_set
            &&& !(!dfs && !up) ==> nb.descendant_set == na.descendant_set
        } by {}
        lemma_frame(pre, *self, dfs, up);
        assert forall|i: int, d: bool| self.contains(i) implies (#[trigger] self.set_state(d, i) matches CacheState::Valid(v) ==> (*v).wf()) by {
            assert(pre.contains(i));
            if i != index {
                assert(self.nodes.node_at(i) == pre.nodes.node_at(i));
                assert(self.set_state(d, i) == pre.set_state(d, i));
            } else if dfs || d != up {
                assert(self.set_state(d, i) == pre.set_state(d, i));
            }
        }
        assert forall|c: int| c != index implies #[trigger] self.set_state(up, c) == pre.set_state(up, c) by {
            if pre.contains(c) {
                assert(self.nodes.node_at(c) == pre.nodes.node_at(c));
            }
        }
        assert forall|i: int, d: bool, x: int| #[trigger] self.set_members(d, i).contains(x) implies self.contains(x) by {
            if i != index || dfs || d != up {
                if pre.contains(i) && i != index {
                    assert(self.nodes.node_at(i) == pre.nodes.node_at(i));
                }
                assert(self.set_state(d, i) == pre.set_state(d, i));
                assert(pre.set_members(d, i).contains(x));
            }
        }
        assert forall|i: int, d: bool, x: int| #[trigger] self.dfs_list(d, i).contains(x) implies self.contains(x) by {
            if i != index || !dfs || d != up {
                if pre.contains(i) && i != index {
                    assert(self.nodes.node_at(i) == pre.nodes.node_at(i));
                }
                assert(self.dfs_state(d, i) == pre.dfs_state(d, i));
                assert(pre.dfs_list(d, i).contains(x));
            }
        }
        assert forall|c: int| c != index implies #[trigger] self.dfs_state(up, c) == pre.dfs_state(up, c) by {
            if pre.contains(c) {
                assert(self.nodes.node_at(c) == pre.nodes.node_at(c));
            }
        }
    }

    /// The neighbors of `index` going up (parents) or down (children).
    fn neighbors(&self, up: bool, index: NodeIndex) -> (r: Vec<NodeIndex>)
        requires
            self.inner_ok(),
            self.contains(index as int),
        ensures
            r@.map_values(|x: usize| x as int) == self.graph(up)(index as int),
    {
        let node = self.nodes.node(index);
        let src = if up {
            &node.parents
        } else {
            &node.children
        };
        let mut r: Vec<NodeIndex> = Vec::new();
        let mut k: usize = 0;
        while k < src.len()
            invariant
                k <= src@.len(),
                r@ == src@.subrange(0, k as int),
            decreases src@.len() - k,
        {
            r.push(src[k]);
            k = k + 1;
            assert(r@ =~= src@.subrange(0, k as int));
        }
        assert(r@ =~= src@);
        r
    }
}

/// The region of `c` lies inside the region of any node that is or reaches `c`.
proof fn lemma_region_ok_inner(r: RelationRegistry, up: bool, i: int, c: int)
    requires
        r.region_ok(up, i),
        c == i || reaches(r.graph(up), i, c),
    ensures
        r.region_ok(up, c),
{
    assert forall|d: int| (d == c || reaches(r.graph(up), c, d)) implies #[trigger] r.set_ok(up, d) by {
        if d != c && c != i {
            lemma_reaches_trans(r.graph(up), i, c, d);
        }
    }
}

impl RelationRegistry {
    /// The cached set of `index`: what `index` reaches going up (ancestors)
    /// or down (descendants), computed from the neighbors' sets when the
    /// cache is outdated. `Err` when the computation meets itself.
    fn cached_set(&mut self, up: bool, index: NodeIndex, Ghost(h): Ghost<spec_fn(int) -> Seq<int>>) -> (r: Result<Rc<OffsetBitSet>, CycleError>)
        requires
            old(self).inner_ok(),
            old(self).contains(index as int),
            forall|c: int| #[trigger] old(self).set_computing(up).contains(c) ==> reaches(old(self).graph(up), c, index as int),
        ensures
            final(self).inner_ok(),
            frame(*old(self), *final(self), false, up),
            final(self).set_computing(up) == old(self).set_computing(up),
            forall|c: int| #[trigger] final(self).set_state(up, c) == old(self).set_state(up, c) || (old(self).set_state(up, c) is Outdated
                && final(self).set_state(up, c) is Valid),
            forall|c: int| !(c == index || reaches(old(self).graph(up), index as int, c)) ==> #[trigger] final(self).set_state(up, c)
                == old(self).set_state(up, c),
            forall|c: int| #[trigger] old(self).region_ok(up, c) ==> final(self).set_ok(up, c),
            r is Err ==> cycle_from(old(self).graph(up), index as int),
            r matches Ok(s) ==> final(self).set_state(up, index as int) == CacheState::Valid(s) && (*s).wf() && (old(self).region_ok(up, index as int)
                ==> (*s)@ == reach_set(old(self).graph(up), index as int)),
            old(self).cycle_unmasked_set(up, index as int) && cycle_from(old(self).graph(up), index as int) ==> r is Err,
            subgraph(h, old(self).graph(up)) && old(self).covers(up, h) ==> final(self).covers(up, h) && (r matches Ok(s) ==> reach_set(
                h,
                index as int,
            ).subset_of((*s)@)),
            old(self).unmasked_set(up) ==> final(self).unmasked_set(up),
        decreases old(self).nodes.next_id() - old(self).set_computing(up).len(),
    {
        let ghost pre = *old(self);
        let ghost g = pre.graph(up);
        let ghost hc = subgraph(h, g) && pre.covers(up, h);
        proof {
            pre.lemma_computing_finite(up);
        }
        let ghost hyp = pre.cycle_unmasked_set(up, index as int) && cycle_from(g, index as int);
        let ghost um = pre.unmasked_set(up);
        proof {
            if hyp {
                assert(!(pre.set_state(up, index as int) is Valid));
            }
            if um {
                assert forall|c: int|
                    (c == index || reaches(g, index as int, c)) && cycle_from(g, c) implies !(#[trigger] pre.set_state(up, c) is Valid) by {}
                assert(hyp == cycle_from(g, index as int));
            }
        }
        let st = self.start_set(up, index);
        match st {
            Some(Ok(v)) => {
                proof {
                    lemma_frame(pre, *self, false, up);
                    assert(self.set_computing(up) =~= pre.set_computing(up));
                    assert forall|c: int| #[trigger] pre.region_ok(up, c) implies self.set_ok(up, c) by {
                        assert(pre.set_ok(up, c));
                    }
                    if hc {
                        assert forall|x: int| #[trigger] self.set_state(up, x) is Valid implies reach_set(h, x).subset_of(self.set_members(up, x)) by {
                            assert(self.set_state(up, x) == pre.set_state(up, x));
                        }
                    }
                    if um {
                        assert(self.graph(up) == g);
                        assert forall|x: int| #[trigger] self.set_state(up, x) is Valid implies !cycle_from(g, x) by {
                            assert(self.set_state(up, x) == pre.set_state(up, x));
                        }
                    }
                }
                return Ok(v);
            },
            Some(Err(())) => {
                proof {
                    lemma_frame(pre, *self, false, up);
                    assert(self.set_computing(up) =~= pre.set_computing(up));
                    assert(pre.set_computing(up).contains(index as int));
                    assert(reaches(g, index as int, index as int));
                    assert forall|c: int| #[trigger] pre.region_ok(up, c) implies self.set_ok(up, c) by {
                        assert(pre.set_ok(up, c));
                    }
                    if hc {
                        assert forall|x: int| #[trigger] self.set_state(up, x) is Valid implies reach_set(h, x).subset_of(self.set_members(up, x)) by {
                            assert(self.set_state(up, x) == pre.set_state(up, x));
                        }
                    }
                    if um {
                        assert(self.graph(up) == g);
                        assert forall|x: int| #[trigger] self.set_state(up, x) is Valid implies !cycle_from(g, x) by {
                            assert(self.set_state(up, x) == pre.set_state(up, x));
                        }
                    }
                }
                return Err(CycleError);
            },
            None => {},
        }
        let ghost started = *self;
        proof {
            lemma_frame(pre, started, false, up);
            assert(started.set_computing(up) =~= pre.set_computing(up).insert(index as int));
            assert(!pre.set_computing(up).contains(index as int));
            started.lemma_computing_finite(up);
            assert(started.set_computing(up).len() == pre.set_computing(up).len() + 1);
            assert forall|c: int| c != index && #[trigger] pre.region_ok(up, c) implies started.set_ok(up, c) by {
                assert(pre.set_ok(up, c));
            }
            if hc {
                assert forall|x: int| #[trigger] started.set_state(up, x) is Valid implies reach_set(h, x).subset_of(started.set_members(up, x)) by {
                    if x != index {
                        assert(started.set_state(up, x) == pre.set_state(up, x));
                    }
                }
            }
            if um {
                assert(started.graph(up) == g);
                assert forall|x: int| #[trigger] started.set_state(up, x) is Valid implies !cycle_from(g, x) by {
                    if x != index {
                        assert(started.set_state(up, x) == pre.set_state(up, x));
                    }
                }
            }
        }
        let nbrs = self.neighbors(up, index);
        let mut set = OffsetBitSet::new();
        let mut k: usize = 0;
        while k < nbrs.len()
            invariant
                pre == *old(self),
                pre.inner_ok(),
                pre.contains(index as int),
                g == pre.graph(up),
                self.inner_ok(),
                frame(pre, *self, false, up),
                nbrs@.map_values(|x: usize| x as int) == g(index as int),
                k <= nbrs@.len(),
                self.set_state(up, index as int) is Computing,
                pre.set_state(up, index as int) is Outdated,
                self.set_computing(up) == pre.set_computing(up).insert(index as int),
                !pre.set_computing(up).contains(index as int),
                pre.set_computing(up).finite(),
                pre.set_computing(up).len() < pre.nodes.next_id(),
                forall|c: int| #[trigger] pre.set_computing(up).contains(c) ==> reaches(g, c, index as int),
                forall|c: int| c != index ==> #[trigger] self.set_state(up, c) == pre.set_state(up, c) || (pre.set_state(up, c) is Outdated
                    && self.set_state(up, c) is Valid),
                forall|c: int| !(c == index || reaches(g, index as int, c)) ==> #[trigger] self.set_state(up, c) == pre.set_state(up, c),
                forall|c: int| c != index && #[trigger] pre.region_ok(up, c) ==> self.set_ok(up, c),
                set.wf(),
                forall|x: int| #[trigger] set@.contains(x) ==> pre.contains(x),
                pre.region_ok(up, index as int) ==> set@ == nbr_union(g, g(index as int), k as int),
                hyp == (pre.cycle_unmasked_set(up, index as int) && cycle_from(g, index as int)),
                hyp ==> forall|t: int| 0 <= t < k ==> !#[trigger] cycle_from(g, g(index as int)[t]),
                hyp ==> forall|c: int| c != index && #[trigger] cycle_from(g, c) ==> self.set_state(up, c) == pre.set_state(up, c),
                hc == (subgraph(h, g) && pre.covers(up, h)),
                hc ==> self.covers(up, h),
                um == pre.unmasked_set(up),
                um ==> self.unmasked_set(up),
                hc ==> forall|t: int|
                    0 <= t < k ==> set@.contains(#[trigger] g(index as int)[t]) && reach_set(h, g(index as int)[t]).subset_of(set@),
            decreases nbrs@.len() - k,
        {
            let n = nbrs[k];
            proof {
                assert(g(index as int)[k as int] == n as int);
                assert(g(index as int).contains(n as int));
                lemma_reaches_step(g, index as int, n as int);
                lemma_frame(pre, *self, false, up);
                assert(self.contains(n as int)) by {
                    assert(pre.parents(index as int) == g(index as int) || pre.children(index as int) == g(index as int));
                }
                assert forall|c: int| #[trigger] self.set_computing(up).contains(c) implies reaches(self.graph(up), c, n as int) by {
                    if c != index {
                        lemma_reaches_trans(g, c, index as int, n as int);
                    }
                }
                self.lemma_computing_finite(up);
                assert(self.set_computing(up).len() == pre.set_computing(up).len() + 1);
            }
            set.insert(n);
            let ghost mid = *self;
            proof {
                if hyp {
                    lemma_frame(pre, mid, false, up);
                    assert forall|c: int|
                        (c == n || reaches(mid.graph(up), n as int, c)) && cycle_from(mid.graph(up), c) implies !(#[trigger] mid.set_state(
                        up,
                        c,
                    ) is Valid) by {
                        if c == index {
                        } else {
                            if c != n {
                                lemma_reaches_trans(g, index as int, n as int, c);
                            }
                            assert(mid.set_state(up, c) == pre.set_state(up, c));
                            assert(!(pre.set_state(up, c) is Valid));
                        }
                    }
                }
            }
            proof {
                if hc {
                    lemma_frame(pre, mid, false, up);
                    assert(mid.graph(up) == g);
                }
            }
            let sub = self.cached_set(up, n, Ghost(h));
            match sub {
                Ok(sub) => {
                    proof {
                        lemma_frame(mid, *self, false, up);
                        lemma_frame_trans(pre, mid, *self, false, up);
                        lemma_frame(pre, *self, false, up);
                        // sets that were correct before stay correct
                        assert forall|c: int| c != index && #[trigger] pre.region_ok(up, c) implies self.set_ok(up, c) by {
                            assert(mid.region_ok(up, c)) by {
                                assert forall|d: int| (d == c || reaches(g, c, d)) implies #[trigger] mid.set_ok(up, d) by {
                                    lemma_region_ok_inner(pre, up, c, d);
                                    if d != index {
                                        assert(pre.region_ok(up, d));
                                    }
                                }
                            }
                        }
                        assert forall|c: int| !(c == index || reaches(g, index as int, c)) implies #[trigger] self.set_state(up, c) == pre.set_state(up, c) by {
                            if c == n || reaches(g, n as int, c) {
                                if c != n {
                                    lemma_reaches_trans(g, index as int, n as int, c);
                                }
                            }
                        }
                        if pre.region_ok(up, index as int) {
                            lemma_region_ok_inner(pre, up, index as int, n as int);
                            assert(mid.region_ok(up, n as int)) by {
                                assert forall|d: int| (d == n || reaches(g, n as int, d)) implies #[trigger] mid.set_ok(up, d) by {
                                    lemma_region_ok_inner(pre, up, n as int, d);
                                    if d != index {
                                        assert(pre.region_ok(up, d));
                                    }
                                }
                            }
                        }
                        assert(self.set_computing(up) =~= pre.set_computing(up).insert(index as int));
                        if hyp {
                            assert(!cycle_from(g, n as int));
                            assert forall|c: int| c != index && #[trigger] cycle_from(g, c) implies self.set_state(up, c) == pre.set_state(
                                up,
                                c,
                            ) by {
                                if c == n || reaches(g, n as int, c) {
                                    if c != n {
                                        lemma_cycle_back(g, n as int, c);
                                    }
                                } else {
                                    assert(self.set_state(up, c) == mid.set_state(up, c));
                                }
                            }
                            assert forall|t: int| 0 <= t < k + 1 implies !#[trigger] cycle_from(g, g(index as int)[t]) by {
                                if t == k {
                                    assert(g(index as int)[t] == n as int);
                                }
                            }
                        }
                    }
                    proof {
                        assert(self.set_members(up, n as int) == (*sub)@);
                        assert forall|x: int| #[trigger] (*sub)@.contains(x) implies pre.contains(x) by {
                            assert(self.set_members(up, n as int).contains(x));
                        }
                    }
                    let ghost set_before = set@;
                    set.union_with(&*sub);
                    proof {
                        if pre.region_ok(up, index as int) {
                            assert(set@ =~= nbr_union(g, g(index as int), k + 1));
                        }
                        if hc {
                            assert forall|t: int| 0 <= t < k + 1 implies set@.contains(#[trigger] g(index as int)[t]) && reach_set(
                                h,
                                g(index as int)[t],
                            ).subset_of(set@) by {
                                if t == k {
                                    assert(g(index as int)[t] == n as int);
                                } else {
                                    assert(set_before.contains(g(index as int)[t]));
                                }
                            }
                        }
                    }
                },
                Err(e) => {
                    let ghost before_finish = *self;
                    self.finish_set(up, index, None);
                    proof {
                        if hc {
                            assert forall|x: int| #[trigger] self.set_state(up, x) is Valid implies reach_set(h, x).subset_of(self.set_members(up, x)) by {
                                if x != index {
                                    assert(self.set_state(up, x) == before_finish.set_state(up, x));
                                }
                            }
                        }
                        if um {
                            lemma_frame(mid, before_finish, false, up);
                            lemma_frame_trans(pre, mid, before_finish, false, up);
                            lemma_frame(pre, before_finish, false, up);
                            lemma_frame_trans(pre, before_finish, *self, false, up);
                            lemma_frame(pre, *self, false, up);
                            assert(mid.graph(up) == g);
                            assert(before_finish.graph(up) == g);
                            assert(self.graph(up) == g);
                            assert forall|x: int| #[trigger] self.set_state(up, x) is Valid implies !cycle_from(g, x) by {
                                if x != index {
                                    assert(self.set_state(up, x) == before_finish.set_state(up, x));
                                }
                            }
                        }
                        lemma_frame(mid, before_finish, false, up);
                        lemma_frame_trans(pre, mid, before_finish, false, up);
                        lemma_frame_trans(pre, before_finish, *self, false, up);
                        lemma_frame(pre, *self, false, up);
                        assert(self.set_computing(up) =~= pre.set_computing(up));
                        let c = choose|c: int| (c == n || reaches(g, n as int, c)) && #[trigger] reaches(g, c, c);
                        if c != n {
                            lemma_reaches_trans(g, index as int, n as int, c);
                        }
                        assert(cycle_from(g, index as int));
                        assert forall|c: int| #[trigger] self.set_state(up, c) == pre.set_state(up, c) || (pre.set_state(up, c) is Outdated
                            && self.set_state(up, c) is Valid) by {
                            if c != index {
                                assert(before_finish.set_state(up, c) == mid.set_state(up, c) || (mid.set_state(up, c) is Outdated
                                    && before_finish.set_state(up, c) is Valid));
                                assert(mid.set_state(up, c) == pre.set_state(up, c) || (pre.set_state(up, c) is Outdated
                                    && mid.set_state(up, c) is Valid));
                            }
                        }
                        assert forall|c: int| #[trigger] pre.region_ok(up, c) implies self.set_ok(up, c) by {
                            if c != index {
                                assert(mid.region_ok(up, c)) by {
                                    assert forall|d: int| (d == c || reaches(g, c, d)) implies #[trigger] mid.set_ok(up, d) by {
                                        lemma_region_ok_inner(pre, up, c, d);
                                        if d != index {
                                            assert(pre.region_ok(up, d));
                                        }
                                    }
                                }
                            }
                        }
                        assert forall|c: int| !(c == index || reaches(g, index as int, c)) implies #[trigger] self.set_state(up, c) == pre.set_state(up, c) by {
                            if c == n || reaches(g, n as int, c) {
                                if c != n {
                                    lemma_reaches_trans(g, index as int, n as int, c);
                                }
                            }
                        }
                    }
                    return Err(e);
                },
            }
            k = k + 1;
        }
        let ghost before_finish = *self;
        proof {
            if pre.region_ok(up, index as int) {
                lemma_reach_unfold(g, index as int);
                assert(nbrs@.len() == g(index as int).len());
            }
            if hyp {
                lemma_cycle_step(g, index as int);
                assert(nbrs@.map_values(|x: usize| x as int).len() == g(index as int).len());
                assert(false);
            }
            if hc {
                assert forall|y: int| #[trigger] reach_set(h, index as int).contains(y) implies set@.contains(y) by {
                    lemma_reach_first(h, index as int, y);
                    let m = choose|m: int| #[trigger] h(index as int).contains(m) && (m == y || reaches(h, m, y));
                    assert(g(index as int).contains(m));
                    let t = choose|t: int| 0 <= t < g(index as int).len() && #[trigger] g(index as int)[t] == m;
                    assert(nbrs@.map_values(|x: usize| x as int).len() == g(index as int).len());
                    assert(set@.contains(g(index as int)[t]));
                    if m != y {
                        assert(reach_set(h, g(index as int)[t]).contains(y));
                    }
                }
            }
        }
        let ghost set_view = set@;
        let v = self.finish_set(up, index, Some(set));
        proof {
            if hc {
                assert forall|x: int| #[trigger] self.set_state(up, x) is Valid implies reach_set(h, x).subset_of(self.set_members(up, x)) by {
                    if x != index {
                        assert(self.set_state(up, x) == before_finish.set_state(up, x));
                    }
                }
            }
            if um {
                lemma_frame(pre, before_finish, false, up);
                lemma_frame_trans(pre, before_finish, *self, false, up);
                lemma_frame(pre, *self, false, up);
                assert(before_finish.graph(up) == g);
                assert(self.graph(up) == g);
                assert forall|x: int| #[trigger] self.set_state(up, x) is Valid implies !cycle_from(g, x) by {
                    if x != index {
                        assert(self.set_state(up, x) == before_finish.set_state(up, x));
                    } else {
                        assert(!hyp);
                    }
                }
            }
            lemma_frame_trans(pre, before_finish, *self, false, up);
            lemma_frame(pre, *self, false, up);
            lemma_frame(pre, before_finish, false, up);
            assert(self.set_computing(up) =~= pre.set_computing(up));
            assert forall|c: int| #[trigger] pre.region_ok(up, c) implies self.set_ok(up, c) by {
                if c == index {
                } else {
                    assert(before_finish.set_ok(up, c));
                    assert(self.set_state(up, c) == before_finish.set_state(up, c));
                }
            }
        }
        Ok(v.unwrap())
    }
}

proof fn lemma_dfs_merge_congr(nb: Seq<int>, s1: spec_fn(int) -> Seq<int>, s2: spec_fn(int) -> Seq<int>, k: int)
    requires
        forall|t: int| 0 <= t < k ==> #[trigger] s1(nb[t]) == s2(nb[t]),
    ensures
        dfs_merge(nb, s1, k) == dfs_merge(nb, s2, k),
    decreases k,
{
    if k > 0 {
        lemma_dfs_merge_congr(nb, s1, s2, k - 1);
        assert(s1(nb[k - 1]) == s2(nb[k - 1]));
    }
}

proof fn lemma_dfs_region_ok_inner(r: RelationRegistry, up: bool, i: int, c: int)
    requires
        r.dfs_region_ok(up, i),
        c == i || reaches(r.graph(up), i, c),
    ensures
        r.dfs_region_ok(up, c),
{
    assert forall|d: int| (d == c || reaches(r.graph(up), c, d)) implies #[trigger] r.dfs_ok(up, d) by {
        if d != c && c != i {
            lemma_reaches_trans(r.graph(up), i, c, d);
        }
    }
}

/// Whether `v` holds `x`.
fn vec_contains(v: &Vec<NodeIndex>, x: NodeIndex) -> (r: bool)
    ensures
        r == v@.contains(x),
{
    let mut i: usize = 0;
    while i < v.len()
        invariant
            i <= v@.len(),
            forall|k: int| 0 <= k < i ==> v@[k] != x,
        decreases v@.len() - i,
    {
        if v[i] == x {
            return true;
        }
        i = i + 1;
    }
    false
}

impl RelationRegistry {
    proof fn lemma_dfs_computing_finite(&self, up: bool)
        requires
            self.nodes.wf(),
        ensures
            self.dfs_computing(up).finite(),
            self.dfs_computing(up).len() <= self.nodes.next_id(),
    {
        self.nodes.lemma_contains_bounds(0);
        let r = vstd::set_lib::set_int_range(0, self.nodes.next_id());
        vstd::set_lib::lemma_int_range(0, self.nodes.next_id());
        assert forall|c: int| self.dfs_computing(up).contains(c) implies r.contains(c) by {
            self.nodes.lemma_contains_bounds(c);
        }
        vstd::set_lib::lemma_len_subset(self.dfs_computing(up), r);
    }

    /// Opens a request on the cached listing of `index`.
    fn start_dfs(&mut self, up: bool, index: NodeIndex) -> (r: Option<Result<Rc<Vec<NodeIndex>>, ()>>)
        requires
            old(self).inner_ok(),
            old(self).contains(index as int),
        ensures
            final(self).inner_ok(),
            frame(*old(self), *final(self), true, up),
            forall|c: int| c != index ==> #[trigger] final(self).dfs_state(up, c) == old(self).dfs_state(up, c),
            match old(self).dfs_state(up, index as int) {
                CacheState::Valid(v) => r == Some(Ok::<Rc<Vec<NodeIndex>>, ()>(v)) && final(self).dfs_state(up, index as int)
                    == old(self).dfs_state(up, index as int),
                CacheState::Computing => r == Some(Err::<Rc<Vec<NodeIndex>>, ()>(())) && final(self).dfs_state(up, index as int)
                    is Computing,
                CacheState::Outdated => r is None && final(self).dfs_state(up, index as int) is Computing,
            },
    {
        let ghost pre = *old(self);
        let mut node = self.nodes.replace_node(index, Node::new());
        let r = if up {
            node.ancestor_dfs.start()
        } else {
            node.descendant_dfs.start()
        };
        let _ = self.nodes.replace_node(index, node);
        proof {
            assert(self.contains(index as int));
            assert(self.dfs_state(up, index as int) == pre.dfs_state(up, index as int) || self.dfs_state(up, index as int) is Computing);
            assert forall|x: int| #[trigger] self.dfs_list(up, index as int).contains(x) implies self.contains(x) by {
                assert(pre.dfs_list(up, index as int).contains(x));
            }
            self.lemma_frame_after_replace(pre, true, up, index as int);
        }
        r
    }

    /// Closes a request opened by [`RelationRegistry::start_dfs`].
    fn finish_dfs(&mut self, up: bool, index: NodeIndex, value: Option<Vec<NodeIndex>>) -> (r: Option<Rc<Vec<NodeIndex>>>)
        requires
            old(self).inner_ok(),
            old(self).contains(index as int),
            value matches Some(v) ==> forall|x: usize| #[trigger] v@.contains(x) ==> old(self).contains(x as int),
        ensures
            final(self).inner_ok(),
            frame(*old(self), *final(self), true, up),
            forall|c: int| c != index ==> #[trigger] final(self).dfs_state(up, c) == old(self).dfs_state(up, c),
            match value {
                Some(v) => r == Some(Rc::new(v)) && final(self).dfs_state(up, index as int) == CacheState::Valid(Rc::new(v)),
                None => r is None && final(self).dfs_state(up, index as int) is Outdated,
            },
    {
        let ghost pre = *old(self);
        let mut node = self.nodes.replace_node(index, Node::new());
        let r = if up {
            node.ancestor_dfs.finish(value)
        } else {
            node.descendant_dfs.finish(value)
        };
        let _ = self.nodes.replace_node(index, node);
        proof {
            assert(self.contains(index as int));
            assert forall|x: int| #[trigger] self.dfs_list(up, index as int).contains(x) implies self.contains(x) by {
                match value {
                    Some(v) => {
                        let w = v@.map_values(|y: usize| y as int);
                        assert(self.dfs_list(up, index as int) == w);
                        let t = choose|t: int| 0 <= t < w.len() && w[t] == x;
                        assert(v@.contains(v@[t]));
                    },
                    None => {},
                }
            }
            self.lemma_frame_after_replace(pre, true, up, index as int);
        }
        r
    }

    /// The cached depth-first listing of `index`: its neighbors going up
    /// (parents) or down (children), each followed by the nodes of its own
    /// listing that are not listed yet. `Err` when the computation meets itself.
    fn cached_dfs(&mut self, up: bool, index: NodeIndex) -> (r: Result<Rc<Vec<NodeIndex>>, CycleError>)
        requires
            old(self).inner_ok(),
            old(self).contains(index as int),
            forall|c: int| #[trigger] old(self).dfs_computing(up).contains(c) ==> reaches(old(self).graph(up), c, index as int),
        ensures
            final(self).inner_ok(),
            frame(*old(self), *final(self), true, up),
            final(self).dfs_computing(up) == old(self).dfs_computing(up),
            forall|c: int| #[trigger] final(self).dfs_state(up, c) == old(self).dfs_state(up, c) || (old(self).dfs_state(up, c) is Outdated
                && final(self).dfs_state(up, c) is Valid),
            forall|c: int| !(c == index || reaches(old(self).graph(up), index as int, c)) ==> #[trigger] final(self).dfs_state(up, c)
                == old(self).dfs_state(up, c),
            forall|c: int| #[trigger] old(self).dfs_region_ok(up, c) ==> final(self).dfs_ok(up, c),
            r is Err ==> cycle_from(old(self).graph(up), index as int),
            r matches Ok(v) ==> final(self).dfs_state(up, index as int) == CacheState::Valid(v),
            r is Ok && old(self).dfs_state(up, index as int) is Outdated ==> {
                let nb = old(self).graph(up)(index as int);
                &&& forall|t: int| 0 <= t < nb.len() ==> #[trigger] final(self).dfs_state(up, nb[t]) is Valid
                &&& final(self).dfs_list(up, index as int) == dfs_merge(nb, |n: int| final(self).dfs_list(up, n), nb.len() as int)
            },
            old(self).cycle_unmasked_dfs(up, index as int) && cycle_from(old(self).graph(up), index as int) ==> r is Err,
            old(self).unmasked_dfs(up) ==> final(self).unmasked_dfs(up),
        decreases old(self).nodes.next_id() - old(self).dfs_computing(up).len(),
    {
        let ghost pre = *old(self);
        let ghost g = pre.graph(up);
        proof {
            pre.lemma_dfs_computing_finite(up);
        }
        let ghost hyp = pre.cycle_unmasked_dfs(up, index as int) && cycle_from(g, index as int);
        let ghost um = pre.unmasked_dfs(up);
        proof {
            if hyp {
                assert(!(pre.dfs_state(up, index as int) is Valid));
            }
            if um {
                assert forall|c: int|
                    (c == index || reaches(g, index as int, c)) && cycle_from(g, c) implies !(#[trigger] pre.dfs_state(up, c) is Valid) by {}
                assert(hyp == cycle_from(g, index as int));
            }
        }
        let st = self.start_dfs(up, index);
        match st {
            Some(Ok(v)) => {
                proof {
                    lemma_frame(pre, *self, true, up);
                    assert(self.dfs_computing(up) =~= pre.dfs_computing(up));
                    assert forall|c: int| #[trigger] pre.dfs_region_ok(up, c) implies self.dfs_ok(up, c) by {
                        assert(pre.dfs_ok(up, c));
                    }
                    if um {
                        assert(self.graph(up) == g);
                        assert forall|x: int| #[trigger] self.dfs_state(up, x) is Valid implies !cycle_from(g, x) by {
                            assert(self.dfs_state(up, x) == pre.dfs_state(up, x));
                        }
                    }
                }
                return Ok(v);
            },
            Some(Err(())) => {
                proof {
                    lemma_frame(pre, *self, true, up);
                    assert(self.dfs_computing(up) =~= pre.dfs_computing(up));
                    assert(pre.dfs_computing(up).contains(index as int));
                    assert(reaches(g, index as int, index as int));
                    assert forall|c: int| #[trigger] pre.dfs_region_ok(up, c) implies self.dfs_ok(up, c) by {
                        assert(pre.dfs_ok(up, c));
                    }
                    if um {
                        assert(self.graph(up) == g);
                        assert forall|x: int| #[trigger] self.dfs_state(up, x) is Valid implies !cycle_from(g, x) by {
                            assert(self.dfs_state(up, x) == pre.dfs_state(up, x));
                        }
                    }
                }
                return Err(CycleError);
            },
            None => {},
        }
        let ghost started = *self;
        proof {
            lemma_frame(pre, started, true, up);
            assert(started.dfs_computing(up) =~= pre.dfs_computing(up).insert(index as int));
            assert(!pre.dfs_computing(up).contains(index as int));
            started.lemma_dfs_computing_finite(up);
            assert(started.dfs_computing(up).len() == pre.dfs_computing(up).len() + 1);
            assert forall|c: int| c != index && #[trigger] pre.dfs_region_ok(up, c) implies started.dfs_ok(up, c) by {
                assert(pre.dfs_ok(up, c));
                assert(started.dfs_state(up, c) == pre.dfs_state(up, c));
            }
            if um {
                assert(started.graph(up) == g);
                assert forall|x: int| #[trigger] started.dfs_state(up, x) is Valid implies !cycle_from(g, x) by {
                    if x != index {
                        assert(started.dfs_state(up, x) == pre.dfs_state(up, x));
                    }
                }
            }
        }
        let nbrs = self.neighbors(up, index);
        let ghost nb = g(index as int);
        let mut res: Vec<NodeIndex> = Vec::new();
        let mut k: usize = 0;
        while k < nbrs.len()
            invariant
                pre == *old(self),
                pre.inner_ok(),
                pre.contains(index as int),
                g == pre.graph(up),
                nb == g(index as int),
                self.inner_ok(),
                frame(pre, *self, true, up),
                nbrs@.map_values(|x: usize| x as int) == nb,
                k <= nbrs@.len(),
                self.dfs_state(up, index as int) is Computing,
                pre.dfs_state(up, index as int) is Outdated,
                self.dfs_computing(up) == pre.dfs_computing(up).insert(index as int),
                !pre.dfs_computing(up).contains(index as int),
                pre.dfs_computing(up).finite(),
                pre.dfs_computing(up).len() < pre.nodes.next_id(),
                forall|c: int| #[trigger] pre.dfs_computing(up).contains(c) ==> reaches(g, c, index as int),
                forall|c: int| c != index ==> #[trigger] self.dfs_state(up, c) == pre.dfs_state(up, c) || (pre.dfs_state(up, c) is Outdated
                    && self.dfs_state(up, c) is Valid),
                forall|c: int| !(c == index || reaches(g, index as int, c)) ==> #[trigger] self.dfs_state(up, c) == pre.dfs_state(up, c),
                forall|c: int| c != index && #[trigger] pre.dfs_region_ok(up, c) ==> self.dfs_ok(up, c),
                forall|t: int| 0 <= t < k ==> #[trigger] self.dfs_state(up, nb[t]) is Valid,
                res@.map_values(|x: usize| x as int) == dfs_merge(nb, |n: int| self.dfs_list(up, n), k as int),
                forall|x: usize| #[trigger] res@.contains(x) ==> pre.contains(x as int),
                hyp == (pre.cycle_unmasked_dfs(up, index as int) && cycle_from(g, index as int)),
                hyp ==> forall|t: int| 0 <= t < k ==> !#[trigger] cycle_from(g, g(index as int)[t]),
                hyp ==> forall|c: int| c != index && #[trigger] cycle_from(g, c) ==> self.dfs_state(up, c) == pre.dfs_state(up, c),
                um == pre.unmasked_dfs(up),
                um ==> self.unmasked_dfs(up),
            decreases nbrs@.len() - k,
        {
            let n = nbrs[k];
            let ghost before = *self;
            proof {
                assert(nb[k as int] == n as int);
                assert(g(index as int).contains(n as int));
                lemma_reaches_step(g, index as int, n as int);
                lemma_frame(pre, *self, true, up);
                assert(self.contains(n as int)) by {
                    assert(pre.parents(index as int) == g(index as int) || pre.children(index as int) == g(index as int));
                }
                assert forall|c: int| #[trigger] self.dfs_computing(up).contains(c) implies reaches(self.graph(up), c, n as int) by {
                    if c != index {
                        lemma_reaches_trans(g, c, index as int, n as int);
                    }
                }
                self.lemma_dfs_computing_finite(up);
                assert(self.dfs_computing(up).len() == pre.dfs_computing(up).len() + 1);
            }
            let ghost old_res = res@;
            if !vec_contains(&res, n) {
                res.push(n);
            }
            let ghost r_mid = res@.map_values(|x: usize| x as int);
            proof {
                let prev = dfs_merge(nb, |m: int| self.dfs_list(up, m), k as int);
                assert(r_mid =~= push_new(prev, n as int)) by {
                    lemma_ints_contains(old_res, n);
                }
            }
            let ghost mid = *self;
            proof {
                if hyp {
                    lemma_frame(pre, mid, true, up);
                    assert forall|c: int|
                        (c == n || reaches(mid.graph(up), n as int, c)) && cycle_from(mid.graph(up), c) implies !(#[trigger] mid.dfs_state(
                        up,
                        c,
                    ) is Valid) by {
                        if c == index {
                        } else {
                            if c != n {
                                lemma_reaches_trans(g, index as int, n as int, c);
                            }
                            assert(mid.dfs_state(up, c) == pre.dfs_state(up, c));
                            assert(!(pre.dfs_state(up, c) is Valid));
                        }
                    }
                }
            }
            let sub = self.cached_dfs(up, n);
            match sub {
                Ok(sub) => {
                    let subv: &Vec<NodeIndex> = &*sub;
                    let mut filtered: Vec<NodeIndex> = Vec::new();
                    let mut j: usize = 0;
                    while j < subv.len()
                        invariant
                            j <= subv@.len(),
                            filtered@.map_values(|x: usize| x as int) == filter_out(subv@.map_values(|x: usize| x as int), res@.map_values(|x: usize| x as int), j as int),
                            forall|x: usize| #[trigger] filtered@.contains(x) ==> subv@.contains(x),
                        decreases subv@.len() - j,
                    {
                        let x = subv[j];
                        proof {
                            lemma_ints_contains(res@, x);
                        }
                        if !vec_contains(&res, x) {
                            let ghost fb = filtered@;
                            filtered.push(x);
                            proof {
                                assert forall|y: usize| #[trigger] filtered@.contains(y) implies subv@.contains(y) by {
                                    if fb.contains(y) {
                                    } else {
                                        assert(y == x);
                                        assert(subv@[j as int] == x);
                                    }
                                }
                            }
                        }
                        j = j + 1;
                        proof {
                            assert(filtered@.map_values(|x: usize| x as int) =~= filter_out(subv@.map_values(|x: usize| x as int), res@.map_values(|x: usize| x as int), j as int));
                        }
                    }
                    let ghost r1 = res@;
                    let mut j: usize = 0;
                    while j < filtered.len()
                        invariant
                            j <= filtered@.len(),
                            res@ == r1 + filtered@.subrange(0, j as int),
                        decreases filtered@.len() - j,
                    {
                        res.push(filtered[j]);
                        j = j + 1;
                        proof {
                            assert(res@ =~= r1 + filtered@.subrange(0, j as int));
                        }
                    }
                    proof {
                        assert(filtered@.subrange(0, filtered@.len() as int) =~= filtered@);
                        assert(self.dfs_list(up, n as int) == subv@.map_values(|x: usize| x as int));
                        assert forall|x: usize| #[trigger] res@.contains(x) implies pre.contains(x as int) by {
                            if r1.contains(x) {
                                if !old_res.contains(x) {
                                    let t = choose|t: int| 0 <= t < r1.len() && r1[t] == x;
                                    assert(t == old_res.len());
                                    assert(x == n);
                                    assert(before.contains(n as int));
                                }
                            } else {
                                let t = choose|t: int| 0 <= t < res@.len() && res@[t] == x;
                                assert(filtered@.contains(res@[t]));
                                assert(subv@.contains(x));
                                lemma_ints_contains(subv@, x);
                                assert(self.dfs_list(up, n as int).contains(x as int));
                            }
                        }
                        lemma_frame(mid, *self, true, up);
                        lemma_frame_trans(pre, mid, *self, true, up);
                        lemma_frame(pre, *self, true, up);
                        assert forall|c: int| c != index && #[trigger] pre.dfs_region_ok(up, c) implies self.dfs_ok(up, c) by {
                            assert(mid.dfs_region_ok(up, c)) by {
                                assert forall|d: int| (d == c || reaches(g, c, d)) implies #[trigger] mid.dfs_ok(up, d) by {
                                    lemma_dfs_region_ok_inner(pre, up, c, d);
                                    if d != index {
                                        assert(pre.dfs_region_ok(up, d));
                                    }
                                }
                            }
                        }
                        assert forall|c: int| !(c == index || reaches(g, index as int, c)) implies #[trigger] self.dfs_state(up, c) == pre.dfs_state(up, c) by {
                            if c == n || reaches(g, n as int, c) {
                                if c != n {
                                    lemma_reaches_trans(g, index as int, n as int, c);
                                }
                            }
                        }
                        assert forall|c: int| c != index implies #[trigger] self.dfs_state(up, c) == pre.dfs_state(up, c) || (pre.dfs_state(up, c) is Outdated
                            && self.dfs_state(up, c) is Valid) by {
                            assert(self.dfs_state(up, c) == mid.dfs_state(up, c) || (mid.dfs_state(up, c) is Outdated
                                && self.dfs_state(up, c) is Valid));
                        }
                        assert forall|t: int| 0 <= t < k + 1 implies #[trigger] self.dfs_state(up, nb[t]) is Valid by {
                            if t < k {
                                assert(mid.dfs_state(up, nb[t]) is Valid);
                            }
                        }
                        assert forall|t: int| 0 <= t < k implies #[trigger] self.dfs_list(up, nb[t])
                            == before.dfs_list(up, nb[t]) by {
                            if t < k {
                                assert(mid.dfs_state(up, nb[t]) is Valid);
                            }
                        }
                        lemma_dfs_merge_congr(nb, |m: int| self.dfs_list(up, m), |m: int| before.dfs_list(up, m), k as int);
                        assert(self.dfs_list(up, n as int) == (*sub)@.map_values(|x: usize| x as int));
                        assert((*sub)@.map_values(|x: usize| x as int).len() == subv@.len());
                        assert(res@.map_values(|x: usize| x as int) =~= dfs_merge(nb, |m: int| self.dfs_list(up, m), k + 1));
                        assert(self.dfs_computing(up) =~= pre.dfs_computing(up).insert(index as int));
                        if hyp {
                            assert(!cycle_from(g, n as int));
                            assert forall|c: int| c != index && #[trigger] cycle_from(g, c) implies self.dfs_state(up, c) == pre.dfs_state(
                                up,
                                c,
                            ) by {
                                if c == n || reaches(g, n as int, c) {
                                    if c != n {
                                        lemma_cycle_back(g, n as int, c);
                                    }
                                } else {
                                    assert(self.dfs_state(up, c) == mid.dfs_state(up, c));
                                }
                            }
                            assert forall|t: int| 0 <= t < k + 1 implies !#[trigger] cycle_from(g, g(index as int)[t]) by {
                                if t == k {
                                    assert(g(index as int)[t] == n as int);
                                }
                            }
                        }
                    }
                },
                Err(e) => {
                    let ghost before_finish = *self;
                    self.finish_dfs(up, index, None);
                    proof {
                        if um {
                            lemma_frame(mid, before_finish, true, up);
                            lemma_frame_trans(pre, mid, before_finish, true, up);
                            lemma_frame(pre, before_finish, true, up);
                            lemma_frame_trans(pre, before_finish, *self, true, up);
                            lemma_frame(pre, *self, true, up);
                            assert(mid.graph(up) == g);
                            assert(before_finish.graph(up) == g);
                            assert(self.graph(up) == g);
                            assert forall|x: int| #[trigger] self.dfs_state(up, x) is Valid implies !cycle_from(g, x) by {
                                if x != index {
                                    assert(self.dfs_state(up, x) == before_finish.dfs_state(up, x));
                                }
                            }
                        }
                        lemma_frame(mid, before_finish, true, up);
                        lemma_frame_trans(pre, mid, before_finish, true, up);
                        lemma_frame_trans(pre, before_finish, *self, true, up);
                        lemma_frame(pre, *self, true, up);
                        assert(self.dfs_computing(up) =~= pre.dfs_computing(up));
                        let c = choose|c: int| (c == n || reaches(g, n as int, c)) && #[trigger] reaches(g, c, c);
                        if c != n {
                            lemma_reaches_trans(g, index as int, n as int, c);
                        }
                        assert(cycle_from(g, index as int));
                        assert forall|c: int| #[trigger] self.dfs_state(up, c) == pre.dfs_state(up, c) || (pre.dfs_state(up, c) is Outdated
                            && self.dfs_state(up, c) is Valid) by {
                            if c != index {
                                assert(before_finish.dfs_state(up, c) == mid.dfs_state(up, c) || (mid.dfs_state(up, c) is Outdated
                                    && before_finish.dfs_state(up, c) is Valid));
                                assert(mid.dfs_state(up, c) == pre.dfs_state(up, c) || (pre.dfs_state(up, c) is Outdated
                                    && mid.dfs_state(up, c) is Valid));
                            }
                        }
                        assert forall|c: int| #[trigger] pre.dfs_region_ok(up, c) implies self.dfs_ok(up, c) by {
                            if c != index {
                                assert(mid.dfs_region_ok(up, c)) by {
                                    assert forall|d: int| (d == c || reaches(g, c, d)) implies #[trigger] mid.dfs_ok(up, d) by {
                                        lemma_dfs_region_ok_inner(pre, up, c, d);
                                        if d != index {
                                            assert(pre.dfs_region_ok(up, d));
                                        }
                                    }
                                }
                            }
                        }
                        assert forall|c: int| !(c == index || reaches(g, index as int, c)) implies #[trigger] self.dfs_state(up, c) == pre.dfs_state(up, c) by {
                            if c == n || reaches(g, n as int, c) {
                                if c != n {
                                    lemma_reaches_trans(g, index as int, n as int, c);
                                }
                            }
                        }
                    }
                    return Err(e);
                },
            }
            k = k + 1;
        }
        proof {
            if hyp {
                lemma_cycle_step(g, index as int);
                assert(nbrs@.map_values(|x: usize| x as int).len() == g(index as int).len());
                assert(false);
            }
        }
        let ghost before_finish = *self;
        let ghost merged = res@.map_values(|x: usize| x as int);
        let v = self.finish_dfs(up, index, Some(res));
        proof {
            if um {
                lemma_frame(pre, before_finish, true, up);
                lemma_frame_trans(pre, before_finish, *self, true, up);
                lemma_frame(pre, *self, true, up);
                assert(before_finish.graph(up) == g);
                assert(self.graph(up) == g);
                assert forall|x: int| #[trigger] self.dfs_state(up, x) is Valid implies !cycle_from(g, x) by {
                    if x != index {
                        assert(self.dfs_state(up, x) == before_finish.dfs_state(up, x));
                    } else {
                        assert(!hyp);
                    }
                }
            }
            lemma_frame_trans(pre, before_finish, *self, true, up);
            lemma_frame(pre, *self, true, up);
            lemma_frame(pre, before_finish, true, up);
            assert(self.dfs_computing(up) =~= pre.dfs_computing(up));
            assert forall|t: int| 0 <= t < nb.len() implies #[trigger] self.dfs_list(up, nb[t])
                == before_finish.dfs_list(up, nb[t]) by {
                assert(before_finish.dfs_state(up, nb[t]) is Valid);
                if nb[t] == index {
                    assert(false);
                }
            }
            lemma_dfs_merge_congr(nb, |m: int| self.dfs_list(up, m), |m: int| before_finish.dfs_list(up, m), nb.len() as int);
            assert(self.dfs_list(up, index as int) == merged);
            assert forall|t: int| 0 <= t < nb.len() implies #[trigger] self.dfs_state(up, nb[t]) is Valid by {
                assert(before_finish.dfs_state(up, nb[t]) is Valid);
                if nb[t] == index {
                    assert(false);
                }
            }
            assert forall|c: int| #[trigger] pre.dfs_region_ok(up, c) implies self.dfs_ok(up, c) by {
                if c == index {
                    assert forall|t: int| 0 <= t < nb.len() implies (#[trigger] self.dfs_list(up, nb[t])).no_duplicates()
                        && self.dfs_list(up, nb[t]).to_set() == reach_set(g, nb[t]) by {
                        lemma_reaches_step(g, index as int, nb[t]);
                        assert(g(index as int).contains(nb[t]));
                        assert(pre.dfs_region_ok(up, nb[t])) by {
                            lemma_dfs_region_ok_inner(pre, up, index as int, nb[t]);
                        }
                        assert(before_finish.dfs_ok(up, nb[t]));
                    }
                    lemma_dfs_merge(g, nb, |m: int| self.dfs_list(up, m), nb.len() as int);
                    lemma_reach_unfold(g, index as int);
                    if !cycle_from(g, index as int) {
                        assert forall|t: int| 0 <= t < nb.len() implies #[trigger] self.dfs_list(up, nb[t]) == order_lists(g)(nb[t]) by {
                            lemma_reaches_step(g, index as int, nb[t]);
                            assert(g(index as int).contains(nb[t]));
                            assert(pre.dfs_region_ok(up, nb[t])) by {
                                lemma_dfs_region_ok_inner(pre, up, index as int, nb[t]);
                            }
                            assert(before_finish.dfs_ok(up, nb[t]));
                            if cycle_from(g, nb[t]) {
                                lemma_cycle_back(g, index as int, nb[t]);
                            }
                        }
                        lemma_dfs_merge_congr(nb, |m: int| self.dfs_list(up, m), order_lists(g), nb.len() as int);
                        pre.lemma_reach_finite(up, index as int);
                        lemma_dfs_order_unfold(g, index as int, (reach_set(g, index as int).len() + 1) as nat);
                    }
                } else {
                    assert(before_finish.dfs_ok(up, c));
                    assert(self.dfs_state(up, c) == before_finish.dfs_state(up, c));
                }
            }
        }
        Ok(v.unwrap())
    }
}

/// `b` has the flags of `a`.
pub open spec fn same_flags(a: RelationRegistry, b: RelationRegistry) -> bool {
    &&& b.flag_sets() == a.flag_sets()
    &&& b.flag_names() == a.flag_names()
}

/// `b` has the nodes, the links and the flags of `a`.
pub open spec fn same_graph(a: RelationRegistry, b: RelationRegistry) -> bool {
    &&& b.flag_sets() == a.flag_sets()
    &&& b.flag_names() == a.flag_names()
    &&& b.layout() == a.layout()
    &&& b.next_id() == a.next_id()
    &&& forall|i: int| #[trigger] b.contains(i) == a.contains(i)
    &&& b.graph(true) == a.graph(true)
    &&& b.graph(false) == a.graph(false)
}

impl RelationRegistry {
    proof fn lemma_sound_regions(&self, up: bool)
        requires
            self.sound(),
        ensures
            forall|c: int| #[trigger] self.region_ok(up, c),
            forall|c: int| #[trigger] self.dfs_region_ok(up, c),
    {
        assert forall|c: int| #[trigger] self.region_ok(up, c) by {
            assert forall|d: int| (d == c || reaches(self.graph(up), c, d)) implies #[trigger] self.set_ok(up, d) by {
            }
        }
        assert forall|c: int| #[trigger] self.dfs_region_ok(up, c) by {
            assert forall|d: int| (d == c || reaches(self.graph(up), c, d)) implies #[trigger] self.dfs_ok(up, d) by {
            }
        }
    }

    fn query_set(&mut self, up: bool, node_index: NodeIndex) -> (r: Result<Rc<OffsetBitSet>, CycleError>)
        requires
            old(self).wf(),
            old(self).contains(node_index as int),
        ensures
            final(self).wf(),
            same_graph(*old(self), *final(self)),
            old(self).sound() ==> final(self).sound(),
            r is Err ==> cycle_from(old(self).graph(up), node_index as int),
            old(self).cycle_unmasked_set(up, node_index as int) && cycle_from(old(self).graph(up), node_index as int) ==> r is Err,
            old(self).sound() && cycle_from(old(self).graph(up), node_index as int) ==> r is Err,
            r matches Ok(s) ==> (*s).wf() && (old(self).sound() ==> (*s)@ == reach_set(old(self).graph(up), node_index as int)),
            r matches Ok(s) ==> final(self).set_members(up, node_index as int) == (*s)@,
            forall|i: int, d: bool| d != up ==> #[trigger] final(self).set_members(d, i) == old(self).set_members(d, i),
    {
        let ghost pre = *old(self);
        proof {
            if pre.sound() {
                assert forall|c: int|
                    (c == node_index || reaches(pre.graph(up), node_index as int, c)) && cycle_from(pre.graph(up), c) implies !(
                    #[trigger] pre.set_state(up, c) is Valid) by {}
            }
        }
        proof {
            assert(pre.set_computing(up) =~= Set::<int>::empty());
        }
        let r = self.cached_set(up, node_index, Ghost(self.graph(up)));
        proof {
            lemma_frame(pre, *self, false, up);
            assert forall|i: int, d: bool| self.contains(i) implies !(#[trigger] self.set_state(d, i) is Computing) by {
                if d == up {
                    assert(!pre.set_computing(up).contains(i));
                    assert(!self.set_computing(up).contains(i));
                }
            }
            if pre.sound() {
                pre.lemma_sound_regions(up);
                assert forall|i: int, d: bool| #[trigger] self.set_ok(d, i) by {
                    assert(pre.set_ok(d, i));
                    if d == up {
                        assert(pre.region_ok(up, i));
                    }
                }
                assert forall|i: int, d: bool| #[trigger] self.dfs_ok(d, i) by {
                    assert(pre.dfs_ok(d, i));
                }
            }
        }
        r
    }

    fn query_dfs(&mut self, up: bool, node_index: NodeIndex) -> (r: Result<Rc<Vec<NodeIndex>>, CycleError>)
        requires
            old(self).wf(),
            old(self).contains(node_index as int),
        ensures
            final(self).wf(),
            same_graph(*old(self), *final(self)),
            old(self).sound() ==> final(self).sound(),
            r is Err ==> cycle_from(old(self).graph(up), node_index as int),
            old(self).cycle_unmasked_dfs(up, node_index as int) && cycle_from(old(self).graph(up), node_index as int) ==> r is Err,
            old(self).sound() && cycle_from(old(self).graph(up), node_index as int) ==> r is Err,
            r matches Ok(v) ==> old(self).sound() ==> (*v)@.map_values(|x: usize| x as int).no_duplicates()
                && (*v)@.map_values(|x: usize| x as int).to_set() == reach_set(old(self).graph(up), node_index as int),
            r matches Ok(v) ==> old(self).sound() && !cycle_from(old(self).graph(up), node_index as int) ==> (*v)@.map_values(
                |x: usize| x as int,
            ) == dfs_order(old(self).graph(up), node_index as int),
            r matches Ok(v) ==> (*v)@.map_values(|x: usize| x as int) == final(self).dfs_list(up, node_index as int),
            r is Ok && old(self).dfs_state(up, node_index as int) is Outdated ==> {
                let nb = old(self).graph(up)(node_index as int);
                final(self).dfs_list(up, node_index as int) == dfs_merge(nb, |n: int| final(self).dfs_list(up, n), nb.len() as int)
            },
    {
        let ghost pre = *old(self);
        proof {
            if pre.sound() {
                assert forall|c: int|
                    (c == node_index || reaches(pre.graph(up), node_index as int, c)) && cycle_from(pre.graph(up), c) implies !(
                    #[trigger] pre.dfs_state(up, c) is Valid) by {}
            }
        }
        proof {
            assert(pre.dfs_computing(up) =~= Set::<int>::empty());
        }
        let r = self.cached_dfs(up, node_index);
        proof {
            lemma_frame(pre, *self, true, up);
            assert forall|i: int, d: bool| self.contains(i) implies !(#[trigger] self.dfs_state(d, i) is Computing) by {
                if d == up {
                    assert(!pre.dfs_computing(up).contains(i));
                    assert(!self.dfs_computing(up).contains(i));
                }
            }
            if pre.sound() {
                pre.lemma_sound_regions(up);
                assert forall|i: int, d: bool| #[trigger] self.set_ok(d, i) by {
                    assert(pre.set_ok(d, i));
                }
                assert forall|i: int, d: bool| #[trigger] self.dfs_ok(d, i) by {
                    assert(pre.dfs_ok(d, i));
                    if d == up {
                        assert(pre.dfs_region_ok(up, i));
                    }
                }
                if r is Ok {
                    assert(self.dfs_ok(up, node_index as int));
                    assert(self.graph(up) == pre.graph(up));
                }
            }
        }
        r
    }

    /// Get the ancestor bitset with cache,
    /// `Err` if the graph has cycle
    ///
    /// `Err` means a cycle is reached going up; a reached cycle gives `Err`
    /// unless a cached set on the way masks it, which correct caches never
    /// do.
    pub fn ancestor_set(&mut self, node_index: NodeIndex) -> (r: Result<Rc<OffsetBitSet>, CycleError>)
        requires
            old(self).wf(),
            old(self).contains(node_index as int),
        ensures
            final(self).wf(),
            same_graph(*old(self), *final(self)),
            old(self).sound() ==> final(self).sound(),
            r is Err ==> cycle_from(old(self).graph(true), node_index as int),
            old(self).cycle_unmasked_set(true, node_index as int) && cycle_from(old(self).graph(true), node_index as int) ==> r is Err,
            old(self).sound() && cycle_from(old(self).graph(true), node_index as int) ==> r is Err,
            r matches Ok(s) ==> (*s).wf() && (old(self).sound() ==> (*s)@ == reach_set(old(self).graph(true), node_index as int)),
            r matches Ok(s) ==> final(self).set_members(true, node_index as int) == (*s)@,
            forall|i: int| #[trigger] final(self).set_members(false, i) == old(self).set_members(false, i),
    {
        self.query_set(true, node_index)
    }

    /// Get the descendant bitset with cache,
    /// `Err` if the graph has cycle
    ///
    /// `Err` means a cycle is reached going down; a reached cycle gives
    /// `Err` unless a cached set on the way masks it, which correct caches
    /// never do.
    pub fn descendant_set(&mut self, node_index: NodeIndex) -> (r: Result<Rc<OffsetBitSet>, CycleError>)
        requires
            old(self).wf(),
            old(self).contains(node_index as int),
        ensures
            final(self).wf(),
            same_graph(*old(self), *final(self)),
            old(self).sound() ==> final(self).sound(),
            r is Err ==> cycle_from(old(self).graph(false), node_index as int),
            old(self).cycle_unmasked_set(false, node_index as int) && cycle_from(old(self).graph(false), node_index as int) ==> r is Err,
            old(self).sound() && cycle_from(old(self).graph(false), node_index as int) ==> r is Err,
            r matches Ok(s) ==> (*s).wf() && (old(self).sound() ==> (*s)@ == reach_set(old(self).graph(false), node_index as int)),
            r matches Ok(s) ==> final(self).set_members(false, node_index as int) == (*s)@,
            forall|i: int| #[trigger] final(self).set_members(true, i) == old(self).set_members(true, i),
    {
        self.query_set(false, node_index)
    }

    /// Get the ancestor vec with cache,
    /// `Err` if the graph has cycle
    ///
    /// `Err` means a cycle is reached going up; a reached cycle gives `Err`
    /// unless a cached listing on the way masks it, which correct caches
    /// never do. With correct caches and no cycle above, the listing, cached or not, is the depth-first order
    /// [`dfs_order`].
    pub fn ancestor_dfs(&mut self, node_index: NodeIndex) -> (r: Result<Rc<Vec<NodeIndex>>, CycleError>)
        requires
            old(self).wf(),
            old(self).contains(node_index as int),
        ensures
            final(self).wf(),
            same_graph(*old(self), *final(self)),
            old(self).sound() ==> final(self).sound(),
            r is Err ==> cycle_from(old(self).graph(true), node_index as int),
            old(self).cycle_unmasked_dfs(true, node_index as int) && cycle_from(old(self).graph(true), node_index as int) ==> r is Err,
            old(self).sound() && cycle_from(old(self).graph(true), node_index as int) ==> r is Err,
            r matches Ok(v) ==> old(self).sound() ==> (*v)@.map_values(|x: usize| x as int).no_duplicates()
                && (*v)@.map_values(|x: usize| x as int).to_set() == reach_set(old(self).graph(true), node_index as int),
            r matches Ok(v) ==> old(self).sound() && !cycle_from(old(self).graph(true), node_index as int) ==> (*v)@.map_values(
                |x: usize| x as int,
            ) == dfs_order(old(self).graph(true), node_index as int),
            r matches Ok(v) ==> (*v)@.map_values(|x: usize| x as int) == final(self).dfs_list(true, node_index as int),
            r is Ok && old(self).dfs_state(true, node_index as int) is Outdated ==> {
                let nb = old(self).graph(true)(node_index as int);
                final(self).dfs_list(true, node_index as int) == dfs_merge(nb, |n: int| final(self).dfs_list(true, n), nb.len() as int)
            },
    {
        self.query_dfs(true, node_index)
    }

    /// Get the descendant vec with cache,
    /// `Err` if the graph has cycle
    ///
    /// `Err` means a cycle is reached going down; a reached cycle gives
    /// `Err` unless a cached listing on the way masks it, which correct
    /// caches never do. With correct caches and no cycle below, the listing, cached or not, is the
    /// depth-first order [`dfs_order`].
    pub fn descendant_dfs(&mut self, node_index: NodeIndex) -> (r: Result<Rc<Vec<NodeIndex>>, CycleError>)
        requires
            old(self).wf(),
            old(self).contains(node_index as int),
        ensures
            final(self).wf(),
            same_graph(*old(self), *final(self)),
            old(self).sound() ==> final(self).sound(),
            r is Err ==> cycle_from(old(self).graph(false), node_index as int),
            old(self).cycle_unmasked_dfs(false, node_index as int) && cycle_from(old(self).graph(false), node_index as int) ==> r is Err,
            old(self).sound() && cycle_from(old(self).graph(false), node_index as int) ==> r is Err,
            r matches Ok(v) ==> old(self).sound() ==> (*v)@.map_values(|x: usize| x as int).no_duplicates()
                && (*v)@.map_values(|x: usize| x as int).to_set() == reach_set(old(self).graph(false), node_index as int),
            r matches Ok(v) ==> old(self).sound() && !cycle_from(old(self).graph(false), node_index as int) ==> (*v)@.map_values(
                |x: usize| x as int,
            ) == dfs_order(old(self).graph(false), node_index as int),
            r matches Ok(v) ==> (*v)@.map_values(|x: usize| x as int) == final(self).dfs_list(false, node_index as int),
            r is Ok && old(self).dfs_state(false, node_index as int) is Outdated ==> {
                let nb = old(self).graph(false)(node_index as int);
                final(self).dfs_list(false, node_index as int) == dfs_merge(nb, |n: int| final(self).dfs_list(false, n), nb.len() as int)
            },
    {
        self.query_dfs(false, node_index)
    }
}

proof fn lemma_links_same(a: RelationRegistry, b: RelationRegistry)
    requires
        a.links_ok(),
        forall|i: int| #[trigger] b.contains(i) == a.contains(i),
        forall|i: int| #[trigger] b.parents(i) == a.parents(i),
        forall|i: int| #[trigger] b.children(i) == a.children(i),
    ensures
        b.links_ok(),
{
    assert forall|i: int| #[trigger] b.contains(i) implies b.parents(i).no_duplicates() && b.children(i).no_duplicates() by {
        assert(a.contains(i));
        assert(b.parents(i) == a.parents(i) && b.children(i) == a.children(i));
    }
    assert forall|i: int, j: int| b.contains(i) && #[trigger] b.parents(i).contains(j) implies b.contains(j) by {
        assert(b.parents(i) == a.parents(i) && b.children(i) == a.children(i));
        assert(a.contains(j));
    }
    assert forall|i: int, j: int| b.contains(i) && #[trigger] b.children(i).contains(j) implies b.contains(j) by {
        assert(b.parents(i) == a.parents(i) && b.children(i) == a.children(i));
        assert(a.contains(j));
    }
    assert forall|i: int, j: int| b.contains(i) && b.contains(j) implies (#[trigger] b.children(i).contains(j) <==> #[trigger] b.parents(j).contains(i)) by {
        assert(b.parents(i) == a.parents(i) && b.children(i) == a.children(i));
        assert(b.parents(j) == a.parents(j) && b.children(j) == a.children(j));
        assert(a.contains(i) && a.contains(j));
    }
}

/// `b` is `a` with the caches of direction `up` of node `index` outdated.
spec fn frame_reset(a: RelationRegistry, b: RelationRegistry, up: bool, index: int) -> bool {
    &&& b.dead == a.dead
    &&& b.flags == a.flags
    &&& b.nodes.layout() == a.nodes.layout()
    &&& b.nodes.next_id() == a.nodes.next_id()
    &&& b.nodes.no_gap() == a.nodes.no_gap()
    &&& forall|i: int| #[trigger] b.contains(i) == a.contains(i)
    &&& forall|i: int| a.contains(i) && i != index ==> #[trigger] b.nodes.node_at(i) == a.nodes.node_at(i)
    &&& b.nodes.node_at(index).parents == a.nodes.node_at(index).parents
    &&& b.nodes.node_at(index).children == a.nodes.node_at(index).children
    &&& up ==> b.nodes.node_at(index).descendant_set == a.nodes.node_at(index).descendant_set
    &&& up ==> b.nodes.node_at(index).descendant_dfs == a.nodes.node_at(index).descendant_dfs
    &&& !up ==> b.nodes.node_at(index).ancestor_set == a.nodes.node_at(index).ancestor_set
    &&& !up ==> b.nodes.node_at(index).ancestor_dfs == a.nodes.node_at(index).ancestor_dfs
    &&& b.set_state(up, index) is Outdated
    &&& b.dfs_state(up, index) is Outdated
}

impl RelationRegistry {
    /// With no cycle either way, no cache can stand on a cycle.
    proof fn lemma_unmasked_acyclic(&self)
        requires
            acyclic(self.graph(true)),
            acyclic(self.graph(false)),
        ensures
            self.unmasked(),
    {
        assert forall|i: int, e: bool| !#[trigger] cycle_from(self.graph(e), i) by {
            if cycle_from(self.graph(e), i) {
                let c = choose|c: int| (c == i || reaches(self.graph(e), i, c)) && #[trigger] reaches(self.graph(e), c, c);
            }
        }
    }

    proof fn lemma_sound_ok_except(&self)
        ensures
            self.sound() == (self.ok_except(Set::empty(), Set::empty()) && self.unmasked()),
    {
        if self.sound() {
            assert forall|i: int| #[trigger] self.dir_ok(true, i) by {
                assert(self.set_ok(true, i));
                assert(self.dfs_ok(true, i));
            }
            assert forall|i: int| #[trigger] self.dir_ok(false, i) by {
                assert(self.set_ok(false, i));
                assert(self.dfs_ok(false, i));
            }
        }
        if self.ok_except(Set::empty(), Set::empty()) {
            assert forall|i: int, up: bool| #[trigger] self.set_ok(up, i) by {
                assert(self.dir_ok(up, i));
            }
            assert forall|i: int, up: bool| #[trigger] self.dfs_ok(up, i) by {
                assert(self.dir_ok(up, i));
            }
        }
    }

    /// Marks both caches of direction `up` of node `index` outdated.
    fn reset_node(&mut self, up: bool, index: NodeIndex)
        requires
            old(self).wf(),
            old(self).contains(index as int),
        ensures
            final(self).wf(),
            frame_reset(*old(self), *final(self), up, index as int),
            same_graph(*old(self), *final(self)),
            forall|i: int, d: bool| !(i == index && d == up) ==> #[trigger] final(self).set_state(d, i) == old(self).set_state(d, i),
            forall|i: int, d: bool| !(i == index && d == up) ==> #[trigger] final(self).dfs_state(d, i) == old(self).dfs_state(d, i),
    {
        let ghost pre = *old(self);
        let mut node = self.nodes.replace_node(index, Node::new());
        if up {
            node.reset_ancestors();
        } else {
            node.reset_descendants();
        }
        let _ = self.nodes.replace_node(index, node);
        proof {
            let ix = index as int;
            assert forall|i: int, d: bool| !(i == ix && d == up) implies #[trigger] self.set_state(d, i) == pre.set_state(d, i) by {
                if pre.contains(i) && i != ix {
                    assert(self.nodes.node_at(i) == pre.nodes.node_at(i));
                }
            }
            assert forall|i: int, d: bool| !(i == ix && d == up) implies #[trigger] self.dfs_state(d, i) == pre.dfs_state(d, i) by {
                if pre.contains(i) && i != ix {
                    assert(self.nodes.node_at(i) == pre.nodes.node_at(i));
                }
            }
            assert forall|i: int| #![trigger self.parents(i)] #![trigger self.children(i)] self.parents(i) == pre.parents(i) && self.children(i) == pre.children(i) by {
                if pre.contains(i) && i != ix {
                    assert(self.nodes.node_at(i) == pre.nodes.node_at(i));
                }
            }
            assert(self.graph(true) =~= pre.graph(true));
            assert(self.graph(false) =~= pre.graph(false));
            lemma_links_same(pre, *self);
            assert(self.nodes.wf());
            assert forall|i: int, d: bool| self.contains(i) implies (#[trigger] self.set_state(d, i) matches CacheState::Valid(v) ==> (*v).wf()) by {
                if !(i == ix && d == up) {
                    assert(pre.set_state(d, i) == self.set_state(d, i));
                }
            }
            assert forall|i: int, d: bool, x: int| #[trigger] self.set_members(d, i).contains(x) implies self.contains(x) by {
                if !(i == ix && d == up) {
                    assert(pre.set_state(d, i) == self.set_state(d, i));
                    assert(pre.set_members(d, i).contains(x));
                }
            }
            assert forall|i: int, d: bool, x: int| #[trigger] self.dfs_list(d, i).contains(x) implies self.contains(x) by {
                if !(i == ix && d == up) {
                    assert(pre.dfs_state(d, i) == self.dfs_state(d, i));
                    assert(pre.dfs_list(d, i).contains(x));
                }
            }
            assert forall|i: int, d: bool| self.contains(i) implies !(#[trigger] self.set_state(d, i) is Computing) by {
                if !(i == ix && d == up) {
                    assert(pre.set_state(d, i) == self.set_state(d, i));
                }
            }
            assert forall|i: int, d: bool| self.contains(i) implies !(#[trigger] self.dfs_state(d, i) is Computing) by {
                if !(i == ix && d == up) {
                    assert(pre.dfs_state(d, i) == self.dfs_state(d, i));
                }
            }
        }
    }
}

impl RelationRegistry {
    /// Outdates the caches of direction `d` of `index` and of every node that
    /// `index` reaches going the other way.
    fn relinked(&mut self, d: bool, index: NodeIndex, Ghost(other_stale): Ghost<Set<int>>, Ghost(h): Ghost<spec_fn(int) -> Seq<int>>) -> (r: Result<(), CycleError>)
        requires
            old(self).wf(),
            old(self).contains(index as int),
        ensures
            final(self).wf(),
            same_graph(*old(self), *final(self)),
            r is Err ==> cycle_from(old(self).graph(!d), index as int),
            old(self).dir_ok_except(d, old(self).reach_from(!d, index as int)) && old(self).dir_ok_except(!d, other_stale)
                && other_stale.disjoint(old(self).reach_from(!d, index as int)) && r is Ok ==> final(self).dir_ok_except(d, Set::empty())
                && final(self).dir_ok_except(!d, other_stale),
            forall|i: int| #[trigger] final(self).set_state(d, i) == old(self).set_state(d, i) || final(self).set_state(d, i) is Outdated,
            old(self).cycle_unmasked_set(!d, index as int) && cycle_from(old(self).graph(!d), index as int) ==> r is Err,
            subgraph(h, old(self).graph(!d)) && old(self).covers(!d, h) ==> final(self).covers(!d, h) && (r is Ok ==> final(self).set_state(
                d,
                index as int,
            ) is Outdated && forall|y: int| reaches(h, index as int, y) ==> #[trigger] final(self).set_state(d, y) is Outdated),
            old(self).unmasked() ==> final(self).unmasked(),
    {
        let ghost pre = *old(self);
        let ghost rr = pre.reach_from(!d, index as int);
        let ghost hc = subgraph(h, pre.graph(!d)) && pre.covers(!d, h);
        let ghost nd = !d;
        self.reset_node(d, index);
        let ghost reset1 = *self;
        proof {
            assert(reset1.set_computing(!d) =~= Set::<int>::empty());
            assert(reset1.graph(!d) == pre.graph(!d));
            if hc {
                assert forall|x: int| #[trigger] reset1.set_state(nd, x) is Valid implies reach_set(h, x).subset_of(reset1.set_members(!d, x)) by {
                    assert(reset1.set_state(!d, x) == pre.set_state(!d, x));
                }
            }
            if pre.cycle_unmasked_set(!d, index as int) {
                assert forall|c: int|
                    (c == index || reaches(reset1.graph(!d), index as int, c)) && cycle_from(reset1.graph(!d), c) implies !(
                    #[trigger] reset1.set_state(nd, c) is Valid) by {
                    assert(reset1.set_state(!d, c) == pre.set_state(!d, c));
                }
            }
        }
        let res = self.cached_set(!d, index, Ghost(h));
        let ghost queried = *self;
        proof {
            lemma_frame(reset1, queried, false, !d);
            if pre.unmasked() {
                let gd = pre.graph(d);
                let go = pre.graph(nd);
                assert(queried.graph(d) == gd && queried.graph(nd) == go);
                assert(reset1.unmasked_set(nd)) by {
                    assert forall|i: int| #[trigger] reset1.set_state(nd, i) is Valid implies !cycle_from(reset1.graph(nd), i) by {
                        assert(reset1.set_state(nd, i) == pre.set_state(nd, i));
                    }
                }
                assert forall|i: int| #[trigger] queried.set_state(d, i) is Valid implies !cycle_from(gd, i) by {
                    assert(queried.set_state(d, i) == reset1.set_state(d, i));
                    if !(i == index) {
                        assert(reset1.set_state(d, i) == pre.set_state(d, i));
                    }
                }
                assert forall|i: int, e: bool| #[trigger] queried.dfs_state(e, i) is Valid implies !cycle_from(queried.graph(e), i) by {
                    assert(queried.dfs_state(e, i) == reset1.dfs_state(e, i));
                    if !(i == index && e == d) {
                        assert(reset1.dfs_state(e, i) == pre.dfs_state(e, i));
                    }
                }
                assert(queried.unmasked_set(nd));
                assert(queried.unmasked());
            }
            assert forall|i: int| #[trigger] queried.set_state(d, i) == pre.set_state(d, i) || queried.set_state(d, i) is Outdated by {
                assert(queried.set_state(d, i) == reset1.set_state(d, i));
            }
        }
        let members = match res {
            Ok(m) => m,
            Err(e) => {
                proof {
                    assert forall|i: int, e: bool| self.contains(i) implies !(#[trigger] self.set_state(e, i) is Computing) by {
                        if e == !d {
                            assert(!reset1.set_computing(!d).contains(i));
                            assert(!self.set_computing(!d).contains(i));
                        } else {
                            assert(self.set_state(e, i) == reset1.set_state(e, i));
                        }
                    }
                }
                return Err(e);
            },
        };
        proof {
            assert forall|i: int, e: bool| self.contains(i) implies !(#[trigger] self.set_state(e, i) is Computing) by {
                if e == !d {
                    assert(!reset1.set_computing(!d).contains(i));
                    assert(!self.set_computing(!d).contains(i));
                } else {
                    assert(self.set_state(e, i) == reset1.set_state(e, i));
                }
            }
            assert(self.wf());
        }
        let ids = members.iter();
        proof {
            assert forall|t: int| 0 <= t < ids@.len() implies #[trigger] self.contains(ids@[t] as int) by {
                assert(ids@.map_values(|v: usize| v as int)[t] == ids@[t] as int);
                assert(ids@.map_values(|v: usize| v as int).contains(ids@[t] as int));
                assert((*members)@.contains(ids@[t] as int));
                assert(self.set_members(!d, index as int).contains(ids@[t] as int));
            }
        }
        let mut k: usize = 0;
        while k < ids.len()
            invariant
                self.wf(),
                same_graph(queried, *self),
                k <= ids@.len(),
                forall|t: int| 0 <= t < ids@.len() ==> #[trigger] queried.contains(ids@[t] as int),
                forall|i: int, e: bool| e != d ==> #[trigger] self.set_state(e, i) == queried.set_state(e, i),
                forall|i: int, e: bool| e != d ==> #[trigger] self.dfs_state(e, i) == queried.dfs_state(e, i),
                forall|i: int| #[trigger] self.set_state(d, i) == queried.set_state(d, i) || self.set_state(d, i) is Outdated,
                forall|i: int| #[trigger] self.dfs_state(d, i) == queried.dfs_state(d, i) || self.dfs_state(d, i) is Outdated,
                forall|t: int| 0 <= t < k ==> #[trigger] self.set_state(d, ids@[t] as int) is Outdated && self.dfs_state(d, ids@[t] as int) is Outdated,
                self.set_state(d, index as int) is Outdated,
                self.dfs_state(d, index as int) is Outdated,
                forall|i: int| #[trigger] queried.set_state(d, i) == pre.set_state(d, i) || queried.set_state(d, i) is Outdated,
            decreases ids@.len() - k,
        {
            let ghost before = *self;
            self.reset_node(d, ids[k]);
            proof {
                assert forall|t: int| 0 <= t < k + 1 implies #[trigger] self.set_state(d, ids@[t] as int) is Outdated && self.dfs_state(d, ids@[t] as int) is Outdated by {
                    if ids@[t] != ids@[k as int] {
                        assert(before.set_state(d, ids@[t] as int) is Outdated);
                    }
                }
            }
            k = k + 1;
        }
        proof {
            assert forall|i: int| #[trigger] self.set_state(d, i) == pre.set_state(d, i) || self.set_state(d, i) is Outdated by {
                assert(self.set_state(d, i) == queried.set_state(d, i) || self.set_state(d, i) is Outdated);
            }
            if pre.unmasked() {
                assert(self.graph(true) == queried.graph(true) && self.graph(false) == queried.graph(false));
                assert forall|i: int, e: bool| #[trigger] self.set_state(e, i) is Valid implies !cycle_from(self.graph(e), i) by {
                    if e == d {
                        assert(self.set_state(d, i) == queried.set_state(d, i));
                    } else {
                        assert(self.set_state(e, i) == queried.set_state(e, i));
                    }
                }
                assert forall|i: int, e: bool| #[trigger] self.dfs_state(e, i) is Valid implies !cycle_from(self.graph(e), i) by {
                    if e == d {
                        assert(self.dfs_state(d, i) == queried.dfs_state(d, i));
                    } else {
                        assert(self.dfs_state(e, i) == queried.dfs_state(e, i));
                    }
                }
            }
            if hc {
                assert forall|x: int| #[trigger] self.set_state(nd, x) is Valid implies reach_set(h, x).subset_of(self.set_members(!d, x)) by {
                    assert(self.set_state(!d, x) == queried.set_state(!d, x));
                }
                assert forall|y: int| reaches(h, index as int, y) implies #[trigger] self.set_state(d, y) is Outdated by {
                    assert(reach_set(h, index as int).contains(y));
                    assert((*members)@.contains(y));
                    let im = ids@.map_values(|v: usize| v as int);
                    assert(im.contains(y));
                    let t = choose|t: int| 0 <= t < im.len() && #[trigger] im[t] == y;
                    assert(ids@[t] as int == y);
                    assert(self.set_state(d, ids@[t] as int) is Outdated);
                }
            }
            let o = !d;
            let g = pre.graph(o);
            assert(reset1.graph(o) == g);
            assert(queried.graph(o) == g);
            assert(self.graph(o) == g);
            assert(self.graph(d) == pre.graph(d));
            if pre.dir_ok_except(d, rr) && pre.dir_ok_except(o, other_stale) && other_stale.disjoint(rr) {
                assert forall|c: int| (c == index || reaches(g, index as int, c)) implies #[trigger] reset1.set_ok(o, c) by {
                    assert(rr.contains(c));
                    assert(!other_stale.contains(c));
                    assert(pre.dir_ok(o, c));
                    assert(reset1.set_state(o, c) == pre.set_state(o, c));
                }
                assert(reset1.region_ok(o, index as int));
                assert((*members)@ == reach_set(g, index as int));
                assert forall|i: int| !Set::<int>::empty().contains(i) implies #[trigger] self.dir_ok(d, i) by {
                    if self.set_state(d, i) is Outdated && self.dfs_state(d, i) is Outdated {
                    } else if rr.contains(i) {
                        if i != index {
                            assert(reach_set(g, index as int).contains(i));
                            assert((*members)@.contains(i));
                            let im = ids@.map_values(|v: usize| v as int);
                            assert(im.contains(i));
                            let t = choose|t: int| 0 <= t < im.len() && #[trigger] im[t] == i;
                            assert(ids@[t] as int == i);
                            assert(self.set_state(d, ids@[t] as int) is Outdated);
                        }
                    } else {
                        assert(pre.dir_ok(d, i));
                        assert(reset1.set_state(d, i) == pre.set_state(d, i));
                        assert(reset1.dfs_state(d, i) == pre.dfs_state(d, i));
                        assert(queried.set_state(d, i) == reset1.set_state(d, i));
                        assert(queried.dfs_state(d, i) == reset1.dfs_state(d, i));
                        if self.set_state(d, i) is Outdated {
                        } else {
                            assert(self.set_state(d, i) == pre.set_state(d, i));
                        }
                        if self.dfs_state(d, i) is Outdated {
                        } else {
                            assert(self.dfs_state(d, i) == pre.dfs_state(d, i));
                        }
                    }
                }
                assert forall|i: int| !other_stale.contains(i) implies #[trigger] self.dir_ok(o, i) by {
                    assert(pre.dir_ok(o, i));
                    assert(reset1.dfs_state(o, i) == pre.dfs_state(o, i));
                    assert(queried.dfs_state(o, i) == reset1.dfs_state(o, i));
                    assert(self.dfs_state(o, i) == queried.dfs_state(o, i));
                    assert(self.set_state(o, i) == queried.set_state(o, i));
                    if rr.contains(i) {
                        lemma_region_ok_inner(reset1, o, index as int, i);
                        assert(queried.set_ok(o, i));
                    } else {
                        assert(!(i == index || reaches(reset1.graph(o), index as int, i)));
                        assert(queried.set_state(o, i) == reset1.set_state(o, i));
                        assert(reset1.set_state(o, i) == pre.set_state(o, i));
                    }
                }
            }
        }
        Ok(())
    }
}


/// `b` has the nodes and the caches of `a`; only links may differ.
spec fn relink_frame(a: RelationRegistry, b: RelationRegistry) -> bool {
    &&& b.dead == a.dead
    &&& b.flags == a.flags
    &&& b.nodes.layout() == a.nodes.layout()
    &&& b.nodes.next_id() == a.nodes.next_id()
    &&& b.nodes.no_gap() == a.nodes.no_gap()
    &&& forall|i: int| #[trigger] b.contains(i) == a.contains(i)
    &&& forall|i: int, d: bool| #[trigger] b.set_state(d, i) == a.set_state(d, i)
    &&& forall|i: int, d: bool| #[trigger] b.dfs_state(d, i) == a.dfs_state(d, i)
}

/// Position of `x` in `v`, which holds it.
fn position_of(v: &Vec<NodeIndex>, x: NodeIndex) -> (k: usize)
    requires
        v@.contains(x),
    ensures
        k < v@.len(),
        v@[k as int] == x,
{
    let mut i: usize = 0;
    while i < v.len()
        invariant
            i <= v@.len(),
            v@.contains(x),
            forall|k: int| 0 <= k < i ==> v@[k] != x,
        decreases v@.len() - i,
    {
        if v[i] == x {
            return i;
        }
        i = i + 1;
    }
    proof {
        let t = choose|t: int| 0 <= t < v@.len() && v@[t] == x;
        assert(v@[t] != x);
    }
    0
}

impl RelationRegistry {
    /// After the links of some nodes changed and nothing else did, the
    /// registry is well formed again if the links are.
    proof fn lemma_wf_after_relink(&self, pre: RelationRegistry)
        requires
            pre.wf(),
            self.nodes.wf(),
            relink_frame(pre, *self),
            self.links_ok(),
        ensures
            self.wf(),
    {
        assert forall|i: int, d: bool| self.contains(i) implies (#[trigger] self.set_state(d, i) matches CacheState::Valid(v) ==> (*v).wf()) by {
            assert(self.set_state(d, i) == pre.set_state(d, i));
        }
        assert forall|i: int, d: bool, x: int| #[trigger] self.set_members(d, i).contains(x) implies self.contains(x) by {
            assert(self.set_state(d, i) == pre.set_state(d, i));
            assert(pre.set_members(d, i).contains(x));
        }
        assert forall|i: int, d: bool, x: int| #[trigger] self.dfs_list(d, i).contains(x) implies self.contains(x) by {
            assert(self.dfs_state(d, i) == pre.dfs_state(d, i));
            assert(pre.dfs_list(d, i).contains(x));
        }
        assert forall|i: int, d: bool| self.contains(i) implies !(#[trigger] self.set_state(d, i) is Computing) by {
            assert(self.set_state(d, i) == pre.set_state(d, i));
        }
        assert forall|i: int, d: bool| self.contains(i) implies !(#[trigger] self.dfs_state(d, i) is Computing) by {
            assert(self.dfs_state(d, i) == pre.dfs_state(d, i));
        }
    }

    /// Puts `child` into the children of `parent` at `pos` and `parent` at
    /// the end of the parents of `child`. No cache changes.
    fn link(&mut self, parent: NodeIndex, child: NodeIndex, pos: usize)
        requires
            old(self).wf(),
            old(self).contains(parent as int),
            old(self).contains(child as int),
            !old(self).children(parent as int).contains(child as int),
            pos <= old(self).children(parent as int).len(),
        ensures
            final(self).wf(),
            relink_frame(*old(self), *final(self)),
            final(self).children(parent as int) == old(self).children(parent as int).insert(pos as int, child as int),
            final(self).parents(child as int) == old(self).parents(child as int).push(parent as int),
            forall|i: int| i != parent ==> #[trigger] final(self).children(i) == old(self).children(i),
            forall|i: int| i != child ==> #[trigger] final(self).parents(i) == old(self).parents(i),
    {
        let ghost pre = *old(self);
        let ghost p = parent as int;
        let ghost c = child as int;
        let mut pn = self.nodes.replace_node(parent, Node::new());
        pn.children.insert(pos, child);
        let _ = self.nodes.replace_node(parent, pn);
        let mut cn = self.nodes.replace_node(child, Node::new());
        cn.parents.push(parent);
        let _ = self.nodes.replace_node(child, cn);
        proof {
            assert forall|i: int| i != p && i != c && pre.contains(i) implies #[trigger] self.nodes.node_at(i) == pre.nodes.node_at(i) by {}
            assert(self.children(p) =~= pre.children(p).insert(pos as int, c));
            assert(self.parents(c) =~= pre.parents(c).push(p));
            assert forall|i: int| i != p implies #[trigger] self.children(i) == pre.children(i) by {
                if pre.contains(i) && i != c {
                    assert(self.nodes.node_at(i) == pre.nodes.node_at(i));
                }
            }
            assert forall|i: int| i != c implies #[trigger] self.parents(i) == pre.parents(i) by {
                if pre.contains(i) && i != p {
                    assert(self.nodes.node_at(i) == pre.nodes.node_at(i));
                }
            }
            assert forall|i: int, d: bool| #[trigger] self.set_state(d, i) == pre.set_state(d, i) by {
                if pre.contains(i) && i != p && i != c {
                    assert(self.nodes.node_at(i) == pre.nodes.node_at(i));
                }
            }
            assert forall|i: int, d: bool| #[trigger] self.dfs_state(d, i) == pre.dfs_state(d, i) by {
                if pre.contains(i) && i != p && i != c {
                    assert(self.nodes.node_at(i) == pre.nodes.node_at(i));
                }
            }
            assert(!pre.parents(c).contains(p));
            assert forall|i: int| #[trigger] self.contains(i) implies self.parents(i).no_duplicates() && self.children(i).no_duplicates() by {
                assert(pre.parents(i).no_duplicates() && pre.children(i).no_duplicates());
                if i == p {
                    let s = pre.children(p);
                    let t = self.children(p);
                    assert forall|a: int, b: int| 0 <= a < b < t.len() implies t[a] != t[b] by {
                        if a < pos && b < pos {
                        } else if a < pos && b == pos {
                            assert(s[a] == t[a]);
                        } else if a < pos {
                            assert(t[b] == s[b - 1]);
                        } else if a == pos {
                            assert(t[b] == s[b - 1]);
                        } else {
                            assert(t[a] == s[a - 1] && t[b] == s[b - 1]);
                        }
                    }
                }
            }
            assert forall|i: int, j: int| self.contains(i) && #[trigger] self.parents(i).contains(j) implies self.contains(j) by {
                if i != c || j != p {
                    assert(pre.parents(i).contains(j));
                }
            }
            assert forall|i: int, j: int| self.contains(i) && #[trigger] self.children(i).contains(j) implies self.contains(j) by {
                if i != p || j != c {
                    assert(pre.children(i).contains(j));
                }
            }
            assert forall|i: int, j: int| self.contains(i) && self.contains(j) implies (#[trigger] self.children(i).contains(j)
                <==> #[trigger] self.parents(j).contains(i)) by {
                if i == p && j != c {
                    let s = pre.children(p);
                    let t = self.children(p);
                    if t.contains(j) {
                        let k = choose|k: int| 0 <= k < t.len() && t[k] == j;
                        if k < pos {
                            assert(s[k] == j);
                        } else {
                            assert(s[k - 1] == j);
                        }
                    }
                    if s.contains(j) {
                        let k = choose|k: int| 0 <= k < s.len() && s[k] == j;
                        if k < pos {
                            assert(t[k] == j);
                        } else {
                            assert(t[k + 1] == j);
                        }
                    }
                    assert(self.children(i).contains(j) == pre.children(i).contains(j));
                }
                if j == c && i != p {
                    let s = pre.parents(c);
                    let t = self.parents(c);
                    if t.contains(i) {
                        let k = choose|k: int| 0 <= k < t.len() && t[k] == i;
                        assert(s[k] == i);
                    }
                    if s.contains(i) {
                        let k = choose|k: int| 0 <= k < s.len() && s[k] == i;
                        assert(t[k] == i);
                    }
                    assert(self.parents(j).contains(i) == pre.parents(j).contains(i));
                }
                if i == p && j == c {
                    assert(self.children(i)[pos as int] == j);
                    assert(self.parents(j)[pre.parents(c).len() as int] == i);
                }
            }
            self.lemma_wf_after_relink(pre);
        }
    }
}


/// Removing the item at a position keeps the other items and their order.
proof fn lemma_remove_contains(s: Seq<int>, k: int, x: int)
    requires
        0 <= k < s.len(),
        s.no_duplicates(),
    ensures
        s.remove(k).no_duplicates(),
        s.remove(k).contains(x) == (s.contains(x) && x != s[k]),
{
    let t = s.remove(k);
    assert forall|a: int, b: int| 0 <= a < b < t.len() implies t[a] != t[b] by {
        if b < k {
        } else if a < k {
            assert(t[b] == s[b + 1]);
        } else {
            assert(t[a] == s[a + 1] && t[b] == s[b + 1]);
        }
    }
    if t.contains(x) {
        let j = choose|j: int| 0 <= j < t.len() && t[j] == x;
        if j < k {
            assert(s[j] == x);
        } else {
            assert(s[j + 1] == x);
        }
    }
    if s.contains(x) && x != s[k] {
        let j = choose|j: int| 0 <= j < s.len() && s[j] == x;
        if j < k {
            assert(t[j] == x);
        } else {
            assert(t[j - 1] == x);
        }
    }
}

impl RelationRegistry {
    /// Takes `child` out of the children of `parent` and `parent` out of the
    /// parents of `child`, handing back the two positions. No cache changes.
    fn unlink(&mut self, parent: NodeIndex, child: NodeIndex) -> (pos: (usize, usize))
        requires
            old(self).wf(),
            old(self).contains(parent as int),
            old(self).children(parent as int).contains(child as int),
        ensures
            final(self).wf(),
            relink_frame(*old(self), *final(self)),
            pos.0 < old(self).children(parent as int).len(),
            old(self).children(parent as int)[pos.0 as int] == child,
            final(self).children(parent as int) == old(self).children(parent as int).remove(pos.0 as int),
            pos.1 < old(self).parents(child as int).len(),
            old(self).parents(child as int)[pos.1 as int] == parent,
            final(self).parents(child as int) == old(self).parents(child as int).remove(pos.1 as int),
            forall|i: int| i != parent ==> #[trigger] final(self).children(i) == old(self).children(i),
            forall|i: int| i != child ==> #[trigger] final(self).parents(i) == old(self).parents(i),
    {
        let ghost pre = *old(self);
        let ghost p = parent as int;
        let ghost c = child as int;
        proof {
            assert(pre.contains(c));
            assert(pre.parents(c).contains(p));
            lemma_ints_contains(pre.nodes.node_at(p).children@, child);
            lemma_ints_contains(pre.nodes.node_at(c).parents@, parent);
        }
        let mut pn = self.nodes.replace_node(parent, Node::new());
        let i = position_of(&pn.children, child);
        pn.children.remove(i);
        let _ = self.nodes.replace_node(parent, pn);
        let mut cn = self.nodes.replace_node(child, Node::new());
        proof {
            if c == p {
                assert(cn.parents == pre.nodes.node_at(c).parents);
            }
        }
        let j = position_of(&cn.parents, parent);
        cn.parents.remove(j);
        let _ = self.nodes.replace_node(child, cn);
        proof {
            assert forall|i: int| i != p && i != c && pre.contains(i) implies #[trigger] self.nodes.node_at(i) == pre.nodes.node_at(i) by {}
            assert(self.children(p) =~= pre.children(p).remove(i as int));
            assert(self.parents(c) =~= pre.parents(c).remove(j as int));
            assert forall|k: int| k != p implies #[trigger] self.children(k) == pre.children(k) by {
                if pre.contains(k) && k != c {
                    assert(self.nodes.node_at(k) == pre.nodes.node_at(k));
                }
            }
            assert forall|k: int| k != c implies #[trigger] self.parents(k) == pre.parents(k) by {
                if pre.contains(k) && k != p {
                    assert(self.nodes.node_at(k) == pre.nodes.node_at(k));
                }
            }
            assert forall|k: int, d: bool| #[trigger] self.set_state(d, k) == pre.set_state(d, k) by {
                if pre.contains(k) && k != p && k != c {
                    assert(self.nodes.node_at(k) == pre.nodes.node_at(k));
                }
            }
            assert forall|k: int, d: bool| #[trigger] self.dfs_state(d, k) == pre.dfs_state(d, k) by {
                if pre.contains(k) && k != p && k != c {
                    assert(self.nodes.node_at(k) == pre.nodes.node_at(k));
                }
            }
            assert forall|k: int| #[trigger] self.contains(k) implies self.parents(k).no_duplicates() && self.children(k).no_duplicates() by {
                assert(pre.parents(k).no_duplicates() && pre.children(k).no_duplicates());
                if k == p {
                    lemma_remove_contains(pre.children(p), i as int, 0);
                }
                if k == c {
                    lemma_remove_contains(pre.parents(c), j as int, 0);
                }
            }
            assert forall|a: int, b: int| self.contains(a) && #[trigger] self.parents(a).contains(b) implies self.contains(b) by {
                if a == c {
                    lemma_remove_contains(pre.parents(c), j as int, b);
                }
                assert(pre.parents(a).contains(b));
            }
            assert forall|a: int, b: int| self.contains(a) && #[trigger] self.children(a).contains(b) implies self.contains(b) by {
                if a == p {
                    lemma_remove_contains(pre.children(p), i as int, b);
                }
                assert(pre.children(a).contains(b));
            }
            assert forall|a: int, b: int| self.contains(a) && self.contains(b) implies (#[trigger] self.children(a).contains(b)
                <==> #[trigger] self.parents(b).contains(a)) by {
                if a == p {
                    lemma_remove_contains(pre.children(p), i as int, b);
                }
                if b == c {
                    lemma_remove_contains(pre.parents(c), j as int, a);
                }
                assert(pre.children(a).contains(b) <==> pre.parents(b).contains(a));
            }
            self.lemma_wf_after_relink(pre);
        }
        (i, j)
    }
}


/// Node `p` and the nodes from which `g` reaches `p`.
pub open spec fn to_pivot(g: spec_fn(int) -> Seq<int>, p: int) -> Set<int> {
    Set::new(|i: int| i == p || reaches(g, i, p))
}

/// The items of `xs` that `e` holds, each once, in the order of `xs`.
pub open spec fn hits(e: Seq<int>, xs: Seq<int>) -> Seq<int>
    decreases xs.len(),
{
    if xs.len() == 0 {
        Seq::empty()
    } else {
        let f = hits(e, xs.drop_last());
        if e.contains(xs.last()) && !f.contains(xs.last()) {
            f.push(xs.last())
        } else {
            f
        }
    }
}

/// The items of `xs` that `e` does not hold, each once, in the order of `xs`.
pub open spec fn fresh(e: Seq<int>, xs: Seq<int>) -> Seq<int>
    decreases xs.len(),
{
    if xs.len() == 0 {
        Seq::empty()
    } else {
        let f = fresh(e, xs.drop_last());
        if !e.contains(xs.last()) && !f.contains(xs.last()) {
            f.push(xs.last())
        } else {
            f
        }
    }
}

/// The node indices of `v` as integers.
pub open spec fn ints(v: Seq<usize>) -> Seq<int> {
    v.map_values(|x: usize| x as int)
}

proof fn lemma_hits(e: Seq<int>, xs: Seq<int>)
    ensures
        hits(e, xs).no_duplicates(),
        forall|y: int| #[trigger] hits(e, xs).contains(y) == (e.contains(y) && xs.contains(y)),
    decreases xs.len(),
{
    if xs.len() > 0 {
        let ys = xs.drop_last();
        lemma_hits(e, ys);
        let f = hits(e, ys);
        assert forall|y: int| #[trigger] hits(e, xs).contains(y) == (e.contains(y) && xs.contains(y)) by {
            if ys.contains(y) {
                let k = choose|k: int| 0 <= k < ys.len() && ys[k] == y;
                assert(xs[k] == y);
            }
            if xs.contains(y) && y != xs.last() {
                let k = choose|k: int| 0 <= k < xs.len() && xs[k] == y;
                assert(ys[k] == y);
            }
            if hits(e, xs).contains(y) && !f.contains(y) {
                let k = choose|k: int| 0 <= k < hits(e, xs).len() && hits(e, xs)[k] == y;
                assert(k == f.len());
            }
            if f.contains(y) {
                let k = choose|k: int| 0 <= k < f.len() && f[k] == y;
                assert(hits(e, xs)[k] == y);
            }
            assert(xs.contains(xs.last()) && xs[xs.len() - 1] == xs.last());
            if y == xs.last() && e.contains(y) && !f.contains(y) {
                assert(hits(e, xs)[f.len() as int] == y);
            }
        }
    }
}

proof fn lemma_fresh(e: Seq<int>, xs: Seq<int>)
    ensures
        fresh(e, xs).no_duplicates(),
        forall|y: int| #[trigger] fresh(e, xs).contains(y) == (!e.contains(y) && xs.contains(y)),
    decreases xs.len(),
{
    if xs.len() > 0 {
        let ys = xs.drop_last();
        lemma_fresh(e, ys);
        let f = fresh(e, ys);
        assert forall|y: int| #[trigger] fresh(e, xs).contains(y) == (!e.contains(y) && xs.contains(y)) by {
            if ys.contains(y) {
                let k = choose|k: int| 0 <= k < ys.len() && ys[k] == y;
                assert(xs[k] == y);
            }
            if xs.contains(y) && y != xs.last() {
                let k = choose|k: int| 0 <= k < xs.len() && xs[k] == y;
                assert(ys[k] == y);
            }
            if fresh(e, xs).contains(y) && !f.contains(y) {
                let k = choose|k: int| 0 <= k < fresh(e, xs).len() && fresh(e, xs)[k] == y;
                assert(k == f.len());
            }
            if f.contains(y) {
                let k = choose|k: int| 0 <= k < f.len() && f[k] == y;
                assert(fresh(e, xs)[k] == y);
            }
            assert(xs.contains(xs.last()) && xs[xs.len() - 1] == xs.last());
            if y == xs.last() && !e.contains(y) && !f.contains(y) {
                assert(fresh(e, xs)[f.len() as int] == y);
            }
        }
    }
}

/// Filtering out nothing keeps the prefix.
proof fn lemma_filter_out_none(s: Seq<int>, k: int)
    requires
        0 <= k <= s.len(),
    ensures
        filter_out(s, Seq::empty(), k) == s.take(k),
    decreases k,
{
    if k > 0 {
        lemma_filter_out_none(s, k - 1);
        assert(s.take(k) =~= s.take(k - 1).push(s[k - 1]));
    }
}

/// Filtering out one more item takes it out of where it stood.
proof fn lemma_filter_out_push(s: Seq<int>, r: Seq<int>, x: int, k: int)
    requires
        0 <= k <= s.len(),
        s.no_duplicates(),
    ensures
        filter_out(s, r.push(x), k) == if filter_out(s, r, k).contains(x) {
            filter_out(s, r, k).remove(filter_out(s, r, k).index_of(x))
        } else {
            filter_out(s, r, k)
        },
    decreases k,
{
    if k > 0 {
        lemma_filter_out_push(s, r, x, k - 1);
        lemma_filter_out(s, r, k - 1);
        lemma_filter_out(s, r, k);
        let p = filter_out(s, r, k - 1);
        let f = filter_out(s, r, k);
        let y = s[k - 1];
        let rx = r.push(x);
        assert(rx.contains(y) == (r.contains(y) || y == x)) by {
            if rx.contains(y) && y != x {
                let j = choose|j: int| 0 <= j < rx.len() && rx[j] == y;
                assert(r[j] == y);
            }
            if r.contains(y) {
                let j = choose|j: int| 0 <= j < r.len() && r[j] == y;
                assert(rx[j] == y);
            }
            assert(rx[r.len() as int] == x);
        }
        if r.contains(y) {
        } else if y != x {
            assert(f == p.push(y));
            if p.contains(x) {
                let t = p.index_of(x);
                assert(f.contains(x));
                assert(f[t] == x);
                assert(f.index_of(x) == t) by {
                    let u = f.index_of(x);
                    if u != t {
                        assert(f.no_duplicates());
                    }
                }
                assert(p.remove(t).push(y) =~= f.remove(t));
            } else {
                if f.contains(x) {
                    let u = choose|u: int| 0 <= u < f.len() && f[u] == x;
                    if u < p.len() {
                        assert(p[u] == x);
                    }
                }
            }
        } else {
            assert(!p.contains(x)) by {
                if p.contains(x) {
                    let t = choose|t: int| 0 <= t < k - 1 && #[trigger] s[t] == x;
                }
            }
            assert(f == p.push(x));
            assert(f.contains(x)) by {
                assert(f[p.len() as int] == x);
            }
            let u = f.index_of(x);
            assert(u == p.len()) by {
                if u < p.len() {
                    assert(p[u] == x);
                }
            }
            assert(f.remove(u) =~= p);
        }
    }
}

impl RelationRegistry {
    /// A node lists a child exactly when the child lists it as a parent,
    /// for stored nodes and others alike.
    proof fn lemma_dual(&self)
        requires
            self.links_ok(),
        ensures
            forall|a: int, b: int| #[trigger] self.graph(false)(a).contains(b) <==> #[trigger] self.graph(true)(b).contains(a),
    {
        assert forall|a: int, b: int| #[trigger] self.graph(false)(a).contains(b) <==> #[trigger] self.graph(true)(b).contains(a) by {
            if self.contains(a) && self.contains(b) {
            } else if self.graph(false)(a).contains(b) {
                assert(self.children(a).contains(b));
            } else if self.graph(true)(b).contains(a) {
                assert(self.parents(b).contains(a));
            }
        }
    }

    /// The nodes that reach `p` going one way are `p` and those it reaches
    /// going the other way.
    proof fn lemma_to_pivot(&self, up: bool, p: int)
        requires
            self.links_ok(),
        ensures
            to_pivot(self.graph(up), p) == self.reach_from(!up, p),
    {
        self.lemma_dual();
        assert forall|i: int| #[trigger] to_pivot(self.graph(up), p).contains(i) == self.reach_from(!up, p).contains(i) by {
            if up {
                lemma_reach_dual(self.graph(true), self.graph(false), i, p);
            } else {
                lemma_reach_dual(self.graph(true), self.graph(false), p, i);
            }
        }
        assert(to_pivot(self.graph(up), p) =~= self.reach_from(!up, p));
    }

    /// A cycle going one way is a cycle going the other way.
    proof fn lemma_acyclic_dual(&self)
        requires
            self.links_ok(),
        ensures
            acyclic(self.graph(true)) == acyclic(self.graph(false)),
    {
        self.lemma_dual();
        assert forall|i: int| #[trigger] reaches(self.graph(true), i, i) == reaches(self.graph(false), i, i) by {
            lemma_reach_dual(self.graph(true), self.graph(false), i, i);
        }
        if acyclic(self.graph(true)) {
            assert forall|i: int| !#[trigger] reaches(self.graph(false), i, i) by {
                assert(!reaches(self.graph(true), i, i));
            }
        }
        if acyclic(self.graph(false)) {
            assert forall|i: int| !#[trigger] reaches(self.graph(true), i, i) by {
                assert(!reaches(self.graph(false), i, i));
            }
        }
    }
}

/// A graph holding a cycle, or a subgraph's cycle, is not acyclic.
proof fn lemma_cycle_not_acyclic(g: spec_fn(int) -> Seq<int>, big: spec_fn(int) -> Seq<int>, i: int)
    requires
        cycle_from(g, i),
        subgraph(g, big),
    ensures
        !acyclic(big),
{
    let c = choose|c: int| (c == i || reaches(g, i, c)) && #[trigger] reaches(g, c, c);
    lemma_reach_mono(g, big, c, c);
}

/// Caches of direction `up` stay correct when the graph changes only at
/// `pivot`, except at the nodes from which the larger graph `big` reaches
/// `pivot`.
proof fn lemma_carry(a: RelationRegistry, b: RelationRegistry, up: bool, pivot: int, big: spec_fn(int) -> Seq<int>, stale: Set<int>)
    requires
        forall|i: int| i != pivot ==> #[trigger] b.graph(up)(i) == a.graph(up)(i),
        big == a.graph(up) || big == b.graph(up),
        forall|i: int| #[trigger] b.set_state(up, i) == a.set_state(up, i),
        forall|i: int| #[trigger] b.dfs_state(up, i) == a.dfs_state(up, i),
        a.dir_ok_except(up, stale),
    ensures
        b.dir_ok_except(up, stale + to_pivot(big, pivot)),
{
    let other = if big == a.graph(up) { b.graph(up) } else { a.graph(up) };
    assert forall|i: int| !(stale + to_pivot(big, pivot)).contains(i) implies #[trigger] b.dir_ok(up, i) by {
        assert(a.dir_ok(up, i));
        assert(!to_pivot(big, pivot).contains(i));
        lemma_reach_unchanged(big, other, pivot, i);
        assert forall|x: int| (x == i || reaches(big, i, x)) implies #[trigger] big(x) == other(x) by {
            if x == pivot {
                assert(to_pivot(big, pivot).contains(i));
            }
        }
        lemma_agree_region(big, other, i);
        assert(reach_set(a.graph(up), i) == reach_set(b.graph(up), i));
        assert(b.set_state(up, i) == a.set_state(up, i));
        assert(b.dfs_state(up, i) == a.dfs_state(up, i));
    }
}


/// A subgraph of an acyclic graph is acyclic.
proof fn lemma_acyclic_sub(g: spec_fn(int) -> Seq<int>, big: spec_fn(int) -> Seq<int>)
    requires
        subgraph(g, big),
        acyclic(big),
    ensures
        acyclic(g),
{
    assert forall|i: int| !#[trigger] reaches(g, i, i) by {
        if reaches(g, i, i) {
            lemma_reach_mono(g, big, i, i);
        }
    }
}

/// `b` is `a` with the children of `r` that `rm` names taken out, both
/// ways round.
pub open spec fn removed_links(a: RelationRegistry, b: RelationRegistry, r: int, rm: Seq<int>) -> bool {
    let c0 = a.children(r);
    let hit = hits(c0, rm);
    &&& b.children(r) == filter_out(c0, rm, c0.len() as int)
    &&& forall|i: int| i != r ==> #[trigger] b.children(i) == a.children(i)
    &&& forall|i: int| #[trigger] b.parents(i) == if hit.contains(i) {
        filter_out(a.parents(i), seq![r], a.parents(i).len() as int)
    } else {
        a.parents(i)
    }
}

/// The notices for the nodes `ns` whose parents changed.
pub open spec fn parent_notices(ns: Seq<int>) -> Seq<Notice> {
    ns.map_values(|i: int| Notice::ParentsChanged(i as usize))
}

impl RelationRegistry {
    proof fn lemma_removed_sub(a: RelationRegistry, b: RelationRegistry, r: int, rm: Seq<int>)
        requires
            a.links_ok(),
            removed_links(a, b, r, rm),
        ensures
            subgraph(b.graph(false), a.graph(false)),
            subgraph(b.graph(true), a.graph(true)),
    {
        let c0 = a.children(r);
        if a.contains(r) {
            lemma_filter_out(c0, rm, c0.len() as int);
        } else {
            assert(c0.len() == 0);
        }
        assert forall|i: int, j: int| #[trigger] b.graph(false)(i).contains(j) implies a.graph(false)(i).contains(j) by {
            if i == r {
                assert(b.children(r).contains(j));
                if a.contains(r) {
                    let t = choose|t: int| 0 <= t < c0.len() as int && #[trigger] c0[t] == j;
                } else {
                    assert(b.children(r) == Seq::<int>::empty());
                }
            } else {
                assert(b.children(i) == a.children(i));
            }
        }
        assert forall|i: int, j: int| #[trigger] b.graph(true)(i).contains(j) implies a.graph(true)(i).contains(j) by {
            let pp = a.parents(i);
            if hits(c0, rm).contains(i) {
                assert(b.parents(i) == filter_out(pp, seq![r], pp.len() as int));
                if a.contains(i) {
                    lemma_filter_out(pp, seq![r], pp.len() as int);
                    let t = choose|t: int| 0 <= t < pp.len() as int && #[trigger] pp[t] == j;
                } else {
                    assert(pp.len() == 0);
                }
            } else {
                assert(b.parents(i) == pp);
            }
        }
    }

    /// Refreshes the caches after the parents of `index` changed: the
    /// ancestor caches of `index` and of each of its descendants are
    /// outdated, and the item gets a notice.
    fn parents_changed(&mut self, index: NodeIndex, notices: &mut Vec<Notice>, Ghost(other_stale): Ghost<Set<int>>, Ghost(h): Ghost<spec_fn(int) -> Seq<int>>) -> (r: Result<(), CycleError>)
        requires
            old(self).wf(),
            old(self).contains(index as int),
        ensures
            final(self).wf(),
            same_graph(*old(self), *final(self)),
            r is Err ==> cycle_from(old(self).graph(false), index as int),
            old(self).dir_ok_except(true, old(self).reach_from(false, index as int)) && old(self).dir_ok_except(false, other_stale)
                && other_stale.disjoint(old(self).reach_from(false, index as int)) && r is Ok ==> final(self).dir_ok_except(true, Set::empty())
                && final(self).dir_ok_except(false, other_stale),
            r is Ok ==> final(notices)@ == old(notices)@.push(Notice::ParentsChanged(index)),
            r is Err ==> final(notices)@ == old(notices)@,
            forall|i: int| #[trigger] final(self).set_state(true, i) == old(self).set_state(true, i) || final(self).set_state(true, i) is Outdated,
            subgraph(h, old(self).graph(false)) && old(self).covers(false, h) ==> final(self).covers(false, h) && (r is Ok
                ==> final(self).set_state(true, index as int) is Outdated && forall|y: int|
                reaches(h, index as int, y) ==> #[trigger] final(self).set_state(true, y) is Outdated),
    {
        let r = self.relinked(true, index, Ghost(other_stale), Ghost(h));
        if r.is_ok() {
            notices.push(Notice::ParentsChanged(index));
        }
        r
    }

    /// Refreshes the caches after the children of `index` changed: the
    /// descendant caches of `index` and of each of its ancestors are
    /// outdated, and the item gets a notice. `Err` when the ancestors of
    /// `index` hold a cycle.
    pub fn children_changed(&mut self, index: NodeIndex, notices: &mut Vec<Notice>) -> (r: Result<(), CycleError>)
        requires
            old(self).wf(),
            old(self).contains(index as int),
        ensures
            final(self).wf(),
            same_graph(*old(self), *final(self)),
            r is Err ==> cycle_from(old(self).graph(true), index as int),
            old(self).ok_except(Set::empty(), old(self).reach_from(true, index as int)) && old(self).unmasked() && r is Ok
                ==> final(self).sound(),
            r is Ok ==> final(notices)@ == old(notices)@.push(Notice::ChildrenChanged(index)),
            r is Err ==> final(notices)@ == old(notices)@,
            old(self).cycle_unmasked_set(true, index as int) && cycle_from(old(self).graph(true), index as int) ==> r is Err,
    {
        let ghost pre = *old(self);
        let r = self.relinked(false, index, Ghost(Set::empty()), Ghost(pre.graph(true)));
        if r.is_ok() {
            notices.push(Notice::ChildrenChanged(index));
        }
        proof {
            if pre.ok_except(Set::empty(), pre.reach_from(true, index as int)) && pre.unmasked() && r is Ok {
                assert(Set::<int>::empty().disjoint(pre.reach_from(true, index as int)));
                assert(self.ok_except(Set::empty(), Set::empty()));
                self.lemma_sound_ok_except();
            }
        }
        r
    }

    /// Takes each of `removed_children` that is a child of `index` out of
    /// the children of `index`; each child that left gets a notice, then
    /// `index` does. `Err` when refreshing the caches meets a cycle.
    fn remove_by_index(&mut self, index: NodeIndex, removed_children: &Vec<NodeIndex>, notices: &mut Vec<Notice>) -> (r: Result<(), CycleError>)
        requires
            old(self).wf(),
            old(self).contains(index as int),
        ensures
            final(self).wf(),
            same_flags(*old(self), *final(self)),
            final(self).layout() == old(self).layout(),
            final(self).next_id() == old(self).next_id(),
            forall|i: int| #[trigger] final(self).contains(i) == old(self).contains(i),
            subgraph(final(self).graph(false), old(self).graph(false)),
            subgraph(final(self).graph(true), old(self).graph(true)),
            r is Err ==> !acyclic(old(self).graph(false)),
            old(self).sound() && acyclic(old(self).graph(false)) ==> r is Ok && final(self).sound(),
            r is Ok ==> removed_links(*old(self), *final(self), index as int, ints(removed_children@)),
            r is Ok ==> final(notices)@ == old(notices)@ + parent_notices(hits(old(self).children(index as int), ints(removed_children@)))
                + seq![Notice::ChildrenChanged(index)],
    {
        let ghost pre = *old(self);
        let ghost old_notices = old(notices)@;
        let ghost ix = index as int;
        let ghost c0 = pre.children(ix);
        let ghost rm = ints(removed_children@);
        let ghost h = pre.sound() && acyclic(pre.graph(false));
        let ghost t_stale = pre.reach_from(true, ix);
        proof {
            lemma_filter_out_none(c0, c0.len() as int);
            assert(c0.take(c0.len() as int) =~= c0);
            assert(rm.take(0) =~= Seq::<int>::empty());
            assert(filter_out(c0, Seq::empty(), c0.len() as int) == c0);
            assert forall|i: int| #[trigger] self.parents(i) == if hits(c0, rm.take(0)).contains(i) {
                filter_out(pre.parents(i), seq![ix], pre.parents(i).len() as int)
            } else {
                pre.parents(i)
            } by {}
            assert(parent_notices(hits(c0, rm.take(0))) =~= Seq::<Notice>::empty());
            pre.lemma_sound_ok_except();
            assert(notices@ =~= old_notices + parent_notices(hits(c0, rm.take(0))));
        }
        let mut k: usize = 0;
        while k < removed_children.len()
            invariant
                pre == *old(self),
                same_flags(pre, *self),
                old_notices == old(notices)@,
                pre.wf(),
                pre.contains(ix),
                ix == index,
                c0 == pre.children(ix),
                rm == ints(removed_children@),
                h == (pre.sound() && acyclic(pre.graph(false))),
                t_stale == pre.reach_from(true, ix),
                k <= removed_children@.len(),
                self.wf(),
                self.layout() == pre.layout(),
                self.next_id() == pre.next_id(),
                forall|i: int| #[trigger] self.contains(i) == pre.contains(i),
                removed_links(pre, *self, ix, rm.take(k as int)),
                notices@ == old_notices + parent_notices(hits(c0, rm.take(k as int))),
                h ==> self.dir_ok_except(true, Set::empty()) && self.dir_ok_except(false, t_stale) && self.reach_from(true, ix) == t_stale,
            decreases removed_children@.len() - k,
        {
            let x = removed_children[k];
            let ghost xi = x as int;
            let ghost rmk = rm.take(k as int);
            let ghost rmk1 = rm.take(k + 1);
            let ghost hk = hits(c0, rmk);
            let ghost a = *self;
            proof {
                assert(rmk1 =~= rmk.push(xi));
                assert(rm[k as int] == xi);
                lemma_hits(c0, rmk);
                lemma_filter_out(c0, rmk, c0.len() as int);
                lemma_filter_out_push(c0, rmk, xi, c0.len() as int);
                lemma_ints_contains(self.nodes.node_at(ix).children@, x);
                assert(rmk1.drop_last() =~= rmk);
                assert(rmk.contains(xi) ==> hk.contains(xi) || !c0.contains(xi));
                assert(a.children(ix).contains(xi) == (c0.contains(xi) && !rmk.contains(xi))) by {
                    if c0.contains(xi) {
                        let t = choose|t: int| 0 <= t < c0.len() && c0[t] == xi;
                        assert(0 <= t < c0.len() as int && c0[t] == xi);
                    }
                }
                Self::lemma_removed_sub(pre, a, ix, rmk);
            }
            if !self.nodes.node(index).has_child(x) {
                proof {
                    assert(hits(c0, rmk1) == hk);
                    assert(filter_out(c0, rmk1, c0.len() as int) == a.children(ix));
                }
                k = k + 1;
                continue;
            }
            let (pi, pj) = self.unlink(index, x);
            let ghost b = *self;
            proof {
                let cur = a.children(ix);
                assert(cur.index_of(xi) == pi as int) by {
                    let u = cur.index_of(xi);
                    if u != pi {
                        assert(cur.no_duplicates());
                    }
                }
                assert(b.children(ix) == filter_out(c0, rmk1, c0.len() as int));
                assert(!hk.contains(xi));
                assert(hits(c0, rmk1) == hk.push(xi));
                lemma_hits(c0, rmk1);
                let pp = pre.parents(xi);
                assert(a.parents(xi) == pp);
                lemma_filter_out_none(pp, pp.len() as int);
                assert(pp.take(pp.len() as int) =~= pp);
                lemma_filter_out_push(pp, Seq::empty(), ix, pp.len() as int);
                assert(Seq::<int>::empty().push(ix) =~= seq![ix]);
                assert(pp.no_duplicates());
                assert(pp.index_of(ix) == pj as int) by {
                    let u = pp.index_of(ix);
                    if u != pj {
                        assert(pp.no_duplicates());
                    }
                }
                assert(pp.contains(ix)) by {
                    assert(pp[pj as int] == ix);
                }
                assert(b.parents(xi) == filter_out(pp, seq![ix], pp.len() as int));
                assert forall|i: int| #[trigger] b.parents(i) == if hits(c0, rmk1).contains(i) {
                    filter_out(pre.parents(i), seq![ix], pre.parents(i).len() as int)
                } else {
                    pre.parents(i)
                } by {
                    if i != xi {
                        assert(b.parents(i) == a.parents(i));
                        assert(hits(c0, rmk1).contains(i) == hk.contains(i));
                    }
                }
                assert(removed_links(pre, b, ix, rmk1));
                Self::lemma_removed_sub(pre, b, ix, rmk1);
                if h {
                    lemma_acyclic_sub(a.graph(false), pre.graph(false));
                    lemma_acyclic_sub(b.graph(false), pre.graph(false));
                    a.lemma_acyclic_dual();
                    b.lemma_acyclic_dual();
                    let ad = a.graph(false);
                    let au = a.graph(true);
                    let bu = b.graph(true);
                    assert(cur.contains(xi));
                    assert(ad(ix).contains(xi));
                    lemma_reaches_step(ad, ix, xi);
                    // ancestor caches
                    assert forall|i: int| i != xi implies #[trigger] b.graph(true)(i) == a.graph(true)(i) by {}
                    lemma_carry(a, b, true, xi, au, Set::empty());
                    a.lemma_to_pivot(true, xi);
                    b.lemma_to_pivot(true, xi);
                    assert forall|i: int| #[trigger] (Set::<int>::empty() + to_pivot(au, xi)).contains(i) implies b.reach_from(false, xi).contains(i) by {
                        if i != xi {
                            assert(!reaches(au, xi, xi));
                            lemma_reach_to_pivot(au, bu, xi, i);
                        }
                    }
                    assert(b.dir_ok_except(true, b.reach_from(false, xi)));
                    // descendant caches
                    assert forall|i: int| i != ix implies #[trigger] b.graph(false)(i) == a.graph(false)(i) by {}
                    lemma_carry(a, b, false, ix, ad, t_stale);
                    a.lemma_to_pivot(false, ix);
                    assert(t_stale + to_pivot(ad, ix) =~= t_stale);
                    // the ancestors of `index` lie outside what `x` reaches
                    assert forall|y: int| t_stale.contains(y) implies !b.reach_from(false, xi).contains(y) by {
                        if b.reach_from(false, xi).contains(y) {
                            assert(to_pivot(ad, ix).contains(y));
                            if y != xi {
                                lemma_reach_mono(b.graph(false), ad, xi, y);
                                lemma_reaches_trans(ad, ix, xi, y);
                            }
                            if y != ix {
                                lemma_reaches_trans(ad, ix, y, ix);
                            }
                            assert(reaches(ad, ix, ix));
                        }
                    }
                    assert(t_stale.disjoint(b.reach_from(false, xi)));
                    // the ancestors of `index` stay as they were
                    if ix == xi {
                        assert(reaches(ad, ix, ix));
                    }
                    if reaches(au, ix, xi) {
                        a.lemma_dual();
                        lemma_reach_dual(au, ad, ix, xi);
                        lemma_reaches_trans(ad, ix, xi, ix);
                    }
                    lemma_reach_unchanged(au, bu, xi, ix);
                    assert(b.reach_from(true, ix) == t_stale);
                }
            }
            proof {
                assert(b.layout() == a.layout());
                assert(b.next_id() == a.next_id());
            }
            let res = self.parents_changed(x, notices, Ghost(t_stale), Ghost(self.graph(false)));
            if res.is_err() {
                proof {
                    lemma_cycle_not_acyclic(b.graph(false), pre.graph(false), xi);
                }
                return res;
            }
            proof {
                assert forall|i: int| #[trigger] self.children(i) == b.children(i) && self.parents(i) == b.parents(i) by {
                    assert(self.graph(false)(i) == b.graph(false)(i));
                    assert(self.graph(true)(i) == b.graph(true)(i));
                }
                assert(removed_links(pre, *self, ix, rmk1));
                assert(parent_notices(hits(c0, rmk1)) =~= parent_notices(hk).push(Notice::ParentsChanged(x)));
                assert(notices@ =~= old_notices + parent_notices(hits(c0, rmk1)));
            }
            k = k + 1;
        }
        proof {
            assert(rm.take(k as int) =~= rm);
        }
        let ghost fin = *self;
        let res = self.children_changed(index, notices);
        proof {
            assert forall|i: int| #[trigger] self.children(i) == fin.children(i) && self.parents(i) == fin.parents(i) by {
                assert(self.graph(false)(i) == fin.graph(false)(i));
                assert(self.graph(true)(i) == fin.graph(true)(i));
            }
            Self::lemma_removed_sub(pre, fin, ix, rm);
            if res is Err {
                lemma_cycle_not_acyclic(fin.graph(true), fin.graph(true), ix);
                fin.lemma_acyclic_dual();
                if acyclic(pre.graph(false)) {
                    lemma_acyclic_sub(fin.graph(false), pre.graph(false));
                }
            }
            if h {
                assert(fin.ok_except(Set::empty(), fin.reach_from(true, ix)));
                lemma_acyclic_sub(fin.graph(false), pre.graph(false));
                fin.lemma_acyclic_dual();
                fin.lemma_unmasked_acyclic();
            }
        }
        res
    }
}


/// The children of a node that held `s` after each of `xs` that it does
/// not hold yet went in, the `k`th at position `base + k`.
pub open spec fn ins_run(s: Seq<int>, base: int, xs: Seq<int>) -> Seq<int>
    decreases xs.len(),
{
    if xs.len() == 0 {
        s
    } else {
        let prev = ins_run(s, base, xs.drop_last());
        if prev.contains(xs.last()) {
            prev
        } else {
            prev.insert(base + xs.len() - 1, xs.last())
        }
    }
}

/// Each position that [`ins_run`] inserts at lies within the list at that
/// time.
pub open spec fn ins_ok(s: Seq<int>, base: int, xs: Seq<int>) -> bool
    decreases xs.len(),
{
    if xs.len() == 0 {
        true
    } else {
        let prev = ins_run(s, base, xs.drop_last());
        &&& ins_ok(s, base, xs.drop_last())
        &&& (prev.contains(xs.last()) || 0 <= base + xs.len() - 1 <= prev.len())
    }
}

proof fn lemma_ins_ok_prefix(s: Seq<int>, base: int, xs: Seq<int>, k: int)
    requires
        ins_ok(s, base, xs),
        0 <= k <= xs.len(),
    ensures
        ins_ok(s, base, xs.take(k)),
    decreases xs.len() - k,
{
    if k == xs.len() {
        assert(xs.take(k) =~= xs);
    } else {
        assert(xs.drop_last().take(k) =~= xs.take(k));
        lemma_ins_ok_prefix(s, base, xs.drop_last(), k);
    }
}

proof fn lemma_ins_run(s: Seq<int>, base: int, xs: Seq<int>)
    requires
        ins_ok(s, base, xs),
        s.no_duplicates(),
    ensures
        ins_run(s, base, xs).no_duplicates(),
        forall|y: int| #[trigger] ins_run(s, base, xs).contains(y) == (s.contains(y) || xs.contains(y)),
    decreases xs.len(),
{
    if xs.len() > 0 {
        let ys = xs.drop_last();
        let c = xs.last();
        lemma_ins_run(s, base, ys);
        let prev = ins_run(s, base, ys);
        let cur = ins_run(s, base, xs);
        assert(xs[xs.len() - 1] == c);
        if !prev.contains(c) {
            let i = base + xs.len() - 1;
            assert forall|a: int, b: int| 0 <= a < b < cur.len() implies cur[a] != cur[b] by {
                if b < i {
                } else if a < i && b == i {
                    assert(prev[a] != c);
                } else if a < i {
                    assert(cur[b] == prev[b - 1]);
                } else if a == i {
                    assert(cur[b] == prev[b - 1]);
                } else {
                    assert(cur[a] == prev[a - 1] && cur[b] == prev[b - 1]);
                }
            }
            assert forall|y: int| #[trigger] cur.contains(y) == (prev.contains(y) || y == c) by {
                if cur.contains(y) {
                    let j = choose|j: int| 0 <= j < cur.len() && cur[j] == y;
                    if j < i {
                        assert(prev[j] == y);
                    } else if j > i {
                        assert(prev[j - 1] == y);
                    }
                }
                if prev.contains(y) {
                    let j = choose|j: int| 0 <= j < prev.len() && prev[j] == y;
                    if j < i {
                        assert(cur[j] == y);
                    } else {
                        assert(cur[j + 1] == y);
                    }
                }
                if y == c {
                    assert(cur[i] == c);
                }
            }
        }
        assert forall|y: int| #[trigger] cur.contains(y) == (s.contains(y) || xs.contains(y)) by {
            if ys.contains(y) {
                let j = choose|j: int| 0 <= j < ys.len() && ys[j] == y;
                assert(xs[j] == y);
            }
            if xs.contains(y) && y != c {
                let j = choose|j: int| 0 <= j < xs.len() && xs[j] == y;
                assert(ys[j] == y);
            }
        }
    }
}


/// Where a new child goes among the children.
#[derive(Clone, Copy)]
enum Place {
    /// At the end.
    Back,
    /// At the front.
    Front,
    /// The `k`th new child at this position plus `k`.
    At(usize),
}

/// The children of a node that held `c0` after the children `xs` went in
/// at `p`, skipping those it already held.
spec fn place_run(c0: Seq<int>, xs: Seq<int>, p: Place) -> Seq<int> {
    match p {
        Place::Back => c0 + fresh(c0, xs),
        Place::Front => fresh(c0, xs).reverse() + c0,
        Place::At(b) => ins_run(c0, b as int, xs),
    }
}

spec fn place_ok(c0: Seq<int>, xs: Seq<int>, p: Place) -> bool {
    match p {
        Place::At(b) => ins_ok(c0, b as int, xs),
        _ => true,
    }
}

/// `g` with the neighbors of `r` replaced by `nb`.
pub open spec fn with_nbrs(g: spec_fn(int) -> Seq<int>, r: int, nb: Seq<int>) -> spec_fn(int) -> Seq<int> {
    |i: int| if i == r { nb } else { g(i) }
}

/// `b` is `a` with the children of `r` now `newc`, and `r` added as the
/// last parent of each node of `added`.
pub open spec fn added_links(a: RelationRegistry, b: RelationRegistry, r: int, newc: Seq<int>, added: Seq<int>) -> bool {
    &&& b.children(r) == newc
    &&& forall|i: int| i != r ==> #[trigger] b.children(i) == a.children(i)
    &&& forall|i: int| #[trigger] b.parents(i) == if added.contains(i) {
        a.parents(i).push(r)
    } else {
        a.parents(i)
    }
}

proof fn lemma_place_run(c0: Seq<int>, xs: Seq<int>, p: Place)
    requires
        place_ok(c0, xs, p),
        c0.no_duplicates(),
    ensures
        place_run(c0, xs, p).no_duplicates(),
        forall|y: int| #[trigger] place_run(c0, xs, p).contains(y) == (c0.contains(y) || fresh(c0, xs).contains(y)),
{
    lemma_fresh(c0, xs);
    let f = fresh(c0, xs);
    let r = place_run(c0, xs, p);
    match p {
        Place::At(b) => {
            lemma_ins_run(c0, b as int, xs);
        },
        _ => {
            let fr = if p is Back { f } else { f.reverse() };
            assert(fr.no_duplicates()) by {
                if !(p is Back) {
                    assert forall|a: int, b: int| 0 <= a < b < fr.len() implies fr[a] != fr[b] by {
                        assert(fr[a] == f[f.len() - 1 - a] && fr[b] == f[f.len() - 1 - b]);
                    }
                }
            }
            assert forall|y: int| #[trigger] fr.contains(y) == f.contains(y) by {
                if fr.contains(y) {
                    let j = choose|j: int| 0 <= j < fr.len() && fr[j] == y;
                    if p is Back {
                        assert(f[j] == y);
                    } else {
                        assert(f[f.len() - 1 - j] == y);
                    }
                }
                if f.contains(y) {
                    let j = choose|j: int| 0 <= j < f.len() && f[j] == y;
                    if !(p is Back) {
                        assert(fr[f.len() - 1 - j] == y);
                    }
                }
            }
            let (u, v) = if p is Back { (c0, fr) } else { (fr, c0) };
            assert(r == u + v);
            assert forall|a: int, b: int| 0 <= a < b < r.len() implies r[a] != r[b] by {
                if b < u.len() {
                } else if a >= u.len() {
                    assert(r[a] == v[a - u.len()] && r[b] == v[b - u.len()]);
                } else {
                    assert(r[b] == v[b - u.len()]);
                    assert(v.contains(r[b]));
                    assert(u.contains(r[a]));
                }
            }
            assert forall|y: int| #[trigger] r.contains(y) == (c0.contains(y) || f.contains(y)) by {
                if r.contains(y) {
                    let j = choose|j: int| 0 <= j < r.len() && r[j] == y;
                    if j < u.len() {
                        assert(u[j] == y);
                    } else {
                        assert(v[j - u.len()] == y);
                    }
                }
                if u.contains(y) {
                    let j = choose|j: int| 0 <= j < u.len() && u[j] == y;
                    assert(r[j] == y);
                }
                if v.contains(y) {
                    let j = choose|j: int| 0 <= j < v.len() && v[j] == y;
                    assert(r[j + u.len()] == y);
                }
            }
        },
    }
}


/// Each node of `f` and every node that one of them reaches in `g`.
spec fn spread(g: spec_fn(int) -> Seq<int>, f: Seq<int>) -> Set<int> {
    Set::new(|y: int| exists|c: int| #[trigger] f.contains(c) && (c == y || reaches(g, c, y)))
}

/// In `g` with the neighbors of `r` widened to `newc`, whose members not
/// already neighbors are in `f`, a path either stays in `g` or runs from a
/// node that is or reaches `r` to a node of `spread(g, f)`.
proof fn lemma_widened_path(g: spec_fn(int) -> Seq<int>, r: int, newc: Seq<int>, f: Seq<int>, a: int, y: int, n: nat)
    requires
        forall|j: int| #[trigger] newc.contains(j) ==> g(r).contains(j) || f.contains(j),
        path(with_nbrs(g, r, newc), a, y, n),
    ensures
        reaches(g, a, y) || ((a == r || reaches(g, a, r)) && spread(g, f).contains(y)),
    decreases n,
{
    let big = with_nbrs(g, r, newc);
    if n == 1 {
        assert(big(a).contains(y));
        if a != r || g(r).contains(y) {
            assert(g(a).contains(y));
            lemma_reaches_step(g, a, y);
        } else {
            assert(f.contains(y));
            assert(spread(g, f).contains(y));
        }
    } else {
        let k = choose|k: int| #[trigger] big(a).contains(k) && path(big, k, y, (n - 1) as nat);
        lemma_widened_path(g, r, newc, f, k, y, (n - 1) as nat);
        if a != r || g(r).contains(k) {
            assert(g(a).contains(k));
            lemma_reaches_step(g, a, k);
            if reaches(g, k, y) {
                lemma_reaches_trans(g, a, k, y);
            } else if k != r {
                lemma_reaches_trans(g, a, k, r);
            }
        } else {
            assert(f.contains(k));
            if reaches(g, k, y) {
                assert(spread(g, f).contains(y));
            }
        }
    }
}

/// When widening the neighbors of `r` in an acyclic `g` closes a cycle,
/// `r` lies on it, and every node that is or is reached from a node on a
/// cycle lies in `spread(g, f)`; so a registry whose ancestor caches are
/// outdated there meets a cycle above `r` with none of them in the way.
proof fn lemma_closed_cycle(fin: RelationRegistry, g: spec_fn(int) -> Seq<int>, r: int, newc: Seq<int>, f: Seq<int>)
    requires
        fin.links_ok(),
        fin.graph(false) == with_nbrs(g, r, newc),
        forall|j: int| #[trigger] newc.contains(j) ==> g(r).contains(j) || f.contains(j),
        forall|j: int| #[trigger] f.contains(j) ==> newc.contains(j),
        subgraph(g, with_nbrs(g, r, newc)),
        acyclic(g),
        !acyclic(with_nbrs(g, r, newc)),
        forall|y: int| spread(g, f).contains(y) ==> !(#[trigger] fin.set_state(true, y) is Valid),
    ensures
        fin.cycle_unmasked_set(true, r),
        cycle_from(fin.graph(true), r),
{
    let big = with_nbrs(g, r, newc);
    let up = fin.graph(true);
    fin.lemma_dual();
    assert forall|a: int, b: int| #[trigger] big(a).contains(b) <==> #[trigger] up(b).contains(a) by {
        assert(fin.graph(false)(a) == big(a));
    }
    let z = choose|z: int| #[trigger] reaches(big, z, z);
    let n = choose|n: nat| #[trigger] path(big, z, z, n);
    lemma_widened_path(g, r, newc, f, z, z, n);
    let c = choose|c: int| #[trigger] f.contains(c) && (c == z || reaches(g, c, z));
    assert(big(r).contains(c));
    lemma_reaches_step(big, r, c);
    if c != z {
        lemma_reach_mono(g, big, c, z);
        lemma_reaches_trans(big, r, c, z);
    }
    if z != r {
        lemma_reach_mono(g, big, z, r);
        lemma_reaches_trans(big, r, z, r);
    }
    lemma_reach_dual(up, big, r, r);
    assert(cycle_from(up, r));
    assert forall|x: int| (x == r || reaches(up, r, x)) && cycle_from(up, x) implies !(#[trigger] fin.set_state(true, x) is Valid) by {
        let w = choose|w: int| (w == x || reaches(up, x, w)) && #[trigger] reaches(up, w, w);
        lemma_reach_dual(up, big, w, w);
        let m = choose|m: nat| #[trigger] path(big, w, w, m);
        lemma_widened_path(g, r, newc, f, w, w, m);
        if w != x {
            lemma_reach_dual(up, big, x, w);
            let m2 = choose|m2: nat| #[trigger] path(big, w, x, m2);
            lemma_widened_path(g, r, newc, f, w, x, m2);
            if reaches(g, w, x) {
                let cc = choose|cc: int| #[trigger] f.contains(cc) && (cc == w || reaches(g, cc, w));
                if cc != w {
                    lemma_reaches_trans(g, cc, w, x);
                }
                assert(spread(g, f).contains(x));
            }
        }
    }
}


impl RelationRegistry {
    /// Links each node of `order` that is not yet a child of `index` under
    /// it, at `place`; each new child gets a notice, then `index` does.
    /// `Err` when refreshing the caches meets a cycle.
    #[verifier::rlimit(30)]
    fn link_children(&mut self, index: NodeIndex, order: &Vec<NodeIndex>, place: Place, notices: &mut Vec<Notice>) -> (r: Result<(), CycleError>)
        requires
            old(self).wf(),
            old(self).contains(index as int),
            forall|t: int| 0 <= t < order@.len() ==> #[trigger] old(self).contains(order@[t] as int),
            place_ok(old(self).children(index as int), ints(order@), place),
        ensures
            final(self).wf(),
            same_flags(*old(self), *final(self)),
            final(self).layout() == old(self).layout(),
            final(self).next_id() == old(self).next_id(),
            forall|i: int| #[trigger] final(self).contains(i) == old(self).contains(i),
            ({
                let c0 = old(self).children(index as int);
                let newc = place_run(c0, ints(order@), place);
                let big = with_nbrs(old(self).graph(false), index as int, newc);
                &&& r is Err ==> !acyclic(big)
                &&& r is Err ==> !acyclic(final(self).graph(false))
                &&& old(self).sound() && acyclic(old(self).graph(false)) && !acyclic(big) ==> r is Err
                &&& r is Err ==> exists|m: int|
                    0 <= m <= ints(order@).len() && #[trigger] added_links(
                        *old(self),
                        *final(self),
                        index as int,
                        place_run(c0, ints(order@).take(m), place),
                        fresh(c0, ints(order@).take(m)),
                    )
                &&& old(self).sound() && acyclic(big) ==> r is Ok && final(self).sound()
                &&& r is Ok ==> added_links(*old(self), *final(self), index as int, newc, fresh(c0, ints(order@)))
                &&& r is Ok ==> final(notices)@ == old(notices)@ + parent_notices(fresh(c0, ints(order@))) + seq![Notice::ChildrenChanged(index)]
            }),
    {
        let ghost pre = *old(self);
        let ghost old_notices = old(notices)@;
        let ghost ix = index as int;
        let ghost c0 = pre.children(ix);
        let ghost xs = ints(order@);
        let ghost newc = place_run(c0, xs, place);
        let ghost big = with_nbrs(pre.graph(false), ix, newc);
        let ghost h = pre.sound() && acyclic(big);
        let ghost g0 = pre.graph(false);
        proof {
            if pre.sound() {
                assert forall|x: int| #[trigger] pre.set_state(false, x) is Valid implies reach_set(g0, x).subset_of(pre.set_members(false, x)) by {
                    assert(pre.set_ok(false, x));
                }
            }
            assert(spread(g0, Seq::<int>::empty()) =~= Set::<int>::empty());
            lemma_place_run(c0, xs, place);
            assert(xs.take(0) =~= Seq::<int>::empty());
            assert(fresh(c0, xs.take(0)) =~= Seq::<int>::empty());
            assert(place_run(c0, xs.take(0), place) =~= c0);
            assert(parent_notices(fresh(c0, xs.take(0))) =~= Seq::<Notice>::empty());
            assert(notices@ =~= old_notices + parent_notices(fresh(c0, xs.take(0))));
            assert forall|i: int, j: int| #[trigger] pre.graph(false)(i).contains(j) implies big(i).contains(j) by {}
            pre.lemma_sound_ok_except();
        }
        let mut k: usize = 0;
        while k < order.len()
            invariant
                pre == *old(self),
                same_flags(pre, *self),
                old_notices == old(notices)@,
                pre.wf(),
                pre.contains(ix),
                ix == index,
                c0 == pre.children(ix),
                xs == ints(order@),
                newc == place_run(c0, xs, place),
                big == with_nbrs(pre.graph(false), ix, newc),
                h == (pre.sound() && acyclic(big)),
                place_ok(c0, xs, place),
                forall|t: int| 0 <= t < order@.len() ==> #[trigger] pre.contains(order@[t] as int),
                k <= order@.len(),
                self.wf(),
                self.layout() == pre.layout(),
                self.next_id() == pre.next_id(),
                forall|i: int| #[trigger] self.contains(i) == pre.contains(i),
                added_links(pre, *self, ix, place_run(c0, xs.take(k as int), place), fresh(c0, xs.take(k as int))),
                notices@ == old_notices + parent_notices(fresh(c0, xs.take(k as int))),
                subgraph(self.graph(false), big),
                h ==> self.dir_ok_except(true, Set::empty()) && self.dir_ok_except(false, self.reach_from(true, ix)),
                g0 == pre.graph(false),
                subgraph(g0, self.graph(false)),
                pre.sound() ==> self.covers(false, g0),
                pre.sound() ==> forall|y: int| spread(g0, fresh(c0, xs.take(k as int))).contains(y) ==> !(#[trigger] self.set_state(true, y) is Valid),
            decreases order@.len() - k,
        {
            let c = order[k];
            let ghost ci = c as int;
            let ghost xk = xs.take(k as int);
            let ghost xk1 = xs.take(k + 1);
            let ghost fk = fresh(c0, xk);
            let ghost a = *self;
            proof {
                assert(xs[k as int] == ci);
                assert(xk1 =~= xk.push(ci));
                assert(xk1.drop_last() =~= xk);
                assert(xk1.last() == ci);
                if let Place::At(bb) = place {
                    lemma_ins_ok_prefix(c0, bb as int, xs, k as int);
                    lemma_ins_ok_prefix(c0, bb as int, xs, k + 1);
                }
                lemma_place_run(c0, xk, place);
                lemma_fresh(c0, xk);
                lemma_ints_contains(a.nodes.node_at(ix).children@, c);
                assert(a.contains(ci));
            }
            let len = self.nodes.node(index).children.len();
            if self.nodes.node(index).has_child(c) {
                proof {
                    assert(a.children(ix).contains(ci));
                    assert(fresh(c0, xk1) == fk);
                    assert(place_run(c0, xk1, place) == place_run(c0, xk, place)) by {
                        if let Place::At(bb) = place {
                            assert(ins_run(c0, bb as int, xk).contains(ci));
                        }
                    }
                }
                k = k + 1;
                continue;
            }
            let pos: usize = match place {
                Place::Back => len,
                Place::Front => 0,
                Place::At(bb) => {
                    proof {
                        assert(!ins_run(c0, bb as int, xk).contains(ci));
                        assert(bb + k <= a.children(ix).len());
                    }
                    bb + k
                },
            };
            self.link(index, c, pos);
            let ghost b = *self;
            proof {
                let cur = a.children(ix);
                assert(!c0.contains(ci) && !fk.contains(ci));
                assert(fresh(c0, xk1) == fk.push(ci));
                match place {
                    Place::Back => {
                        assert(cur.insert(pos as int, ci) =~= c0 + fk.push(ci));
                    },
                    Place::Front => {
                        assert(cur.insert(pos as int, ci) =~= fk.push(ci).reverse() + c0);
                    },
                    Place::At(bb) => {},
                }
                assert(b.children(ix) == place_run(c0, xk1, place));
                assert forall|i: int| #[trigger] b.parents(i) == if fresh(c0, xk1).contains(i) {
                    pre.parents(i).push(ix)
                } else {
                    pre.parents(i)
                } by {
                    if i != ci {
                        assert(fresh(c0, xk1).contains(i) == fk.contains(i)) by {
                            if fresh(c0, xk1).contains(i) {
                                let j = choose|j: int| 0 <= j < fresh(c0, xk1).len() && fresh(c0, xk1)[j] == i;
                                assert(fk[j] == i);
                            }
                            if fk.contains(i) {
                                let j = choose|j: int| 0 <= j < fk.len() && fk[j] == i;
                                assert(fresh(c0, xk1)[j] == i);
                            }
                        }
                    } else {
                        assert(fresh(c0, xk1)[fk.len() as int] == ci);
                    }
                }
                assert(added_links(pre, b, ix, place_run(c0, xk1, place), fresh(c0, xk1)));
                if let Place::At(bb) = place {
                    lemma_ins_ok_prefix(c0, bb as int, xs, k + 1);
                }
                lemma_place_run(c0, xk1, place);
                lemma_fresh(c0, xk1);
                lemma_fresh(c0, xs);
                lemma_place_run(c0, xs, place);
                assert forall|i: int, j: int| #[trigger] b.graph(false)(i).contains(j) implies big(i).contains(j) by {
                    if i == ix {
                        assert(b.children(ix).contains(j));
                        if !c0.contains(j) {
                            assert(fresh(c0, xk1).contains(j));
                            let t = choose|t: int| 0 <= t < xk1.len() && xk1[t] == j;
                            assert(xs[t] == j);
                            assert(fresh(c0, xs).contains(j));
                        }
                    } else {
                        assert(b.children(i) == pre.children(i));
                    }
                }
                if h {
                    lemma_acyclic_sub(b.graph(false), big);
                    let bd = b.graph(false);
                    let bu = b.graph(true);
                    assert(bd(ix).contains(ci)) by {
                        assert(b.children(ix)[pos as int] == ci);
                    }
                    lemma_reaches_step(bd, ix, ci);
                    assert forall|i: int| i != ci implies #[trigger] b.graph(true)(i) == a.graph(true)(i) by {}
                    lemma_carry(a, b, true, ci, bu, Set::empty());
                    b.lemma_to_pivot(true, ci);
                    assert(Set::<int>::empty() + to_pivot(bu, ci) =~= b.reach_from(false, ci));
                    assert forall|i: int| i != ix implies #[trigger] b.graph(false)(i) == a.graph(false)(i) by {}
                    lemma_carry(a, b, false, ix, bd, a.reach_from(true, ix));
                    b.lemma_to_pivot(false, ix);
                    assert(subgraph(a.graph(true), bu)) by {
                        assert forall|i: int, j: int| #[trigger] a.graph(true)(i).contains(j) implies bu(i).contains(j) by {
                            if i == ci {
                                let t = choose|t: int| 0 <= t < a.parents(ci).len() && a.parents(ci)[t] == j;
                                assert(b.parents(ci)[t] == j);
                            }
                        }
                    }
                    assert forall|y: int| a.reach_from(true, ix).contains(y) implies b.reach_from(true, ix).contains(y) by {
                        if y != ix {
                            lemma_reach_mono(a.graph(true), bu, ix, y);
                        }
                    }
                    assert(a.reach_from(true, ix) + to_pivot(bd, ix) =~= b.reach_from(true, ix));
                    b.lemma_dual();
                    assert forall|y: int| b.reach_from(true, ix).contains(y) implies !b.reach_from(false, ci).contains(y) by {
                        if b.reach_from(false, ci).contains(y) {
                            if y != ix {
                                lemma_reach_dual(bu, bd, ix, y);
                            }
                            if y != ci {
                                lemma_reaches_trans(bd, ix, ci, y);
                            }
                            if y != ix {
                                lemma_reaches_trans(bd, ix, y, ix);
                            }
                            assert(reaches(bd, ix, ix));
                        }
                    }
                    assert(b.reach_from(true, ix).disjoint(b.reach_from(false, ci)));
                }
                assert(b.layout() == a.layout());
                assert(b.next_id() == a.next_id());
                assert forall|i: int, j: int| #[trigger] g0(i).contains(j) implies b.graph(false)(i).contains(j) by {
                    if i == ix {
                        assert(c0.contains(j));
                    } else {
                        assert(a.graph(false)(i).contains(j));
                    }
                }
                if pre.sound() {
                    assert forall|x: int| #[trigger] b.set_state(false, x) is Valid implies reach_set(g0, x).subset_of(b.set_members(false, x)) by {
                        assert(a.set_state(false, x) == b.set_state(false, x));
                    }
                }
            }
            let res = self.parents_changed(c, notices, Ghost(b.reach_from(true, ix)), Ghost(g0));
            if res.is_err() {
                proof {
                    lemma_cycle_not_acyclic(b.graph(false), big, ci);
                    assert(self.graph(false) == b.graph(false));
                    lemma_cycle_not_acyclic(b.graph(false), b.graph(false), ci);
                    assert forall|i: int| #[trigger] self.children(i) == b.children(i) && self.parents(i) == b.parents(i) by {
                        assert(self.graph(false)(i) == b.graph(false)(i));
                        assert(self.graph(true)(i) == b.graph(true)(i));
                    }
                    assert(added_links(pre, *self, ix, place_run(c0, xs.take(k + 1), place), fresh(c0, xs.take(k + 1))));
                }
                return res;
            }
            proof {
                assert forall|i: int| #[trigger] self.children(i) == b.children(i) && self.parents(i) == b.parents(i) by {
                    assert(self.graph(false)(i) == b.graph(false)(i));
                    assert(self.graph(true)(i) == b.graph(true)(i));
                }
                assert(parent_notices(fresh(c0, xk1)) =~= parent_notices(fk).push(Notice::ParentsChanged(c)));
                assert(notices@ =~= old_notices + parent_notices(fresh(c0, xk1)));
                assert(self.reach_from(true, ix) == b.reach_from(true, ix));
                assert(self.graph(false) == b.graph(false));
                if pre.sound() {
                    assert forall|y: int| spread(g0, fresh(c0, xk1)).contains(y) implies !(#[trigger] self.set_state(true, y) is Valid) by {
                        let cc = choose|cc: int| #[trigger] fresh(c0, xk1).contains(cc) && (cc == y || reaches(g0, cc, y));
                        if cc != ci {
                            assert(fk.contains(cc)) by {
                                let j = choose|j: int| 0 <= j < fresh(c0, xk1).len() && fresh(c0, xk1)[j] == cc;
                                assert(j < fk.len());
                                assert(fk[j] == cc);
                            }
                            assert(spread(g0, fk).contains(y));
                            assert(a.set_state(true, y) == b.set_state(true, y));
                        }
                    }
                }
            }
            k = k + 1;
        }
        proof {
            assert(xs.take(k as int) =~= xs);
        }
        let ghost fin = *self;
        proof {
            if pre.sound() && acyclic(g0) && !acyclic(big) {
                assert(fin.graph(false) =~= big) by {
                    assert forall|i: int| #[trigger] fin.graph(false)(i) == big(i) by {
                        if i == ix {
                            assert(fin.children(ix) == newc);
                        } else {
                            assert(fin.children(i) == pre.children(i));
                        }
                    }
                }
                lemma_fresh(c0, xs);
                assert forall|j: int| #[trigger] newc.contains(j) implies g0(ix).contains(j) || fresh(c0, xs).contains(j) by {}
                assert forall|j: int| #[trigger] fresh(c0, xs).contains(j) implies newc.contains(j) by {}
                assert(subgraph(g0, big));
                lemma_closed_cycle(fin, g0, ix, newc, fresh(c0, xs));
            }
        }
        let res = self.children_changed(index, notices);
        proof {
            if res is Err {
                assert forall|i: int| #[trigger] self.children(i) == fin.children(i) by {
                    assert(self.graph(false)(i) == fin.graph(false)(i));
                }
                assert forall|i: int| #[trigger] self.parents(i) == fin.parents(i) by {
                    assert(self.graph(true)(i) == fin.graph(true)(i));
                }
                assert(added_links(pre, fin, ix, place_run(c0, xs.take(k as int), place), fresh(c0, xs.take(k as int))));
                assert(added_links(pre, *self, ix, place_run(c0, xs.take(k as int), place), fresh(c0, xs.take(k as int))));
                lemma_cycle_not_acyclic(fin.graph(true), fin.graph(true), ix);
                fin.lemma_acyclic_dual();
                assert(self.graph(false) == fin.graph(false));
                if acyclic(big) {
                    lemma_acyclic_sub(fin.graph(false), big);
                }
            }
            if h {
                assert(fin.ok_except(Set::empty(), fin.reach_from(true, ix)));
                lemma_acyclic_sub(fin.graph(false), big);
                fin.lemma_acyclic_dual();
                fin.lemma_unmasked_acyclic();
            }
            assert forall|i: int| #[trigger] self.children(i) == fin.children(i) by {
                assert(self.graph(false)(i) == fin.graph(false)(i));
            }
            assert forall|i: int| #[trigger] self.parents(i) == fin.parents(i) by {
                assert(self.graph(true)(i) == fin.graph(true)(i));
            }
            if res is Ok {
                assert(notices@ =~= old_notices + parent_notices(fresh(c0, xs)) + seq![Notice::ChildrenChanged(index)]);
                assert(added_links(pre, *self, ix, newc, fresh(c0, xs)));
            }
            if h {
                assert(res is Ok);
                assert(self.sound());
            }
        }
        res
    }
}


/// The order in which the children to add are taken: from the back when
/// they go to the front, so that they end up in the given order.
pub open spec fn add_order(xs: Seq<int>, prepend: bool) -> Seq<int> {
    if prepend {
        xs.reverse()
    } else {
        xs
    }
}

/// The children of a node that held `c0` after `xs` were added at the
/// front (`prepend`) or at the back, skipping those it already held.
pub open spec fn added_children(c0: Seq<int>, xs: Seq<int>, prepend: bool) -> Seq<int> {
    let f = fresh(c0, add_order(xs, prepend));
    if prepend {
        f.reverse() + c0
    } else {
        c0 + f
    }
}

/// Whether a node is not in `e`.
pub open spec fn not_in(e: Seq<int>) -> spec_fn(int) -> bool {
    |y: int| !e.contains(y)
}

proof fn lemma_fresh_filter(e: Seq<int>, xs: Seq<int>)
    requires
        xs.no_duplicates(),
    ensures
        fresh(e, xs) == xs.filter(not_in(e)),
    decreases xs.len(),
{
    reveal(Seq::filter);
    if xs.len() > 0 {
        let p = xs.drop_last();
        let l = xs.last();
        assert(p.no_duplicates());
        lemma_fresh_filter(e, p);
        lemma_fresh(e, p);
        assert(!p.contains(l)) by {
            if p.contains(l) {
                let j = choose|j: int| 0 <= j < p.len() && p[j] == l;
                assert(xs[j] == xs[xs.len() - 1]);
            }
        }
        assert(!fresh(e, p).contains(l));
        if !e.contains(l) {
            assert(not_in(e)(l));
            assert(fresh(e, xs) == fresh(e, p).push(l));
            assert(xs.filter(not_in(e)) == p.filter(not_in(e)).push(l));
        } else {
            assert(!not_in(e)(l));
            assert(fresh(e, xs) == fresh(e, p));
            assert(xs.filter(not_in(e)) == p.filter(not_in(e)));
        }
    }
}

proof fn lemma_filter_reverse(xs: Seq<int>, p: spec_fn(int) -> bool)
    ensures
        xs.reverse().filter(p) == xs.filter(p).reverse(),
    decreases xs.len(),
{
    reveal(Seq::filter);
    if xs.len() > 0 {
        let d = xs.drop_first();
        let r = xs.reverse();
        lemma_filter_reverse(d, p);
        xs.lemma_filter_eq_filter_alt(p);
        assert(r.drop_last() =~= d.reverse());
        assert(r.last() == xs[0]);
        let f = d.filter(p);
        if p(xs[0]) {
            assert(r.filter(p) == r.drop_last().filter(p).push(r.last()));
            assert(xs.filter(p) =~= seq![xs[0]] + f);
            assert((seq![xs[0]] + f).reverse() =~= f.reverse().push(xs[0]));
        } else {
            assert(r.filter(p) == r.drop_last().filter(p));
            assert(xs.filter(p) =~= f);
        }
    } else {
        assert(xs.reverse() =~= xs);
    }
}

/// New children given without repeats keep their given order, at the back
/// or, with `prepend`, at the front: the children become the old ones and
/// those of `xs` that they lacked, in the order of `xs`, behind or before.
pub proof fn lemma_added_in_given_order(c0: Seq<int>, xs: Seq<int>)
    requires
        xs.no_duplicates(),
    ensures
        joined_children(c0, fresh(c0, add_order(xs, true)), true) == fresh(c0, xs) + c0,
        joined_children(c0, fresh(c0, add_order(xs, false)), false) == c0 + fresh(c0, xs),
{
    let p = not_in(c0);
    let r = xs.reverse();
    assert(r.no_duplicates()) by {
        assert forall|a: int, b: int| 0 <= a < b < r.len() implies r[a] != r[b] by {
            assert(r[a] == xs[xs.len() - 1 - a] && r[b] == xs[xs.len() - 1 - b]);
        }
    }
    lemma_fresh_filter(c0, xs);
    lemma_fresh_filter(c0, r);
    lemma_filter_reverse(xs, p);
    assert(xs.filter(p).reverse().reverse() =~= xs.filter(p));
}

/// The children `c0` with the new children `f` put at the front, in
/// reverse order (`prepend`), or at the back.
pub open spec fn joined_children(c0: Seq<int>, f: Seq<int>, prepend: bool) -> Seq<int> {
    if prepend {
        f.reverse() + c0
    } else {
        c0 + f
    }
}

/// The smaller of `a` and `b`.
pub open spec fn min_int(a: int, b: int) -> int {
    if a <= b {
        a
    } else {
        b
    }
}

impl RelationRegistry {
    /// Add child objects
    ///
    /// Each node of `new_children` that is not yet a child of `index` is
    /// appended to its children, or, with `prepend`, they go to the front in
    /// the given order; `index` becomes the last parent of each. Each new
    /// child gets a [`Notice::ParentsChanged`], then `index` a
    /// [`Notice::ChildrenChanged`]. `Err` when refreshing the caches meets
    /// a cycle, which the new links then close; with correct caches and no
    /// cycle before, a new link that closes one always gives `Err`. On
    /// `Err` the links made so far stay, and they hold a cycle.
    pub fn add_children_to(&mut self, index: NodeIndex, new_children: &Vec<NodeIndex>, prepend: bool, notices: &mut Vec<Notice>) -> (r: Result<(), CycleError>)
        requires
            old(self).wf(),
            old(self).contains(index as int),
            forall|t: int| 0 <= t < new_children@.len() ==> #[trigger] old(self).contains(new_children@[t] as int),
        ensures
            final(self).wf(),
            same_flags(*old(self), *final(self)),
            final(self).layout() == old(self).layout(),
            final(self).next_id() == old(self).next_id(),
            forall|i: int| #[trigger] final(self).contains(i) == old(self).contains(i),
            ({
                let c0 = old(self).children(index as int);
                let xs = ints(new_children@);
                let newc = added_children(c0, xs, prepend);
                let big = with_nbrs(old(self).graph(false), index as int, newc);
                let added = fresh(c0, add_order(xs, prepend));
                &&& r is Err ==> !acyclic(big)
                &&& r is Err ==> !acyclic(final(self).graph(false))
                &&& old(self).sound() && acyclic(old(self).graph(false)) && !acyclic(big) ==> r is Err
                &&& r is Err ==> exists|m: int|
                    0 <= m <= xs.len() && #[trigger] added_links(
                        *old(self),
                        *final(self),
                        index as int,
                        joined_children(c0, fresh(c0, add_order(xs, prepend).take(m)), prepend),
                        fresh(c0, add_order(xs, prepend).take(m)),
                    )
                &&& old(self).sound() && acyclic(big) ==> r is Ok && final(self).sound()
                &&& r is Ok ==> added_links(*old(self), *final(self), index as int, newc, added)
                &&& r is Ok ==> final(notices)@ == old(notices)@ + parent_notices(added) + seq![Notice::ChildrenChanged(index)]
            }),
    {
        let n = new_children.len();
        let mut order: Vec<NodeIndex> = Vec::new();
        let mut k: usize = 0;
        while k < n
            invariant
                n == new_children@.len(),
                k <= n,
                order@.len() == k,
                forall|t: int| 0 <= t < k ==> #[trigger] order@[t] == if prepend {
                    new_children@[n - 1 - t]
                } else {
                    new_children@[t]
                },
            decreases n - k,
        {
            if prepend {
                order.push(new_children[n - 1 - k]);
            } else {
                order.push(new_children[k]);
            }
            k = k + 1;
        }
        proof {
            assert(ints(order@) =~= add_order(ints(new_children@), prepend));
            assert forall|t: int| 0 <= t < order@.len() implies #[trigger] old(self).contains(order@[t] as int) by {
                if prepend {
                    assert(old(self).contains(new_children@[n - 1 - t] as int));
                } else {
                    assert(old(self).contains(new_children@[t] as int));
                }
            }
        }
        let place = if prepend {
            Place::Front
        } else {
            Place::Back
        };
        let ghost pre = *old(self);
        let r = self.link_children(index, &order, place, notices);
        proof {
            if r is Err {
                let c0 = pre.children(index as int);
                let ys = ints(order@);
                let m = choose|m: int|
                    0 <= m <= ys.len() && #[trigger] added_links(
                        pre,
                        *self,
                        index as int,
                        place_run(c0, ys.take(m), place),
                        fresh(c0, ys.take(m)),
                    );
                assert(ys == add_order(ints(new_children@), prepend));
                assert(ys.len() == ints(new_children@).len());
                assert(added_links(
                    pre,
                    *self,
                    index as int,
                    joined_children(c0, fresh(c0, add_order(ints(new_children@), prepend).take(m)), prepend),
                    fresh(c0, add_order(ints(new_children@), prepend).take(m)),
                ));
            }
        }
        r
    }

    /// Insert child objects
    ///
    /// The `k`th node of `new_children` goes in at position
    /// `min(insert_index, len) + k` of the children of `index`, `len` being
    /// their number before the call, unless it is a child already; `index`
    /// becomes the last parent of each new child. Notices and errors as for
    /// [`RelationRegistry::add_children_to`].
    pub fn insert_children_to(&mut self, index: NodeIndex, insert_index: usize, new_children: &Vec<NodeIndex>, notices: &mut Vec<Notice>) -> (r: Result<(), CycleError>)
        requires
            old(self).wf(),
            old(self).contains(index as int),
            forall|t: int| 0 <= t < new_children@.len() ==> #[trigger] old(self).contains(new_children@[t] as int),
            ins_ok(old(self).children(index as int), min_int(insert_index as int, old(self).children(index as int).len() as int), ints(new_children@)),
        ensures
            final(self).wf(),
            same_flags(*old(self), *final(self)),
            final(self).layout() == old(self).layout(),
            final(self).next_id() == old(self).next_id(),
            forall|i: int| #[trigger] final(self).contains(i) == old(self).contains(i),
            ({
                let c0 = old(self).children(index as int);
                let xs = ints(new_children@);
                let newc = ins_run(c0, min_int(insert_index as int, c0.len() as int), xs);
                let big = with_nbrs(old(self).graph(false), index as int, newc);
                let added = fresh(c0, xs);
                &&& r is Err ==> !acyclic(big)
                &&& r is Err ==> !acyclic(final(self).graph(false))
                &&& old(self).sound() && acyclic(old(self).graph(false)) && !acyclic(big) ==> r is Err
                &&& r is Err ==> exists|m: int|
                    0 <= m <= xs.len() && #[trigger] added_links(
                        *old(self),
                        *final(self),
                        index as int,
                        ins_run(c0, min_int(insert_index as int, c0.len() as int), xs.take(m)),
                        fresh(c0, xs.take(m)),
                    )
                &&& old(self).sound() && acyclic(big) ==> r is Ok && final(self).sound()
                &&& r is Ok ==> added_links(*old(self), *final(self), index as int, newc, added)
                &&& r is Ok ==> final(notices)@ == old(notices)@ + parent_notices(added) + seq![Notice::ChildrenChanged(index)]
            }),
    {
        let len = self.nodes.node(index).children.len();
        let base = if insert_index < len {
            insert_index
        } else {
            len
        };
        let ghost pre = *old(self);
        let r = self.link_children(index, new_children, Place::At(base), notices);
        proof {
            if r is Err {
                let c0 = pre.children(index as int);
                let xs = ints(new_children@);
                let m = choose|m: int|
                    0 <= m <= xs.len() && #[trigger] added_links(
                        pre,
                        *self,
                        index as int,
                        place_run(c0, xs.take(m), Place::At(base)),
                        fresh(c0, xs.take(m)),
                    );
                assert(added_links(pre, *self, index as int, ins_run(c0, min_int(insert_index as int, c0.len() as int), xs.take(m)), fresh(c0, xs.take(m))));
            }
        }
        r
    }

    /// Remove child objects
    ///
    /// Each node of `removed_children` that is a child of `index` leaves its
    /// children, and `index` leaves its parents. Each child that left gets a
    /// [`Notice::ParentsChanged`], then `index` a
    /// [`Notice::ChildrenChanged`]. `Err` when refreshing the caches meets a
    /// cycle, which the links held before the call.
    pub fn remove_children_from(&mut self, index: NodeIndex, removed_children: &Vec<NodeIndex>, notices: &mut Vec<Notice>) -> (r: Result<(), CycleError>)
        requires
            old(self).wf(),
            old(self).contains(index as int),
        ensures
            final(self).wf(),
            same_flags(*old(self), *final(self)),
            final(self).layout() == old(self).layout(),
            final(self).next_id() == old(self).next_id(),
            forall|i: int| #[trigger] final(self).contains(i) == old(self).contains(i),
            r is Err ==> !acyclic(old(self).graph(false)),
            old(self).sound() && acyclic(old(self).graph(false)) ==> r is Ok && final(self).sound(),
            r is Ok ==> removed_links(*old(self), *final(self), index as int, ints(removed_children@)),
            r is Ok ==> final(notices)@ == old(notices)@ + parent_notices(hits(old(self).children(index as int), ints(removed_children@)))
                + seq![Notice::ChildrenChanged(index)],
    {
        self.remove_by_index(index, removed_children, notices)
    }

    /// Clear child objects
    ///
    /// All children of `index` leave it, as with
    /// [`RelationRegistry::remove_children_from`] given all of them.
    pub fn clear_children_of(&mut self, index: NodeIndex, notices: &mut Vec<Notice>) -> (r: Result<(), CycleError>)
        requires
            old(self).wf(),
            old(self).contains(index as int),
        ensures
            final(self).wf(),
            same_flags(*old(self), *final(self)),
            final(self).layout() == old(self).layout(),
            final(self).next_id() == old(self).next_id(),
            forall|i: int| #[trigger] final(self).contains(i) == old(self).contains(i),
            r is Err ==> !acyclic(old(self).graph(false)),
            old(self).sound() && acyclic(old(self).graph(false)) ==> r is Ok && final(self).sound(),
            r is Ok ==> removed_links(*old(self), *final(self), index as int, old(self).children(index as int)),
            r is Ok ==> final(notices)@ == old(notices)@ + parent_notices(old(self).children(index as int))
                + seq![Notice::ChildrenChanged(index)],
            r is Ok ==> final(self).children(index as int).len() == 0,
    {
        let ghost pre = *old(self);
        let removed = self.neighbors(false, index);
        let r = self.remove_by_index(index, &removed, notices);
        proof {
            let c0 = pre.children(index as int);
            assert(ints(removed@) == c0);
            assert(c0.no_duplicates());
            lemma_hits_all(c0);
            if r is Ok {
                lemma_filter_out(c0, c0, c0.len() as int);
                assert(self.children(index as int).len() == 0) by {
                    let f = self.children(index as int);
                    if f.len() > 0 {
                        assert(f.contains(f[0]));
                    }
                }
            }
        }
        r
    }
}

/// Taking from a list without duplicates the items it holds gives it back.
proof fn lemma_hits_all(s: Seq<int>)
    requires
        s.no_duplicates(),
    ensures
        hits(s, s) == s,
{
    lemma_hits_prefix(s, s.len() as int);
    assert(s.take(s.len() as int) =~= s);
}

proof fn lemma_hits_prefix(s: Seq<int>, k: int)
    requires
        s.no_duplicates(),
        0 <= k <= s.len(),
    ensures
        hits(s, s.take(k)) == s.take(k),
    decreases k,
{
    if k > 0 {
        lemma_hits_prefix(s, k - 1);
        let t = s.take(k);
        assert(t.drop_last() =~= s.take(k - 1));
        assert(t.last() == s[k - 1]);
        assert(!s.take(k - 1).contains(s[k - 1])) by {
            if s.take(k - 1).contains(s[k - 1]) {
                let p = s.take(k - 1);
                let j = choose|j: int| 0 <= j < k - 1 && #[trigger] p[j] == s[k - 1];
                assert(s[j] == s[k - 1]);
            }
        }
        assert(s.contains(s[k - 1]));
        assert(s.take(k - 1).push(s[k - 1]) =~= t);
    }
}


/// The notices of unlinking node `i` from each of the parents `ps` in turn.
pub open spec fn unparent_notices(i: int, ps: Seq<int>) -> Seq<Notice>
    decreases ps.len(),
{
    if ps.len() == 0 {
        Seq::empty()
    } else {
        unparent_notices(i, ps.drop_last()) + seq![Notice::ParentsChanged(i as usize), Notice::ChildrenChanged(ps.last() as usize)]
    }
}

/// `b` is `a` with node `r` taken out of the children of each parent of it.
pub open spec fn cleared_parents(a: RelationRegistry, b: RelationRegistry, r: int) -> bool {
    &&& b.parents(r).len() == 0
    &&& forall|i: int| i != r ==> #[trigger] b.parents(i) == a.parents(i)
    &&& forall|i: int| #[trigger] b.children(i) == if a.parents(r).contains(i) {
        filter_out(a.children(i), seq![r], a.children(i).len() as int)
    } else {
        a.children(i)
    }
}

/// In a list without duplicates, filtering out one more item that the list
/// holds takes it out where it stood.
proof fn lemma_filter_out_one(s: Seq<int>, x: int)
    requires
        s.no_duplicates(),
    ensures
        filter_out(s, seq![x], s.len() as int) == if s.contains(x) {
            s.remove(s.index_of(x))
        } else {
            s
        },
{
    lemma_filter_out_none(s, s.len() as int);
    assert(s.take(s.len() as int) =~= s);
    lemma_filter_out_push(s, Seq::empty(), x, s.len() as int);
    assert(Seq::<int>::empty().push(x) =~= seq![x]);
}

impl RelationRegistry {
    /// Clear parent objects
    ///
    /// Node `index` leaves the children of each of its parents, in the order
    /// of its parents; after each, it gets a [`Notice::ParentsChanged`] and
    /// the parent a [`Notice::ChildrenChanged`]. `Err` when refreshing the
    /// caches meets a cycle, which the links held before the call.
    pub fn clear_parents_of(&mut self, index: NodeIndex, notices: &mut Vec<Notice>) -> (r: Result<(), CycleError>)
        requires
            old(self).wf(),
            old(self).contains(index as int),
        ensures
            final(self).wf(),
            same_flags(*old(self), *final(self)),
            final(self).layout() == old(self).layout(),
            final(self).next_id() == old(self).next_id(),
            forall|i: int| #[trigger] final(self).contains(i) == old(self).contains(i),
            r is Err ==> !acyclic(old(self).graph(false)),
            old(self).sound() && acyclic(old(self).graph(false)) ==> r is Ok && final(self).sound(),
            r is Ok ==> cleared_parents(*old(self), *final(self), index as int),
            r is Ok ==> final(notices)@ == old(notices)@ + unparent_notices(index as int, old(self).parents(index as int)),
    {
        let ghost pre = *old(self);
        let ghost old_notices = old(notices)@;
        let ghost ix = index as int;
        let removed_parents = self.neighbors(true, index);
        let ghost ps = pre.parents(ix);
        let ghost n = ps.len() as int;
        let ghost h = pre.sound() && acyclic(pre.graph(false));
        let mut one: Vec<NodeIndex> = Vec::new();
        one.push(index);
        proof {
            assert(ints(one@) =~= seq![ix]);
            assert(ps.no_duplicates());
            lemma_filter_out_none(ps, n);
            assert(ps.take(n) =~= ps);
            assert(ps.take(0) =~= Seq::<int>::empty());
            assert(unparent_notices(ix, ps.take(0)) =~= Seq::<Notice>::empty());
            assert(notices@ =~= old_notices + unparent_notices(ix, ps.take(0)));
        }
        let mut k: usize = 0;
        while k < removed_parents.len()
            invariant
                pre == *old(self),
                same_flags(pre, *self),
                old_notices == old(notices)@,
                pre.wf(),
                pre.contains(ix),
                ix == index,
                ps == pre.parents(ix),
                n == ps.len(),
                ps.no_duplicates(),
                ints(removed_parents@) == ps,
                ints(one@) == seq![ix],
                h == (pre.sound() && acyclic(pre.graph(false))),
                k <= n,
                self.wf(),
                self.layout() == pre.layout(),
                self.next_id() == pre.next_id(),
                forall|i: int| #[trigger] self.contains(i) == pre.contains(i),
                self.parents(ix) == filter_out(ps, ps.take(k as int), n),
                forall|i: int| i != ix ==> #[trigger] self.parents(i) == pre.parents(i),
                forall|i: int| #[trigger] self.children(i) == if ps.take(k as int).contains(i) {
                    filter_out(pre.children(i), seq![ix], pre.children(i).len() as int)
                } else {
                    pre.children(i)
                },
                subgraph(self.graph(false), pre.graph(false)),
                notices@ == old_notices + unparent_notices(ix, ps.take(k as int)),
                h ==> self.sound(),
            decreases n - k,
        {
            let p = removed_parents[k];
            let ghost pi = p as int;
            let ghost a = *self;
            let ghost pk = ps.take(k as int);
            proof {
                assert(ps[k as int] == pi);
                assert(ps.take(k + 1) =~= pk.push(pi));
                assert(ps.take(k + 1).drop_last() =~= pk);
                assert(!pk.contains(pi)) by {
                    if pk.contains(pi) {
                        let j = choose|j: int| 0 <= j < pk.len() && pk[j] == pi;
                        assert(ps[j] == pi);
                    }
                }
                lemma_filter_out(ps, pk, n);
                assert(0 <= k < n && ps[k as int] == pi);
                assert(a.parents(ix).contains(pi));
                assert(pre.contains(pi));
                assert(a.children(pi) == pre.children(pi));
                assert(a.children(pi).contains(ix));
                if h {
                    lemma_acyclic_sub(a.graph(false), pre.graph(false));
                }
            }
            let res = self.remove_by_index(p, &one, notices);
            if res.is_err() {
                proof {
                    if acyclic(pre.graph(false)) {
                        lemma_acyclic_sub(a.graph(false), pre.graph(false));
                    }
                }
                return res;
            }
            proof {
                let cpk = a.children(pi);
                lemma_hits(cpk, seq![ix]);
                assert(hits(cpk, seq![ix]).contains(ix));
                assert forall|i: int| i != ix implies !#[trigger] hits(cpk, seq![ix]).contains(i) by {}
                let cur = a.parents(ix);
                lemma_filter_out(ps, pk, n);
                lemma_filter_out_one(cur, pi);
                lemma_filter_out_push(ps, pk, pi, n);
                assert(self.parents(ix) == filter_out(ps, ps.take(k + 1), n));
                assert forall|i: int| #[trigger] self.children(i) == if ps.take(k + 1).contains(i) {
                    filter_out(pre.children(i), seq![ix], pre.children(i).len() as int)
                } else {
                    pre.children(i)
                } by {
                    assert(ps.take(k + 1).contains(i) == (pk.contains(i) || i == pi)) by {
                        let pk1 = ps.take(k + 1);
                        if pk1.contains(i) && i != pi {
                            let j = choose|j: int| 0 <= j < k + 1 && #[trigger] pk1[j] == i;
                            assert(pk[j] == i);
                        }
                        if pk.contains(i) {
                            let j = choose|j: int| 0 <= j < k && #[trigger] pk[j] == i;
                            assert(pk1[j] == i);
                        }
                        assert(pk1[k as int] == pi);
                    }
                }
                assert forall|i: int, j: int| #[trigger] self.graph(false)(i).contains(j) implies pre.graph(false)(i).contains(j) by {
                    assert(a.graph(false)(i).contains(j));
                }
                assert(hits(cpk, seq![ix]) =~= seq![ix]) by {
                    assert(cpk.contains(ix));
                    assert(hits(cpk, seq![ix]) == hits(cpk, seq![ix].drop_last()).push(ix)) by {
                        assert(seq![ix].drop_last() =~= Seq::<int>::empty());
                        assert(seq![ix].last() == ix);
                    }
                }
                assert(parent_notices(seq![ix]) =~= seq![Notice::ParentsChanged(index)]);
                assert(unparent_notices(ix, ps.take(k + 1)) == unparent_notices(ix, pk) + seq![Notice::ParentsChanged(index), Notice::ChildrenChanged(p)]);
                assert(notices@ =~= old_notices + unparent_notices(ix, ps.take(k + 1)));
            }
            k = k + 1;
        }
        proof {
            assert(ps.take(k as int) =~= ps);
            lemma_filter_out(ps, ps, n);
            assert(self.parents(ix).len() == 0) by {
                let f = self.parents(ix);
                if f.len() > 0 {
                    assert(f.contains(f[0]));
                }
            }
        }
        Ok(())
    }
}


impl RelationRegistry {
    /// The index under which the next created node is stored.
    pub closed spec fn push_key(&self) -> int {
        self.nodes.push_key()
    }

    /// No index was skipped by a failed creation in the last chunk.
    pub closed spec fn no_gap(&self) -> bool {
        self.nodes.no_gap()
    }

    /// An empty registry: one empty consecutive chunk starting at 0.
    pub fn new() -> (r: Self)
        ensures
            r.wf(),
            r.sound(),
            r.no_gap(),
            r.next_id() == 0,
            r.layout() == seq![(0int, nodes::CutType::Continous, Set::<int>::empty())],
            forall|i: int| !#[trigger] r.contains(i),
    {
        let r = RelationRegistry { nodes: Nodes::new(), dead: Ghost(Set::empty()), flags: flags::FlagTable::new() };
        proof {
            assert forall|i: int| !#[trigger] r.contains(i) by {
                r.nodes.lemma_contains_layout(i);
                if r.contains(i) {
                    let ci = choose|ci: int| 0 <= ci < r.layout().len() && #[trigger] r.layout()[ci].2.contains(i);
                }
            }
        }
        r
    }

    /// Create a new relation node
    ///
    /// The node gets the next id, which `f` is handed to build what the
    /// caller keeps for the node. When `f` fails, no node is stored and the
    /// id is used up all the same. The new node has no links; in a
    /// consecutive chunk it is stored after the last stored node.
    pub fn create<R, E, F>(&mut self, f: F) -> (r: Result<R, E>) where
        F: FnOnce(NodeIndex) -> Result<R, E>,
        requires
            old(self).wf(),
            old(self).next_id() < usize::MAX,
            f.requires((old(self).next_id() as usize,)),
        ensures
            final(self).wf(),
            same_flags(*old(self), *final(self)),
            final(self).next_id() == old(self).next_id() + 1,
            final(self).graph(true) == old(self).graph(true),
            final(self).graph(false) == old(self).graph(false),
            old(self).sound() ==> final(self).sound(),
            exists|res: Result<R, E>|
                #![trigger f.ensures((old(self).next_id() as usize,), res)]
                f.ensures((old(self).next_id() as usize,), res) && match res {
                    Ok(ret) => {
                        let key = old(self).push_key();
                        let last = old(self).layout().len() - 1;
                        let c = old(self).layout()[last];
                        &&& r matches Ok(x) && x == ret
                        &&& final(self).layout() == old(self).layout().update(last, (c.0, c.1, c.2.insert(key)))
                        &&& !old(self).contains(key)
                        &&& forall|i: int| #[trigger] final(self).contains(i) == (old(self).contains(i) || i == key)
                        &&& final(self).no_gap() == old(self).no_gap()
                    },
                    Err(e) => {
                        &&& r matches Err(x) && x == e
                        &&& final(self).layout() == old(self).layout()
                        &&& forall|i: int| #[trigger] final(self).contains(i) == old(self).contains(i)
                        &&& final(self).no_gap() == (old(self).layout().last().1 is Discrete)
                    },
                },
    {
        let ghost pre = *old(self);
        let ghost id0 = pre.nodes.next_id() as usize;
        let g = move|id: NodeIndex| -> (res: Result<(Node, R), E>)
            requires
                id == id0,
                f.requires((id,)),
            ensures
                match res {
                    Ok((n, x)) => n.is_fresh() && f.ensures((id,), Ok::<R, E>(x)),
                    Err(e) => f.ensures((id,), Err::<R, E>(e)),
                },
        {
            match f(id) {
                Ok(x) => Ok((Node::new(), x)),
                Err(e) => Err(e),
            }
        };
        let r = self.nodes.push(g);
        proof {
            let res2 = choose|res2: Result<(Node, R), E>| #[trigger] g.ensures((id0,), res2) && match res2 {
                Ok((node, ret)) => {
                    let key = pre.nodes.push_key();
                    let last = pre.nodes.layout().len() - 1;
                    let c = pre.nodes.layout()[last];
                    &&& r matches Ok(x) && x == ret
                    &&& self.nodes.layout() == pre.nodes.layout().update(last, (c.0, c.1, c.2.insert(key)))
                    &&& !pre.nodes.contains(key)
                    &&& self.nodes.node_at(key) == node
                    &&& forall|i: int| #[trigger] self.nodes.contains(i) == (pre.nodes.contains(i) || i == key)
                    &&& forall|i: int| pre.nodes.contains(i) ==> #[trigger] self.nodes.node_at(i) == pre.nodes.node_at(i)
                    &&& self.nodes.no_gap() == pre.nodes.no_gap()
                },
                Err(e) => {
                    &&& r matches Err(x) && x == e
                    &&& self.nodes.layout() == pre.nodes.layout()
                    &&& forall|i: int| #[trigger] self.nodes.contains(i) == pre.nodes.contains(i)
                    &&& forall|i: int| pre.nodes.contains(i) ==> #[trigger] self.nodes.node_at(i) == pre.nodes.node_at(i)
                    &&& self.nodes.no_gap() == (pre.nodes.layout().last().1 is Discrete)
                },
            };
            match res2 {
                Ok((node, ret)) => {
                    let key = pre.nodes.push_key();
                    self.dead = Ghost(pre.dead@.remove(key));
                    assert(f.ensures((id0,), Ok::<R, E>(ret)));
                    assert forall|i: int| #[trigger] self.contains(i) == (pre.contains(i) || i == key) by {}
                    assert forall|i: int| #![trigger self.parents(i)] #![trigger self.children(i)] self.parents(i) == pre.parents(i) && self.children(i) == pre.children(i) by {
                        if pre.contains(i) {
                            assert(self.nodes.node_at(i) == pre.nodes.node_at(i));
                        } else if i == key {
                            assert(self.nodes.node_at(key).parents@.len() == 0);
                            assert(self.parents(i) =~= Seq::<int>::empty());
                            assert(self.children(i) =~= Seq::<int>::empty());
                        }
                    }
                    assert(self.graph(true) =~= pre.graph(true));
                    assert(self.graph(false) =~= pre.graph(false));
                    assert forall|i: int, d: bool| #[trigger] self.set_state(d, i) == pre.set_state(d, i) || (i == key
                        && self.set_state(d, i) is Outdated) by {
                        if pre.contains(i) {
                            assert(self.nodes.node_at(i) == pre.nodes.node_at(i));
                        }
                    }
                    assert forall|i: int, d: bool| #[trigger] self.dfs_state(d, i) == pre.dfs_state(d, i) || (i == key
                        && self.dfs_state(d, i) is Outdated) by {
                        if pre.contains(i) {
                            assert(self.nodes.node_at(i) == pre.nodes.node_at(i));
                        }
                    }
                    self.lemma_created(pre, true, key);
                    assert(Ok::<R, E>(ret) matches Ok(rr) && {
                        let last = pre.layout().len() - 1;
                        let c = pre.layout()[last];
                        &&& r matches Ok(x) && x == rr
                        &&& self.layout() == pre.layout().update(last, (c.0, c.1, c.2.insert(key)))
                        &&& !pre.contains(key)
                        &&& forall|i: int| #[trigger] self.contains(i) == (pre.contains(i) || i == key)
                        &&& self.no_gap() == pre.no_gap()
                    });
                },
                Err(e) => {
                    assert(f.ensures((id0,), Err::<R, E>(e)));
                    assert forall|i: int| #[trigger] self.contains(i) == pre.contains(i) by {}
                    assert forall|i: int| #![trigger self.parents(i)] #![trigger self.children(i)] self.parents(i) == pre.parents(i) && self.children(i) == pre.children(i) by {
                        if pre.contains(i) {
                            assert(self.nodes.node_at(i) == pre.nodes.node_at(i));
                        }
                    }
                    assert(self.graph(true) =~= pre.graph(true));
                    assert(self.graph(false) =~= pre.graph(false));
                    assert forall|i: int, d: bool| #[trigger] self.set_state(d, i) == pre.set_state(d, i) || (false
                        && self.set_state(d, i) is Outdated) by {
                        if pre.contains(i) {
                            assert(self.nodes.node_at(i) == pre.nodes.node_at(i));
                        }
                    }
                    assert forall|i: int, d: bool| #[trigger] self.dfs_state(d, i) == pre.dfs_state(d, i) || (false
                        && self.dfs_state(d, i) is Outdated) by {
                        if pre.contains(i) {
                            assert(self.nodes.node_at(i) == pre.nodes.node_at(i));
                        }
                    }
                    self.lemma_created(pre, false, 0);
                },
            }
        }
        r
    }

    /// After a node with no links and outdated caches joined (or, for `key`
    /// equal to -1, none did), well-formedness and soundness carry over.
    proof fn lemma_created(&self, pre: RelationRegistry, added: bool, key: int)
        requires
            pre.wf(),
            self.flags == pre.flags,
            self.nodes.wf(),
            self.graph(true) == pre.graph(true),
            self.graph(false) == pre.graph(false),
            forall|i: int| #[trigger] self.contains(i) == (pre.contains(i) || (added && i == key)),
            forall|i: int| #[trigger] self.parents(i) == pre.parents(i),
            forall|i: int| #[trigger] self.children(i) == pre.children(i),
            forall|i: int, d: bool| #[trigger] self.set_state(d, i) == pre.set_state(d, i) || (added && i == key && self.set_state(d, i) is Outdated),
            forall|i: int, d: bool| #[trigger] self.dfs_state(d, i) == pre.dfs_state(d, i) || (added && i == key && self.dfs_state(d, i) is Outdated),
        ensures
            self.wf(),
            pre.sound() ==> self.sound(),
    {
        assert forall|i: int| #[trigger] self.contains(i) implies self.parents(i).no_duplicates() && self.children(i).no_duplicates() by {
            assert(self.parents(i) == pre.parents(i) && self.children(i) == pre.children(i));
            if !pre.contains(i) {
                assert(pre.parents(i) =~= Seq::<int>::empty());
                assert(pre.children(i) =~= Seq::<int>::empty());
            }
        }
        assert forall|i: int, j: int| self.contains(i) && #[trigger] self.parents(i).contains(j) implies self.contains(j) by {
            assert(self.parents(i) == pre.parents(i) && self.children(i) == pre.children(i));
            assert(pre.parents(i).contains(j));
        }
        assert forall|i: int, j: int| self.contains(i) && #[trigger] self.children(i).contains(j) implies self.contains(j) by {
            assert(self.parents(i) == pre.parents(i) && self.children(i) == pre.children(i));
            assert(pre.children(i).contains(j));
        }
        assert forall|i: int, j: int| self.contains(i) && self.contains(j) implies (#[trigger] self.children(i).contains(j)
            <==> #[trigger] self.parents(j).contains(i)) by {
            assert(self.parents(i) == pre.parents(i) && self.children(i) == pre.children(i));
            assert(self.parents(j) == pre.parents(j) && self.children(j) == pre.children(j));
            if !(pre.contains(i) && pre.contains(j)) {
                if pre.children(i).contains(j) {
                    assert(pre.contains(i));
                }
                if pre.parents(j).contains(i) {
                    assert(pre.contains(j));
                }
            }
        }
        assert forall|i: int, d: bool| self.contains(i) implies (#[trigger] self.set_state(d, i) matches CacheState::Valid(v) ==> (*v).wf()) by {
            assert(self.set_state(d, i) == pre.set_state(d, i) || self.set_state(d, i) is Outdated);
            if !pre.contains(i) {
                assert(pre.set_state(d, i) is Outdated);
            }
        }
        assert forall|i: int, d: bool, x: int| #[trigger] self.set_members(d, i).contains(x) implies self.contains(x) by {
            assert(self.set_state(d, i) == pre.set_state(d, i) || self.set_state(d, i) is Outdated);
            if self.set_state(d, i) == pre.set_state(d, i) {
                assert(pre.set_members(d, i).contains(x));
            }
        }
        assert forall|i: int, d: bool, x: int| #[trigger] self.dfs_list(d, i).contains(x) implies self.contains(x) by {
            assert(self.dfs_state(d, i) == pre.dfs_state(d, i) || self.dfs_state(d, i) is Outdated);
            if self.dfs_state(d, i) == pre.dfs_state(d, i) {
                assert(pre.dfs_list(d, i).contains(x));
            }
        }
        assert forall|i: int, d: bool| self.contains(i) implies !(#[trigger] self.set_state(d, i) is Computing) by {
            assert(self.set_state(d, i) == pre.set_state(d, i) || self.set_state(d, i) is Outdated);
            if !pre.contains(i) {
                assert(pre.set_state(d, i) is Outdated);
            }
        }
        assert forall|i: int, d: bool| self.contains(i) implies !(#[trigger] self.dfs_state(d, i) is Computing) by {
            assert(self.dfs_state(d, i) == pre.dfs_state(d, i) || self.dfs_state(d, i) is Outdated);
            if !pre.contains(i) {
                assert(pre.dfs_state(d, i) is Outdated);
            }
        }
        if pre.sound() {
            assert forall|i: int, d: bool| #[trigger] self.set_ok(d, i) by {
                assert(pre.set_ok(d, i));
                assert(self.set_state(d, i) == pre.set_state(d, i) || self.set_state(d, i) is Outdated);
            }
            assert forall|i: int, d: bool| #[trigger] self.dfs_ok(d, i) by {
                assert(pre.dfs_ok(d, i));
                assert(self.dfs_state(d, i) == pre.dfs_state(d, i) || self.dfs_state(d, i) is Outdated);
            }
        }
    }

    /// Cut a new chunk for the nodes registry,
    /// allowing `cleanup` to remove preceding dead chunks.
    ///
    /// An empty last chunk is reused: kept when it already has the requested
    /// kind, replaced otherwise. Nodes, links and caches stay as they were.
    pub fn cut_nodes_chunk(&mut self, cut_result: nodes::CutType)
        requires
            old(self).wf(),
        ensures
            final(self).wf(),
            same_flags(*old(self), *final(self)),
            same_graph_but_layout(*old(self), *final(self)),
            old(self).sound() ==> final(self).sound(),
            ({
                let l = old(self).layout();
                let c = l.last();
                if c.2 == Set::<int>::empty() {
                    if c.1 == cut_result {
                        final(self).layout() == l
                    } else {
                        final(self).layout() == l.update(l.len() - 1, (c.0, cut_result, Set::<int>::empty()))
                    }
                } else {
                    final(self).layout() == l.push((old(self).next_id(), cut_result, Set::<int>::empty()))
                }
            }),
            final(self).no_gap() == (old(self).layout().last().2 != Set::<int>::empty() || cut_result is Discrete
                || old(self).layout().last().0 == old(self).next_id()),
    {
        let ghost pre = *old(self);
        self.nodes.cut(cut_result);
        proof {
            assert forall|i: int| #![trigger self.parents(i)] #![trigger self.children(i)] self.parents(i) == pre.parents(i) && self.children(i) == pre.children(i) by {
                if pre.contains(i) {
                    assert(self.nodes.node_at(i) == pre.nodes.node_at(i));
                }
            }
            assert(self.graph(true) =~= pre.graph(true));
            assert(self.graph(false) =~= pre.graph(false));
            assert forall|i: int, d: bool| #[trigger] self.set_state(d, i) == pre.set_state(d, i) by {
                if pre.contains(i) {
                    assert(self.nodes.node_at(i) == pre.nodes.node_at(i));
                }
            }
            assert forall|i: int, d: bool| #[trigger] self.dfs_state(d, i) == pre.dfs_state(d, i) by {
                if pre.contains(i) {
                    assert(self.nodes.node_at(i) == pre.nodes.node_at(i));
                }
            }
            self.lemma_created(pre, false, 0);
        }
    }
}

/// `b` has the nodes, the links and the next id of `a`; the chunk layout
/// may differ.
pub open spec fn same_graph_but_layout(a: RelationRegistry, b: RelationRegistry) -> bool {
    &&& b.next_id() == a.next_id()
    &&& forall|i: int| #[trigger] b.contains(i) == a.contains(i)
    &&& b.graph(true) == a.graph(true)
    &&& b.graph(false) == a.graph(false)
}


/// A live node of a chunk stays in the layout after cleanup.
proof fn lemma_kept_chunks(l: Seq<nodes::ChunkLayout>, alive: Set<int>, n: int, ci: int, i: int)
    requires
        0 <= ci < n <= l.len(),
        l[ci].2.contains(i),
        alive.contains(i),
    ensures
        exists|cj: int| 0 <= cj < kept_chunks(l, alive, n).len() && #[trigger] kept_chunks(l, alive, n)[cj].2.contains(i),
    decreases n,
{
    let p = kept_chunks(l, alive, n - 1);
    if ci == n - 1 {
        assert(nodes::chunk_survives(l[n - 1], alive));
        assert(kept_chunks(l, alive, n)[p.len() as int] == nodes::prune_chunk(l[n - 1], alive));
        assert(nodes::prune_chunk(l[n - 1], alive).2.contains(i));
    } else {
        lemma_kept_chunks(l, alive, n - 1, ci, i);
        let cj = choose|cj: int| 0 <= cj < p.len() && #[trigger] p[cj].2.contains(i);
        assert(kept_chunks(l, alive, n)[cj] == p[cj]);
    }
}

proof fn lemma_cleaned_keeps(l: Seq<nodes::ChunkLayout>, alive: Set<int>, ci: int, i: int)
    requires
        0 <= ci < l.len(),
        l[ci].2.contains(i),
        alive.contains(i),
    ensures
        exists|cj: int| 0 <= cj < cleaned_layout(l, alive).len() && #[trigger] cleaned_layout(l, alive)[cj].2.contains(i),
{
    let k = kept_chunks(l, alive, l.len() - 1);
    let c = cleaned_layout(l, alive);
    if ci == l.len() - 1 {
        assert(c[k.len() as int] == nodes::prune_chunk(l.last(), alive));
        assert(c[k.len() as int].2.contains(i));
    } else {
        lemma_kept_chunks(l, alive, l.len() - 1, ci, i);
        let cj = choose|cj: int| 0 <= cj < k.len() && #[trigger] k[cj].2.contains(i);
        assert(c[cj] == k[cj]);
    }
}

/// Paths from `i` that stay in a set closed under the edges of `g1`, on
/// which `g1` and `g2` agree, are the same in both graphs.
proof fn lemma_path_closed(g1: spec_fn(int) -> Seq<int>, g2: spec_fn(int) -> Seq<int>, s: Set<int>, i: int, j: int, n: nat)
    requires
        s.contains(i),
        forall|k: int| #[trigger] s.contains(k) ==> g1(k) == g2(k),
        forall|k: int, m: int| s.contains(k) && #[trigger] g1(k).contains(m) ==> s.contains(m),
    ensures
        path(g1, i, j, n) == path(g2, i, j, n),
    decreases n,
{
    if n > 1 {
        assert(g1(i) == g2(i));
        assert forall|k: int| #[trigger] g1(i).contains(k) implies path(g1, k, j, (n - 1) as nat) == path(g2, k, j, (n - 1) as nat) by {
            lemma_path_closed(g1, g2, s, k, j, (n - 1) as nat);
        }
        if path(g1, i, j, n) {
            let k = choose|k: int| #[trigger] g1(i).contains(k) && path(g1, k, j, (n - 1) as nat);
            assert(g2(i).contains(k) && path(g2, k, j, (n - 1) as nat));
        }
        if path(g2, i, j, n) {
            let k = choose|k: int| #[trigger] g2(i).contains(k) && path(g2, k, j, (n - 1) as nat);
            assert(g1(i).contains(k) && path(g1, k, j, (n - 1) as nat));
        }
    } else if n == 1 {
        assert(g1(i) == g2(i));
    }
}

proof fn lemma_reach_closed(g1: spec_fn(int) -> Seq<int>, g2: spec_fn(int) -> Seq<int>, s: Set<int>, i: int)
    requires
        s.contains(i),
        forall|k: int| #[trigger] s.contains(k) ==> g1(k) == g2(k),
        forall|k: int, m: int| s.contains(k) && #[trigger] g1(k).contains(m) ==> s.contains(m),
    ensures
        reach_set(g1, i) == reach_set(g2, i),
{
    assert forall|j: int| #[trigger] reach_set(g1, i).contains(j) == reach_set(g2, i).contains(j) by {
        if reaches(g1, i, j) {
            let n = choose|n: nat| #[trigger] path(g1, i, j, n);
            lemma_path_closed(g1, g2, s, i, j, n);
        }
        if reaches(g2, i, j) {
            let n = choose|n: nat| #[trigger] path(g2, i, j, n);
            lemma_path_closed(g1, g2, s, i, j, n);
        }
    }
    assert(reach_set(g1, i) =~= reach_set(g2, i));
}

impl RelationRegistry {
    /// No link joins a node of `alive` and one outside it.
    pub closed spec fn links_within(&self, alive: Set<int>) -> bool {
        forall|i: int, j: int| self.contains(i) && #[trigger] self.children(i).contains(j) ==> (alive.contains(i) <==> alive.contains(j))
    }

    /// The caches of the nodes of `alive` name only nodes of `alive`.
    pub closed spec fn caches_within(&self, alive: Set<int>) -> bool {
        &&& forall|i: int, d: bool, x: int| self.contains(i) && alive.contains(i) && #[trigger] self.set_members(d, i).contains(x) ==> alive.contains(x)
        &&& forall|i: int, d: bool, x: int| self.contains(i) && alive.contains(i) && #[trigger] self.dfs_list(d, i).contains(x) ==> alive.contains(x)
    }

    /// When no link leaves the live nodes, the correct caches of a live node
    /// name only live nodes.
    pub proof fn lemma_sound_caches_within(&self, alive: Set<int>)
        requires
            self.wf(),
            self.sound(),
            self.links_within(alive),
        ensures
            self.caches_within(alive),
    {
        assert forall|i: int, d: bool, x: int| self.contains(i) && alive.contains(i) && #[trigger] reaches(self.graph(d), i, x) implies alive.contains(x) by {
            let s = Set::new(|k: int| self.contains(k) && alive.contains(k));
            self.lemma_dual();
            assert forall|k: int, m: int| s.contains(k) && #[trigger] self.graph(d)(k).contains(m) implies s.contains(m) by {
                if d {
                    assert(self.parents(k).contains(m));
                    assert(self.contains(m));
                    assert(self.children(m).contains(k));
                } else {
                    assert(self.children(k).contains(m));
                }
            }
            let n = choose|n: nat| #[trigger] path(self.graph(d), i, x, n);
            lemma_path_stays(self.graph(d), s, i, x, n);
        }
        assert forall|i: int, d: bool, x: int| self.contains(i) && alive.contains(i) && #[trigger] self.set_members(d, i).contains(x) implies alive.contains(x) by {
            assert(self.set_ok(d, i));
            assert(reach_set(self.graph(d), i).contains(x));
            assert(reaches(self.graph(d), i, x));
        }
        assert forall|i: int, d: bool, x: int| self.contains(i) && alive.contains(i) && #[trigger] self.dfs_list(d, i).contains(x) implies alive.contains(x) by {
            assert(self.dfs_ok(d, i));
            assert(self.dfs_list(d, i).to_set().contains(x));
            assert(reaches(self.graph(d), i, x));
        }
    }
}

/// A path that starts in a set closed under the edges ends in it.
proof fn lemma_path_stays(g: spec_fn(int) -> Seq<int>, s: Set<int>, i: int, j: int, n: nat)
    requires
        s.contains(i),
        forall|k: int, m: int| s.contains(k) && #[trigger] g(k).contains(m) ==> s.contains(m),
        path(g, i, j, n),
    ensures
        s.contains(j),
    decreases n,
{
    if n > 1 {
        let k = choose|k: int| #[trigger] g(i).contains(k) && path(g, k, j, (n - 1) as nat);
        lemma_path_stays(g, s, k, j, (n - 1) as nat);
    }
}


/// The nodes whose flag a reset of `index` clears: `index`, and the members
/// of its cached ancestor set (`up`) and descendant set (`down`).
pub open spec fn reset_scope(r: RelationRegistry, index: int, up: bool, down: bool) -> Set<int> {
    Set::empty().insert(index) + (if up {
        r.set_members(true, index)
    } else {
        Set::empty()
    }) + (if down {
        r.set_members(false, index)
    } else {
        Set::empty()
    })
}

impl RelationRegistry {
    /// Indexize a `str` to an corresponding `id`
    ///
    /// A name seen before gets its key back; a new one gets the next key.
    pub fn indexize_key(&mut self, key: &str) -> (r: usize)
        requires
            old(self).wf(),
        ensures
            final(self).wf(),
            same_graph_but_flags(*old(self), *final(self)),
            final(self).flag_sets() == old(self).flag_sets(),
            old(self).flag_names().contains(key@) ==> final(self).flag_names() == old(self).flag_names() && r < old(
                self,
            ).flag_names().len() && old(self).flag_names()[r as int] == key@,
            !old(self).flag_names().contains(key@) ==> final(self).flag_names() == old(self).flag_names().push(key@) && r
                == old(self).flag_names().len(),
    {
        let ghost pre = *old(self);
        let r = self.flags.indexize_key(key);
        proof {
            Self::lemma_flags_only(pre, *self);
        }
        r
    }

    /// Create a `FlagHandle`
    ///
    /// Its second flag part is the key of `key` (see
    /// [`RelationRegistry::indexize_key`]).
    pub fn create_flag(&mut self, key: &str, recurse_up: bool, recurse_down: bool) -> (h: FlagHandle)
        requires
            old(self).wf(),
        ensures
            final(self).wf(),
            same_graph_but_flags(*old(self), *final(self)),
            final(self).flag_sets() == old(self).flag_sets(),
            final(self).flag_names().len() > h.key(),
            final(self).flag_names()[h.key() as int] == key@,
            old(self).flag_names().contains(key@) ==> final(self).flag_names() == old(self).flag_names(),
            !old(self).flag_names().contains(key@) ==> final(self).flag_names() == old(self).flag_names().push(key@),
            h.up() == recurse_up,
            h.down() == recurse_down,
    {
        let k = self.indexize_key(key);
        FlagHandle::new(k, recurse_up, recurse_down)
    }

    /// Check for whether the flag of `index` is set
    pub fn node_get_computed_for(&self, index: NodeIndex, flag_0: usize, flag_handle: &FlagHandle) -> (r: bool)
        requires
            self.wf(),
        ensures
            r == (self.flag_sets().contains_key((flag_0, flag_handle.key())) && self.flag_sets()[(flag_0, flag_handle.key())].contains(
                index as int,
            )),
    {
        self.flags.get((flag_0, flag_handle.flag_1()), index)
    }

    /// Set the computed state to `true`, without considering the recursion
    ///
    /// The flag gets a set when it has none; then `index` joins it.
    pub fn node_mark_computed_for(&mut self, index: NodeIndex, flag_0: usize, flag_handle: &FlagHandle)
        requires
            old(self).wf(),
        ensures
            final(self).wf(),
            same_graph_but_flags(*old(self), *final(self)),
            final(self).flag_names() == old(self).flag_names(),
            ({
                let k = (flag_0, flag_handle.key());
                final(self).flag_sets() == old(self).flag_sets().insert(
                    k,
                    if old(self).flag_sets().contains_key(k) {
                        old(self).flag_sets()[k]
                    } else {
                        Set::empty()
                    }.insert(index as int),
                )
            }),
    {
        let ghost pre = *old(self);
        self.flags.touch((flag_0, flag_handle.flag_1()));
        self.flags.mark((flag_0, flag_handle.flag_1()), index);
        proof {
            Self::lemma_flags_only(pre, *self);
            let k = (flag_0, flag_handle.key());
            if pre.flag_sets().contains_key(k) {
                assert(pre.flag_sets().insert(k, pre.flag_sets()[k]) =~= pre.flag_sets());
            }
        }
    }

    /// Set the computed state to `false`, considering the recursion
    ///
    /// The flag gets a set when it has none. Then `index` leaves it, and so
    /// do its ancestors when the handle recurses up and its descendants when
    /// it recurses down. `Err` when computing those meets a cycle; the flag
    /// set is then left as it was (made if missing).
    pub fn node_reset_computed_for(&mut self, index: NodeIndex, flag_0: usize, flag_handle: &FlagHandle) -> (r: Result<(), CycleError>)
        requires
            old(self).wf(),
            flag_handle.up() || flag_handle.down() ==> old(self).contains(index as int),
        ensures
            final(self).wf(),
            same_graph_but_flags(*old(self), *final(self)),
            final(self).flag_names() == old(self).flag_names(),
            old(self).sound() ==> final(self).sound(),
            ({
                let k = (flag_0, flag_handle.key());
                let base = if old(self).flag_sets().contains_key(k) {
                    old(self).flag_sets()[k]
                } else {
                    Set::empty()
                };
                let up = flag_handle.up();
                let down = flag_handle.down();
                &&& r is Ok ==> final(self).flag_sets() == old(self).flag_sets().insert(k, base.difference(reset_scope(*final(self), index as int, up, down)))
                &&& r is Ok && old(self).sound() && up ==> final(self).set_members(true, index as int) == reach_set(old(self).graph(true), index as int)
                &&& r is Ok && old(self).sound() && down ==> final(self).set_members(false, index as int) == reach_set(old(self).graph(false), index as int)
                &&& r is Err ==> final(self).flag_sets() == old(self).flag_sets().insert(k, base)
                &&& r is Err ==> (up && cycle_from(old(self).graph(true), index as int)) || (down && cycle_from(old(self).graph(false), index as int))
                &&& old(self).sound() && ((up && cycle_from(old(self).graph(true), index as int)) || (down && cycle_from(
                    old(self).graph(false),
                    index as int,
                ))) ==> r is Err
            }),
    {
        let ghost pre = *old(self);
        let k = (flag_0, flag_handle.flag_1());
        let up = flag_handle.recurse_up();
        let down = flag_handle.recurse_down();
        if !up && !down {
            self.flags.reset_one(k, index);
            proof {
                Self::lemma_flags_only(pre, *self);
                let base = if pre.flag_sets().contains_key(k) { pre.flag_sets()[k] } else { Set::empty() };
                assert(reset_scope(*self, index as int, false, false) =~= Set::empty().insert(index as int));
                assert(base.remove(index as int) =~= base.difference(Set::empty().insert(index as int)));
            }
            return Ok(());
        }
        self.flags.touch(k);
        let ghost touched = *self;
        proof {
            Self::lemma_flags_only(pre, *self);
            assert(touched.flag_sets() =~= pre.flag_sets().insert(k, if pre.flag_sets().contains_key(k) { pre.flag_sets()[k] } else { Set::empty() }));
        }
        let mut rel_set = OffsetBitSet::new();
        rel_set.insert(index);
        if up {
            match self.ancestor_set(index) {
                Ok(s) => {
                    rel_set.union_with(&*s);
                },
                Err(e) => {
                    return Err(e);
                },
            }
        }
        let ghost after_up = *self;
        if down {
            match self.descendant_set(index) {
                Ok(s) => {
                    rel_set.union_with(&*s);
                },
                Err(e) => {
                    proof {
                        assert(cycle_from(after_up.graph(false), index as int));
                    }
                    return Err(e);
                },
            }
        }
        let ghost before_reset = *self;
        self.flags.reset_many(k, &rel_set);
        proof {
            Self::lemma_flags_only(before_reset, *self);
            let scope = reset_scope(*self, index as int, up, down);
            assert(self.set_members(true, index as int) == before_reset.set_members(true, index as int));
            assert(self.set_members(false, index as int) == before_reset.set_members(false, index as int));
            if down {
                assert(self.set_members(true, index as int) == after_up.set_members(true, index as int));
            }
            assert(rel_set@ =~= scope);
            assert(self.flag_sets() =~= pre.flag_sets().insert(k, if pre.flag_sets().contains_key(k) { pre.flag_sets()[k] } else { Set::empty() }.difference(scope)));
        }
        Ok(())
    }
}

impl RelationRegistry {
    /// Changing only the flags keeps everything else.
    proof fn lemma_flags_only(a: RelationRegistry, b: RelationRegistry)
        requires
            b.nodes == a.nodes,
            b.dead == a.dead,
        ensures
            same_graph_but_flags(a, b),
            a.wf() && b.flags.wf() ==> b.wf(),
            a.sound() ==> b.sound(),
            forall|i: int, d: bool| #[trigger] b.set_members(d, i) == a.set_members(d, i),
    {
        assert forall|i: int| #[trigger] b.contains(i) == a.contains(i) by {}
        assert forall|i: int| #![trigger b.parents(i)] #![trigger b.children(i)] b.parents(i) == a.parents(i) && b.children(i) == a.children(i) by {}
        assert(b.graph(true) =~= a.graph(true));
        assert(b.graph(false) =~= a.graph(false));
        assert forall|i: int, d: bool| #[trigger] b.set_state(d, i) == a.set_state(d, i) by {}
        assert forall|i: int, d: bool| #[trigger] b.dfs_state(d, i) == a.dfs_state(d, i) by {}
        assert forall|i: int, d: bool| #[trigger] b.set_members(d, i) == a.set_members(d, i) by {}
        assert forall|i: int, d: bool| #[trigger] b.dfs_list(d, i) == a.dfs_list(d, i) by {}
        if a.wf() && b.flags.wf() {
            lemma_links_same(a, b);
            assert(b.inner_ok());
        }
        if a.sound() {
            assert forall|i: int, d: bool| #[trigger] b.set_ok(d, i) by {
                assert(a.set_ok(d, i));
            }
            assert forall|i: int, d: bool| #[trigger] b.dfs_ok(d, i) by {
                assert(a.dfs_ok(d, i));
            }
        }
    }
}

/// `b` has the nodes, the links and the caches of `a`; the flags may
/// differ.
pub open spec fn same_graph_but_flags(a: RelationRegistry, b: RelationRegistry) -> bool {
    &&& b.layout() == a.layout()
    &&& b.next_id() == a.next_id()
    &&& forall|i: int| #[trigger] b.contains(i) == a.contains(i)
    &&& b.graph(true) == a.graph(true)
    &&& b.graph(false) == a.graph(false)
}


impl RelationRegistry {
    /// Clean the leading invalid-nodes and the bitsets
    ///
    /// `alive` holds the live nodes. Every chunk but the last is dropped when
    /// none of its nodes is alive, and a sparse chunk keeps only its live
    /// nodes; the storage of the flag sets is trimmed. Afterwards exactly
    /// the live stored nodes are in the registry, with their links and
    /// caches.
    pub fn cleanup(&mut self, alive: &OffsetBitSet)
        requires
            old(self).wf(),
            old(self).links_within(alive@),
            old(self).caches_within(alive@),
        ensures
            final(self).wf(),
            same_flags(*old(self), *final(self)),
            final(self).next_id() == old(self).next_id(),
            final(self).no_gap() == old(self).no_gap(),
            final(self).layout() == cleaned_layout(old(self).layout(), alive@),
            forall|i: int| #[trigger] final(self).contains(i) == (old(self).contains(i) && alive@.contains(i)),
            forall|i: int| final(self).contains(i) ==> #[trigger] final(self).parents(i) == old(self).parents(i)
                && final(self).children(i) == old(self).children(i),
            forall|i: int, d: bool| final(self).contains(i) ==> #[trigger] final(self).set_state(d, i) == old(self).set_state(d, i)
                && final(self).dfs_state(d, i) == old(self).dfs_state(d, i),
            old(self).sound() ==> final(self).sound(),
    {
        let ghost pre = *old(self);
        self.flags.cleanup();
        self.nodes.cleanup(alive);
        proof {
            self.dead = Ghost(pre.dead@ + Set::new(|i: int| pre.nodes.contains(i) && !alive@.contains(i)));
            let live = Set::new(|i: int| pre.contains(i) && alive@.contains(i));
            assert forall|i: int| #[trigger] self.contains(i) == live.contains(i) by {
                if pre.contains(i) && alive@.contains(i) {
                    pre.nodes.lemma_contains_layout(i);
                    let ci = choose|ci: int| 0 <= ci < pre.nodes.layout().len() && #[trigger] pre.nodes.layout()[ci].2.contains(i);
                    lemma_cleaned_keeps(pre.nodes.layout(), alive@, ci, i);
                    self.nodes.lemma_contains_layout(i);
                }
            }
            assert forall|i: int| self.contains(i) implies #[trigger] self.nodes.node_at(i) == pre.nodes.node_at(i) by {}
            assert forall|i: int| #![trigger self.parents(i)] #![trigger self.children(i)] self.parents(i) == (if live.contains(i) {
                pre.parents(i)
            } else {
                Seq::empty()
            }) && self.children(i) == (if live.contains(i) {
                pre.children(i)
            } else {
                Seq::empty()
            }) by {}
            assert forall|i: int, d: bool| #![trigger self.set_state(d, i)] #![trigger self.dfs_state(d, i)] self.set_state(d, i) == (if live.contains(i) {
                pre.set_state(d, i)
            } else {
                CacheState::Outdated
            }) && self.dfs_state(d, i) == (if live.contains(i) {
                pre.dfs_state(d, i)
            } else {
                CacheState::Outdated
            }) by {}
            // links stay among the live nodes
            assert forall|i: int, j: int| live.contains(i) && (#[trigger] pre.children(i).contains(j) || #[trigger] pre.parents(i).contains(j)) implies live.contains(j) by {
                if pre.children(i).contains(j) {
                    assert(pre.contains(j));
                } else {
                    assert(pre.contains(j));
                    assert(pre.children(j).contains(i));
                }
            }
            assert forall|i: int| #[trigger] self.contains(i) implies self.parents(i).no_duplicates() && self.children(i).no_duplicates() by {
                assert(pre.contains(i));
            }
            assert forall|i: int, j: int| self.contains(i) && #[trigger] self.parents(i).contains(j) implies self.contains(j) by {
                assert(pre.parents(i).contains(j));
                assert(pre.contains(j));
                assert(pre.children(j).contains(i));
                assert(live.contains(j));
            }
            assert forall|i: int, j: int| self.contains(i) && #[trigger] self.children(i).contains(j) implies self.contains(j) by {
                assert(pre.children(i).contains(j));
                assert(live.contains(j));
            }
            assert forall|i: int, j: int| self.contains(i) && self.contains(j) implies (#[trigger] self.children(i).contains(j)
                <==> #[trigger] self.parents(j).contains(i)) by {
                assert(pre.contains(i) && pre.contains(j));
                assert(pre.children(i).contains(j) <==> pre.parents(j).contains(i));
            }
            assert forall|i: int, d: bool| self.contains(i) implies (#[trigger] self.set_state(d, i) matches CacheState::Valid(v) ==> (*v).wf()) by {
                assert(pre.contains(i));
            }
            assert forall|i: int, d: bool, x: int| #[trigger] self.set_members(d, i).contains(x) implies self.contains(x) by {
                if live.contains(i) {
                    assert(pre.set_members(d, i).contains(x));
                } else {
                    assert(self.set_members(d, i) == Set::<int>::empty());
                }
            }
            assert forall|i: int, d: bool, x: int| #[trigger] self.dfs_list(d, i).contains(x) implies self.contains(x) by {
                if live.contains(i) {
                    assert(pre.dfs_list(d, i).contains(x));
                } else {
                    assert(self.dfs_list(d, i) =~= Seq::<int>::empty());
                }
            }
            assert forall|i: int, d: bool| self.contains(i) implies !(#[trigger] self.set_state(d, i) is Computing) by {
                assert(pre.contains(i));
            }
            assert forall|i: int, d: bool| self.contains(i) implies !(#[trigger] self.dfs_state(d, i) is Computing) by {
                assert(pre.contains(i));
            }
            assert(self.wf());
            if pre.sound() {
                assert forall|d: bool, i: int| live.contains(i) implies #[trigger] reach_set(self.graph(d), i) == reach_set(pre.graph(d), i) by {
                    assert forall|k: int| #[trigger] live.contains(k) implies self.graph(d)(k) == pre.graph(d)(k) by {}
                    assert forall|k: int, m: int| live.contains(k) && #[trigger] self.graph(d)(k).contains(m) implies live.contains(m) by {
                        if d {
                            assert(pre.parents(k).contains(m));
                        } else {
                            assert(pre.children(k).contains(m));
                        }
                    }
                    lemma_reach_closed(self.graph(d), pre.graph(d), live, i);
                }
                assert forall|i: int, d: bool| #[trigger] self.set_ok(d, i) by {
                    if live.contains(i) {
                        assert(pre.set_ok(d, i));
                        assert(reach_set(self.graph(d), i) == reach_set(pre.graph(d), i));
                    }
                }
                assert forall|i: int, d: bool| #[trigger] self.dfs_ok(d, i) by {
                    if live.contains(i) {
                        assert(pre.dfs_ok(d, i));
                        assert(reach_set(self.graph(d), i) == reach_set(pre.graph(d), i));
                        assert forall|k: int, m: int| live.contains(k) && #[trigger] self.graph(d)(k).contains(m) implies live.contains(m) by {
                            if d {
                                assert(pre.parents(k).contains(m));
                            } else {
                                assert(pre.children(k).contains(m));
                            }
                        }
                        assert forall|x: int| (x == i || reaches(self.graph(d), i, x)) implies #[trigger] self.graph(d)(x) == pre.graph(d)(x) by {
                            if x != i {
                                let n = choose|n: nat| #[trigger] path(self.graph(d), i, x, n);
                                lemma_path_stays(self.graph(d), live, i, x, n);
                            }
                        }
                        lemma_agree_region(self.graph(d), pre.graph(d), i);
                    }
                }
                assert forall|i: int, d: bool| live.contains(i) implies #[trigger] cycle_from(self.graph(d), i) == cycle_from(pre.graph(d), i) by {
                    assert forall|k: int, m: int| live.contains(k) && #[trigger] self.graph(d)(k).contains(m) implies live.contains(m) by {
                        if d {
                            assert(pre.parents(k).contains(m));
                        } else {
                            assert(pre.children(k).contains(m));
                        }
                    }
                    assert forall|x: int| (x == i || reaches(self.graph(d), i, x)) implies #[trigger] self.graph(d)(x) == pre.graph(d)(x) by {
                        if x != i {
                            let n = choose|n: nat| #[trigger] path(self.graph(d), i, x, n);
                            lemma_path_stays(self.graph(d), live, i, x, n);
                        }
                    }
                    lemma_agree_region(self.graph(d), pre.graph(d), i);
                }
                assert forall|i: int, d: bool| #[trigger] self.set_state(d, i) is Valid implies !cycle_from(self.graph(d), i) by {
                    assert(live.contains(i));
                    assert(pre.set_state(d, i) is Valid);
                    assert(!cycle_from(pre.graph(d), i));
                }
                assert forall|i: int, d: bool| #[trigger] self.dfs_state(d, i) is Valid implies !cycle_from(self.graph(d), i) by {
                    assert(live.contains(i));
                    assert(pre.dfs_state(d, i) is Valid);
                    assert(!cycle_from(pre.graph(d), i));
                }
            }
        }
    }
}


impl RelationRegistry {
    /// In a well-formed registry the links hold together: no node lists a
    /// child or a parent twice, every link points at a stored node, and a
    /// node lists another as a child exactly when that one lists it as a
    /// parent, once.
    pub proof fn lemma_links_hold(&self)
        requires
            self.wf(),
        ensures
            forall|i: int| #[trigger] self.contains(i) ==> self.parents(i).no_duplicates() && self.children(i).no_duplicates(),
            forall|i: int, j: int| self.contains(i) && #[trigger] self.parents(i).contains(j) ==> self.contains(j),
            forall|i: int, j: int| self.contains(i) && #[trigger] self.children(i).contains(j) ==> self.contains(j),
            forall|i: int, j: int|
                self.contains(i) && self.contains(j) ==> (#[trigger] self.children(i).contains(j) <==> #[trigger] self.parents(
                    j,
                ).contains(i)),
            self.links_ok(),
    {
    }

    /// A node lists another as a child exactly when that one lists it as a
    /// parent.
    pub proof fn lemma_parent_child(&self, p: int, c: int)
        requires
            self.wf(),
        ensures
            self.children(p).contains(c) <==> self.parents(c).contains(p),
    {
        self.lemma_dual();
        assert(self.graph(false)(p).contains(c) <==> self.graph(true)(c).contains(p));
    }

    /// Node `a` is an ancestor of node `d` exactly when `d` is a descendant
    /// of `a`.
    pub proof fn lemma_ancestor_descendant(&self, a: int, d: int)
        requires
            self.wf(),
        ensures
            reach_set(self.graph(true), d).contains(a) <==> reach_set(self.graph(false), a).contains(d),
    {
        self.lemma_dual();
        lemma_reach_dual(self.graph(true), self.graph(false), d, a);
    }

    /// Two names with the same key are the same name: a key names one flag
    /// name only.
    pub proof fn lemma_flag_key_unique(&self, k1: int, k2: int)
        requires
            self.wf(),
            0 <= k1 < self.flag_names().len(),
            0 <= k2 < self.flag_names().len(),
            self.flag_names()[k1] == self.flag_names()[k2],
        ensures
            k1 == k2,
    {
        self.flags.lemma_names_distinct();
    }

    /// Marking a node puts it in its flag's set, made if missing, and a
    /// later read finds it.
    pub proof fn lemma_mark_then_read(a: RelationRegistry, b: RelationRegistry, k: (usize, usize), index: int)
        requires
            b.flag_sets() == a.flag_sets().insert(
                k,
                if a.flag_sets().contains_key(k) {
                    a.flag_sets()[k]
                } else {
                    Set::empty()
                }.insert(index),
            ),
        ensures
            b.flag_sets().contains_key(k),
            b.flag_sets()[k].contains(index),
    {
    }

    /// After a reset of a node succeeds, a read of its flag finds it unset,
    /// whatever the recursion.
    pub proof fn lemma_reset_then_read(a: RelationRegistry, b: RelationRegistry, k: (usize, usize), index: int, up: bool, down: bool)
        requires
            b.flag_sets() == a.flag_sets().insert(
                k,
                if a.flag_sets().contains_key(k) {
                    a.flag_sets()[k]
                } else {
                    Set::empty()
                }.difference(reset_scope(b, index, up, down)),
            ),
        ensures
            b.flag_sets().contains_key(k),
            !b.flag_sets()[k].contains(index),
    {
    }
}


impl RelationRegistry {
    /// The children of `index`, in display order.
    pub fn children_of(&self, index: NodeIndex) -> (r: Vec<NodeIndex>)
        requires
            self.wf(),
            self.contains(index as int),
        ensures
            ints(r@) == self.children(index as int),
    {
        self.neighbors(false, index)
    }

    /// The parents of `index`, in the order they were linked.
    pub fn parents_of(&self, index: NodeIndex) -> (r: Vec<NodeIndex>)
        requires
            self.wf(),
            self.contains(index as int),
        ensures
            ints(r@) == self.parents(index as int),
    {
        self.neighbors(true, index)
    }
}


impl RelationRegistry {
    /// Start index, storage kind and number of stored nodes (dead ones
    /// included) of each chunk, first to last.
    pub fn chunk_summary(&self) -> (r: Vec<(NodeIndex, nodes::CutType, usize)>)
        requires
            self.wf(),
        ensures
            r@.len() == self.layout().len(),
            forall|t: int|
                0 <= t < r@.len() ==> {
                    &&& (#[trigger] r@[t]).0 as int == self.layout()[t].0
                    &&& r@[t].1 == self.layout()[t].1
                    &&& self.layout()[t].2.finite()
                    &&& r@[t].2 as int == self.layout()[t].2.len()
                },
    {
        self.nodes.chunk_summary()
    }

    /// The word range of the storage of the flag set of `k`.
    pub closed spec fn flag_word_range(&self, k: (usize, usize)) -> (int, int) {
        self.flags.word_range(k)
    }

    /// Each pair of flag keys that has a set, once, with the word range of
    /// its storage.
    pub fn flag_summary(&self) -> (r: Vec<((usize, usize), (usize, usize))>)
        requires
            self.wf(),
        ensures
            r@.len() == self.flag_sets().dom().len(),
            forall|t: int| 0 <= t < r@.len() ==> self.flag_sets().contains_key(#[trigger] r@[t].0),
            forall|k: (usize, usize)| self.flag_sets().contains_key(k) ==> exists|t: int| 0 <= t < r@.len() && #[trigger] r@[t].0 == k,
            forall|t: int| 0 <= t < r@.len() ==> ((#[trigger] r@[t]).1.0 as int, r@[t].1.1 as int) == self.flag_word_range(r@[t].0),
    {
        self.flags.summary()
    }

    /// The name that flag key `key` was made from, if any.
    pub fn flag_name(&self, key: usize) -> (r: Option<String>)
        ensures
            match r {
                Some(s) => key < self.flag_names().len() && s@ == self.flag_names()[key as int],
                None => key >= self.flag_names().len(),
            },
    {
        self.flags.name_of(key)
    }

    /// Whether [`RelationRegistry::insert_children_to`] can place
    /// `new_children` at `insert_index` among the children of `index`: each
    /// position it inserts at lies within the list at that time.
    pub fn insert_positions_ok(&self, index: NodeIndex, insert_index: usize, new_children: &Vec<NodeIndex>) -> (r: bool)
        requires
            self.wf(),
            self.contains(index as int),
        ensures
            r == ins_ok(self.children(index as int), min_int(insert_index as int, self.children(index as int).len() as int), ints(new_children@)),
    {
        let ghost c0 = self.children(index as int);
        let ghost xs = ints(new_children@);
        let mut cur = self.children_of(index);
        let base = if insert_index < cur.len() {
            insert_index
        } else {
            cur.len()
        };
        let ghost b = base as int;
        proof {
            assert(xs.take(0) =~= Seq::<int>::empty());
            assert(cur@.len() == c0.len());
        }
        let mut k: usize = 0;
        while k < new_children.len()
            invariant
                xs == ints(new_children@),
                c0 == self.children(index as int),
                b == min_int(insert_index as int, c0.len() as int),
                b == base,
                k <= new_children@.len(),
                ints(cur@) == ins_run(c0, b, xs.take(k as int)),
                ins_ok(c0, b, xs.take(k as int)),
            decreases new_children@.len() - k,
        {
            let c = new_children[k];
            let ghost xk1 = xs.take(k + 1);
            proof {
                assert(xs[k as int] == c as int);
                assert(xk1.drop_last() =~= xs.take(k as int));
                assert(xk1.last() == c as int);
                lemma_ints_contains(cur@, c);
            }
            if vec_contains(&cur, c) {
                k = k + 1;
                continue;
            }
            if base > cur.len() || k > cur.len() - base {
                proof {
                    if ins_ok(c0, b, xs) {
                        lemma_ins_ok_prefix(c0, b, xs, k + 1);
                        let prev = ins_run(c0, b, xk1.drop_last());
                        assert(prev == ints(cur@));
                        assert(!prev.contains(c as int));
                        assert(xk1.len() == k + 1);
                        assert(ins_ok(c0, b, xk1));
                        assert(b + k > prev.len());
                        assert(false);
                    }
                }
                return false;
            }
            cur.insert(base + k, c);
            proof {
                assert(ints(cur@) =~= ins_run(c0, b, xs.take(k as int)).insert(b + k, c as int));
            }
            k = k + 1;
        }
        proof {
            assert(xs.take(k as int) =~= xs);
        }
        true
    }
}

} // verus!
