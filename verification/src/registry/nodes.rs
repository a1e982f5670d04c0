//! Storage of the relation nodes in chunks, so that whole chunks of dead
//! nodes can be dropped.

use vstd::prelude::*;

use crate::bitset::OffsetBitSet;
use crate::cache::RecursiveCache;

verus! {

pub type NodeIndex = usize;

/// One relation node: its links and the caches derived from them.
pub struct Node {
    /// Parent indices, in the order they were linked
    pub(crate) parents: Vec<NodeIndex>,
    /// Child indices, in display order
    pub(crate) children: Vec<NodeIndex>,
    pub(crate) ancestor_set: RecursiveCache<OffsetBitSet>,
    pub(crate) descendant_set: RecursiveCache<OffsetBitSet>,
    pub(crate) ancestor_dfs: RecursiveCache<Vec<NodeIndex>>,
    pub(crate) descendant_dfs: RecursiveCache<Vec<NodeIndex>>,
}

impl Node {
    /// A node without links and with all caches outdated.
    pub(crate) open spec fn is_fresh(&self) -> bool {
        &&& self.parents@.len() == 0
        &&& self.children@.len() == 0
        &&& self.ancestor_set.state() is Outdated
        &&& self.descendant_set.state() is Outdated
        &&& self.ancestor_dfs.state() is Outdated
        &&& self.descendant_dfs.state() is Outdated
    }

    pub(crate) fn new() -> (n: Self)
        ensures
            n.is_fresh(),
    {
        Node {
            parents: Vec::new(),
            children: Vec::new(),
            ancestor_set: RecursiveCache::new(),
            descendant_set: RecursiveCache::new(),
            ancestor_dfs: RecursiveCache::new(),
            descendant_dfs: RecursiveCache::new(),
        }
    }

    /// Whether `check` is a child of this node.
    pub(crate) fn has_child(&self, check: NodeIndex) -> (r: bool)
        ensures
            r == self.children@.contains(check),
    {
        let mut i: usize = 0;
        while i < self.children.len()
            invariant
                i <= self.children@.len(),
                forall|k: int| 0 <= k < i ==> self.children@[k] != check,
            decreases self.children@.len() - i,
        {
            if self.children[i] == check {
                return true;
            }
            i = i + 1;
        }
        false
    }

    /// Marks both ancestor caches outdated.
    pub(crate) fn reset_ancestors(&mut self)
        ensures
            final(self).parents == old(self).parents,
            final(self).children == old(self).children,
            final(self).descendant_set == old(self).descendant_set,
            final(self).descendant_dfs == old(self).descendant_dfs,
            final(self).ancestor_set.state() is Outdated,
            final(self).ancestor_dfs.state() is Outdated,
    {
        self.ancestor_set.reset();
        self.ancestor_dfs.reset();
    }

    /// Marks both descendant caches outdated.
    pub(crate) fn reset_descendants(&mut self)
        ensures
            final(self).parents == old(self).parents,
            final(self).children == old(self).children,
            final(self).ancestor_set == old(self).ancestor_set,
            final(self).ancestor_dfs == old(self).ancestor_dfs,
            final(self).descendant_set.state() is Outdated,
            final(self).descendant_dfs.state() is Outdated,
    {
        self.descendant_set.reset();
        self.descendant_dfs.reset();
    }
}

/// How the chunk that a cut opens stores its nodes.
#[derive(Clone, Copy, Debug, PartialEq, Eq)]
pub enum CutType {
    /// Consecutive indices in a vector.
    Continous,
    /// Sparse indices, looked up by index.
    Discrete,
}

enum Chunk {
    Continous(Vec<Node>),
    /// Pairs of index and node, in increasing index order
    Discrete(Vec<(NodeIndex, Node)>),
}

spec fn chunk_kind(c: Chunk) -> CutType {
    match c {
        Chunk::Continous(_) => CutType::Continous,
        Chunk::Discrete(_) => CutType::Discrete,
    }
}

spec fn chunk_ids(c: Chunk, lo: int) -> Set<int> {
    match c {
        Chunk::Continous(v) => Set::new(|i: int| lo <= i < lo + v@.len()),
        Chunk::Discrete(v) => Set::new(|i: int| exists|k: int| 0 <= k < v@.len() && v@[k].0 == i),
    }
}

spec fn chunk_node(c: Chunk, lo: int, i: int) -> Node {
    match c {
        Chunk::Continous(v) => v@[i - lo],
        Chunk::Discrete(v) => v@[choose|k: int| 0 <= k < v@.len() && v@[k].0 == i].1,
    }
}

spec fn keys_ascending(v: Seq<(NodeIndex, Node)>) -> bool {
    forall|a: int, b: int| 0 <= a < b < v.len() ==> v[a].0 < v[b].0
}

/// The position of a chunk that stores index `i`.
spec fn chunk_holding(chunks: Seq<(NodeIndex, Chunk)>, i: int) -> int {
    choose|ci: int| 0 <= ci < chunks.len() && #[trigger] chunk_ids(chunks[ci].1, chunks[ci].0 as int).contains(i)
}

/// Start index, storage kind and stored indices of one chunk.
pub type ChunkLayout = (int, CutType, Set<int>);

spec fn chunk_layout(e: (NodeIndex, Chunk)) -> ChunkLayout {
    (e.0 as int, chunk_kind(e.1), chunk_ids(e.1, e.0 as int))
}

pub struct Nodes {
    /// Chunks with the `start_id`
    chunks: Vec<(NodeIndex, Chunk)>,
    next_id: NodeIndex,
}

impl Nodes {
    /// The index that the next pushed node gets.
    pub closed spec fn next_id(&self) -> int {
        self.next_id as int
    }

    spec fn lo(&self, ci: int) -> int {
        self.chunks@[ci].0 as int
    }

    spec fn hi(&self, ci: int) -> int {
        if ci + 1 < self.chunks@.len() {
            self.chunks@[ci + 1].0 as int
        } else {
            self.next_id as int
        }
    }

    spec fn ids_at(&self, ci: int) -> Set<int> {
        chunk_ids(self.chunks@[ci].1, self.lo(ci))
    }

    /// The chunks, first to last.
    pub closed spec fn layout(&self) -> Seq<ChunkLayout> {
        self.chunks@.map(|ci: int, e: (NodeIndex, Chunk)| chunk_layout(e))
    }

    /// Whether a node with index `i` is stored.
    pub closed spec fn contains(&self, i: int) -> bool {
        exists|ci: int| 0 <= ci < self.chunks@.len() && #[trigger] self.ids_at(ci).contains(i)
    }

    spec fn chunk_of(&self, i: int) -> int {
        chunk_holding(self.chunks@, i)
    }

    /// The node stored with index `i`.
    pub closed spec fn node_at(&self, i: int) -> Node {
        let ci = self.chunk_of(i);
        chunk_node(self.chunks@[ci].1, self.lo(ci), i)
    }

    /// The last chunk stores the index that the next push gets (no index was
    /// skipped by a failed push into a consecutive chunk).
    pub closed spec fn no_gap(&self) -> bool {
        match self.chunks@.last().1 {
            Chunk::Continous(v) => self.lo(self.chunks@.len() - 1) + v@.len() == self.next_id,
            Chunk::Discrete(_) => true,
        }
    }

    pub closed spec fn wf(&self) -> bool {
        &&& self.chunks@.len() >= 1
        &&& forall|a: int, b: int| 0 <= a < b < self.chunks@.len() ==> self.lo(a) < self.lo(b)
        &&& self.lo(self.chunks@.len() - 1) <= self.next_id
        &&& forall|ci: int|
            0 <= ci < self.chunks@.len() ==> match #[trigger] self.chunks@[ci].1 {
                Chunk::Continous(v) => {
                    &&& self.lo(ci) + v@.len() <= self.hi(ci)
                },
                Chunk::Discrete(v) => {
                    &&& keys_ascending(v@)
                    &&& forall|k: int|
                        0 <= k < v@.len() ==> self.lo(ci) <= #[trigger] v@[k].0 < self.hi(ci)
                },
            }
    }
}

/// Index of the entry with key `key` in a key-ascending list of pairs.
fn find_key(v: &Vec<(NodeIndex, Node)>, key: NodeIndex) -> (k: usize)
    requires
        keys_ascending(v@),
        exists|k: int| 0 <= k < v@.len() && v@[k].0 == key,
    ensures
        k < v@.len(),
        v@[k as int].0 == key,
{
    let mut a: usize = 0;
    let mut b: usize = v.len();
    while a + 1 < b
        invariant
            0 <= a < b <= v@.len(),
            keys_ascending(v@),
            exists|k: int| a <= k < b && v@[k].0 == key,
        decreases b - a,
    {
        let m = a + (b - a) / 2;
        if v[m].0 <= key {
            a = m;
        } else {
            b = m;
        }
    }
    a
}

proof fn lemma_key_unique(v: Seq<(NodeIndex, Node)>, k: int, key: NodeIndex)
    requires
        keys_ascending(v),
        0 <= k < v.len(),
        v[k].0 == key,
    ensures
        (choose|j: int| 0 <= j < v.len() && v[j].0 == key) == k,
{
    let j = choose|j: int| 0 <= j < v.len() && v[j].0 == key;
    assert(0 <= j < v.len() && v[j].0 == key);
    if j < k {
        assert(v[j].0 < v[k].0);
    } else if j > k {
        assert(v[k].0 < v[j].0);
    }
}

impl Nodes {
    proof fn lemma_ids_in_range(&self, ci: int, i: int)
        requires
            self.wf(),
            0 <= ci < self.chunks@.len(),
            self.ids_at(ci).contains(i),
        ensures
            self.lo(ci) <= i < self.hi(ci),
    {
        match self.chunks@[ci].1 {
            Chunk::Continous(v) => {},
            Chunk::Discrete(v) => {
                let k = choose|k: int| 0 <= k < v@.len() && v@[k].0 == i;
                assert(self.lo(ci) <= v@[k].0 < self.hi(ci));
            },
        }
    }

    /// A stored index lies in exactly one chunk.
    proof fn lemma_chunk_of(&self, ci: int, i: int)
        requires
            self.wf(),
            0 <= ci < self.chunks@.len(),
            self.ids_at(ci).contains(i),
        ensures
            self.contains(i),
            self.chunk_of(i) == ci,
            self.node_at(i) == chunk_node(self.chunks@[ci].1, self.lo(ci), i),
    {
        let cj = self.chunk_of(i);
        assert(0 <= cj < self.chunks@.len() && self.ids_at(cj).contains(i));
        self.lemma_ids_in_range(ci, i);
        self.lemma_ids_in_range(cj, i);
        if cj < ci {
            assert(self.lo(cj + 1) <= self.lo(ci));
        } else if cj > ci {
            assert(self.lo(ci + 1) <= self.lo(cj));
        }
    }

    /// The index of the chunk whose range holds `index`.
    fn find_chunk(&self, index: NodeIndex) -> (ci: usize)
        requires
            self.wf(),
            self.lo(0) <= index < self.next_id,
        ensures
            ci < self.chunks@.len(),
            self.lo(ci as int) <= index < self.hi(ci as int),
    {
        let mut a: usize = 0;
        let mut b: usize = self.chunks.len();
        while a + 1 < b
            invariant
                self.wf(),
                0 <= a < b <= self.chunks@.len(),
                self.lo(a as int) <= index,
                b < self.chunks@.len() ==> self.lo(b as int) > index,
            decreases b - a,
        {
            let m = a + (b - a) / 2;
            if self.chunks[m].0 <= index {
                a = m;
            } else {
                b = m;
            }
        }
        a
    }

    proof fn lemma_contains(&self, i: int) -> (ci: int)
        requires
            self.wf(),
            self.contains(i),
        ensures
            0 <= ci < self.chunks@.len(),
            ci == self.chunk_of(i),
            self.ids_at(ci).contains(i),
            self.lo(0) <= i < self.next_id,
            self.lo(ci) <= i < self.hi(ci),
    {
        let ci = self.chunk_of(i);
        self.lemma_ids_in_range(ci, i);
        assert(self.lo(0) <= self.lo(ci));
        assert(self.hi(ci) <= self.next_id) by {
            if ci + 1 < self.chunks@.len() {
                assert(self.lo(ci + 1) <= self.lo(self.chunks@.len() - 1));
            }
        }
        ci
    }

    /// Creates the storage with one empty consecutive chunk starting at 0.
    pub fn new() -> (s: Self)
        ensures
            s.wf(),
            s.no_gap(),
            s.next_id() == 0,
            s.layout() == seq![(0int, CutType::Continous, Set::<int>::empty())],
    {
        let mut chunks: Vec<(NodeIndex, Chunk)> = Vec::new();
        chunks.push((0, Chunk::Continous(Vec::new())));
        let s = Nodes { chunks, next_id: 0 };
        proof {
            assert(chunk_ids(s.chunks@[0].1, 0) =~= Set::<int>::empty());
            assert(s.layout() =~= seq![(0int, CutType::Continous, Set::<int>::empty())]);
        }
        s
    }

    /// The node stored with index `index`.
    pub fn node(&self, index: NodeIndex) -> (r: &Node)
        requires
            self.wf(),
            self.contains(index as int),
        ensures
            *r == self.node_at(index as int),
    {
        proof {
            self.lemma_contains(index as int);
        }
        let ci = self.find_chunk(index);
        proof {
            let cj = self.chunk_of(index as int);
            if cj < ci {
                assert(self.lo(cj + 1) <= self.lo(ci as int));
            } else if cj > ci {
                assert(self.lo(ci + 1) <= self.lo(cj));
            }
        }
        let start = self.chunks[ci].0;
        match &self.chunks[ci].1 {
            Chunk::Continous(nodes) => &nodes[index - start],
            Chunk::Discrete(nodes) => {
                let k = find_key(nodes, index);
                proof {
                    lemma_key_unique(nodes@, k as int, index);
                }
                &nodes[k].1
            },
        }
    }
}

impl Nodes {
    /// Puts `node` in place of the node stored with index `index` and
    /// hands back the node that was there.
    pub(crate) fn replace_node(&mut self, index: NodeIndex, node: Node) -> (r: Node)
        requires
            old(self).wf(),
            old(self).contains(index as int),
        ensures
            final(self).wf(),
            final(self).layout() == old(self).layout(),
            final(self).next_id() == old(self).next_id(),
            final(self).no_gap() == old(self).no_gap(),
            r == old(self).node_at(index as int),
            forall|i: int| #[trigger] final(self).contains(i) == old(self).contains(i),
            final(self).node_at(index as int) == node,
            forall|i: int|
                i != index && old(self).contains(i) ==> #[trigger] final(self).node_at(i) == old(
                    self,
                ).node_at(i),
    {
        let ghost pre = *old(self);
        proof {
            pre.lemma_contains(index as int);
        }
        let ci = self.find_chunk(index);
        proof {
            let cj = pre.chunk_of(index as int);
            if cj < ci {
                assert(pre.lo(cj + 1) <= pre.lo(ci as int));
            } else if cj > ci {
                assert(pre.lo(ci + 1) <= pre.lo(cj));
            }
        }
        let mut entry: (NodeIndex, Chunk) = (0, Chunk::Continous(Vec::new()));
        self.chunks.set_and_swap(ci, &mut entry);
        let (start, chunk) = entry;
        let mut node = node;
        let chunk = match chunk {
            Chunk::Continous(mut v) => {
                v.set_and_swap(index - start, &mut node);
                Chunk::Continous(v)
            },
            Chunk::Discrete(mut v) => {
                let k = find_key(&v, index);
                proof {
                    lemma_key_unique(v@, k as int, index);
                }
                let mut pair: (NodeIndex, Node) = (index, node);
                v.set_and_swap(k, &mut pair);
                node = pair.1;
                Chunk::Discrete(v)
            },
        };
        let mut entry: (NodeIndex, Chunk) = (start, chunk);
        self.chunks.set_and_swap(ci, &mut entry);
        proof {
            assert forall|cj: int| 0 <= cj < self.chunks@.len() implies #[trigger] self.ids_at(cj)
                =~= pre.ids_at(cj) by {
                if cj == ci {
                    match self.chunks@[cj].1 {
                        Chunk::Continous(v) => {},
                        Chunk::Discrete(v) => {
                            match pre.chunks@[cj].1 {
                                Chunk::Continous(_) => {},
                                Chunk::Discrete(w) => {
                                    assert forall|t: int| 0 <= t < v@.len() implies v@[t].0 == w@[t].0 by {}
                                },
                            }
                        },
                    }
                }
            }
            assert forall|cj: int| 0 <= cj < self.chunks@.len() implies self.chunks@[cj].0
                == pre.chunks@[cj].0 && #[trigger] chunk_kind(self.chunks@[cj].1) == chunk_kind(
                pre.chunks@[cj].1,
            ) by {
                if cj == ci {
                    match pre.chunks@[cj].1 {
                        Chunk::Continous(_) => {},
                        Chunk::Discrete(_) => {},
                    }
                }
            }
            assert(self.chunks@.len() == pre.chunks@.len());
            assert forall|cj: int| 0 <= cj < self.chunks@.len() implies #[trigger] self.layout()[cj]
                == pre.layout()[cj] by {
                assert(self.ids_at(cj) =~= pre.ids_at(cj));
                assert(chunk_kind(self.chunks@[cj].1) == chunk_kind(pre.chunks@[cj].1));
            }
            assert(self.layout() =~= pre.layout());
            assert forall|cj: int| 0 <= cj < self.chunks@.len() implies #[trigger] self.lo(cj)
                == pre.lo(cj) && self.hi(cj) == pre.hi(cj) by {
                assert(self.chunks@[cj].0 == pre.chunks@[cj].0);
                if cj + 1 < self.chunks@.len() {
                    assert(self.chunks@[cj + 1].0 == pre.chunks@[cj + 1].0);
                }
            }
            assert(self.wf()) by {
                assert forall|cj: int| 0 <= cj < self.chunks@.len() implies match #[trigger] self.chunks@[cj].1 {
                    Chunk::Continous(v) => self.lo(cj) + v@.len() <= self.hi(cj),
                    Chunk::Discrete(v) => {
                        &&& keys_ascending(v@)
                        &&& forall|k: int|
                            0 <= k < v@.len() ==> self.lo(cj) <= #[trigger] v@[k].0 < self.hi(cj)
                    },
                } by {
                    if cj == ci {
                        match self.chunks@[cj].1 {
                            Chunk::Continous(v) => {},
                            Chunk::Discrete(v) => {
                                match pre.chunks@[cj].1 {
                                    Chunk::Continous(_) => {},
                                    Chunk::Discrete(w) => {
                                        assert forall|t: int| 0 <= t < v@.len() implies v@[t].0 == w@[t].0 by {}
                                        assert(keys_ascending(w@));
                                        assert forall|k: int|
                                            0 <= k < v@.len() implies self.lo(cj) <= #[trigger] v@[k].0 < self.hi(cj) by {
                                            assert(v@[k].0 == w@[k].0);
                                            assert(pre.lo(cj) <= w@[k].0 < pre.hi(cj));
                                        }
                                    },
                                }
                            },
                        }
                    }
                }
            }
            assert forall|i: int| #[trigger] self.contains(i) == pre.contains(i) by {
                if self.contains(i) {
                    let cj = self.chunk_of(i);
                    assert(pre.ids_at(cj).contains(i));
                }
                if pre.contains(i) {
                    let cj = pre.chunk_of(i);
                    assert(self.ids_at(cj).contains(i));
                }
            }
            assert(self.ids_at(ci as int).contains(index as int));
            self.lemma_chunk_of(ci as int, index as int);
            assert forall|i: int| i != index && pre.contains(i) implies #[trigger] self.node_at(i)
                == pre.node_at(i) by {
                let cj = pre.lemma_contains(i);
                assert(self.ids_at(cj).contains(i));
                self.lemma_chunk_of(cj, i);
                if cj == ci {
                    match self.chunks@[cj].1 {
                        Chunk::Continous(v) => {},
                        Chunk::Discrete(v) => {
                            match pre.chunks@[cj].1 {
                                Chunk::Continous(_) => {},
                                Chunk::Discrete(w) => {
                                    let kw = choose|k: int| 0 <= k < w@.len() && w@[k].0 == i;
                                    assert(v@[kw].0 == i);
                                    lemma_key_unique(w@, kw, i as usize);
                                    assert forall|t: int| 0 <= t < v@.len() implies v@[t].0 == w@[t].0 by {}
                                    lemma_key_unique(v@, kw, i as usize);
                                },
                            }
                        },
                    }
                }
            }
        }
        node
    }
}

/// A chunk after dropping its dead nodes: a consecutive chunk keeps all its
/// nodes, a sparse chunk keeps its live ones.
pub open spec fn prune_chunk(c: ChunkLayout, alive: Set<int>) -> ChunkLayout {
    match c.1 {
        CutType::Continous => c,
        CutType::Discrete => (c.0, c.1, c.2.intersect(alive)),
    }
}

/// A chunk other than the last one stays when one of its nodes is alive.
pub open spec fn chunk_survives(c: ChunkLayout, alive: Set<int>) -> bool {
    exists|i: int| c.2.contains(i) && alive.contains(i)
}

/// The first `n` chunks of `l` after cleanup, in order.
pub open spec fn kept_chunks(l: Seq<ChunkLayout>, alive: Set<int>, n: int) -> Seq<ChunkLayout>
    decreases n,
{
    if n <= 0 {
        Seq::empty()
    } else {
        let p = kept_chunks(l, alive, n - 1);
        if chunk_survives(l[n - 1], alive) {
            p.push(prune_chunk(l[n - 1], alive))
        } else {
            p
        }
    }
}

/// The layout after cleanup: surviving chunks before the last, pruned, then
/// the last chunk, pruned and always kept.
pub open spec fn cleaned_layout(l: Seq<ChunkLayout>, alive: Set<int>) -> Seq<ChunkLayout> {
    kept_chunks(l, alive, l.len() - 1).push(prune_chunk(l.last(), alive))
}

impl Nodes {
    /// The index under which the next pushed node is stored: the slot after
    /// the last node of a consecutive chunk, or the next id in a sparse one.
    pub closed spec fn push_key(&self) -> int {
        match self.chunks@.last().1 {
            Chunk::Continous(v) => self.lo(self.chunks@.len() - 1) + v@.len(),
            Chunk::Discrete(_) => self.next_id as int,
        }
    }

    /// A stored index is one of the indices of a chunk of the layout.
    pub proof fn lemma_contains_layout(&self, i: int)
        requires
            self.wf(),
        ensures
            self.contains(i) <==> exists|ci: int|
                0 <= ci < self.layout().len() && #[trigger] self.layout()[ci].2.contains(i),
            self.layout().len() >= 1,
    {
        if self.contains(i) {
            let ci = self.chunk_of(i);
            assert(self.layout()[ci].2 == self.ids_at(ci));
        }
        if exists|ci: int| 0 <= ci < self.layout().len() && #[trigger] self.layout()[ci].2.contains(i) {
            let ci = choose|ci: int| 0 <= ci < self.layout().len() && #[trigger] self.layout()[ci].2.contains(i);
            assert(self.layout()[ci].2 == self.ids_at(ci));
        }
    }

    /// Allocates the next id and stores the node that `f` builds for it.
    ///
    /// The id is used up even when `f` fails.
    pub fn push<R, E, F>(&mut self, f: F) -> (r: Result<R, E>) where
        F: FnOnce(NodeIndex) -> Result<(Node, R), E>,
        requires
            old(self).wf(),
            old(self).next_id() < usize::MAX,
            f.requires((old(self).next_id() as usize,)),
        ensures
            final(self).wf(),
            final(self).next_id() == old(self).next_id() + 1,
            exists|res: Result<(Node, R), E>|
                #![trigger f.ensures((old(self).next_id() as usize,), res)]
                f.ensures((old(self).next_id() as usize,), res) && match res {
                    Ok((node, ret)) => {
                        let key = old(self).push_key();
                        let last = old(self).layout().len() - 1;
                        let c = old(self).layout()[last];
                        &&& r matches Ok(x) && x == ret
                        &&& final(self).layout() == old(self).layout().update(last, (c.0, c.1, c.2.insert(key)))
                        &&& !old(self).contains(key)
                        &&& final(self).node_at(key) == node
                        &&& forall|i: int| #[trigger] final(self).contains(i) == (old(self).contains(i) || i == key)
                        &&& forall|i: int| old(self).contains(i) ==> #[trigger] final(self).node_at(i) == old(self).node_at(i)
                        &&& final(self).no_gap() == old(self).no_gap()
                    },
                    Err(e) => {
                        &&& r matches Err(x) && x == e
                        &&& final(self).layout() == old(self).layout()
                        &&& forall|i: int| #[trigger] final(self).contains(i) == old(self).contains(i)
                        &&& forall|i: int| old(self).contains(i) ==> #[trigger] final(self).node_at(i) == old(self).node_at(i)
                        &&& final(self).no_gap() == (old(self).layout().last().1 is Discrete)
                    },
                },
    {
        let ghost pre = *old(self);
        let id = self.next_id;
        self.next_id = self.next_id + 1;
        let res = f(id);
        let last = self.chunks.len() - 1;
        proof {
            let l = last as int;
            assert(self.chunks@ == pre.chunks@);
            assert forall|ci: int| 0 <= ci < self.chunks@.len() implies #[trigger] self.ids_at(ci)
                == pre.ids_at(ci) && self.lo(ci) == pre.lo(ci) && (ci < l ==> self.hi(ci) == pre.hi(ci)) by {}
            assert forall|i: int| #[trigger] self.contains(i) == pre.contains(i) by {
                if self.contains(i) {
                    let cj = self.chunk_of(i);
                    assert(pre.ids_at(cj).contains(i));
                }
                if pre.contains(i) {
                    let cj = pre.chunk_of(i);
                    assert(self.ids_at(cj).contains(i));
                }
            }
            assert forall|i: int| pre.contains(i) implies #[trigger] self.node_at(i) == pre.node_at(i) by {
                assert(self.chunk_of(i) == pre.chunk_of(i));
            }
            assert(self.wf()) by {
                assert forall|a: int, b: int| 0 <= a < b < self.chunks@.len() implies self.lo(a) < self.lo(b) by {
                    assert(pre.lo(a) < pre.lo(b));
                }
                assert forall|ci: int| 0 <= ci < self.chunks@.len() implies match #[trigger] self.chunks@[ci].1 {
                    Chunk::Continous(v) => self.lo(ci) + v@.len() <= self.hi(ci),
                    Chunk::Discrete(v) => {
                        &&& keys_ascending(v@)
                        &&& forall|k: int|
                            0 <= k < v@.len() ==> self.lo(ci) <= #[trigger] v@[k].0 < self.hi(ci)
                    },
                } by {
                    assert(pre.hi(ci) <= self.hi(ci));
                    assert(pre.chunks@[ci].1 == self.chunks@[ci].1);
                    assert(self.lo(ci) == pre.lo(ci));
                    match self.chunks@[ci].1 {
                        Chunk::Continous(v) => {},
                        Chunk::Discrete(v) => {
                            assert forall|k: int| 0 <= k < v@.len() implies self.lo(ci) <= #[trigger] v@[k].0 < self.hi(ci) by {
                                assert(pre.lo(ci) <= v@[k].0 < pre.hi(ci));
                            }
                        },
                    }
                }
            }
            assert(self.layout() =~= pre.layout());
        }
        match res {
            Ok((node, ret)) => {
                let ghost mid = *self;
                let mut entry: (NodeIndex, Chunk) = (0, Chunk::Continous(Vec::new()));
                self.chunks.set_and_swap(last, &mut entry);
                let (start, chunk) = entry;
                let ghost key = pre.push_key();
                let chunk = match chunk {
                    Chunk::Continous(mut v) => {
                        v.push(node);
                        Chunk::Continous(v)
                    },
                    Chunk::Discrete(mut v) => {
                        v.push((id, node));
                        Chunk::Discrete(v)
                    },
                };
                let mut entry: (NodeIndex, Chunk) = (start, chunk);
                self.chunks.set_and_swap(last, &mut entry);
                proof {
                    let l = last as int;
                    assert(self.chunks@.len() == pre.chunks@.len());
                    assert forall|ci: int| 0 <= ci < self.chunks@.len() implies #[trigger] self.lo(ci) == pre.lo(ci) by {}
                    assert forall|ci: int| 0 <= ci < l implies #[trigger] self.ids_at(ci) == pre.ids_at(ci)
                        && self.hi(ci) == pre.hi(ci) && self.chunks@[ci] == pre.chunks@[ci] by {}
                    assert(self.ids_at(l) =~= pre.ids_at(l).insert(key)) by {
                        match pre.chunks@[l].1 {
                            Chunk::Continous(w) => {},
                            Chunk::Discrete(w) => {
                                match self.chunks@[l].1 {
                                    Chunk::Continous(_) => {},
                                    Chunk::Discrete(v) => {
                                        assert(v@ == w@.push((id, node)));
                                        assert forall|i: int| #[trigger] self.ids_at(l).contains(i) == pre.ids_at(l).insert(key).contains(i) by {
                                            if pre.ids_at(l).contains(i) {
                                                let k = choose|k: int| 0 <= k < w@.len() && w@[k].0 == i;
                                                assert(v@[k].0 == i);
                                            }
                                            if i == key {
                                                assert(v@[w@.len() as int].0 == i);
                                            }
                                        }
                                    },
                                }
                            },
                        }
                    }
                    assert(!pre.contains(key)) by {
                        if pre.contains(key) {
                            let cj = pre.lemma_contains(key);
                            if cj < l {
                                if cj + 1 < l {
                                    assert(pre.lo(cj + 1) < pre.lo(l));
                                }
                                assert(pre.hi(cj) <= pre.lo(l));
                            }
                            match pre.chunks@[l].1 {
                                Chunk::Continous(w) => {
                                    if cj == l {
                                        assert(pre.ids_at(l).contains(key));
                                    }
                                    assert(pre.lo(l) <= key);
                                },
                                Chunk::Discrete(w) => {},
                            }
                        }
                    }
                    assert(self.wf()) by {
                        assert forall|ci: int| 0 <= ci < self.chunks@.len() implies match #[trigger] self.chunks@[ci].1 {
                            Chunk::Continous(v) => self.lo(ci) + v@.len() <= self.hi(ci),
                            Chunk::Discrete(v) => {
                                &&& keys_ascending(v@)
                                &&& forall|k: int|
                                    0 <= k < v@.len() ==> self.lo(ci) <= #[trigger] v@[k].0 < self.hi(ci)
                            },
                        } by {
                            if ci == l {
                                match pre.chunks@[l].1 {
                                    Chunk::Continous(w) => {},
                                    Chunk::Discrete(w) => {
                                        match self.chunks@[l].1 {
                                            Chunk::Continous(_) => {},
                                            Chunk::Discrete(v) => {
                                                assert(v@ == w@.push((id, node)));
                                                assert forall|k: int| 0 <= k < w@.len() implies #[trigger] w@[k].0 < id by {
                                                    assert(pre.lo(l) <= w@[k].0 < pre.hi(l));
                                                }
                                                assert forall|k: int| 0 <= k < v@.len() implies self.lo(ci) <= #[trigger] v@[k].0 < self.hi(ci) by {
                                                    if k < w@.len() {
                                                        assert(v@[k] == w@[k]);
                                                        assert(pre.lo(l) <= w@[k].0 < pre.hi(l));
                                                    }
                                                }
                                                assert forall|a: int, b: int| 0 <= a < b < v@.len() implies v@[a].0 < v@[b].0 by {
                                                    if b == w@.len() {
                                                        assert(v@[a] == w@[a]);
                                                        assert(w@[a].0 < id);
                                                    } else {
                                                        assert(v@[a] == w@[a]);
                                                        assert(v@[b] == w@[b]);
                                                    }
                                                }
                                            },
                                        }
                                    },
                                }
                            }
                        }
                    }
                    assert(self.layout() =~= pre.layout().update(l, (pre.layout()[l].0, pre.layout()[l].1, pre.layout()[l].2.insert(key)))) by {
                        assert forall|ci: int| 0 <= ci < self.chunks@.len() implies #[trigger] chunk_kind(self.chunks@[ci].1) == chunk_kind(pre.chunks@[ci].1) by {
                            if ci == l {
                                match pre.chunks@[l].1 {
                                    Chunk::Continous(w) => {},
                                    Chunk::Discrete(w) => {},
                                }
                            }
                        }
                    }
                    assert(self.ids_at(l).contains(key));
                    self.lemma_chunk_of(l, key);
                    assert(self.node_at(key) == node) by {
                        match pre.chunks@[l].1 {
                            Chunk::Continous(w) => {},
                            Chunk::Discrete(w) => {
                                match self.chunks@[l].1 {
                                    Chunk::Continous(_) => {},
                                    Chunk::Discrete(v) => {
                                        lemma_key_unique(v@, w@.len() as int, id);
                                    },
                                }
                            },
                        }
                    }
                    assert forall|i: int| #[trigger] self.contains(i) == (pre.contains(i) || i == key) by {
                        if self.contains(i) {
                            let cj = self.chunk_of(i);
                            if cj != l {
                                assert(pre.ids_at(cj).contains(i));
                            } else if i != key {
                                assert(pre.ids_at(cj).contains(i));
                            }
                        }
                        if pre.contains(i) {
                            let cj = pre.chunk_of(i);
                            assert(self.ids_at(cj).contains(i));
                        }
                    }
                    assert forall|i: int| pre.contains(i) implies #[trigger] self.node_at(i) == pre.node_at(i) by {
                        let cj = pre.lemma_contains(i);
                        assert(self.ids_at(cj).contains(i));
                        self.lemma_chunk_of(cj, i);
                        if cj == l {
                            match pre.chunks@[l].1 {
                                Chunk::Continous(w) => {},
                                Chunk::Discrete(w) => {
                                    match self.chunks@[l].1 {
                                        Chunk::Continous(_) => {},
                                        Chunk::Discrete(v) => {
                                            let k = choose|k: int| 0 <= k < w@.len() && w@[k].0 == i;
                                            lemma_key_unique(w@, k, i as usize);
                                            assert(v@[k] == w@[k]);
                                            lemma_key_unique(v@, k, i as usize);
                                        },
                                    }
                                },
                            }
                        }
                    }
                }
                Ok(ret)
            },
            Err(e) => Err(e),
        }
    }
}

impl Nodes {
    /// Create a new chunk based on the [CutType]
    fn new_chunk(cut_result: CutType) -> (c: Chunk)
        ensures
            chunk_kind(c) == cut_result,
            forall|lo: int| #[trigger] chunk_ids(c, lo) == Set::<int>::empty(),
            match c {
                Chunk::Continous(v) => v@.len() == 0,
                Chunk::Discrete(v) => v@.len() == 0,
            },
    {
        let c = match cut_result {
            CutType::Continous => Chunk::Continous(Vec::new()),
            CutType::Discrete => Chunk::Discrete(Vec::new()),
        };
        proof {
            assert forall|lo: int| #[trigger] chunk_ids(c, lo) == Set::<int>::empty() by {
                assert(chunk_ids(c, lo) =~= Set::<int>::empty());
            }
        }
        c
    }

    /// Cut a new chunk.
    ///
    /// An empty last chunk is reused: it is kept when it already has the
    /// requested kind and replaced otherwise.
    pub fn cut(&mut self, cut_result: CutType)
        requires
            old(self).wf(),
        ensures
            final(self).wf(),
            final(self).next_id() == old(self).next_id(),
            forall|i: int| #[trigger] final(self).contains(i) == old(self).contains(i),
            forall|i: int| old(self).contains(i) ==> #[trigger] final(self).node_at(i) == old(self).node_at(i),
            ({
                let l = old(self).layout();
                let c = l.last();
                if c.2 == Set::<int>::empty() {
                    if c.1 == cut_result {
                        final(self).layout() == l
                    } else {
                        final(self).layout() == l.update(l.len() - 1, (c.0, cut_result, Set::<int>::empty()))
                    }
                } else {
                    final(self).layout() == l.push((old(self).next_id(), cut_result, Set::<int>::empty()))
                }
            }),
            final(self).no_gap() == (old(self).layout().last().2 != Set::<int>::empty() || cut_result is Discrete
                || old(self).layout().last().0 == old(self).next_id()),
    {
        let ghost pre = *old(self);
        let last = self.chunks.len() - 1;
        let is_empty = match &self.chunks[last].1 {
            Chunk::Continous(nodes) => nodes.len() == 0,
            Chunk::Discrete(nodes) => nodes.len() == 0,
        };
        proof {
            let l = last as int;
            match self.chunks@[l].1 {
                Chunk::Continous(v) => {
                    if v@.len() > 0 {
                        assert(self.ids_at(l).contains(self.lo(l)));
                    } else {
                        assert(self.ids_at(l) =~= Set::<int>::empty());
                    }
                },
                Chunk::Discrete(v) => {
                    if v@.len() > 0 {
                        assert(self.ids_at(l).contains(v@[0].0 as int));
                    } else {
                        assert(self.ids_at(l) =~= Set::<int>::empty());
                    }
                },
            }
            assert(pre.layout()[l].2 == self.ids_at(l));
        }
        if is_empty {
            let matches = match (&self.chunks[last].1, cut_result) {
                (Chunk::Continous(_), CutType::Continous) => true,
                (Chunk::Discrete(_), CutType::Discrete) => true,
                _ => false,
            };
            if matches {
                return;
            }
            let start = self.chunks[last].0;
            self.chunks.set(last, (start, Nodes::new_chunk(cut_result)));
            proof {
                let l = last as int;
                assert forall|ci: int| 0 <= ci < self.chunks@.len() implies #[trigger] self.lo(ci) == pre.lo(ci)
                    && self.hi(ci) == pre.hi(ci) by {}
                assert forall|ci: int| 0 <= ci < self.chunks@.len() implies #[trigger] self.ids_at(ci) == pre.ids_at(ci) by {
                    if ci == l {
                        assert(pre.ids_at(ci) =~= Set::<int>::empty());
                    }
                }
                assert(self.layout() =~= pre.layout().update(l, (pre.layout()[l].0, cut_result, Set::<int>::empty())));
                assert(self.wf()) by {
                    assert forall|ci: int| 0 <= ci < self.chunks@.len() implies match #[trigger] self.chunks@[ci].1 {
                        Chunk::Continous(v) => self.lo(ci) + v@.len() <= self.hi(ci),
                        Chunk::Discrete(v) => {
                            &&& keys_ascending(v@)
                            &&& forall|k: int|
                                0 <= k < v@.len() ==> self.lo(ci) <= #[trigger] v@[k].0 < self.hi(ci)
                        },
                    } by {
                        if ci != l {
                            assert(pre.chunks@[ci].1 == self.chunks@[ci].1);
                        }
                    }
                }
                assert forall|i: int| #[trigger] self.contains(i) == pre.contains(i) by {
                    if self.contains(i) {
                        let cj = self.chunk_of(i);
                        assert(pre.ids_at(cj).contains(i));
                    }
                    if pre.contains(i) {
                        let cj = pre.chunk_of(i);
                        assert(self.ids_at(cj).contains(i));
                    }
                }
                assert forall|i: int| pre.contains(i) implies #[trigger] self.node_at(i) == pre.node_at(i) by {
                    let cj = pre.lemma_contains(i);
                    assert(self.ids_at(cj).contains(i));
                    self.lemma_chunk_of(cj, i);
                    assert(cj != l);
                    assert(pre.chunks@[cj] == self.chunks@[cj]);
                }
            }
            return;
        }
        let chunk = Nodes::new_chunk(cut_result);
        self.chunks.push((self.next_id, chunk));
        proof {
            let l = last as int;
            let n = self.chunks@.len() - 1;
            assert forall|ci: int| 0 <= ci < n implies #[trigger] self.lo(ci) == pre.lo(ci)
                && self.ids_at(ci) == pre.ids_at(ci) && self.chunks@[ci] == pre.chunks@[ci] by {}
            assert forall|ci: int| 0 <= ci < l implies #[trigger] self.hi(ci) == pre.hi(ci) by {}
            assert(self.hi(l) == self.next_id);
            assert(self.ids_at(n) =~= Set::<int>::empty());
            assert(self.layout() =~= pre.layout().push((pre.next_id(), cut_result, Set::<int>::empty()))) by {
                assert(self.layout()[n] == (pre.next_id(), cut_result, Set::<int>::empty()));
            }
            assert(self.wf()) by {
                assert forall|a: int, b: int| 0 <= a < b < self.chunks@.len() implies self.lo(a) < self.lo(b) by {
                    if b == n {
                        match pre.chunks@[l].1 {
                            Chunk::Continous(v) => {
                                assert(v@.len() > 0) by {
                                    if v@.len() == 0 {
                                        assert(pre.ids_at(l) =~= Set::<int>::empty());
                                    }
                                }
                            },
                            Chunk::Discrete(v) => {
                                assert(v@.len() > 0) by {
                                    if v@.len() == 0 {
                                        assert(pre.ids_at(l) =~= Set::<int>::empty());
                                    }
                                }
                                assert(pre.lo(l) <= v@[0].0 < pre.hi(l));
                            },
                        }
                        assert(pre.lo(l) < pre.next_id);
                        if a < l {
                            assert(pre.lo(a) < pre.lo(l));
                        }
                    } else {
                        assert(pre.lo(a) < pre.lo(b));
                    }
                }
                assert forall|ci: int| 0 <= ci < self.chunks@.len() implies match #[trigger] self.chunks@[ci].1 {
                    Chunk::Continous(v) => self.lo(ci) + v@.len() <= self.hi(ci),
                    Chunk::Discrete(v) => {
                        &&& keys_ascending(v@)
                        &&& forall|k: int|
                            0 <= k < v@.len() ==> self.lo(ci) <= #[trigger] v@[k].0 < self.hi(ci)
                    },
                } by {
                    if ci < n {
                        assert(pre.chunks@[ci].1 == self.chunks@[ci].1);
                        assert(pre.hi(ci) == self.hi(ci));
                    }
                }
            }
            assert forall|i: int| #[trigger] self.contains(i) == pre.contains(i) by {
                if self.contains(i) {
                    let cj = self.chunk_of(i);
                    assert(cj != n);
                    assert(pre.ids_at(cj).contains(i));
                }
                if pre.contains(i) {
                    let cj = pre.chunk_of(i);
                    assert(self.ids_at(cj).contains(i));
                }
            }
            assert forall|i: int| pre.contains(i) implies #[trigger] self.node_at(i) == pre.node_at(i) by {
                let cj = pre.lemma_contains(i);
                assert(self.ids_at(cj).contains(i));
                self.lemma_chunk_of(cj, i);
            }
        }
    }
}

/// Whether a node of the chunk is alive; a sparse chunk also drops its dead
/// nodes.
fn cleanup_chunk(start: NodeIndex, chunk: Chunk, alive: &OffsetBitSet) -> (r: (Chunk, bool))
    requires
        match chunk {
            Chunk::Continous(v) => start + v@.len() <= usize::MAX,
            Chunk::Discrete(v) => keys_ascending(v@),
        },
    ensures
        chunk_layout((start, r.0)) == prune_chunk(chunk_layout((start, chunk)), alive@),
        r.1 == chunk_survives(chunk_layout((start, chunk)), alive@),
        prunes_to(chunk, r.0),
{
    let ghost c = chunk_layout((start, chunk));
    match chunk {
        Chunk::Continous(v) => {
            let len = v.len();
            let mut p: usize = 0;
            let mut found = false;
            while p < len && !found
                invariant
                    p <= len,
                    len == v@.len(),
                    start + len <= usize::MAX,
                    found ==> chunk_survives(c, alive@),
                    !found ==> forall|i: int| start <= i < start + p ==> !#[trigger] alive@.contains(i),
                    c.2 == Set::new(|i: int| start <= i < start + v@.len()),
                decreases len - p,
            {
                if alive.contains(start + p) {
                    found = true;
                    assert(c.2.contains(start + p));
                }
                p = p + 1;
            }
            let r = (Chunk::Continous(v), found);
            proof {
                if !found {
                    assert forall|i: int| !(c.2.contains(i) && alive@.contains(i)) by {
                        if c.2.contains(i) {
                            assert(start <= i < start + p);
                        }
                    }
                }
            }
            r
        },
        Chunk::Discrete(mut v) => {
            let ghost v0 = v@;
            let len = v.len();
            let mut w: Vec<(NodeIndex, Node)> = Vec::new();
            let ghost mut src: Seq<int> = Seq::empty();
            let mut k: usize = 0;
            while k < len
                invariant
                    k <= len,
                    len == v@.len() == v0.len(),
                    forall|t: int| k <= t < len ==> v@[t] == v0[t],
                    src.len() == w@.len(),
                    forall|t: int| 0 <= t < src.len() ==> 0 <= #[trigger] src[t] < k,
                    forall|t: int| 0 <= t < w@.len() ==> #[trigger] w@[t] == v0[src[t]],
                    forall|a: int, b: int| 0 <= a < b < src.len() ==> src[a] < src[b],
                    forall|t: int| 0 <= t < w@.len() ==> alive@.contains(#[trigger] w@[t].0 as int),
                    forall|j: int| 0 <= j < k && alive@.contains(#[trigger] v0[j].0 as int) ==> src.contains(j),
                decreases len - k,
            {
                let mut entry: (NodeIndex, Node) = (0, Node::new());
                v.set_and_swap(k, &mut entry);
                if alive.contains(entry.0) {
                    let ghost wb = w@;
                    w.push(entry);
                    proof {
                        let sb = src;
                        src = src.push(k as int);
                        assert(w@[sb.len() as int] == v0[k as int]);
                        assert forall|t: int| 0 <= t < w@.len() implies 0 <= src[t] < k + 1 && #[trigger] w@[t] == v0[src[t]] by {
                            if t < sb.len() {
                                assert(src[t] == sb[t]);
                                assert(w@[t] == wb[t]);
                            }
                        }
                        assert forall|a: int, b: int| 0 <= a < b < src.len() implies src[a] < src[b] by {
                            if b < sb.len() {
                                assert(src[a] == sb[a] && src[b] == sb[b]);
                            } else {
                                assert(src[a] == sb[a]);
                                assert(w@[a] == v0[src[a]]);
                            }
                        }
                        assert forall|j: int| 0 <= j < k + 1 && alive@.contains(#[trigger] v0[j].0 as int) implies src.contains(j) by {
                            if j < k {
                                let t = choose|t: int| 0 <= t < sb.len() && sb[t] == j;
                                assert(src[t] == j);
                            } else {
                                assert(src[sb.len() as int] == j);
                            }
                        }
                    }
                }
                k = k + 1;
            }
            let keep = w.len() > 0;
            let r = (Chunk::Discrete(w), keep);
            proof {
                assert forall|a: int, b: int| 0 <= a < b < w@.len() implies w@[a].0 < w@[b].0 by {
                    assert(w@[a] == v0[src[a]]);
                    assert(w@[b] == v0[src[b]]);
                }
                assert forall|t: int| 0 <= t < w@.len() implies v0.contains(#[trigger] w@[t]) by {
                    assert(w@[t] == v0[src[t]]);
                }
                assert(chunk_ids(r.0, start as int) =~= c.2.intersect(alive@)) by {
                    assert forall|i: int| #[trigger] chunk_ids(r.0, start as int).contains(i) == c.2.intersect(alive@).contains(i) by {
                        if chunk_ids(r.0, start as int).contains(i) {
                            let t = choose|t: int| 0 <= t < w@.len() && w@[t].0 == i;
                            assert(w@[t] == v0[src[t]]);
                            assert(alive@.contains(w@[t].0 as int));
                        }
                        if c.2.intersect(alive@).contains(i) {
                            let j = choose|j: int| 0 <= j < v0.len() && v0[j].0 == i;
                            assert(alive@.contains(v0[j].0 as int));
                            assert(src.contains(j));
                            let t = choose|t: int| 0 <= t < src.len() && src[t] == j;
                            assert(w@[t] == v0[j]);
                        }
                    }
                }
                if keep {
                    assert(w@[0] == v0[src[0]]);
                    assert(c.2.contains(w@[0].0 as int));
                    assert(alive@.contains(w@[0].0 as int));
                } else {
                    assert forall|i: int| !(c.2.contains(i) && alive@.contains(i)) by {
                        if c.2.contains(i) && alive@.contains(i) {
                            let j = choose|j: int| 0 <= j < v0.len() && v0[j].0 == i;
                            assert(alive@.contains(v0[j].0 as int));
                            assert(src.contains(j));
                        }
                    }
                }
            }
            r
        },
    }
}

/// `r` is `c` with some sparse entries dropped.
spec fn prunes_to(c: Chunk, r: Chunk) -> bool {
    match c {
        Chunk::Continous(v) => r == c,
        Chunk::Discrete(v) => r matches Chunk::Discrete(w) && keys_ascending(w@) && forall|q: int|
            0 <= q < w@.len() ==> v@.contains(#[trigger] w@[q]),
    }
}

/// A pruned chunk's node under a kept index is the node it had.
proof fn lemma_pruned_node(c: Chunk, r: Chunk, lo: int, i: int)
    requires
        prunes_to(c, r),
        c matches Chunk::Discrete(v) ==> keys_ascending(v@),
        chunk_ids(r, lo).contains(i),
    ensures
        chunk_ids(c, lo).contains(i),
        chunk_node(r, lo, i) == chunk_node(c, lo, i),
{
    match c {
        Chunk::Continous(v) => {},
        Chunk::Discrete(v) => {
            match r {
                Chunk::Continous(_) => {},
                Chunk::Discrete(w) => {
                    let t = choose|t: int| 0 <= t < w@.len() && w@[t].0 == i;
                    assert(v@.contains(w@[t]));
                    let j = choose|j: int| 0 <= j < v@.len() && v@[j] == w@[t];
                    lemma_key_unique(w@, t, i as usize);
                    lemma_key_unique(v@, j, i as usize);
                },
            }
        },
    }
}

impl Nodes {
    /// Remove dead nodes and chunks whose nodes are all dead.
    ///
    /// `alive` holds the indices of the live nodes. Every chunk but the last
    /// is dropped when none of its nodes is alive; a sparse chunk keeps only
    /// its live nodes; a consecutive chunk keeps all of them.
    pub fn cleanup(&mut self, alive: &OffsetBitSet)
        requires
            old(self).wf(),
        ensures
            final(self).wf(),
            final(self).next_id() == old(self).next_id(),
            final(self).no_gap() == old(self).no_gap(),
            final(self).layout() == cleaned_layout(old(self).layout(), alive@),
            forall|i: int| #[trigger] final(self).contains(i) ==> old(self).contains(i) && final(self).node_at(i) == old(self).node_at(i),
    {
        let ghost pre = *old(self);
        let ghost pl = pre.layout();
        let mut old_chunks: Vec<(NodeIndex, Chunk)> = Vec::new();
        std::mem::swap(&mut self.chunks, &mut old_chunks);
        let last = old_chunks.pop();
        let (last_start, last_chunk) = last.unwrap();
        let n = old_chunks.len();
        let ghost mut idx: Seq<int> = Seq::empty();
        let mut k: usize = 0;
        while k < n
            invariant
                k <= n,
                n == old_chunks@.len() == pre.chunks@.len() - 1,
                pre.wf(),
                pl == pre.layout(),
                self.next_id == pre.next_id,
                forall|t: int| k <= t < n ==> old_chunks@[t] == pre.chunks@[t],
                idx.len() == self.chunks@.len(),
                forall|t: int| 0 <= t < idx.len() ==> 0 <= #[trigger] idx[t] < k,
                forall|a: int, b: int| 0 <= a < b < idx.len() ==> idx[a] < idx[b],
                forall|t: int| 0 <= t < idx.len() ==> #[trigger] self.chunks@[t].0 == pre.chunks@[idx[t]].0,
                forall|t: int| 0 <= t < idx.len() ==> prunes_to(#[trigger] pre.chunks@[idx[t]].1, self.chunks@[t].1),
                forall|t: int| 0 <= t < idx.len() ==> chunk_layout(#[trigger] self.chunks@[t]) == prune_chunk(pl[idx[t]], alive@),
                self.chunks@.map(|ci: int, e: (NodeIndex, Chunk)| chunk_layout(e)) == kept_chunks(pl, alive@, k as int),
            decreases n - k,
        {
            let mut entry: (NodeIndex, Chunk) = (0, Chunk::Continous(Vec::new()));
            old_chunks.set_and_swap(k, &mut entry);
            let (start, chunk) = entry;
            proof {
                let ki = k as int;
                assert(pre.chunks@[ki] == (start, chunk));
                let gc = pre.chunks@[ki].1;
                match gc {
                    Chunk::Continous(v) => {
                        assert(pre.lo(ki) + v@.len() <= pre.hi(ki));
                        assert(pre.hi(ki) <= pre.next_id) by {
                            assert(pre.lo(ki + 1) <= pre.lo(pre.chunks@.len() - 1));
                        }
                    },
                    Chunk::Discrete(v) => {},
                }
            }
            let ghost in_chunk = chunk;
            let (chunk, keep) = cleanup_chunk(start, chunk, alive);
            if keep {
                let ghost cb = self.chunks@;
                self.chunks.push((start, chunk));
                proof {
                    let ib = idx;
                    idx = idx.push(k as int);
                    assert(self.chunks@.map(|ci: int, e: (NodeIndex, Chunk)| chunk_layout(e)) =~= cb.map(|ci: int, e: (NodeIndex, Chunk)| chunk_layout(e)).push(prune_chunk(pl[k as int], alive@)));
                    assert forall|t: int| 0 <= t < idx.len() implies #[trigger] self.chunks@[t].0 == pre.chunks@[idx[t]].0 by {
                        if t < ib.len() {
                            assert(self.chunks@[t] == cb[t]);
                        }
                    }
                    assert forall|t: int| 0 <= t < idx.len() implies chunk_layout(#[trigger] self.chunks@[t]) == prune_chunk(pl[idx[t]], alive@) by {
                        if t < ib.len() {
                            assert(self.chunks@[t] == cb[t]);
                        }
                    }
                    assert forall|t: int| 0 <= t < idx.len() implies prunes_to(#[trigger] pre.chunks@[idx[t]].1, self.chunks@[t].1) by {
                        if t < ib.len() {
                            assert(self.chunks@[t] == cb[t]);
                        } else {
                            assert(pre.chunks@[idx[t]].1 == in_chunk);
                            assert(self.chunks@[t].1 == chunk);
                        }
                    }
                }
            } else {
                proof {
                    assert(self.chunks@.map(|ci: int, e: (NodeIndex, Chunk)| chunk_layout(e)) =~= kept_chunks(pl, alive@, k + 1));
                }
            }
            k = k + 1;
        }
        proof {
            let l = pre.chunks@.len() - 1;
            assert(pre.chunks@[l] == (last_start, last_chunk));
            let gc = pre.chunks@[l].1;
            match gc {
                Chunk::Continous(v) => {
                    assert(pre.lo(l) + v@.len() <= pre.hi(l));
                },
                Chunk::Discrete(v) => {},
            }
        }
        let ghost in_last = last_chunk;
        let (last_chunk, _) = cleanup_chunk(last_start, last_chunk, alive);
        let ghost cb = self.chunks@;
        self.chunks.push((last_start, last_chunk));
        proof {
            let l = pre.chunks@.len() - 1;
            let ib = idx;
            idx = idx.push(l);
            let m = self.chunks@.len() - 1;
            assert forall|t: int| 0 <= t < m implies #[trigger] self.chunks@[t] == cb[t] by {}
            assert forall|t: int| 0 <= t <= m implies #[trigger] self.chunks@[t].0 == pre.chunks@[idx[t]].0 by {
                if t < m {
                    assert(self.chunks@[t] == cb[t]);
                }
            }
            assert forall|t: int| 0 <= t <= m implies chunk_layout(#[trigger] self.chunks@[t]) == prune_chunk(pl[idx[t]], alive@) by {
                if t < m {
                    assert(self.chunks@[t] == cb[t]);
                }
            }
            assert forall|t: int| 0 <= t <= m implies prunes_to(#[trigger] pre.chunks@[idx[t]].1, self.chunks@[t].1) by {
                if t < m {
                    assert(self.chunks@[t] == cb[t]);
                } else {
                    assert(pre.chunks@[idx[t]].1 == in_last);
                    assert(self.chunks@[t].1 == last_chunk);
                }
            }
            assert forall|a: int, b: int| 0 <= a < b < idx.len() implies idx[a] < idx[b] by {
                if b == m {
                    assert(idx[a] == ib[a]);
                } else {
                    assert(idx[a] == ib[a] && idx[b] == ib[b]);
                }
            }
            assert(self.layout() =~= cleaned_layout(pl, alive@)) by {
                assert(pl.len() - 1 == l);
                assert(self.layout() =~= cb.map(|ci: int, e: (NodeIndex, Chunk)| chunk_layout(e)).push(prune_chunk(pl.last(), alive@)));
            }
            // each new chunk's range lies inside the range of the chunk it came from
            assert forall|t: int| 0 <= t <= m implies #[trigger] self.lo(t) == pre.lo(idx[t]) && pre.hi(idx[t]) <= self.hi(t) by {
                if t < m {
                    assert(idx[t] < idx[t + 1]);
                    assert(self.lo(t + 1) == pre.lo(idx[t + 1]));
                    if idx[t] + 1 < idx[t + 1] {
                        assert(pre.lo(idx[t] + 1) < pre.lo(idx[t + 1]));
                    }
                } else {
                    assert(idx[t] == l);
                }
            }
            assert(self.wf()) by {
                assert forall|a: int, b: int| 0 <= a < b < self.chunks@.len() implies self.lo(a) < self.lo(b) by {
                    assert(idx[a] < idx[b]);
                    assert(pre.lo(idx[a]) < pre.lo(idx[b]));
                }
                assert(self.lo(m) == pre.lo(l));
                assert forall|ci: int| 0 <= ci < self.chunks@.len() implies match #[trigger] self.chunks@[ci].1 {
                    Chunk::Continous(v) => self.lo(ci) + v@.len() <= self.hi(ci),
                    Chunk::Discrete(v) => {
                        &&& keys_ascending(v@)
                        &&& forall|k: int|
                            0 <= k < v@.len() ==> self.lo(ci) <= #[trigger] v@[k].0 < self.hi(ci)
                    },
                } by {
                    let j = idx[ci];
                    assert(self.chunks@[ci].0 == pre.chunks@[idx[ci]].0);
                    if ci < m {
                        assert(idx[ci] < idx[ci + 1]);
                        assert(self.chunks@[ci + 1].0 == pre.chunks@[idx[ci + 1]].0);
                        if idx[ci] + 1 < idx[ci + 1] {
                            assert(pre.lo(idx[ci] + 1) < pre.lo(idx[ci + 1]));
                        }
                    } else {
                        assert(idx[ci] == l);
                    }
                    assert(self.lo(ci) == pre.lo(j) && pre.hi(j) <= self.hi(ci));
                    match pre.chunks@[j].1 {
                        Chunk::Continous(v) => {},
                        Chunk::Discrete(v) => {
                            match self.chunks@[ci].1 {
                                Chunk::Continous(_) => {},
                                Chunk::Discrete(w) => {
                                    assert forall|q: int| 0 <= q < w@.len() implies self.lo(ci) <= #[trigger] w@[q].0 < self.hi(ci) by {
                                        assert(v@.contains(w@[q]));
                                        let jj = choose|jj: int| 0 <= jj < v@.len() && v@[jj] == w@[q];
                                        assert(pre.lo(j) <= v@[jj].0 < pre.hi(j));
                                    }
                                },
                            }
                        },
                    }
                }
            }
            assert(self.no_gap() == pre.no_gap()) by {
                assert(self.chunks@[m].1 == pre.chunks@[l].1 || pre.chunks@[l].1 is Discrete);
                match pre.chunks@[l].1 {
                    Chunk::Continous(v) => {},
                    Chunk::Discrete(v) => {
                        match self.chunks@[m].1 {
                            Chunk::Continous(_) => {},
                            Chunk::Discrete(_) => {},
                        }
                    },
                }
            }
            assert forall|i: int| #[trigger] self.contains(i) implies pre.contains(i) && self.node_at(i) == pre.node_at(i) by {
                let ci = self.chunk_of(i);
                let j = idx[ci];
                lemma_pruned_node(pre.chunks@[j].1, self.chunks@[ci].1, self.lo(ci), i);
                pre.lemma_chunk_of(j, i);
                self.lemma_chunk_of(ci, i);
            }
        }
    }
}

impl Nodes {
    /// Stored indices lie below the next id.
    pub proof fn lemma_contains_bounds(&self, i: int)
        requires
            self.wf(),
        ensures
            self.contains(i) ==> 0 <= i < self.next_id(),
            0 <= self.next_id(),
    {
        if self.contains(i) {
            self.lemma_contains(i);
        }
    }
}


impl Nodes {
    /// Start index, storage kind and number of stored nodes of each chunk,
    /// first to last.
    pub fn chunk_summary(&self) -> (r: Vec<(NodeIndex, CutType, usize)>)
        requires
            self.wf(),
        ensures
            r@.len() == self.layout().len(),
            forall|t: int|
                0 <= t < r@.len() ==> {
                    &&& (#[trigger] r@[t]).0 as int == self.layout()[t].0
                    &&& r@[t].1 == self.layout()[t].1
                    &&& self.layout()[t].2.finite()
                    &&& r@[t].2 as int == self.layout()[t].2.len()
                },
    {
        let mut r: Vec<(NodeIndex, CutType, usize)> = Vec::new();
        let mut ci: usize = 0;
        while ci < self.chunks.len()
            invariant
                ci <= self.chunks@.len(),
                r@.len() == ci,
                self.wf(),
                forall|t: int|
                    0 <= t < ci ==> {
                        &&& (#[trigger] r@[t]).0 as int == self.layout()[t].0
                        &&& r@[t].1 == self.layout()[t].1
                        &&& self.layout()[t].2.finite()
                        &&& r@[t].2 as int == self.layout()[t].2.len()
                    },
            decreases self.chunks@.len() - ci,
        {
            let start = self.chunks[ci].0;
            let ghost lay = self.layout()[ci as int];
            proof {
                assert(lay == chunk_layout(self.chunks@[ci as int]));
                assert(lay.0 == start as int);
                assert(lay.1 == chunk_kind(self.chunks@[ci as int].1));
                assert(lay.2 == chunk_ids(self.chunks@[ci as int].1, start as int));
            }
            let entry = match &self.chunks[ci].1 {
                Chunk::Continous(v) => {
                    proof {
                        let lo = start as int;
                        assert(chunk_ids(self.chunks@[ci as int].1, lo) =~= vstd::set_lib::set_int_range(lo, lo + v@.len()));
                        vstd::set_lib::lemma_int_range(lo, lo + v@.len());
                    }
                    (start, CutType::Continous, v.len())
                },
                Chunk::Discrete(v) => {
                    proof {
                        let lo = start as int;
                        let keys = v@.map_values(|e: (NodeIndex, Node)| e.0 as int);
                        assert(keys.no_duplicates()) by {
                            assert(keys_ascending(v@));
                            assert forall|a: int, b: int| 0 <= a < b < keys.len() implies keys[a] != keys[b] by {
                                assert(v@[a].0 < v@[b].0);
                            }
                        }
                        keys.unique_seq_to_set();
                        assert forall|i: int| #[trigger] chunk_ids(self.chunks@[ci as int].1, lo).contains(i) == keys.to_set().contains(i) by {
                            if chunk_ids(self.chunks@[ci as int].1, lo).contains(i) {
                                let k = choose|k: int| 0 <= k < v@.len() && v@[k].0 == i;
                                assert(keys[k] == i);
                            }
                            if keys.to_set().contains(i) {
                                let k = choose|k: int| 0 <= k < keys.len() && keys[k] == i;
                                assert(v@[k].0 == i);
                            }
                        }
                        assert(chunk_ids(self.chunks@[ci as int].1, lo) =~= keys.to_set());
                    }
                    (start, CutType::Discrete, v.len())
                },
            };
            proof {
                assert(entry.0 as int == lay.0 && entry.1 == lay.1 && lay.2.finite() && entry.2 as int == lay.2.len());
            }
            let ghost r0 = r@;
            r.push(entry);
            proof {
                assert forall|t: int| 0 <= t < ci + 1 implies {
                    &&& (#[trigger] r@[t]).0 as int == self.layout()[t].0
                    &&& r@[t].1 == self.layout()[t].1
                    &&& self.layout()[t].2.finite()
                    &&& r@[t].2 as int == self.layout()[t].2.len()
                } by {
                    if t < ci {
                        assert(r@[t] == r0[t]);
                    }
                }
            }
            ci = ci + 1;
        }
        r
    }
}

} // verus!
