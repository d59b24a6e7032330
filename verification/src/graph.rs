//! Undirected weighted graph over string-keyed nodes.
//!
//! Nodes are entity keys; an edge records that two entities' observation
//! sequences were judged similar, and carries the encoded similarity score
//! under which the edge was inserted.

use vstd::prelude::*;

verus! {

/// One node together with the keys of its neighbors.
struct AdjEntry {
    key: String,
    neighbors: Vec<String>,
}

/// The score recorded for the undirected edge between `node_a` and `node_b`.
struct WeightEntry {
    node_a: String,
    node_b: String,
    weight: u64,
}

/// An undirected graph over string-keyed nodes.
///
/// The adjacency relation is kept symmetric and free of self-loops and
/// duplicate neighbor entries; each unordered pair of connected nodes carries
/// exactly one weight.  Scores are stored as opaque 64-bit encodings chosen by
/// the caller; the graph itself never interprets them.
pub struct Graph {
    adjacency_list: Vec<AdjEntry>,
    weights: Vec<WeightEntry>,
}

/// Two ordered pairs name the same unordered pair of keys.
pub open spec fn same_pair(a1: Seq<char>, b1: Seq<char>, a2: Seq<char>, b2: Seq<char>) -> bool {
    (a1 == a2 && b1 == b2) || (a1 == b2 && b1 == a2)
}

impl Graph {
    /// The node keys, in insertion order.
    pub closed spec fn node_seq(&self) -> Seq<Seq<char>> {
        self.adjacency_list@.map_values(|e: AdjEntry| e.key@)
    }

    pub open spec fn node_len(&self) -> int {
        self.node_seq().len() as int
    }

    pub open spec fn node_at(&self, i: int) -> Seq<char> {
        self.node_seq()[i]
    }

    /// The neighbor keys of the `i`-th node, in insertion order.
    pub closed spec fn neighbors_at(&self, i: int) -> Seq<Seq<char>> {
        self.adjacency_list@[i].neighbors.deep_view()
    }

    pub open spec fn degree_at(&self, i: int) -> nat {
        self.neighbors_at(i).len()
    }

    pub open spec fn has_node(&self, k: Seq<char>) -> bool {
        exists|i: int| 0 <= i < self.node_len() && self.node_at(i) == k
    }

    /// `b` lies in `a`'s neighbor set.
    pub open spec fn edge(&self, a: Seq<char>, b: Seq<char>) -> bool {
        exists|i: int|
            0 <= i < self.node_len() && self.node_at(i) == a && self.neighbors_at(i).contains(b)
    }

    pub closed spec fn node_index(&self, k: Seq<char>) -> int {
        choose|i: int| 0 <= i < self.node_len() && self.node_at(i) == k
    }

    /// The neighbor list of the node keyed `k` (empty if `k` is no node).
    pub open spec fn neighbors_of(&self, k: Seq<char>) -> Seq<Seq<char>> {
        if self.has_node(k) {
            self.neighbors_at(self.node_index(k))
        } else {
            Seq::empty()
        }
    }

    pub closed spec fn weight_len(&self) -> int {
        self.weights@.len() as int
    }

    pub closed spec fn weight_a(&self, k: int) -> Seq<char> {
        self.weights@[k].node_a@
    }

    pub closed spec fn weight_b(&self, k: int) -> Seq<char> {
        self.weights@[k].node_b@
    }

    pub closed spec fn weight_at(&self, k: int) -> u64 {
        self.weights@[k].weight
    }

    /// The `k`-th weight entry is the one for the unordered pair `{a, b}`.
    pub open spec fn weight_matches(&self, k: int, a: Seq<char>, b: Seq<char>) -> bool {
        same_pair(self.weight_a(k), self.weight_b(k), a, b)
    }

    pub open spec fn has_weight(&self, a: Seq<char>, b: Seq<char>) -> bool {
        exists|k: int| 0 <= k < self.weight_len() && self.weight_matches(k, a, b)
    }

    pub closed spec fn weight_index(&self, a: Seq<char>, b: Seq<char>) -> int {
        choose|k: int| 0 <= k < self.weight_len() && self.weight_matches(k, a, b)
    }

    /// The weight stored for the unordered pair `{a, b}`, if any.
    pub open spec fn edge_weight(&self, a: Seq<char>, b: Seq<char>) -> Option<u64> {
        if self.has_weight(a, b) {
            Some(self.weight_at(self.weight_index(a, b)))
        } else {
            None
        }
    }

    pub open spec fn nodes_distinct(&self) -> bool {
        forall|i: int, j: int|
            0 <= i < j < self.node_len() ==> self.node_at(i) != self.node_at(j)
    }

    pub open spec fn neighbor_lists_wf(&self) -> bool {
        forall|i: int|
            0 <= i < self.node_len() ==> (#[trigger] self.neighbors_at(i)).no_duplicates()
                && !self.neighbors_at(i).contains(self.node_at(i))
    }

    pub open spec fn neighbors_closed(&self) -> bool {
        forall|i: int, x: Seq<char>|
            0 <= i < self.node_len() && #[trigger] self.neighbors_at(i).contains(x)
                ==> self.has_node(x)
    }

    /// The adjacency relation is symmetric.
    pub open spec fn symmetric(&self) -> bool {
        forall|i: int, j: int|
            0 <= i < self.node_len() && 0 <= j < self.node_len() ==> ((#[trigger] self.neighbors_at(
                i,
            )).contains(self.node_at(j)) <==> (#[trigger] self.neighbors_at(j)).contains(
                self.node_at(i),
            ))
    }

    /// Every weight entry names an existing edge between distinct nodes.
    pub open spec fn weight_entries_valid(&self) -> bool {
        forall|k: int|
            0 <= k < self.weight_len() ==> #[trigger] self.weight_a(k) != self.weight_b(k)
                && self.edge(self.weight_a(k), self.weight_b(k))
    }

    /// No unordered pair of keys is recorded twice in the weight table.
    pub open spec fn weight_pairs_distinct(&self) -> bool {
        forall|k: int, l: int|
            0 <= k < l < self.weight_len() ==> !same_pair(
                #[trigger] self.weight_a(k),
                self.weight_b(k),
                #[trigger] self.weight_a(l),
                self.weight_b(l),
            )
    }

    pub open spec fn weights_wf(&self) -> bool {
        self.weight_entries_valid() && self.weight_pairs_distinct()
    }

    /// Well-formedness: established by `new` and preserved by every mutator.
    pub open spec fn wf(&self) -> bool {
        &&& self.nodes_distinct()
        &&& self.neighbor_lists_wf()
        &&& self.neighbors_closed()
        &&& self.symmetric()
        &&& self.weights_wf()
    }

    /// Create a new, empty graph.
    pub fn new() -> (g: Graph)
        ensures
            g.wf(),
            g.node_len() == 0,
            g.weight_len() == 0,
    {
        Graph { adjacency_list: Vec::new(), weights: Vec::new() }
    }

    /// Number of nodes in the graph.
    pub fn node_count(&self) -> (r: usize)
        ensures
            r == self.node_len(),
    {
        self.adjacency_list.len()
    }

    /// Position of the node keyed `key`, if present.
    fn index_of(&self, key: &String) -> (r: Option<usize>)
        ensures
            match r {
                Some(i) => 0 <= i < self.node_len() && self.node_at(i as int) == key@,
                None => !self.has_node(key@),
            },
    {
        let mut i: usize = 0;
        while i < self.adjacency_list.len()
            invariant
                i <= self.adjacency_list.len(),
                forall|j: int| 0 <= j < i ==> self.node_at(j) != key@,
            decreases self.adjacency_list.len() - i,
        {
            if self.adjacency_list[i].key == *key {
                assert(self.node_at(i as int) == key@);
                return Some(i);
            }
            i += 1;
        }
        None
    }

    /// Whether the graph holds a node keyed `key`.
    pub fn contains_node(&self, key: &String) -> (r: bool)
        ensures
            r == self.has_node(key@),
    {
        self.index_of(key).is_some()
    }

    /// Register `key` as a node; a no-op when it is already one.
    pub fn insert_node(&mut self, key: String)
        requires
            old(self).wf(),
        ensures
            final(self).wf(),
            final(self).node_seq() == insert_key(old(self).node_seq(), key@),
            forall|i: int|
                0 <= i < old(self).node_len() ==> final(self).neighbors_at(i) == old(
                    self,
                ).neighbors_at(i),
            final(self).node_len() > old(self).node_len() ==> final(self).neighbors_at(
                old(self).node_len(),
            ) == Seq::<Seq<char>>::empty(),
            final(self).weight_len() == old(self).weight_len(),
            forall|k: int|
                0 <= k < old(self).weight_len() ==> final(self).weight_a(k) == old(self).weight_a(k)
                    && final(self).weight_b(k) == old(self).weight_b(k) && final(self).weight_at(k)
                    == old(self).weight_at(k),
            forall|x: Seq<char>, y: Seq<char>|
                #[trigger] final(self).edge(x, y) <==> old(self).edge(x, y),
    {
        let ghost old_g = *old(self);
        let ghost kv = key@;
        match self.index_of(&key) {
            None => {
                proof {
                    assert forall|i: int|
                        0 <= i < old_g.node_len() implies old_g.node_seq()[i] != kv by {
                        assert(old_g.node_at(i) != kv);
                    }
                    assert(!old_g.node_seq().contains(kv));
                }
                self.adjacency_list.push(AdjEntry { key, neighbors: Vec::new() });
                proof {
                    let n = old_g.node_len();
                    assert(self.node_seq() =~= old_g.node_seq().push(kv));
                    assert(self.neighbors_at(n) =~= Seq::<Seq<char>>::empty());
                    assert forall|i: int|
                        0 <= i < n implies self.neighbors_at(i) == old_g.neighbors_at(i) by {
                        assert(self.adjacency_list@[i] == old_g.adjacency_list@[i]);
                    }
                    assert forall|k: int|
                        0 <= k < old_g.weight_len() implies #[trigger] self.weight_a(k)
                            == old_g.weight_a(k) && self.weight_b(k) == old_g.weight_b(k)
                            && self.weight_at(k) == old_g.weight_at(k) by {}
                    lemma_push_node_wf(old_g, *self, kv);
                }
            },
            Some(i) => {
                proof {
                    assert(old_g.node_seq()[i as int] == kv);
                    assert(old_g.node_seq().contains(kv));
                }
            },
        }
    }
}

impl Graph {
    /// Whether the graph holds an edge between the nodes keyed `a` and `b`.
    pub fn has_edge(&self, a: &String, b: &String) -> (r: bool)
        requires
            self.wf(),
        ensures
            r == self.edge(a@, b@),
    {
        match self.index_of(a) {
            Some(i) => {
                let r = contains_string(&self.adjacency_list[i].neighbors, b);
                proof {
                    if !r {
                        assert forall|j: int|
                            0 <= j < self.node_len() && self.node_at(j) == a@
                                implies !self.neighbors_at(j).contains(b@) by {
                            assert(j == i as int);
                        }
                    }
                }
                r
            },
            None => {
                proof {
                    assert(!self.edge(a@, b@));
                }
                false
            },
        }
    }

    /// Position of the weight entry for the unordered pair `{a, b}`, if any.
    fn find_weight(&self, a: &String, b: &String) -> (r: Option<usize>)
        ensures
            match r {
                Some(k) => 0 <= k < self.weight_len() && self.weight_matches(k as int, a@, b@),
                None => !self.has_weight(a@, b@),
            },
    {
        let mut k: usize = 0;
        while k < self.weights.len()
            invariant
                k <= self.weights.len(),
                forall|l: int| 0 <= l < k ==> !self.weight_matches(l, a@, b@),
            decreases self.weights.len() - k,
        {
            let ea = &self.weights[k].node_a;
            let eb = &self.weights[k].node_b;
            if (*ea == *a && *eb == *b) || (*ea == *b && *eb == *a) {
                assert(self.weight_matches(k as int, a@, b@));
                return Some(k);
            }
            k += 1;
        }
        None
    }

    /// The weight stored for the unordered pair `{a, b}`, if any.  The lookup
    /// is direction-independent: either orientation finds the entry.
    pub fn weight_of(&self, a: &String, b: &String) -> (r: Option<u64>)
        requires
            self.wf(),
        ensures
            r == self.edge_weight(a@, b@),
    {
        match self.find_weight(a, b) {
            Some(k) => {
                proof {
                    lemma_weight_index(*self, a@, b@, k as int);
                }
                Some(self.weights[k].weight)
            },
            None => None,
        }
    }
}

/// Membership of a key in a list of keys, compared by contents.
fn contains_string(v: &Vec<String>, x: &String) -> (r: bool)
    ensures
        r == v.deep_view().contains(x@),
{
    let mut i: usize = 0;
    while i < v.len()
        invariant
            i <= v.len(),
            forall|j: int| 0 <= j < i ==> v.deep_view()[j] != x@,
        decreases v.len() - i,
    {
        if v[i] == *x {
            assert(v.deep_view()[i as int] == x@);
            return true;
        }
        i += 1;
    }
    false
}

/// A node's position determines its lookup: under distinct keys, the index
/// chosen for `k` is the one exhibited.
proof fn lemma_node_index(g: Graph, k: Seq<char>, i: int)
    requires
        g.nodes_distinct(),
        0 <= i < g.node_len(),
        g.node_at(i) == k,
    ensures
        g.has_node(k),
        g.node_index(k) == i,
        g.neighbors_of(k) == g.neighbors_at(i),
{
    assert(g.has_node(k));
    let j = g.node_index(k);
    assert(0 <= j < g.node_len() && g.node_at(j) == k);
}

/// Under pairwise-distinct weight entries, the entry matching `{a, b}` is the
/// one exhibited.
proof fn lemma_weight_index(g: Graph, a: Seq<char>, b: Seq<char>, k: int)
    requires
        g.weight_pairs_distinct(),
        0 <= k < g.weight_len(),
        g.weight_matches(k, a, b),
    ensures
        g.has_weight(a, b),
        g.weight_index(a, b) == k,
        g.edge_weight(a, b) == Some(g.weight_at(k)),
{
    assert(g.has_weight(a, b));
    let l = g.weight_index(a, b);
    assert(0 <= l < g.weight_len() && g.weight_matches(l, a, b));
}

/// Identical adjacency structure carries the adjacency part of
/// well-formedness, the edge relation and every neighbor lookup across.
proof fn lemma_same_adjacency(g: Graph, h: Graph)
    requires
        g.nodes_distinct(),
        g.neighbor_lists_wf(),
        g.neighbors_closed(),
        g.symmetric(),
        h.node_seq() == g.node_seq(),
        forall|i: int| 0 <= i < g.node_len() ==> #[trigger] h.neighbors_at(i) == g.neighbors_at(i),
    ensures
        h.nodes_distinct(),
        h.neighbor_lists_wf(),
        h.neighbors_closed(),
        h.symmetric(),
        forall|x: Seq<char>, y: Seq<char>| #[trigger] h.edge(x, y) <==> g.edge(x, y),
        forall|k: Seq<char>| #[trigger] h.neighbors_of(k) == g.neighbors_of(k),
{
    assert forall|i: int| 0 <= i < h.node_len() implies #[trigger] h.node_at(i) == g.node_at(
        i,
    ) by {}
    assert forall|i: int, j: int|
        0 <= i < j < h.node_len() implies h.node_at(i) != h.node_at(j) by {
        assert(g.node_at(i) != g.node_at(j));
    }
    assert forall|i: int|
        0 <= i < h.node_len() implies (#[trigger] h.neighbors_at(i)).no_duplicates()
            && !h.neighbors_at(i).contains(h.node_at(i)) by {
        assert(g.neighbors_at(i).no_duplicates());
        assert(!g.neighbors_at(i).contains(g.node_at(i)));
    }
    assert forall|i: int, x: Seq<char>|
        0 <= i < h.node_len() && #[trigger] h.neighbors_at(i).contains(x)
            implies h.has_node(x) by {
        assert(g.neighbors_at(i).contains(x));
        assert(g.has_node(x));
        let w = choose|w: int| 0 <= w < g.node_len() && g.node_at(w) == x;
        assert(h.node_at(w) == x);
    }
    assert forall|i: int, j: int|
        0 <= i < h.node_len() && 0 <= j < h.node_len() implies ((#[trigger] h.neighbors_at(
            i,
        )).contains(h.node_at(j)) <==> (#[trigger] h.neighbors_at(j)).contains(h.node_at(i))) by {
        assert(g.neighbors_at(i).contains(g.node_at(j)) <==> g.neighbors_at(j).contains(
            g.node_at(i),
        ));
    }
    assert forall|x: Seq<char>, y: Seq<char>| #[trigger] h.edge(x, y) <==> g.edge(x, y) by {
        if h.edge(x, y) {
            let i = choose|i: int|
                0 <= i < h.node_len() && h.node_at(i) == x && h.neighbors_at(i).contains(y);
            assert(g.node_at(i) == x && g.neighbors_at(i).contains(y));
            assert(g.edge(x, y));
        }
        if g.edge(x, y) {
            let i = choose|i: int|
                0 <= i < g.node_len() && g.node_at(i) == x && g.neighbors_at(i).contains(y);
            assert(h.node_at(i) == x && h.neighbors_at(i).contains(y));
            assert(h.edge(x, y));
        }
    }
    assert forall|k: Seq<char>| #[trigger] h.neighbors_of(k) == g.neighbors_of(k) by {
        if g.has_node(k) {
            let w = choose|w: int| 0 <= w < g.node_len() && g.node_at(w) == k;
            lemma_node_index(g, k, w);
            lemma_node_index(h, k, w);
        } else {
            assert(!h.has_node(k)) by {
                if h.has_node(k) {
                    let w = choose|w: int| 0 <= w < h.node_len() && h.node_at(w) == k;
                    assert(g.node_at(w) == k);
                }
            }
        }
    }
}

/// The full effect of `add_edge(a, b, w)`, as a relation between the graph
/// before and the graph after the call.
pub open spec fn add_edge_rel(g: Graph, h: Graph, a: Seq<char>, b: Seq<char>, w: u64) -> bool {
    &&& h.node_seq() == insert_key(insert_key(g.node_seq(), a), b)
    &&& h.neighbors_of(a) == insert_key(g.neighbors_of(a), b)
    &&& h.neighbors_of(b) == insert_key(g.neighbors_of(b), a)
    &&& forall|k: Seq<char>|
        k != a && k != b ==> #[trigger] h.neighbors_of(k) == g.neighbors_of(k)
    &&& forall|x: Seq<char>, y: Seq<char>|
        #[trigger] h.edge(x, y) <==> g.edge(x, y) || same_pair(x, y, a, b)
    &&& h.edge_weight(a, b) == Some(w)
    &&& forall|x: Seq<char>, y: Seq<char>|
        !same_pair(x, y, a, b) ==> #[trigger] h.edge_weight(x, y) == g.edge_weight(x, y)
}

/// Appending a fresh node with no neighbors keeps a graph well-formed.
proof fn lemma_push_node_wf(g1: Graph, g2: Graph, kv: Seq<char>)
    requires
        g1.wf(),
        !g1.node_seq().contains(kv),
        g2.node_seq() == g1.node_seq().push(kv),
        forall|i: int| 0 <= i < g1.node_len() ==> g2.neighbors_at(i) == g1.neighbors_at(i),
        g2.neighbors_at(g1.node_len()) == Seq::<Seq<char>>::empty(),
        forall|k: int|
            0 <= k < g1.weight_len() ==> #[trigger] g2.weight_a(k) == g1.weight_a(k)
                && g2.weight_b(k) == g1.weight_b(k),
        g2.weight_len() == g1.weight_len(),
    ensures
        g2.wf(),
        forall|x: Seq<char>, y: Seq<char>| #[trigger] g2.edge(x, y) <==> g1.edge(x, y),
{
    let n = g1.node_len();
    assert forall|x: Seq<char>, y: Seq<char>| #[trigger] g2.edge(x, y) <==> g1.edge(x, y) by {
        if g2.edge(x, y) {
            let i = choose|i: int|
                0 <= i < g2.node_len() && g2.node_at(i) == x && g2.neighbors_at(i).contains(y);
            if i < n {
                assert(g1.node_at(i) == x && g1.neighbors_at(i).contains(y));
                assert(g1.edge(x, y));
            } else {
                assert(g2.neighbors_at(i).len() == 0);
            }
        }
        if g1.edge(x, y) {
            let i = choose|i: int|
                0 <= i < n && g1.node_at(i) == x && g1.neighbors_at(i).contains(y);
            assert(g2.node_at(i) == x && g2.neighbors_at(i).contains(y));
            assert(g2.edge(x, y));
        }
    }
    assert(g2.node_len() == n + 1);
    assert forall|i: int| 0 <= i < n implies g2.node_at(i) == g1.node_at(i) by {}
    assert forall|i: int, j: int|
        0 <= i < j < g2.node_len() implies g2.node_at(i) != g2.node_at(j) by {
        if j < n {
            assert(g1.node_at(i) != g1.node_at(j));
        } else {
            assert(g2.node_at(j) == kv);
            assert(g1.node_seq()[i] == g1.node_at(i));
        }
    }
    assert forall|i: int|
        0 <= i < g2.node_len() implies (#[trigger] g2.neighbors_at(i)).no_duplicates()
            && !g2.neighbors_at(i).contains(g2.node_at(i)) by {
        if i < n {
            assert(g1.neighbors_at(i).no_duplicates());
            assert(!g1.neighbors_at(i).contains(g1.node_at(i)));
        }
    }
    assert forall|i: int, x: Seq<char>|
        0 <= i < g2.node_len() && #[trigger] g2.neighbors_at(i).contains(x)
            implies g2.has_node(x) by {
        if i < n {
            assert(g1.neighbors_at(i).contains(x));
            assert(g1.has_node(x));
            let w = choose|w: int| 0 <= w < n && g1.node_at(w) == x;
            assert(g2.node_at(w) == x);
        }
    }
    assert forall|i: int, j: int|
        0 <= i < g2.node_len() && 0 <= j < g2.node_len() implies ((#[trigger] g2.neighbors_at(
            i,
        )).contains(g2.node_at(j)) <==> (#[trigger] g2.neighbors_at(j)).contains(g2.node_at(i)))
        by {
        if i < n && j < n {
            assert(g1.neighbors_at(i).contains(g1.node_at(j)) <==> g1.neighbors_at(j).contains(
                g1.node_at(i),
            ));
        } else if i < n && j == n {
            assert(!g2.neighbors_at(j).contains(g2.node_at(i)));
            if g1.neighbors_at(i).contains(kv) {
                assert(g1.has_node(kv));
                let w = choose|w: int| 0 <= w < n && g1.node_at(w) == kv;
                assert(g1.node_seq()[w] == kv);
                assert(false);
            }
        } else if i == n && j < n {
            assert(!g2.neighbors_at(i).contains(g2.node_at(j)));
            if g1.neighbors_at(j).contains(kv) {
                assert(g1.has_node(kv));
                let w = choose|w: int| 0 <= w < n && g1.node_at(w) == kv;
                assert(g1.node_seq()[w] == kv);
                assert(false);
            }
        }
    }
    assert forall|k: int|
        0 <= k < g2.weight_len() implies #[trigger] g2.weight_a(k) != g2.weight_b(k)
            && g2.edge(g2.weight_a(k), g2.weight_b(k)) by {
        assert(g1.weight_a(k) != g1.weight_b(k));
        assert(g1.edge(g1.weight_a(k), g1.weight_b(k)));
        let w = choose|w: int|
            0 <= w < n && g1.node_at(w) == g1.weight_a(k) && g1.neighbors_at(w).contains(
                g1.weight_b(k),
            );
        assert(g2.node_at(w) == g2.weight_a(k) && g2.neighbors_at(w).contains(g2.weight_b(k)));
    }
    assert forall|k: int, l: int|
        0 <= k < l < g2.weight_len() implies !same_pair(
            #[trigger] g2.weight_a(k),
            g2.weight_b(k),
            #[trigger] g2.weight_a(l),
            g2.weight_b(l),
        ) by {
        assert(!same_pair(g1.weight_a(k), g1.weight_b(k), g1.weight_a(l), g1.weight_b(l)));
    }
}

/// `s` with `x` appended, unless `s` already holds it.
pub open spec fn insert_key(s: Seq<Seq<char>>, x: Seq<char>) -> Seq<Seq<char>> {
    if s.contains(x) {
        s
    } else {
        s.push(x)
    }
}

/// What `insert_key` does to membership, duplicates and length.
pub proof fn lemma_insert_key(s: Seq<Seq<char>>, x: Seq<char>)
    ensures
        insert_key(s, x).contains(x),
        forall|y: Seq<char>| s.contains(y) ==> #[trigger] insert_key(s, x).contains(y),
        forall|y: Seq<char>| #[trigger] insert_key(s, x).contains(y) ==> y == x || s.contains(y),
        s.no_duplicates() ==> insert_key(s, x).no_duplicates(),
        insert_key(s, x).len() == if s.contains(x) {
            s.len()
        } else {
            s.len() + 1
        },
        forall|i: int| 0 <= i < s.len() ==> #[trigger] insert_key(s, x)[i] == s[i],
{
    let t = insert_key(s, x);
    if !s.contains(x) {
        assert(t[s.len() as int] == x);
        assert(t.contains(x));
        assert forall|y: Seq<char>| s.contains(y) implies #[trigger] t.contains(y) by {
            let i = choose|i: int| 0 <= i < s.len() && s[i] == y;
            assert(t[i] == y);
        }
        assert forall|y: Seq<char>| #[trigger] t.contains(y) implies y == x || s.contains(y) by {
            let i = choose|i: int| 0 <= i < t.len() && t[i] == y;
            if i < s.len() {
                assert(s[i] == y);
            }
        }
        if s.no_duplicates() {
            assert forall|i: int, j: int|
                0 <= i < t.len() && 0 <= j < t.len() && i != j implies t[i] != t[j] by {
                if i < s.len() && j < s.len() {
                } else if i < s.len() {
                    assert(t[j] == x && t[i] == s[i]);
                    assert(s.contains(s[i]));
                } else {
                    assert(t[i] == x && t[j] == s[j]);
                    assert(s.contains(s[j]));
                }
            }
        }
    }
}

impl Graph {
    /// Append `x` to the `i`-th neighbor list unless it is already there.
    fn push_neighbor(&mut self, i: usize, x: String)
        requires
            i < old(self).node_len(),
        ensures
            final(self).node_seq() == old(self).node_seq(),
            final(self).neighbors_at(i as int) == insert_key(
                old(self).neighbors_at(i as int),
                x@,
            ),
            forall|j: int|
                0 <= j < old(self).node_len() && j != i
                    ==> final(self).neighbors_at(j) == old(self).neighbors_at(j),
            final(self).weight_len() == old(self).weight_len(),
            forall|k: int|
                0 <= k < old(self).weight_len()
                    ==> #[trigger] final(self).weight_a(k) == old(self).weight_a(k)
                    && final(self).weight_b(k) == old(self).weight_b(k)
                    && final(self).weight_at(k) == old(self).weight_at(k),
    {
        let ghost g0 = *old(self);
        let present = contains_string(&self.adjacency_list[i].neighbors, &x);
        let ghost xv = x@;
        if !present {
            let entry = &mut self.adjacency_list[i];
            entry.neighbors.push(x);
            proof {
                assert(self.adjacency_list@ =~= g0.adjacency_list@.update(
                    i as int,
                    self.adjacency_list@[i as int],
                ));
                assert(self.adjacency_list@[i as int].key == g0.adjacency_list@[i as int].key);
                assert(self.node_seq() =~= g0.node_seq());
                assert(self.neighbors_at(i as int) =~= g0.neighbors_at(i as int).push(xv));
            }
        }
    }
}

/// Inserting each of two distinct nodes into the other's neighbor list keeps
/// the adjacency part of well-formedness, and adds exactly the one edge.
proof fn lemma_connect_wf(g2: Graph, g4: Graph, ia: int, ib: int)
    requires
        g2.nodes_distinct(),
        g2.neighbor_lists_wf(),
        g2.neighbors_closed(),
        g2.symmetric(),
        0 <= ia < g2.node_len(),
        0 <= ib < g2.node_len(),
        ia != ib,
        g4.node_seq() == g2.node_seq(),
        g4.neighbors_at(ia) == insert_key(g2.neighbors_at(ia), g2.node_at(ib)),
        g4.neighbors_at(ib) == insert_key(g2.neighbors_at(ib), g2.node_at(ia)),
        forall|j: int|
            0 <= j < g2.node_len() && j != ia && j != ib ==> g4.neighbors_at(j)
                == g2.neighbors_at(j),
    ensures
        g4.nodes_distinct(),
        g4.neighbor_lists_wf(),
        g4.neighbors_closed(),
        g4.symmetric(),
        forall|x: Seq<char>, y: Seq<char>|
            #[trigger] g4.edge(x, y) <==> g2.edge(x, y) || same_pair(
                x,
                y,
                g2.node_at(ia),
                g2.node_at(ib),
            ),
{
    let a = g2.node_at(ia);
    let b = g2.node_at(ib);
    lemma_insert_key(g2.neighbors_at(ia), b);
    lemma_insert_key(g2.neighbors_at(ib), a);
    assert(a != b);
    assert forall|i: int| 0 <= i < g4.node_len() implies #[trigger] g4.node_at(i) == g2.node_at(
        i,
    ) by {}
    assert forall|i: int, j: int|
        0 <= i < j < g4.node_len() implies g4.node_at(i) != g4.node_at(j) by {
        assert(g2.node_at(i) != g2.node_at(j));
    }
    assert forall|i: int|
        0 <= i < g4.node_len() implies (#[trigger] g4.neighbors_at(i)).no_duplicates()
            && !g4.neighbors_at(i).contains(g4.node_at(i)) by {
        assert(g2.neighbors_at(i).no_duplicates());
        assert(!g2.neighbors_at(i).contains(g2.node_at(i)));
        if i == ia {
            if g4.neighbors_at(i).contains(a) {
                assert(a == b || g2.neighbors_at(ia).contains(a));
                assert(false);
            }
        } else if i == ib {
            if g4.neighbors_at(i).contains(b) {
                assert(b == a || g2.neighbors_at(ib).contains(b));
                assert(false);
            }
        }
    }
    assert forall|i: int, x: Seq<char>|
        0 <= i < g4.node_len() && #[trigger] g4.neighbors_at(i).contains(x)
            implies g4.has_node(x) by {
        if i == ia && x == b {
            assert(g4.node_at(ib) == x);
        } else if i == ib && x == a {
            assert(g4.node_at(ia) == x);
        } else {
            assert(g2.neighbors_at(i).contains(x));
            assert(g2.has_node(x));
            let w = choose|w: int| 0 <= w < g2.node_len() && g2.node_at(w) == x;
            assert(g4.node_at(w) == x);
        }
    }
    assert forall|i: int, j: int|
        0 <= i < g4.node_len() && 0 <= j < g4.node_len() implies ((#[trigger] g4.neighbors_at(
            i,
        )).contains(g4.node_at(j)) <==> (#[trigger] g4.neighbors_at(j)).contains(g4.node_at(i)))
        by {
        assert(g2.neighbors_at(i).contains(g2.node_at(j)) <==> g2.neighbors_at(j).contains(
            g2.node_at(i),
        ));
        if i == ia && j == ib {
        } else if i == ib && j == ia {
        } else if i == ia {
            assert(g2.node_at(j) != b);
        } else if i == ib {
            assert(g2.node_at(j) != a);
        } else if j == ia {
            assert(g2.node_at(i) != b);
        } else if j == ib {
            assert(g2.node_at(i) != a);
        }
    }
    assert forall|x: Seq<char>, y: Seq<char>|
        #[trigger] g4.edge(x, y) <==> g2.edge(x, y) || same_pair(x, y, a, b) by {
        if g4.edge(x, y) {
            let i = choose|i: int|
                0 <= i < g4.node_len() && g4.node_at(i) == x && g4.neighbors_at(i).contains(y);
            if i == ia && y == b {
                assert(same_pair(x, y, a, b));
            } else if i == ib && y == a {
                assert(same_pair(x, y, a, b));
            } else {
                assert(g2.neighbors_at(i).contains(y));
                assert(g2.edge(x, y));
            }
        }
        if g2.edge(x, y) {
            let i = choose|i: int|
                0 <= i < g2.node_len() && g2.node_at(i) == x && g2.neighbors_at(i).contains(y);
            assert(g4.neighbors_at(i).contains(y));
            assert(g4.edge(x, y));
        }
        if same_pair(x, y, a, b) {
            if x == a {
                assert(g4.node_at(ia) == x && g4.neighbors_at(ia).contains(y));
            } else {
                assert(g4.node_at(ib) == x && g4.neighbors_at(ib).contains(y));
            }
            assert(g4.edge(x, y));
        }
    }
}

/// Overwriting the weight of the entry matching `{a, b}` replaces that pair's
/// stored weight and no other.
proof fn lemma_weight_update(g: Graph, h: Graph, a: Seq<char>, b: Seq<char>, w: u64, k: int)
    requires
        g.weight_pairs_distinct(),
        0 <= k < g.weight_len(),
        g.weight_matches(k, a, b),
        h.weight_len() == g.weight_len(),
        forall|l: int|
            0 <= l < g.weight_len() ==> #[trigger] h.weight_a(l) == g.weight_a(l) && h.weight_b(l)
                == g.weight_b(l),
        forall|l: int|
            0 <= l < g.weight_len() && l != k ==> #[trigger] h.weight_at(l) == g.weight_at(l),
        h.weight_at(k) == w,
    ensures
        h.weight_pairs_distinct(),
        h.edge_weight(a, b) == Some(w),
        forall|x: Seq<char>, y: Seq<char>|
            !same_pair(x, y, a, b) ==> #[trigger] h.edge_weight(x, y) == g.edge_weight(x, y),
{
    assert forall|p: int, q: int|
        0 <= p < q < h.weight_len() implies !same_pair(
            #[trigger] h.weight_a(p),
            h.weight_b(p),
            #[trigger] h.weight_a(q),
            h.weight_b(q),
        ) by {
        assert(!same_pair(g.weight_a(p), g.weight_b(p), g.weight_a(q), g.weight_b(q)));
    }
    assert(h.weight_matches(k, a, b));
    lemma_weight_index(h, a, b, k);
    assert forall|x: Seq<char>, y: Seq<char>|
        !same_pair(x, y, a, b) implies #[trigger] h.edge_weight(x, y) == g.edge_weight(x, y) by {
        if g.has_weight(x, y) {
            let l = choose|l: int| 0 <= l < g.weight_len() && g.weight_matches(l, x, y);
            lemma_weight_index(g, x, y, l);
            assert(h.weight_matches(l, x, y));
            lemma_weight_index(h, x, y, l);
            assert(l != k);
        } else {
            assert(!h.has_weight(x, y)) by {
                if h.has_weight(x, y) {
                    let l = choose|l: int| 0 <= l < h.weight_len() && h.weight_matches(l, x, y);
                    assert(g.weight_matches(l, x, y));
                }
            }
        }
    }
}

/// Appending a weight entry for a pair not yet recorded keeps the pairs
/// distinct and touches no other pair's weight.
proof fn lemma_weight_append(g: Graph, h: Graph, a: Seq<char>, b: Seq<char>, w: u64)
    requires
        g.weight_pairs_distinct(),
        !g.has_weight(a, b),
        h.weight_len() == g.weight_len() + 1,
        forall|l: int|
            0 <= l < g.weight_len() ==> #[trigger] h.weight_a(l) == g.weight_a(l) && h.weight_b(l)
                == g.weight_b(l) && h.weight_at(l) == g.weight_at(l),
        h.weight_a(g.weight_len()) == a,
        h.weight_b(g.weight_len()) == b,
        h.weight_at(g.weight_len()) == w,
    ensures
        h.weight_pairs_distinct(),
        h.edge_weight(a, b) == Some(w),
        forall|x: Seq<char>, y: Seq<char>|
            !same_pair(x, y, a, b) ==> #[trigger] h.edge_weight(x, y) == g.edge_weight(x, y),
{
    let kn = g.weight_len();
    assert forall|p: int, q: int|
        0 <= p < q < h.weight_len() implies !same_pair(
            #[trigger] h.weight_a(p),
            h.weight_b(p),
            #[trigger] h.weight_a(q),
            h.weight_b(q),
        ) by {
        if q < kn {
            assert(!same_pair(g.weight_a(p), g.weight_b(p), g.weight_a(q), g.weight_b(q)));
        } else {
            if same_pair(h.weight_a(p), h.weight_b(p), a, b) {
                assert(g.weight_matches(p, a, b));
                assert(g.has_weight(a, b));
            }
        }
    }
    assert(h.weight_matches(kn, a, b));
    lemma_weight_index(h, a, b, kn);
    assert forall|x: Seq<char>, y: Seq<char>|
        !same_pair(x, y, a, b) implies #[trigger] h.edge_weight(x, y) == g.edge_weight(x, y) by {
        if g.has_weight(x, y) {
            let l = choose|l: int| 0 <= l < g.weight_len() && g.weight_matches(l, x, y);
            lemma_weight_index(g, x, y, l);
            assert(h.weight_matches(l, x, y));
            lemma_weight_index(h, x, y, l);
        } else {
            assert(!h.has_weight(x, y)) by {
                if h.has_weight(x, y) {
                    let l = choose|l: int| 0 <= l < h.weight_len() && h.weight_matches(l, x, y);
                    if l < kn {
                        assert(g.weight_matches(l, x, y));
                    } else {
                        assert(same_pair(a, b, x, y));
                    }
                }
            }
        }
    }
}

impl Graph {
    /// Insert the undirected edge between `node_a` and `node_b`, carrying
    /// `weight`.
    ///
    /// Both keys are registered as nodes, each is inserted into the other's
    /// neighbor list (a no-op where it is already present), and the weight
    /// stored for the unordered pair is replaced by `weight`.
    pub fn add_edge(&mut self, node_a: String, node_b: String, weight: u64)
        requires
            old(self).wf(),
            node_a@ != node_b@,
        ensures
            final(self).wf(),
            add_edge_rel(*old(self), *final(self), node_a@, node_b@, weight),
    {
        let ghost g0 = *old(self);
        let ghost av = node_a@;
        let ghost bv = node_b@;
        self.insert_node(node_a.clone());
        let ghost g1 = *self;
        self.insert_node(node_b.clone());
        let ghost g2 = *self;
        proof {
            lemma_insert_key(g0.node_seq(), av);
            lemma_insert_key(g1.node_seq(), bv);
            assert(g2.node_seq().contains(av));
            assert(g2.node_seq().contains(bv));
            let wa = choose|i: int| 0 <= i < g2.node_seq().len() && g2.node_seq()[i] == av;
            assert(g2.node_at(wa) == av);
            let wb = choose|i: int| 0 <= i < g2.node_seq().len() && g2.node_seq()[i] == bv;
            assert(g2.node_at(wb) == bv);
            assert(g2.has_node(av) && g2.has_node(bv));
        }
        let oa = self.index_of(&node_a);
        let ob = self.index_of(&node_b);
        let ia = oa.unwrap();
        let ib = ob.unwrap();
        proof {
            assert(g2.node_at(ia as int) == av && g2.node_at(ib as int) == bv);
            assert(ia != ib);
            // relate g2's adjacency entries for av and bv to g0's lookups
            if g0.node_seq().contains(av) {
                let i0 = choose|i: int| 0 <= i < g0.node_seq().len() && g0.node_seq()[i] == av;
                assert(g0.node_at(i0) == av);
                lemma_node_index(g0, av, i0);
                assert(g1.node_seq() == g0.node_seq());
                assert(g2.node_at(i0) == av);
                assert(ia as int == i0);
                assert(g2.neighbors_at(ia as int) == g0.neighbors_of(av));
            } else {
                assert(g0.neighbors_of(av) == Seq::<Seq<char>>::empty());
                assert(g1.node_seq() == g0.node_seq().push(av));
                assert(g1.node_at(g0.node_len()) == av);
                assert(g1.neighbors_at(g0.node_len()) == Seq::<Seq<char>>::empty());
                assert(g2.node_at(g0.node_len()) == av);
                assert(ia as int == g0.node_len());
                assert(g2.neighbors_at(ia as int) == g0.neighbors_of(av));
            }
            if g0.node_seq().contains(bv) {
                let j0 = choose|i: int| 0 <= i < g0.node_seq().len() && g0.node_seq()[i] == bv;
                assert(g0.node_at(j0) == bv);
                lemma_node_index(g0, bv, j0);
                assert(g1.node_at(j0) == bv);
                assert(g1.neighbors_at(j0) == g0.neighbors_at(j0));
                assert(g2.node_at(j0) == bv);
                assert(ib as int == j0);
                assert(g2.neighbors_at(ib as int) == g0.neighbors_of(bv));
            } else {
                assert(g0.neighbors_of(bv) == Seq::<Seq<char>>::empty());
                assert(!g1.node_seq().contains(bv)) by {
                    if g1.node_seq().contains(bv) {
                        assert(bv == av || g0.node_seq().contains(bv));
                    }
                }
                assert(g2.node_seq() == g1.node_seq().push(bv));
                assert(g2.node_at(g1.node_len()) == bv);
                assert(g2.neighbors_at(g1.node_len()) == Seq::<Seq<char>>::empty());
                assert(ib as int == g1.node_len());
                assert(g2.neighbors_at(ib as int) == g0.neighbors_of(bv));
            }
        }
        self.push_neighbor(ia, node_b.clone());
        proof {
            assert(self.node_seq() == g2.node_seq());
        }
        self.push_neighbor(ib, node_a.clone());
        let ghost g4 = *self;
        proof {
            assert(g4.neighbors_at(ia as int) == insert_key(g2.neighbors_at(ia as int), bv));
            assert(g4.neighbors_at(ib as int) == insert_key(g2.neighbors_at(ib as int), av));
            lemma_connect_wf(g2, g4, ia as int, ib as int);
            lemma_node_index(g4, av, ia as int);
            lemma_node_index(g4, bv, ib as int);
            // weights carried unchanged from g0 through g4
            assert(g4.weight_len() == g0.weight_len());
            assert forall|l: int|
                0 <= l < g4.weight_len() implies #[trigger] g4.weight_a(l) == g0.weight_a(l)
                    && g4.weight_b(l) == g0.weight_b(l) && g4.weight_at(l) == g0.weight_at(l) by {
                assert(g1.weight_a(l) == g0.weight_a(l) && g1.weight_b(l) == g0.weight_b(l)
                    && g1.weight_at(l) == g0.weight_at(l));
                assert(g2.weight_a(l) == g1.weight_a(l) && g2.weight_b(l) == g1.weight_b(l)
                    && g2.weight_at(l) == g1.weight_at(l));
            }
            assert(g4.weight_pairs_distinct()) by {
                assert forall|p: int, q: int|
                    0 <= p < q < g4.weight_len() implies !same_pair(
                        #[trigger] g4.weight_a(p),
                        g4.weight_b(p),
                        #[trigger] g4.weight_a(q),
                        g4.weight_b(q),
                    ) by {
                    assert(!same_pair(g0.weight_a(p), g0.weight_b(p), g0.weight_a(q), g0.weight_b(
                        q,
                    )));
                }
            }
        }
        let fw = self.find_weight(&node_a, &node_b);
        match fw {
            Some(k) => {
                let entry = &mut self.weights[k];
                entry.weight = weight;
                proof {
                    assert(self.weights@ =~= g4.weights@.update(
                        k as int,
                        self.weights@[k as int],
                    ));
                    assert(self.weights@[k as int].node_a == g4.weights@[k as int].node_a);
                    assert(self.weights@[k as int].node_b == g4.weights@[k as int].node_b);
                    assert(self.weights@[k as int].weight == weight);
                    assert(self.weight_len() == g4.weight_len());
                    assert forall|l: int|
                        0 <= l < g4.weight_len() implies #[trigger] self.weight_a(l)
                            == g4.weight_a(l) && self.weight_b(l) == g4.weight_b(l) by {}
                    assert forall|l: int|
                        0 <= l < g4.weight_len() && l != k implies #[trigger] self.weight_at(l)
                            == g4.weight_at(l) by {}
                    lemma_weight_update(g4, *self, av, bv, weight, k as int);
                    assert(self.adjacency_list@ == g4.adjacency_list@);
                }
            },
            None => {
                self.weights.push(WeightEntry { node_a, node_b, weight });
                proof {
                    let kn = g4.weight_len();
                    assert(self.weights@ == g4.weights@.push(self.weights@[kn]));
                    assert(self.weight_len() == kn + 1);
                    assert(self.weight_a(kn) == av && self.weight_b(kn) == bv);
                    assert(self.weight_at(kn) == weight);
                    assert forall|l: int|
                        0 <= l < kn implies #[trigger] self.weight_a(l) == g4.weight_a(l)
                            && self.weight_b(l) == g4.weight_b(l) && self.weight_at(l)
                            == g4.weight_at(l) by {}
                    lemma_weight_append(g4, *self, av, bv, weight);
                    assert(self.adjacency_list@ == g4.adjacency_list@);
                }
            },
        }
        proof {
            lemma_same_adjacency(g4, *self);
            // node sequence
            assert(self.node_seq() == insert_key(insert_key(g0.node_seq(), av), bv));
            // neighbor lists of the two endpoints and of everything else
            assert(self.neighbors_of(av) == insert_key(g0.neighbors_of(av), bv));
            assert(self.neighbors_of(bv) == insert_key(g0.neighbors_of(bv), av));
            assert forall|k: Seq<char>|
                k != av && k != bv implies #[trigger] self.neighbors_of(k) == g0.neighbors_of(
                k,
            ) by {
                assert(self.neighbors_of(k) == g4.neighbors_of(k));
                if g2.has_node(k) {
                    let w = choose|w: int| 0 <= w < g2.node_len() && g2.node_at(w) == k;
                    assert(w != ia && w != ib);
                    lemma_node_index(g2, k, w);
                    lemma_node_index(g4, k, w);
                    assert(g4.neighbors_of(k) == g2.neighbors_at(w));
                    // carry the lookup back to g0
                    if g0.node_seq().contains(k) {
                        let w0 = choose|i: int|
                            0 <= i < g0.node_seq().len() && g0.node_seq()[i] == k;
                        assert(g0.node_at(w0) == k);
                        lemma_node_index(g0, k, w0);
                        assert(g1.node_at(w0) == k && g1.neighbors_at(w0) == g0.neighbors_at(w0));
                        assert(g2.node_at(w0) == k && g2.neighbors_at(w0) == g0.neighbors_at(w0));
                        assert(w == w0);
                        assert(g4.neighbors_of(k) == g0.neighbors_of(k));
                    } else {
                        assert(g1.node_seq().contains(k) ==> (k == av || g0.node_seq().contains(
                            k,
                        )));
                        assert(g2.node_seq().contains(k) ==> (k == bv || g1.node_seq().contains(
                            k,
                        )));
                        assert(g2.node_seq().contains(k));
                        assert(false);
                    }
                } else {
                    assert(!g4.has_node(k)) by {
                        if g4.has_node(k) {
                            let w = choose|w: int| 0 <= w < g4.node_len() && g4.node_at(w) == k;
                            assert(g2.node_at(w) == k);
                        }
                    }
                    assert(!g0.has_node(k)) by {
                        if g0.has_node(k) {
                            let w = choose|w: int| 0 <= w < g0.node_len() && g0.node_at(w) == k;
                            assert(g0.node_seq()[w] == k);
                            assert(g1.node_at(w) == k);
                            assert(g2.node_at(w) == k);
                        }
                    }
                    assert(g4.neighbors_of(k) == Seq::<Seq<char>>::empty());
                    assert(g0.neighbors_of(k) == Seq::<Seq<char>>::empty());
                }
            }
            // edge relation
            assert forall|x: Seq<char>, y: Seq<char>|
                #[trigger] self.edge(x, y) <==> g0.edge(x, y) || same_pair(x, y, av, bv) by {
                assert(self.edge(x, y) <==> g4.edge(x, y));
                assert(g4.edge(x, y) <==> g2.edge(x, y) || same_pair(x, y, av, bv));
                assert(g2.edge(x, y) <==> g1.edge(x, y));
                assert(g1.edge(x, y) <==> g0.edge(x, y));
            }
            // stored weights: the pair written, and every other pair untouched
            assert(self.edge_weight(av, bv) == Some(weight));
            assert forall|x: Seq<char>, y: Seq<char>|
                !same_pair(x, y, av, bv) implies #[trigger] self.edge_weight(x, y)
                    == g0.edge_weight(x, y) by {
                assert(self.edge_weight(x, y) == g4.edge_weight(x, y));
                if g0.has_weight(x, y) {
                    let l = choose|l: int| 0 <= l < g0.weight_len() && g0.weight_matches(l, x, y);
                    lemma_weight_index(g0, x, y, l);
                    assert(g4.weight_matches(l, x, y));
                    lemma_weight_index(g4, x, y, l);
                } else {
                    assert(!g4.has_weight(x, y)) by {
                        if g4.has_weight(x, y) {
                            let l = choose|l: int|
                                0 <= l < g4.weight_len() && g4.weight_matches(l, x, y);
                            assert(g0.weight_matches(l, x, y));
                        }
                    }
                }
            }
            // remaining well-formedness: weight entries name real edges
            assert forall|l: int|
                0 <= l < self.weight_len() implies #[trigger] self.weight_a(l) != self.weight_b(l)
                    && self.edge(self.weight_a(l), self.weight_b(l)) by {
                if l < g4.weight_len() {
                    assert(g0.weight_a(l) != g0.weight_b(l) && g0.edge(g0.weight_a(l),
                    g0.weight_b(l)));
                    assert(self.weight_a(l) == g4.weight_a(l) && self.weight_b(l) == g4.weight_b(
                        l,
                    ));
                    assert(g4.weight_a(l) == g0.weight_a(l) && g4.weight_b(l) == g0.weight_b(l));
                    assert(self.edge(self.weight_a(l), self.weight_b(l)));
                } else {
                    assert(self.weight_a(l) == av && self.weight_b(l) == bv);
                    assert(same_pair(av, bv, av, bv));
                    assert(self.edge(av, bv));
                }
            }
        }
    }
}

impl Graph {
    /// Degree of every node, one entry per node in node insertion order.
    pub fn degree_distribution(&self) -> (r: Vec<usize>)
        ensures
            r@.len() == self.node_len(),
            forall|i: int| 0 <= i < r@.len() ==> r@[i] == self.degree_at(i),
    {
        let mut r: Vec<usize> = Vec::new();
        let mut i: usize = 0;
        while i < self.adjacency_list.len()
            invariant
                i <= self.adjacency_list.len(),
                r@.len() == i,
                forall|j: int| 0 <= j < i ==> r@[j] == self.degree_at(j),
            decreases self.adjacency_list.len() - i,
        {
            let d = self.adjacency_list[i].neighbors.len();
            r.push(d);
            i += 1;
        }
        r
    }
}

impl Graph {
    /// The most-connected nodes: every node paired with its degree, sorted
    /// non-increasingly by degree, cut down to the first five.
    ///
    /// Each returned pair names a node and its true degree, no node appears
    /// twice, and every node left out has a degree no larger than the last
    /// returned one.
    #[verifier::rlimit(60)]
    pub fn centrality(&self) -> (r: Vec<(String, usize)>)
        requires
            self.wf(),
        ensures
            r@.len() == if self.node_len() < 5 {
                self.node_len()
            } else {
                5
            },
            forall|p: int, q: int| 0 <= p < q < r@.len() ==> (#[trigger] r@[p]).1 >= (#[trigger] r@[q]).1,
            forall|p: int|
                0 <= p < r@.len() ==> exists|w: int|
                    0 <= w < self.node_len() && self.node_at(w) == (#[trigger] r@[p]).0@
                        && self.degree_at(w) == r@[p].1,
            forall|p: int, q: int|
                0 <= p < q < r@.len() ==> (#[trigger] r@[p]).0@ != (#[trigger] r@[q]).0@,
            forall|w: int|
                0 <= w < self.node_len() ==> (exists|p: int|
                    0 <= p < r@.len() && (#[trigger] r@[p]).0@ == #[trigger] self.node_at(w)) || (
                r@.len() > 0 && self.degree_at(w) <= r@[r@.len() - 1].1),
    {
        let n = self.adjacency_list.len();
        let mut s: Vec<(String, usize)> = Vec::new();
        let mut i: usize = 0;
        while i < n
            invariant
                n == self.node_len(),
                i <= n,
                s@.len() == i,
                forall|j: int|
                    0 <= j < i ==> (#[trigger] s@[j]).0@ == self.node_at(j) && s@[j].1
                        == self.degree_at(j),
            decreases n - i,
        {
            let key = self.adjacency_list[i].key.clone();
            let deg = self.adjacency_list[i].neighbors.len();
            s.push((key, deg));
            i += 1;
        }
        let ghost mut perm: Seq<int> = Seq::new(n as nat, |j: int| j);
        proof {
            assert forall|j: int, k: int|
                0 <= j < perm.len() && 0 <= k < perm.len() && j != k implies perm[j] != perm[
            k] by {}
            assert(perm.no_duplicates());
        }
        let mut i: usize = 0;
        while i < n
            invariant
                n == self.node_len(),
                n == s@.len(),
                i <= n,
                perm.len() == n,
                forall|j: int| 0 <= j < n ==> 0 <= #[trigger] perm[j] < n,
                perm.no_duplicates(),
                forall|j: int|
                    0 <= j < n ==> (#[trigger] s@[j]).0@ == self.node_at(perm[j]) && s@[j].1
                        == self.degree_at(perm[j]),
                forall|p: int, q: int|
                    0 <= p < q < i ==> (#[trigger] s@[p]).1 >= (#[trigger] s@[q]).1,
                forall|p: int, q: int|
                    0 <= p < i && i <= q < n ==> (#[trigger] s@[p]).1 >= (#[trigger] s@[q]).1,
            decreases n - i,
        {
            let mut m: usize = i;
            let mut j: usize = i + 1;
            while j < n
                invariant
                    n == s@.len(),
                    i <= m < j <= n,
                    forall|q: int| i <= q < j ==> (#[trigger] s@[q]).1 <= s@[m as int].1,
                decreases n - j,
            {
                if s[j].1 > s[m].1 {
                    m = j;
                }
                j += 1;
            }
            let ghost spre = s@;
            let ghost ppre = perm;
            if m != i {
                let vi = (s[i].0.clone(), s[i].1);
                let vm = (s[m].0.clone(), s[m].1);
                s[i] = vm;
                s[m] = vi;
                proof {
                    let ii = i as int;
                    let mi = m as int;
                    perm = perm.update(ii, ppre[mi]).update(mi, ppre[ii]);
                    assert(vi == spre[ii] && vm == spre[mi]);
                    assert(s@ =~= spre.update(ii, spre[mi]).update(mi, spre[ii]));
                    assert forall|j: int| 0 <= j < n implies 0 <= #[trigger] perm[j] < n by {
                        if j == ii {
                            assert(perm[j] == ppre[mi]);
                        } else if j == mi {
                            assert(perm[j] == ppre[ii]);
                        } else {
                            assert(perm[j] == ppre[j]);
                        }
                    }
                    assert forall|j: int, k: int|
                        0 <= j < perm.len() && 0 <= k < perm.len() && j != k implies perm[j]
                            != perm[k] by {
                        let j1 = if j == ii {
                            mi
                        } else if j == mi {
                            ii
                        } else {
                            j
                        };
                        let k1 = if k == ii {
                            mi
                        } else if k == mi {
                            ii
                        } else {
                            k
                        };
                        assert(perm[j] == ppre[j1] && perm[k] == ppre[k1]);
                    }
                    assert(perm.no_duplicates());
                    assert forall|j: int|
                        0 <= j < n implies (#[trigger] s@[j]).0@ == self.node_at(perm[j])
                            && s@[j].1 == self.degree_at(perm[j]) by {
                        if j == ii {
                            assert(s@[j] == spre[mi] && perm[j] == ppre[mi]);
                        } else if j == mi {
                            assert(s@[j] == spre[ii] && perm[j] == ppre[ii]);
                        } else {
                            assert(s@[j] == spre[j] && perm[j] == ppre[j]);
                        }
                    }
                }
            }
            proof {
                let ii = i as int;
                let mi = m as int;
                assert forall|q: int| ii <= q < n implies (#[trigger] s@[q]).1 <= s@[ii].1 by {
                    if m != i {
                        assert(s@[ii] == spre[mi]);
                        if q == mi {
                            assert(s@[q] == spre[ii]);
                        } else if q != ii {
                            assert(s@[q] == spre[q]);
                        }
                        assert(s@[q].1 <= spre[mi].1);
                    }
                }
                assert forall|p: int, q: int|
                    0 <= p < ii && ii <= q < n implies (#[trigger] s@[p]).1 >= (
                #[trigger] s@[q]).1 by {
                    assert(s@[p] == spre[p]);
                    if m != i {
                        if q == mi {
                            assert(s@[q] == spre[ii]);
                        } else if q == ii {
                            assert(s@[q] == spre[mi]);
                        } else {
                            assert(s@[q] == spre[q]);
                        }
                    }
                }
            }
            i += 1;
        }
        proof {
            assert forall|p: int|
                0 <= p < s@.len() implies exists|w: int|
                    0 <= w < n && self.node_at(w) == (#[trigger] s@[p]).0@ && self.degree_at(w)
                        == s@[p].1 by {
                assert(0 <= perm[p] < n && self.node_at(perm[p]) == s@[p].0@ && self.degree_at(
                    perm[p],
                ) == s@[p].1);
            }
            assert forall|p: int, q: int|
                0 <= p < q < n implies (#[trigger] s@[p]).0@ != (#[trigger] s@[q]).0@ by {
                assert(perm[p] != perm[q]);
                if perm[p] < perm[q] {
                    assert(self.node_at(perm[p]) != self.node_at(perm[q]));
                } else {
                    assert(self.node_at(perm[q]) != self.node_at(perm[p]));
                }
            }
        }
        let count: usize = if n < 5 {
            n
        } else {
            5
        };
        let ghost sorted = s@;
        s.truncate(count);
        proof {
            assert(s@ == sorted.subrange(0, count as int));
            assert forall|w: int|
                0 <= w < self.node_len() implies (exists|p: int|
                    0 <= p < s@.len() && (#[trigger] s@[p]).0@ == #[trigger] self.node_at(w)) || (
                s@.len() > 0 && self.degree_at(w) <= s@[s@.len() - 1].1) by {
                lemma_perm_hits(perm, w);
                let p0 = choose|p: int| 0 <= p < perm.len() && perm[p] == w;
                assert(sorted[p0].0@ == self.node_at(w) && sorted[p0].1 == self.degree_at(w));
                if p0 < count {
                    assert(s@[p0] == sorted[p0]);
                } else {
                    assert(sorted[count - 1].1 >= sorted[p0].1);
                    assert(s@[count - 1] == sorted[count - 1]);
                }
            }
        }
        s
    }
}

impl Graph {
    /// The graph whose nodes are exactly the entity keys of `d`, in first-seen
    /// order, with no edges yet.
    pub fn with_nodes(d: &crate::dataset::Dataset) -> (g: Graph)
        requires
            d.wf(),
        ensures
            g.wf(),
            g.node_len() == d.view_spec().len(),
            forall|i: int| 0 <= i < g.node_len() ==> g.node_at(i) == (#[trigger] d.view_spec()[i]).0,
            forall|i: int| 0 <= i < g.node_len() ==> g.degree_at(i) == 0,
            g.weight_len() == 0,
    {
        let mut g = Graph::new();
        let n = d.key_count();
        let mut i: usize = 0;
        while i < n
            invariant
                d.wf(),
                n == d.view_spec().len(),
                i <= n,
                g.wf(),
                g.node_len() == i,
                forall|j: int|
                    0 <= j < i ==> g.node_at(j) == (#[trigger] d.view_spec()[j]).0,
                forall|j: int|
                    0 <= j < i ==> g.neighbors_at(j) == Seq::<Seq<char>>::empty(),
                g.weight_len() == 0,
            decreases n - i,
        {
            let key = d.key_at(i);
            let ghost gpre = g;
            proof {
                assert(!gpre.node_seq().contains(key@)) by {
                    if gpre.node_seq().contains(key@) {
                        let j = choose|j: int|
                            0 <= j < gpre.node_seq().len() && gpre.node_seq()[j] == key@;
                        assert(gpre.node_at(j) == key@);
                        assert(d.view_spec()[j].0 == d.view_spec()[i as int].0);
                    }
                }
            }
            g.insert_node(key);
            proof {
                assert(g.node_seq() == gpre.node_seq().push(key@));
                assert forall|j: int|
                    0 <= j < i + 1 implies g.node_at(j) == (#[trigger] d.view_spec()[j]).0 by {
                    if j < i {
                        assert(g.node_at(j) == gpre.node_at(j));
                    }
                }
            }
            i += 1;
        }
        g
    }
}

/// Entity filter applied to each candidate pair before scoring: a placeholder
/// that accepts every pair until the data carries country information.
pub fn are_in_same_country(_node_a: &str, _node_b: &str) -> (r: bool)
    ensures
        r,
{
    true
}

/// An injective sequence of values drawn from `0..len` hits every value of
/// `0..len`.
proof fn lemma_perm_hits(perm: Seq<int>, w: int)
    requires
        forall|j: int| 0 <= j < perm.len() ==> 0 <= #[trigger] perm[j] < perm.len(),
        perm.no_duplicates(),
        0 <= w < perm.len(),
    ensures
        exists|p: int| 0 <= p < perm.len() && perm[p] == w,
{
    let n = perm.len() as int;
    if forall|p: int| 0 <= p < n ==> #[trigger] perm[p] != w {
        let full = vstd::set_lib::set_int_range(0, n);
        vstd::set_lib::lemma_int_range(0, n);
        assert forall|x: int| perm.to_set().contains(x) implies full.contains(x) by {
            assert(perm.contains(x));
            let j = choose|j: int| 0 <= j < perm.len() && perm[j] == x;
            assert(0 <= perm[j] < n);
        }
        assert(perm.to_set().subset_of(full));
        vstd::set_lib::lemma_len_subset(perm.to_set(), full);
        perm.unique_seq_to_set();
        assert(!perm.to_set().contains(w)) by {
            if perm.to_set().contains(w) {
                assert(perm.contains(w));
                let j = choose|j: int| 0 <= j < perm.len() && perm[j] == w;
            }
        }
        assert(perm.to_set().insert(w).len() == n + 1);
        assert forall|x: int| perm.to_set().insert(w).contains(x) implies full.contains(x) by {
            if x != w {
                assert(perm.contains(x));
                let j = choose|j: int| 0 <= j < perm.len() && perm[j] == x;
                assert(0 <= perm[j] < n);
            }
        }
        assert(perm.to_set().insert(w).subset_of(full));
        vstd::set_lib::lemma_len_subset(perm.to_set().insert(w), full);
        assert(false);
    }
}

proof fn lemma_edge_symmetric_one(g: Graph, a: Seq<char>, b: Seq<char>)
    requires
        g.wf(),
    ensures
        g.edge(a, b) ==> g.edge(b, a),
{
    if g.edge(a, b) {
        let i = choose|i: int|
            0 <= i < g.node_len() && g.node_at(i) == a && g.neighbors_at(i).contains(b);
        assert(g.has_node(b));
        let j = choose|j: int| 0 <= j < g.node_len() && g.node_at(j) == b;
        assert(g.neighbors_at(i).contains(g.node_at(j)));
        assert(g.neighbors_at(j).contains(g.node_at(i)));
        assert(g.edge(b, a));
    }
}

/// In a well-formed graph the adjacency relation is symmetric: `b` is a
/// neighbor of `a` exactly when `a` is a neighbor of `b`.
pub proof fn lemma_edge_symmetric(g: Graph, a: Seq<char>, b: Seq<char>)
    requires
        g.wf(),
    ensures
        g.edge(a, b) <==> g.edge(b, a),
{
    lemma_edge_symmetric_one(g, a, b);
    lemma_edge_symmetric_one(g, b, a);
}

/// The weight lookup is direction-independent: both orientations of an
/// unordered pair see the same stored weight.
pub proof fn lemma_edge_weight_symmetric(g: Graph, a: Seq<char>, b: Seq<char>)
    requires
        g.weight_pairs_distinct(),
    ensures
        g.edge_weight(a, b) == g.edge_weight(b, a),
{
    if g.has_weight(a, b) {
        let k = choose|k: int| 0 <= k < g.weight_len() && g.weight_matches(k, a, b);
        lemma_weight_index(g, a, b, k);
        assert(g.weight_matches(k, b, a));
        lemma_weight_index(g, b, a, k);
    } else {
        assert(!g.has_weight(b, a)) by {
            if g.has_weight(b, a) {
                let k = choose|k: int| 0 <= k < g.weight_len() && g.weight_matches(k, b, a);
                assert(g.weight_matches(k, a, b));
            }
        }
    }
}

/// Inserting the same pair twice is idempotent on the node set and the
/// adjacency structure: the second insertion changes no node and no neighbor
/// list, and only the stored weight is replaced by the most recent one.
pub proof fn lemma_add_edge_idempotent(
    g0: Graph,
    g1: Graph,
    g2: Graph,
    a: Seq<char>,
    b: Seq<char>,
    w1: u64,
    w2: u64,
)
    requires
        add_edge_rel(g0, g1, a, b, w1),
        add_edge_rel(g1, g2, a, b, w2),
    ensures
        g2.node_seq() == g1.node_seq(),
        forall|k: Seq<char>| #[trigger] g2.neighbors_of(k) == g1.neighbors_of(k),
        forall|x: Seq<char>, y: Seq<char>| #[trigger] g2.edge(x, y) <==> g1.edge(x, y),
        g2.edge_weight(a, b) == Some(w2),
{
    lemma_insert_key(g0.node_seq(), a);
    lemma_insert_key(insert_key(g0.node_seq(), a), b);
    lemma_insert_key(g1.node_seq(), a);
    assert(g1.node_seq().contains(a));
    assert(g1.node_seq().contains(b));
    assert(insert_key(g1.node_seq(), a) == g1.node_seq());
    assert(g2.node_seq() == g1.node_seq());
    lemma_insert_key(g0.neighbors_of(a), b);
    assert(g1.neighbors_of(a).contains(b));
    assert(g2.neighbors_of(a) == g1.neighbors_of(a));
    lemma_insert_key(g0.neighbors_of(b), a);
    assert(g1.neighbors_of(b).contains(a));
    assert(g2.neighbors_of(b) == g1.neighbors_of(b));
    assert forall|k: Seq<char>| #[trigger] g2.neighbors_of(k) == g1.neighbors_of(k) by {
        if k != a && k != b {
            assert(g2.neighbors_of(k) == g1.neighbors_of(k));
        }
    }
    assert forall|x: Seq<char>, y: Seq<char>| #[trigger] g2.edge(x, y) <==> g1.edge(x, y) by {
        if same_pair(x, y, a, b) {
            assert(g1.edge(x, y));
        }
    }
}

} // verus!
