//! A directed hypergraph: every edge leads from a set of source nodes to a
//! set of destination nodes and carries a payload.

use vstd::prelude::*;
use indexmap::IndexSet;
use std::collections::BTreeSet;
use std::hash::RandomState;
use crate::arena::{
    key_seq, key_set_get_index, key_set_get_index_of, key_set_insert_full, key_set_new, shape_seq,
    shape_set_insert_full, shape_set_new,
};
use crate::error::FlowError;

verus! {

broadcast use {vstd::std_specs::btree::group_btree_axioms, vstd::laws_cmp::group_laws_cmp};

pub type EdgeIndex = usize;

pub type NodeIndex = usize;

/// An edge as contracts speak of it.
pub struct EdgeModel<E> {
    pub sources: Set<NodeIndex>,
    pub destinations: Set<NodeIndex>,
    pub weight: E,
}

impl<E> EdgeModel<E> {
    /// Whether the two edges join the same sources to the same destinations.
    pub open spec fn same_shape(self, other: Self) -> bool {
        self.sources == other.sources && self.destinations == other.destinations
    }
}

/// A graph as contracts speak of it: the node keys and the edges, each in
/// the order of its indices.
pub struct GraphModel<E> {
    pub keys: Seq<u64>,
    pub edges: Seq<EdgeModel<E>>,
}

impl<E> GraphModel<E> {
    pub open spec fn empty() -> Self {
        GraphModel { keys: Seq::empty(), edges: Seq::empty() }
    }

    pub open spec fn order(self) -> nat {
        self.keys.len()
    }

    pub open spec fn size(self) -> nat {
        self.edges.len()
    }

    /// No key occurs twice, no two edges have the same sources and the same
    /// destinations, and every edge joins nodes of the graph.
    pub open spec fn wf(self) -> bool {
        &&& self.keys.no_duplicates()
        &&& forall|e: int, f: int|
            0 <= e < f < self.edges.len() ==> !(#[trigger] self.edges[e]).same_shape(
                #[trigger] self.edges[f],
            )
        &&& forall|e: int, n: NodeIndex|
            0 <= e < self.edges.len() && #[trigger] self.edges[e].sources.contains(n) ==> n
                < self.keys.len()
        &&& forall|e: int, n: NodeIndex|
            0 <= e < self.edges.len() && #[trigger] self.edges[e].destinations.contains(n) ==> n
                < self.keys.len()
    }

    /// The index of the node that goes by `key`; meaningful when there is one.
    pub open spec fn index_of(self, key: u64) -> int {
        self.keys.index_of(key)
    }

    /// The indices of the nodes that go by one of `keys`.
    pub open spec fn indices_of(self, keys: Seq<u64>) -> Set<NodeIndex> {
        Set::new(|n: NodeIndex| n < self.keys.len() && keys.contains(self.keys[n as int]))
    }

    /// Whether the edge at `e` leads from `sources` to `destinations`.
    pub open spec fn edge_joins(self, e: int, sources: Set<NodeIndex>, destinations: Set<NodeIndex>) -> bool {
        &&& 0 <= e < self.edges.len()
        &&& self.edges[e].sources == sources
        &&& self.edges[e].destinations == destinations
    }

    /// Whether some edge leads from `sources` to `destinations`.
    pub open spec fn has_edge(self, sources: Set<NodeIndex>, destinations: Set<NodeIndex>) -> bool {
        exists|e: int| self.edge_joins(e, sources, destinations)
    }

    /// The index of the edge that leads from `sources` to `destinations`;
    /// meaningful when there is one.
    pub open spec fn edge_index(self, sources: Set<NodeIndex>, destinations: Set<NodeIndex>) -> int {
        choose|e: int| self.edge_joins(e, sources, destinations)
    }

    /// The graph after `key` has been inserted: unchanged if a node goes by
    /// `key`, otherwise with one more node behind the others.
    pub open spec fn with_node(self, key: u64) -> Self {
        if self.keys.contains(key) {
            self
        } else {
            GraphModel { keys: self.keys.push(key), edges: self.edges }
        }
    }

    /// The graph after an edge from `sources` to `destinations` has been
    /// inserted: unchanged if such an edge is there, otherwise with one more
    /// edge behind the others, carrying `weight`.
    pub open spec fn with_edge(
        self,
        sources: Set<NodeIndex>,
        destinations: Set<NodeIndex>,
        weight: E,
    ) -> Self {
        if self.has_edge(sources, destinations) {
            self
        } else {
            GraphModel {
                keys: self.keys,
                edges: self.edges.push(EdgeModel { sources, destinations, weight }),
            }
        }
    }

    /// The first of `keys` that no node goes by, if there is one.
    pub open spec fn first_unknown(self, keys: Seq<u64>) -> Option<u64>
        decreases keys.len(),
    {
        if keys.len() == 0 {
            None
        } else if !self.keys.contains(keys[0]) {
            Some(keys[0])
        } else {
            self.first_unknown(keys.drop_first())
        }
    }

    /// Where the first unknown key stands: behind known keys only.
    pub proof fn lemma_first_unknown(self, keys: Seq<u64>, i: int)
        requires
            0 <= i <= keys.len(),
            forall|j: int| 0 <= j < i ==> self.keys.contains(#[trigger] keys[j]),
            i < keys.len() ==> !self.keys.contains(keys[i]),
        ensures
            i == keys.len() ==> self.first_unknown(keys) is None,
            i < keys.len() ==> self.first_unknown(keys) == Some(keys[i]),
        decreases i,
    {
        if i > 0 {
            let rest = keys.drop_first();
            assert(self.keys.contains(keys[0]));
            assert forall|j: int| 0 <= j < i - 1 implies self.keys.contains(#[trigger] rest[j]) by {
                assert(rest[j] == keys[j + 1]);
            }
            self.lemma_first_unknown(rest, i - 1);
        }
    }

    /// If no key is unknown, every key is known.
    pub proof fn lemma_all_known(self, keys: Seq<u64>, i: int)
        requires
            self.first_unknown(keys) is None,
            0 <= i < keys.len(),
        ensures
            self.keys.contains(keys[i]),
        decreases i,
    {
        if i > 0 {
            assert(keys.drop_first()[i - 1] == keys[i]);
            self.lemma_all_known(keys.drop_first(), i - 1);
        }
    }

    /// The first unknown key of two lists in a row is that of the first
    /// list, or else that of the second.
    pub proof fn lemma_first_unknown_concat(self, first: Seq<u64>, second: Seq<u64>)
        ensures
            self.first_unknown(first + second) == match self.first_unknown(first) {
                Some(key) => Some(key),
                None => self.first_unknown(second),
            },
        decreases first.len(),
    {
        if first.len() == 0 {
            assert(first + second == second);
        } else {
            assert((first + second)[0] == first[0]);
            assert((first + second).drop_first() == first.drop_first() + second);
            self.lemma_first_unknown_concat(first.drop_first(), second);
        }
    }

    /// Taking one more key adds the index of that key.
    pub proof fn lemma_indices_step(self, keys: Seq<u64>, i: int, n: NodeIndex)
        requires
            self.keys.no_duplicates(),
            0 <= i < keys.len(),
            n < self.keys.len(),
            self.keys[n as int] == keys[i],
        ensures
            self.indices_of(keys.take(i + 1)) == self.indices_of(keys.take(i)).insert(n),
            self.indices_of(keys).contains(n),
    {
        let before = keys.take(i);
        let after = keys.take(i + 1);
        assert(keys.contains(keys[i]));
        assert forall|m: NodeIndex|
            self.indices_of(after).contains(m) <==> self.indices_of(before).insert(n).contains(
                m,
            ) by {
            if m < self.keys.len() {
                let key = self.keys[m as int];
                if before.contains(key) {
                    let j = before.index_of(key);
                    assert(after[j] == key);
                }
                if m == n {
                    assert(after[i] == key);
                }
                if after.contains(key) {
                    let j = after.index_of(key);
                    if j < i {
                        assert(before[j] == key);
                    }
                }
            }
        }
        assert(self.indices_of(after) =~= self.indices_of(before).insert(n));
    }

    /// The graph after the keys of `keys` have been inserted one after another.
    pub open spec fn with_nodes(self, keys: Seq<u64>) -> Self
        decreases keys.len(),
    {
        if keys.len() == 0 {
            self
        } else {
            self.with_nodes(keys.drop_last()).with_node(keys.last())
        }
    }

    /// Inserting a node keeps a graph well formed, keeps the nodes that were
    /// there at their indices, and the key that was inserted can be read
    /// back at its index.
    pub proof fn lemma_with_node(self, key: u64)
        requires
            self.wf(),
        ensures
            self.with_node(key).wf(),
            self.with_node(key).keys.contains(key),
            self.with_node(key).keys[self.with_node(key).index_of(key)] == key,
            self.with_node(key).keys.to_set() == self.keys.to_set().insert(key),
            self.with_node(key).order() == if self.keys.contains(key) {
                self.order()
            } else {
                self.order() + 1
            },
            forall|n: int| 0 <= n < self.order() ==> self.with_node(key).keys[n] == self.keys[n],
    {
        let after = self.with_node(key);
        if !self.keys.contains(key) {
            assert(after.keys[self.keys.len() as int] == key);
            assert forall|i: int, j: int|
                0 <= i < after.keys.len() && 0 <= j < after.keys.len() && i != j implies after.keys[i]
                != after.keys[j] by {
                if i < self.keys.len() {
                    assert(self.keys.contains(self.keys[i]));
                }
                if j < self.keys.len() {
                    assert(self.keys.contains(self.keys[j]));
                }
            }
        }
        assert(after.keys.contains(key));
        assert forall|k: u64| after.keys.to_set().contains(k) <==> self.keys.to_set().insert(
            key,
        ).contains(k) by {
            if self.keys.contains(k) {
                let at = self.keys.index_of(k);
                assert(after.keys[at] == k);
            }
            if after.keys.contains(k) {
                let at = after.keys.index_of(k);
                if at < self.keys.len() {
                    assert(self.keys[at] == k);
                }
            }
        }
        assert(after.keys.to_set() =~= self.keys.to_set().insert(key));
    }

    /// The order of a graph is the number of distinct keys that were
    /// inserted: after any sequence of insertions into the empty graph the
    /// graph holds each of the keys once; if no key was repeated, it holds
    /// them in the order of insertion.
    pub proof fn lemma_order_counts_keys(keys: Seq<u64>)
        ensures
            Self::empty().with_nodes(keys).wf(),
            Self::empty().with_nodes(keys).keys.to_set() == keys.to_set(),
            Self::empty().with_nodes(keys).order() == keys.to_set().len(),
            keys.no_duplicates() ==> Self::empty().with_nodes(keys).keys == keys,
        decreases keys.len(),
    {
        let built = Self::empty().with_nodes(keys);
        if keys.len() == 0 {
            assert(keys.to_set() =~= Set::empty());
            assert(built.keys.to_set() =~= Set::empty());
        } else {
            let front = keys.drop_last();
            let before = Self::empty().with_nodes(front);
            Self::lemma_order_counts_keys(front);
            before.lemma_with_node(keys.last());
            assert(keys.to_set() =~= front.to_set().insert(keys.last())) by {
                assert forall|k: u64| keys.to_set().contains(k) <==> front.to_set().insert(
                    keys.last(),
                ).contains(k) by {
                    if front.contains(k) {
                        let at = front.index_of(k);
                        assert(keys[at] == k);
                    }
                    if keys.contains(k) {
                        let at = keys.index_of(k);
                        if at < front.len() {
                            assert(front[at] == k);
                        }
                    }
                }
            }
            built.keys.unique_seq_to_set();
            if keys.no_duplicates() {
                assert(front.no_duplicates());
                assert(!front.contains(keys.last())) by {
                    if front.contains(keys.last()) {
                        let at = front.index_of(keys.last());
                        assert(keys[at] == keys[keys.len() - 1]);
                    }
                }
                assert(before.keys == front);
                assert(built.keys =~= keys);
            }
        }
    }

    /// Inserting an edge between nodes of the graph keeps the graph well
    /// formed, adds at most one edge, and leaves the edges that were there
    /// as they were.
    pub proof fn lemma_with_edge(
        self,
        sources: Set<NodeIndex>,
        destinations: Set<NodeIndex>,
        weight: E,
    )
        requires
            self.wf(),
            forall|n: NodeIndex| sources.contains(n) || destinations.contains(n) ==> n < self.order(),
        ensures
            self.with_edge(sources, destinations, weight).wf(),
            self.with_edge(sources, destinations, weight).has_edge(sources, destinations),
            self.with_edge(sources, destinations, weight).size() == if self.has_edge(
                sources,
                destinations,
            ) {
                self.size()
            } else {
                self.size() + 1
            },
            forall|e: int|
                0 <= e < self.size() ==> self.with_edge(sources, destinations, weight).edges[e]
                    == self.edges[e],
            !self.has_edge(sources, destinations) ==> self.with_edge(
                sources,
                destinations,
                weight,
            ).edge_index(sources, destinations) == self.size() && self.with_edge(
                sources,
                destinations,
                weight,
            ).edges[self.size() as int].weight == weight,
    {
        let after = self.with_edge(sources, destinations, weight);
        if !self.has_edge(sources, destinations) {
            let last = self.edges.len() as int;
            assert(after.edge_joins(last, sources, destinations));
            assert forall|e: int, f: int| 0 <= e < f < after.edges.len() implies !(
            #[trigger] after.edges[e]).same_shape(#[trigger] after.edges[f]) by {
                if f == last {
                    if after.edges[e].same_shape(after.edges[f]) {
                        assert(self.edge_joins(e, sources, destinations));
                    }
                }
            }
            let found = after.edge_index(sources, destinations);
            assert(after.edge_joins(found, sources, destinations));
            if found < last {
                assert(self.edge_joins(found, sources, destinations));
            }
        }
    }

    /// Of two edges inserted with the same sources and the same
    /// destinations the second is dropped: the graph is as the first
    /// insertion left it, and the edge carries the first payload.
    pub proof fn lemma_same_shape_twice(
        self,
        sources: Set<NodeIndex>,
        destinations: Set<NodeIndex>,
        first: E,
        second: E,
    )
        requires
            self.wf(),
            forall|n: NodeIndex| sources.contains(n) || destinations.contains(n) ==> n < self.order(),
        ensures
            self.with_edge(sources, destinations, first).with_edge(sources, destinations, second)
                == self.with_edge(sources, destinations, first),
            !self.has_edge(sources, destinations) ==> {
                let twice = self.with_edge(sources, destinations, first).with_edge(
                    sources,
                    destinations,
                    second,
                );
                &&& twice.size() == self.size() + 1
                &&& twice.edges[twice.edge_index(sources, destinations)].weight == first
            },
    {
        self.lemma_with_edge(sources, destinations, first);
    }

    /// The edges that leave the node at `n`.
    pub open spec fn outgoing(self, n: NodeIndex) -> Set<EdgeIndex> {
        Set::new(|e: EdgeIndex| e < self.edges.len() && self.edges[e as int].sources.contains(n))
    }

    /// The edges that arrive at the node at `n`.
    pub open spec fn incoming(self, n: NodeIndex) -> Set<EdgeIndex> {
        Set::new(
            |e: EdgeIndex| e < self.edges.len() && self.edges[e as int].destinations.contains(n),
        )
    }
}

/// Whether every item of `s` is below the next one.
pub open spec fn ascending(s: Seq<usize>) -> bool {
    forall|i: int, j: int| 0 <= i < j < s.len() ==> s[i] < s[j]
}

/// Putting an item that the list lacks, and that is above its last item,
/// behind the list keeps it ascending and adds the item to its set.
pub proof fn lemma_push_ascending(s: Seq<usize>, item: usize)
    requires
        ascending(s),
        forall|i: int| 0 <= i < s.len() ==> #[trigger] s[i] < item,
    ensures
        ascending(s.push(item)),
        s.push(item).to_set() == s.to_set().insert(item),
{
    let t = s.push(item);
    assert forall|x: usize| t.to_set().contains(x) <==> s.to_set().insert(item).contains(x) by {
        if s.contains(x) {
            let at = s.index_of(x);
            assert(t[at] == x);
        }
        if x == item {
            assert(t[s.len() as int] == x);
        }
        if t.contains(x) {
            let at = t.index_of(x);
            if at < s.len() {
                assert(s[at] == x);
            }
        }
    }
    assert(t.to_set() =~= s.to_set().insert(item));
}

/// The adjacency record of one node: the edges that leave it and the edges
/// that arrive at it, each in ascending order.
pub struct Hypernode {
    neighbors: Vec<EdgeIndex>,
    neighbor_of: Vec<EdgeIndex>,
}

impl Hypernode {
    pub closed spec fn spec_neighbors(&self) -> Seq<EdgeIndex> {
        self.neighbors@
    }

    pub closed spec fn spec_neighbor_of(&self) -> Seq<EdgeIndex> {
        self.neighbor_of@
    }

    /// The record of a node that no edge touches.
    pub fn new() -> (node: Self)
        ensures
            node.spec_neighbors() == Seq::<EdgeIndex>::empty(),
            node.spec_neighbor_of() == Seq::<EdgeIndex>::empty(),
    {
        Hypernode { neighbors: Vec::new(), neighbor_of: Vec::new() }
    }

    /// The edges that leave the node.
    pub fn neighbors(&self) -> (edges: &Vec<EdgeIndex>)
        ensures
            edges@ == self.spec_neighbors(),
    {
        &self.neighbors
    }

    /// The edges that arrive at the node.
    pub fn neighbor_of(&self) -> (edges: &Vec<EdgeIndex>)
        ensures
            edges@ == self.spec_neighbor_of(),
    {
        &self.neighbor_of
    }
}

/// A store of nodes, found by key, and of hyperedges, found by the sets of
/// nodes they join. Nodes and edges are numbered in the order of insertion
/// and never leave.
pub struct Hypergraph<E> {
    keys: IndexSet<u64, RandomState>,
    nodes: Vec<Hypernode>,
    shapes: IndexSet<(BTreeSet<usize>, BTreeSet<usize>), RandomState>,
    weights: Vec<E>,
}

impl<E> View for Hypergraph<E> {
    type V = GraphModel<E>;

    closed spec fn view(&self) -> GraphModel<E> {
        GraphModel {
            keys: key_seq(self.keys),
            edges: Seq::new(
                self.weights@.len(),
                |e: int|
                    EdgeModel {
                        sources: shape_seq(self.shapes)[e].0,
                        destinations: shape_seq(self.shapes)[e].1,
                        weight: self.weights@[e],
                    },
            ),
        }
    }
}

impl<E> Hypergraph<E> {
    /// The edges that leave the node at `n`, as the graph has recorded them.
    pub closed spec fn recorded_outgoing(&self, n: NodeIndex) -> Seq<EdgeIndex> {
        self.nodes@[n as int].neighbors@
    }

    /// The edges that arrive at the node at `n`, as the graph has recorded them.
    pub closed spec fn recorded_incoming(&self, n: NodeIndex) -> Seq<EdgeIndex> {
        self.nodes@[n as int].neighbor_of@
    }

    /// Whether the record of the node at `n` lists, in ascending order,
    /// exactly the edges that touch the node.
    pub open spec fn recorded(&self, n: NodeIndex) -> bool {
        &&& ascending(self.recorded_outgoing(n))
        &&& self.recorded_outgoing(n).to_set() == self@.outgoing(n)
        &&& ascending(self.recorded_incoming(n))
        &&& self.recorded_incoming(n).to_set() == self@.incoming(n)
    }

    /// The graph's invariant: its model is well formed, and each node's
    /// record lists, in ascending order, exactly the edges that touch it.
    pub closed spec fn wf(&self) -> bool {
        &&& self@.wf()
        &&& self.nodes@.len() == key_seq(self.keys).len()
        &&& self.weights@.len() == shape_seq(self.shapes).len()
        &&& forall|n: NodeIndex| n < self.nodes@.len() ==> #[trigger] self.recorded(n)
    }

    /// What the invariant says of the model and of the records.
    pub proof fn lemma_wf(&self)
        requires
            self.wf(),
        ensures
            self@.wf(),
            forall|n: NodeIndex| n < self@.order() ==> #[trigger] self.recorded(n),
    {
    }

    /// A graph without nodes and edges.
    pub fn new() -> (graph: Self)
        ensures
            graph.wf(),
            graph@ == GraphModel::<E>::empty(),
    {
        let graph = Hypergraph {
            keys: key_set_new(),
            nodes: Vec::new(),
            shapes: shape_set_new(),
            weights: Vec::new(),
        };
        assert(graph@.edges =~= Seq::empty());
        graph
    }

    /// The index of the node that goes by `node`. A key that is new gets the
    /// next index and an empty record; a key that is known keeps its index
    /// and its record.
    pub fn insert_node(&mut self, node: u64) -> (index: NodeIndex)
        requires
            old(self).wf(),
        ensures
            final(self).wf(),
            final(self)@ == old(self)@.with_node(node),
            index < final(self)@.order(),
            final(self)@.keys[index as int] == node,
            !old(self)@.keys.contains(node) ==> index == old(self)@.order(),
    {
        let (index, fresh) = key_set_insert_full(&mut self.keys, node);
        if fresh {
            self.nodes.push(Hypernode::new());
        }
        proof {
            let before = old(self);
            assert(self@.edges =~= before@.edges);
            if fresh {
                assert forall|i: int, j: int|
                    0 <= i < self@.keys.len() && 0 <= j < self@.keys.len() && i != j implies self@.keys[i]
                    != self@.keys[j] by {
                    if i < before@.keys.len() {
                        assert(before@.keys.contains(before@.keys[i]));
                    }
                    if j < before@.keys.len() {
                        assert(before@.keys.contains(before@.keys[j]));
                    }
                }
            }
            assert forall|n: NodeIndex| n < self.nodes@.len() implies #[trigger] self.recorded(
                n,
            ) by {
                if n < before.nodes@.len() {
                    assert(before.recorded(n));
                    assert(self.recorded_outgoing(n) == before.recorded_outgoing(n));
                    assert(self.recorded_incoming(n) == before.recorded_incoming(n));
                    assert(self@.outgoing(n) =~= before@.outgoing(n));
                    assert(self@.incoming(n) =~= before@.incoming(n));
                } else {
                    assert(self.recorded_outgoing(n) =~= Seq::empty());
                    assert(self.recorded_incoming(n) =~= Seq::empty());
                    assert(self@.outgoing(n) =~= Set::empty());
                    assert(self@.incoming(n) =~= Set::empty());
                    assert(self.recorded_outgoing(n).to_set() =~= Set::empty());
                    assert(self.recorded_incoming(n).to_set() =~= Set::empty());
                }
            }
        }
        index
    }

    /// The set of the indices of the nodes that go by `keys`, or the first
    /// of `keys` that no node goes by.
    fn indices(&self, keys: &[u64]) -> (r: Result<BTreeSet<NodeIndex>, FlowError>)
        requires
            self.wf(),
        ensures
            match self@.first_unknown(keys@) {
                Some(key) => r == Err::<BTreeSet<NodeIndex>, FlowError>(
                    FlowError::NodeNotFound(key),
                ),
                None => r is Ok && r->Ok_0@ == self@.indices_of(keys@),
            },
    {
        let mut found: BTreeSet<NodeIndex> = BTreeSet::new();
        let mut i: usize = 0;
        while i < keys.len()
            invariant
                self.wf(),
                i <= keys.len(),
                forall|j: int| 0 <= j < i ==> self@.keys.contains(#[trigger] keys@[j]),
                found@ == self@.indices_of(keys@.take(i as int)),
            decreases keys.len() - i,
        {
            match key_set_get_index_of(&self.keys, keys[i]) {
                None => {
                    proof {
                        self@.lemma_first_unknown(keys@, i as int);
                    }
                    return Err(FlowError::NodeNotFound(keys[i]));
                },
                Some(index) => {
                    found.insert(index);
                    proof {
                        self@.lemma_indices_step(keys@, i as int, index);
                    }
                },
            }
            i += 1;
        }
        proof {
            self@.lemma_first_unknown(keys@, keys@.len() as int);
            assert(keys@.take(keys@.len() as int) == keys@);
        }
        Ok(found)
    }

    /// Whether the record of the node at `n` lists what it should while the
    /// newest edge, at `index`, is being entered: every older edge that
    /// touches the node, and the newest one where the flag says so.
    closed spec fn staged_node(&self, n: NodeIndex, index: EdgeIndex, leaves: bool, arrives: bool) -> bool {
        &&& ascending(self.recorded_outgoing(n))
        &&& self.recorded_outgoing(n).to_set() == if leaves {
            self@.outgoing(n)
        } else {
            self@.outgoing(n).remove(index)
        }
        &&& ascending(self.recorded_incoming(n))
        &&& self.recorded_incoming(n).to_set() == if arrives {
            self@.incoming(n)
        } else {
            self@.incoming(n).remove(index)
        }
    }

    /// The invariant while the newest edge, at `index`, is being entered into
    /// the records: `from` and `to` are the nodes whose records have it.
    closed spec fn staged(&self, index: EdgeIndex, from: Set<NodeIndex>, to: Set<NodeIndex>) -> bool {
        &&& self@.wf()
        &&& self.nodes@.len() == key_seq(self.keys).len()
        &&& self.weights@.len() == shape_seq(self.shapes).len()
        &&& index + 1 == self.weights@.len()
        &&& forall|n: NodeIndex|
            n < self.nodes@.len() ==> #[trigger] self.staged_node(
                n,
                index,
                from.contains(n),
                to.contains(n),
            )
    }

    /// Enters the newest edge into the record of a node that it leaves.
    fn record_source(
        &mut self,
        n: NodeIndex,
        index: EdgeIndex,
        Ghost(from): Ghost<Set<NodeIndex>>,
        Ghost(to): Ghost<Set<NodeIndex>>,
    )
        requires
            old(self).staged(index, from, to),
            n < old(self)@.order(),
            old(self)@.edges[index as int].sources.contains(n),
        ensures
            final(self).staged(index, from.insert(n), to),
            final(self)@ == old(self)@,
    {
        assert(self.staged_node(n, index, from.contains(n), to.contains(n)));
        assert(self@.outgoing(n).contains(index));
        let count = self.nodes[n].neighbors.len();
        let ghost listed = self.recorded_outgoing(n);
        if count == 0 || self.nodes[n].neighbors[count - 1] != index {
            proof {
                if listed.contains(index) {
                    let at = listed.index_of(index);
                    assert(listed[at] == index);
                    let last = listed[count - 1];
                    assert(listed.contains(last));
                    assert(listed.to_set().contains(last));
                    assert(self@.outgoing(n).contains(last));
                }
                assert(!listed.to_set().contains(index));
                assert(!from.contains(n));
            }
            self.nodes[n].neighbors.push(index);
            proof {
                assert(self.recorded_outgoing(n) == listed.push(index));
                assert(self.recorded_incoming(n) == old(self).recorded_incoming(n));
                assert forall|i: int| 0 <= i < listed.len() implies #[trigger] listed[i] < index by {
                    assert(listed.contains(listed[i]));
                    assert(listed.to_set().contains(listed[i]));
                    assert(self@.outgoing(n).contains(listed[i]));
                }
                lemma_push_ascending(listed, index);
                assert(listed.to_set().insert(index) =~= self@.outgoing(n));
            }
        } else {
            proof {
                assert(listed[count - 1] == index);
                assert(listed.to_set().contains(index));
                assert(from.contains(n));
            }
        }
        proof {
            let before = old(self);
            assert forall|m: NodeIndex| m < self.nodes@.len() implies #[trigger] self.staged_node(
                m,
                index,
                from.insert(n).contains(m),
                to.contains(m),
            ) by {
                assert(before.staged_node(m, index, from.contains(m), to.contains(m)));
                if m != n {
                    assert(self.recorded_outgoing(m) == before.recorded_outgoing(m));
                    assert(self.recorded_incoming(m) == before.recorded_incoming(m));
                }
            }
        }
    }

    /// Enters the newest edge into the record of a node at which it arrives.
    fn record_destination(
        &mut self,
        n: NodeIndex,
        index: EdgeIndex,
        Ghost(from): Ghost<Set<NodeIndex>>,
        Ghost(to): Ghost<Set<NodeIndex>>,
    )
        requires
            old(self).staged(index, from, to),
            n < old(self)@.order(),
            old(self)@.edges[index as int].destinations.contains(n),
        ensures
            final(self).staged(index, from, to.insert(n)),
            final(self)@ == old(self)@,
    {
        assert(self.staged_node(n, index, from.contains(n), to.contains(n)));
        assert(self@.incoming(n).contains(index));
        let count = self.nodes[n].neighbor_of.len();
        let ghost listed = self.recorded_incoming(n);
        if count == 0 || self.nodes[n].neighbor_of[count - 1] != index {
            proof {
                if listed.contains(index) {
                    let at = listed.index_of(index);
                    assert(listed[at] == index);
                    let last = listed[count - 1];
                    assert(listed.contains(last));
                    assert(listed.to_set().contains(last));
                    assert(self@.incoming(n).contains(last));
                }
                assert(!listed.to_set().contains(index));
                assert(!to.contains(n));
            }
            self.nodes[n].neighbor_of.push(index);
            proof {
                assert(self.recorded_incoming(n) == listed.push(index));
                assert(self.recorded_outgoing(n) == old(self).recorded_outgoing(n));
                assert forall|i: int| 0 <= i < listed.len() implies #[trigger] listed[i] < index by {
                    assert(listed.contains(listed[i]));
                    assert(listed.to_set().contains(listed[i]));
                    assert(self@.incoming(n).contains(listed[i]));
                }
                lemma_push_ascending(listed, index);
                assert(listed.to_set().insert(index) =~= self@.incoming(n));
            }
        } else {
            proof {
                assert(listed[count - 1] == index);
                assert(listed.to_set().contains(index));
                assert(to.contains(n));
            }
        }
        proof {
            let before = old(self);
            assert forall|m: NodeIndex| m < self.nodes@.len() implies #[trigger] self.staged_node(
                m,
                index,
                from.contains(m),
                to.insert(n).contains(m),
            ) by {
                assert(before.staged_node(m, index, from.contains(m), to.contains(m)));
                if m != n {
                    assert(self.recorded_outgoing(m) == before.recorded_outgoing(m));
                    assert(self.recorded_incoming(m) == before.recorded_incoming(m));
                }
            }
        }
    }

    /// The index of the edge that leads from the nodes that go by `sources`
    /// to the nodes that go by `destinations`. If there is no such edge yet,
    /// one is made with `weight` for its payload; if there is one, it keeps
    /// its payload and `weight` is dropped. If one of the keys is unknown,
    /// the first such key is reported and the graph stays as it was.
    pub fn insert_edge(&mut self, sources: &[u64], destinations: &[u64], weight: E) -> (r: Result<
        EdgeIndex,
        FlowError,
    >)
        requires
            old(self).wf(),
        ensures
            final(self).wf(),
            match old(self)@.first_unknown(sources@ + destinations@) {
                Some(key) => r == Err::<EdgeIndex, FlowError>(FlowError::NodeNotFound(key))
                    && final(self)@ == old(self)@,
                None => {
                    let from = old(self)@.indices_of(sources@);
                    let to = old(self)@.indices_of(destinations@);
                    &&& r is Ok
                    &&& final(self)@ == old(self)@.with_edge(from, to, weight)
                    &&& final(self)@.edge_joins(r->Ok_0 as int, from, to)
                    &&& !old(self)@.has_edge(from, to) ==> r->Ok_0 == old(self)@.size()
                },
            },
    {
        proof {
            self@.lemma_first_unknown_concat(sources@, destinations@);
        }
        let from = match self.indices(sources) {
            Ok(from) => from,
            Err(error) => {
                return Err(error);
            },
        };
        let to = match self.indices(destinations) {
            Ok(to) => to,
            Err(error) => {
                return Err(error);
            },
        };
        let ghost from_set = from@;
        let ghost to_set = to@;
        let (index, fresh) = shape_set_insert_full(&mut self.shapes, from, to);
        if !fresh {
            proof {
                let before = old(self);
                let at = shape_seq(before.shapes).index_of((from_set, to_set));
                assert(before@.edge_joins(at, from_set, to_set));
                assert(self@.edges =~= before@.edges);
                assert(self@ == before@);
                assert forall|n: NodeIndex| n < self.nodes@.len() implies #[trigger] self.recorded(
                    n,
                ) by {
                    assert(before.recorded(n));
                    assert(self.recorded_outgoing(n) == before.recorded_outgoing(n));
                    assert(self.recorded_incoming(n) == before.recorded_incoming(n));
                }
            }
            return Ok(index);
        }
        self.weights.push(weight);
        proof {
            let before = old(self);
            assert(!before@.has_edge(from_set, to_set)) by {
                if before@.has_edge(from_set, to_set) {
                    let at = before@.edge_index(from_set, to_set);
                    assert(before@.edge_joins(at, from_set, to_set));
                    assert(shape_seq(before.shapes)[at] == (from_set, to_set));
                }
            }
            assert(self@.edges =~= before@.edges.push(
                EdgeModel { sources: from_set, destinations: to_set, weight },
            ));
            assert(self@ == before@.with_edge(from_set, to_set, weight));
            assert(self@.wf()) by {
                assert forall|e: int, f: int| 0 <= e < f < self@.edges.len() implies !(
                #[trigger] self@.edges[e]).same_shape(#[trigger] self@.edges[f]) by {
                    if f == index {
                        if self@.edges[e].same_shape(self@.edges[f]) {
                            assert(before@.edge_joins(e, from_set, to_set));
                        }
                    } else {
                        assert(!before@.edges[e].same_shape(before@.edges[f]));
                    }
                }
            }
            assert forall|n: NodeIndex| n < self.nodes@.len() implies #[trigger] self.staged_node(
                n,
                index,
                false,
                false,
            ) by {
                assert(before.recorded(n));
                assert(self.recorded_outgoing(n) == before.recorded_outgoing(n));
                assert(self.recorded_incoming(n) == before.recorded_incoming(n));
                assert(before@.outgoing(n) =~= self@.outgoing(n).remove(index));
                assert(before@.incoming(n) =~= self@.incoming(n).remove(index));
            }
            assert(self.staged(index, Set::empty(), Set::empty()));
        }
        let ghost staged_view = self@;
        let ghost mut done: Set<NodeIndex> = Set::empty();
        let mut i: usize = 0;
        while i < sources.len()
            invariant
                i <= sources.len(),
                self.staged(index, done, Set::empty()),
                self@ == staged_view,
                staged_view.keys == old(self)@.keys,
                index < staged_view.edges.len(),
                staged_view.edges[index as int].sources == old(self)@.indices_of(sources@),
                old(self)@.first_unknown(sources@) is None,
                old(self).wf(),
                done == old(self)@.indices_of(sources@.take(i as int)),
            decreases sources.len() - i,
        {
            proof {
                old(self)@.lemma_all_known(sources@, i as int);
            }
            let n = key_set_get_index_of(&self.keys, sources[i]).unwrap();
            proof {
                assert(sources@.contains(sources@[i as int]));
                old(self)@.lemma_indices_step(sources@, i as int, n);
            }
            self.record_source(n, index, Ghost(done), Ghost(Set::empty()));
            proof {
                done = done.insert(n);
            }
            i += 1;
        }
        proof {
            assert(sources@.take(sources@.len() as int) == sources@);
        }
        let ghost from_done = done;
        proof {
            done = Set::empty();
        }
        let mut j: usize = 0;
        while j < destinations.len()
            invariant
                j <= destinations.len(),
                self.staged(index, from_done, done),
                self@ == staged_view,
                staged_view.keys == old(self)@.keys,
                index < staged_view.edges.len(),
                staged_view.edges[index as int].destinations == old(self)@.indices_of(
                    destinations@,
                ),
                old(self)@.first_unknown(destinations@) is None,
                old(self).wf(),
                done == old(self)@.indices_of(destinations@.take(j as int)),
            decreases destinations.len() - j,
        {
            proof {
                old(self)@.lemma_all_known(destinations@, j as int);
            }
            let n = key_set_get_index_of(&self.keys, destinations[j]).unwrap();
            proof {
                assert(destinations@.contains(destinations@[j as int]));
                old(self)@.lemma_indices_step(destinations@, j as int, n);
            }
            self.record_destination(n, index, Ghost(from_done), Ghost(done));
            proof {
                done = done.insert(n);
            }
            j += 1;
        }
        proof {
            assert(destinations@.take(destinations@.len() as int) == destinations@);
            assert forall|n: NodeIndex| n < self.nodes@.len() implies #[trigger] self.recorded(
                n,
            ) by {
                assert(self.staged_node(n, index, from_done.contains(n), done.contains(n)));
                assert(self@.outgoing(n).contains(index) <==> from_done.contains(n));
                assert(self@.incoming(n).contains(index) <==> done.contains(n));
                assert(self.recorded_outgoing(n).to_set() =~= self@.outgoing(n));
                assert(self.recorded_incoming(n).to_set() =~= self@.incoming(n));
            }
        }
        Ok(index)
    }

    /// The number of nodes.
    pub fn order(&self) -> (n: usize)
        requires
            self.wf(),
        ensures
            n == self@.order(),
    {
        self.nodes.len()
    }

    /// The number of edges.
    pub fn size(&self) -> (n: usize)
        requires
            self.wf(),
        ensures
            n == self@.size(),
    {
        self.weights.len()
    }

    /// The key of the node at index `n`.
    pub fn get_node(&self, n: NodeIndex) -> (r: Result<u64, FlowError>)
        requires
            self.wf(),
        ensures
            n < self@.order() ==> r == Ok::<u64, FlowError>(self@.keys[n as int]),
            n >= self@.order() ==> r == Err::<u64, FlowError>(FlowError::NodeNotFound(n as u64)),
    {
        match key_set_get_index(&self.keys, n) {
            Some(key) => Ok(key),
            None => Err(FlowError::NodeNotFound(n as u64)),
        }
    }

    /// The payload of the edge at index `e`.
    pub fn get_weight(&self, e: EdgeIndex) -> (r: Result<&E, FlowError>)
        requires
            self.wf(),
        ensures
            e < self@.size() ==> r == Ok::<&E, FlowError>(&self@.edges[e as int].weight),
            e >= self@.size() ==> r == Err::<&E, FlowError>(FlowError::EdgeNotFound(e)),
    {
        if e < self.weights.len() {
            Ok(&self.weights[e])
        } else {
            Err(FlowError::EdgeNotFound(e))
        }
    }

    /// The edges that leave the node that goes by `node`, in ascending order.
    pub fn neighbors(&self, node: u64) -> (r: Result<&Vec<EdgeIndex>, FlowError>)
        requires
            self.wf(),
        ensures
            !self@.keys.contains(node) ==> r == Err::<&Vec<EdgeIndex>, FlowError>(
                FlowError::NodeNotFound(node),
            ),
            self@.keys.contains(node) ==> r is Ok && ascending(r->Ok_0@) && r->Ok_0@.to_set()
                == self@.outgoing(self@.index_of(node) as usize),
    {
        match key_set_get_index_of(&self.keys, node) {
            Some(index) => {
                proof {
                    self.lemma_index(node, index as int);
                    assert(self.recorded(index));
                }
                Ok(&self.nodes[index].neighbors)
            },
            None => Err(FlowError::NodeNotFound(node)),
        }
    }

    /// The edges that arrive at the node that goes by `node`, in ascending order.
    pub fn neighbor_of(&self, node: u64) -> (r: Result<&Vec<EdgeIndex>, FlowError>)
        requires
            self.wf(),
        ensures
            !self@.keys.contains(node) ==> r == Err::<&Vec<EdgeIndex>, FlowError>(
                FlowError::NodeNotFound(node),
            ),
            self@.keys.contains(node) ==> r is Ok && ascending(r->Ok_0@) && r->Ok_0@.to_set()
                == self@.incoming(self@.index_of(node) as usize),
    {
        match key_set_get_index_of(&self.keys, node) {
            Some(index) => {
                proof {
                    self.lemma_index(node, index as int);
                    assert(self.recorded(index));
                }
                Ok(&self.nodes[index].neighbor_of)
            },
            None => Err(FlowError::NodeNotFound(node)),
        }
    }

    /// The one place at which a key stands is its index.
    proof fn lemma_index(&self, key: u64, index: int)
        requires
            self.wf(),
            0 <= index < self@.keys.len(),
            self@.keys[index] == key,
        ensures
            self@.index_of(key) == index,
    {
        let found = self@.keys.index_of(key);
        assert(self@.keys.contains(key));
        assert(0 <= found < self@.keys.len() && self@.keys[found] == key);
    }
}

} // verus!
