//! Control-flow graph container.
//!
//! A directed graph keyed by opaque node indices, storing for each node its
//! child and parent edge sets and an attached metadata payload.  Edges are
//! always recorded symmetrically: whenever `b` is a child of `a`, `a` is a
//! parent of `b` (see [`ControlFlowGraph::edges_consistent`]).  The graph may
//! contain cycles, and nodes may be removed while resolvers rewrite it.
//!
//! Nodes live in an arena of slots addressed by their index, so references
//! stay stable across insertions and removals.

use vstd::prelude::*;

verus! {

/// Opaque identifier of a graph node.
#[derive(Debug, Clone, Copy, PartialEq, Eq, Hash, Structural)]
pub struct NodeRef(pub usize);

/// A single node in a [`ControlFlowGraph`]: its own reference, its child and
/// parent edge sets, and its metadata.
#[derive(Debug, Clone, PartialEq)]
pub struct ControlFlowNode<Meta> {
    /// The node's own reference.
    pub data: NodeRef,
    /// The children of this node.
    pub children: Vec<NodeRef>,
    /// The parents of this node.
    pub parents: Vec<NodeRef>,
    /// Metadata for this node.
    pub meta: Meta,
}

/// A control flow graph.
///
/// The first node ever inserted becomes the root.  Nodes and edges are added
/// incrementally and may be removed.
#[derive(Debug, Clone, PartialEq)]
pub struct ControlFlowGraph<Meta> {
    slots: Vec<Option<ControlFlowNode<Meta>>>,
    count: usize,
    root: Option<NodeRef>,
}

/// Number of occupied slots in a node arena.
pub closed spec fn count_some<Meta>(s: Seq<Option<ControlFlowNode<Meta>>>) -> nat
    decreases s.len(),
{
    if s.len() == 0 {
        0
    } else {
        count_some(s.drop_last()) + if s.last() is Some {
            1nat
        } else {
            0nat
        }
    }
}

impl<Meta> ControlFlowGraph<Meta> {
    /// Whether the graph holds a node with this reference.
    pub closed spec fn contains_spec(&self, n: NodeRef) -> bool {
        n.0 < self.slots@.len() && self.slots@[n.0 as int] is Some
    }

    /// The stored node for a reference (meaningful only when present).
    pub closed spec fn node_at(&self, n: NodeRef) -> ControlFlowNode<Meta> {
        self.slots@[n.0 as int]->Some_0
    }

    /// The set of children of a node (meaningful only when present).
    pub open spec fn spec_children(&self, n: NodeRef) -> Set<NodeRef> {
        self.node_at(n).children@.to_set()
    }

    /// The set of parents of a node (meaningful only when present).
    pub open spec fn spec_parents(&self, n: NodeRef) -> Set<NodeRef> {
        self.node_at(n).parents@.to_set()
    }

    /// The metadata of a node (meaningful only when present).
    pub open spec fn spec_meta(&self, n: NodeRef) -> Meta {
        self.node_at(n).meta
    }

    /// The number of nodes in the graph.
    pub closed spec fn spec_len(&self) -> usize {
        self.count
    }

    /// The root node, if one was ever inserted.
    pub closed spec fn root_spec(&self) -> Option<NodeRef> {
        self.root
    }

    /// Representation invariant of the arena: each stored node knows its own
    /// index, edge lists hold no duplicates, and the node count is accurate.
    pub closed spec fn inv_repr(&self) -> bool {
        &&& forall|i: int|
            0 <= i < self.slots@.len() && self.slots@[i] is Some ==> {
                &&& (#[trigger] self.slots@[i])->Some_0.data.0 == i
                &&& self.slots@[i]->Some_0.children@.no_duplicates()
                &&& self.slots@[i]->Some_0.parents@.no_duplicates()
            }
        &&& self.count == count_some(self.slots@)
    }

    /// The edge sets of the graph are mutually consistent: an edge `a -> b`
    /// is recorded in `a`'s children exactly when it is recorded in `b`'s
    /// parents, and edges only join members of the graph.
    pub open spec fn edges_consistent(&self) -> bool {
        &&& forall|a: NodeRef, b: NodeRef|
            self.contains_spec(a) && #[trigger] self.spec_children(a).contains(b) ==> {
                &&& self.contains_spec(b)
                &&& self.spec_parents(b).contains(a)
            }
        &&& forall|a: NodeRef, b: NodeRef|
            self.contains_spec(b) && #[trigger] self.spec_parents(b).contains(a) ==> {
                &&& self.contains_spec(a)
                &&& self.spec_children(a).contains(b)
            }
    }

    /// Well-formedness: the representation invariant together with edge
    /// consistency.  Established by the constructors and preserved by every
    /// operation.
    pub open spec fn wf(&self) -> bool {
        self.inv_repr() && self.edges_consistent()
    }
}

proof fn lemma_count_some_push<Meta>(
    s: Seq<Option<ControlFlowNode<Meta>>>,
    v: Option<ControlFlowNode<Meta>>,
)
    ensures
        count_some(s.push(v)) == count_some(s) + if v is Some {
            1nat
        } else {
            0nat
        },
{
    assert(s.push(v).drop_last() =~= s);
    assert(s.push(v).last() == v);
}

proof fn lemma_count_some_update<Meta>(
    s: Seq<Option<ControlFlowNode<Meta>>>,
    i: int,
    v: Option<ControlFlowNode<Meta>>,
)
    requires
        0 <= i < s.len(),
    ensures
        count_some(s.update(i, v)) + (if s[i] is Some {
            1nat
        } else {
            0nat
        }) == count_some(s) + if v is Some {
            1nat
        } else {
            0nat
        },
    decreases s.len(),
{
    if i == s.len() - 1 {
        assert(s.update(i, v).drop_last() =~= s.drop_last());
        assert(s.update(i, v).last() == v);
    } else {
        lemma_count_some_update(s.drop_last(), i, v);
        assert(s.update(i, v).drop_last() =~= s.drop_last().update(i, v));
        assert(s.update(i, v).last() == s.last());
        assert(s.drop_last()[i] == s[i]);
    }
}

proof fn lemma_count_some_bound<Meta>(s: Seq<Option<ControlFlowNode<Meta>>>, b: int)
    requires
        0 <= b,
        forall|i: int| b <= i < s.len() ==> s[i] is None,
    ensures
        count_some(s) <= b,
    decreases s.len(),
{
    if s.len() <= b {
        lemma_count_some_le(s);
    } else {
        lemma_count_some_bound(s.drop_last(), b);
    }
}

proof fn lemma_count_some_le<Meta>(s: Seq<Option<ControlFlowNode<Meta>>>)
    ensures
        count_some(s) <= s.len(),
    decreases s.len(),
{
    if s.len() > 0 {
        lemma_count_some_le(s.drop_last());
    }
}

proof fn lemma_count_some_pos<Meta>(s: Seq<Option<ControlFlowNode<Meta>>>, i: int)
    requires
        0 <= i < s.len(),
        s[i] is Some,
    ensures
        count_some(s) >= 1,
    decreases s.len(),
{
    if i < s.len() - 1 {
        lemma_count_some_pos(s.drop_last(), i);
    }
}

proof fn lemma_count_some_zero<Meta>(s: Seq<Option<ControlFlowNode<Meta>>>, i: int)
    requires
        count_some(s) == 0,
        0 <= i < s.len(),
    ensures
        s[i] is None,
    decreases s.len(),
{
    if i < s.len() - 1 {
        lemma_count_some_zero(s.drop_last(), i);
    }
}

/// Whether a reference list holds a given reference.
fn list_contains(v: &Vec<NodeRef>, x: NodeRef) -> (r: bool)
    ensures
        r == v@.contains(x),
{
    let n = v.len();
    for i in 0..n
        invariant
            n == v@.len(),
            forall|j: int| 0 <= j < i ==> v@[j] != x,
    {
        if v[i].0 == x.0 {
            return true;
        }
    }
    false
}

/// Adds a reference to a duplicate-free list unless already present.
fn list_insert(v: &mut Vec<NodeRef>, x: NodeRef)
    requires
        old(v)@.no_duplicates(),
    ensures
        final(v)@.no_duplicates(),
        final(v)@.to_set() == old(v)@.to_set().insert(x),
{
    let present = list_contains(v, x);
    if !present {
        let ghost prev = v@;
        v.push(x);
        proof {
            broadcast use vstd::seq_lib::lemma_seq_contains_after_push;

            assert(v@.no_duplicates()) by {
                assert forall|j: int, k: int|
                    0 <= j < k < v@.len() implies v@[j] != v@[k] by {
                    if k == v@.len() - 1 {
                        assert(prev.contains(prev[j]));
                    }
                }
            }
            assert(v@.to_set() =~= prev.to_set().insert(x));
        }
    } else {
        proof {
            assert(v@.to_set() =~= v@.to_set().insert(x));
        }
    }
}

/// Removes a reference from a duplicate-free list if present.
fn list_remove(v: &mut Vec<NodeRef>, x: NodeRef)
    requires
        old(v)@.no_duplicates(),
    ensures
        final(v)@.no_duplicates(),
        final(v)@.to_set() == old(v)@.to_set().remove(x),
{
    let n = v.len();
    for i in 0..n
        invariant
            n == v@.len(),
            v@ == old(v)@,
            v@.no_duplicates(),
            forall|j: int| 0 <= j < i ==> v@[j] != x,
    {
        if v[i].0 == x.0 {
            let ghost prev = v@;
            v.remove(i);
            proof {
                assert forall|y: NodeRef| v@.to_set().contains(y) implies prev.to_set().remove(
                    x,
                ).contains(y) by {
                    let k = choose|k: int| 0 <= k < v@.len() && v@[k] == y;
                    if k < i {
                        assert(prev[k] == y);
                        assert(prev.contains(y));
                    } else {
                        assert(prev[k + 1] == y);
                        assert(prev.contains(y));
                    }
                }
                assert forall|y: NodeRef|
                    prev.to_set().remove(x).contains(y) implies v@.to_set().contains(y) by {
                    let k = choose|k: int| 0 <= k < prev.len() && prev[k] == y;
                    if k < i {
                        assert(v@[k] == y);
                        assert(v@.contains(y));
                    } else {
                        assert(k != i);
                        assert(v@[k - 1] == y);
                        assert(v@.contains(y));
                    }
                }
                assert(v@.to_set() =~= prev.to_set().remove(x));
                assert(v@.no_duplicates()) by {
                    assert forall|j: int, k: int|
                        0 <= j < k < v@.len() implies v@[j] != v@[k] by {
                        if k < i {
                            assert(prev[j] == v@[j] && prev[k] == v@[k]);
                        } else if j < i {
                            assert(prev[j] == v@[j] && prev[k + 1] == v@[k]);
                        } else {
                            assert(prev[j + 1] == v@[j] && prev[k + 1] == v@[k]);
                        }
                    }
                }
            }
            return;
        }
    }
    proof {
        assert(!v@.contains(x));
        assert(v@.to_set() =~= old(v)@.to_set().remove(x));
    }
}

/// Extends the arena with empty slots so that slot `i` exists.
fn ensure_slot<Meta>(slots: &mut Vec<Option<ControlFlowNode<Meta>>>, i: usize)
    ensures
        i < final(slots)@.len(),
        old(slots)@.len() <= final(slots)@.len(),
        forall|j: int| 0 <= j < old(slots)@.len() ==> final(slots)@[j] == old(slots)@[j],
        forall|j: int| old(slots)@.len() <= j < final(slots)@.len() ==> final(slots)@[j] is None,
        count_some(final(slots)@) == count_some(old(slots)@),
{
    while slots.len() <= i
        invariant
            old(slots)@.len() <= slots@.len(),
            forall|j: int| 0 <= j < old(slots)@.len() ==> slots@[j] == old(slots)@[j],
            forall|j: int| old(slots)@.len() <= j < slots@.len() ==> slots@[j] is None,
            count_some(slots@) == count_some(old(slots)@),
        decreases i + 1 - slots@.len(),
    {
        proof {
            lemma_count_some_push(slots@, None::<ControlFlowNode<Meta>>);
        }
        slots.push(None);
    }
}

/// Takes the node out of an occupied slot, leaving it empty.
fn take_node<Meta>(slots: &mut Vec<Option<ControlFlowNode<Meta>>>, i: usize) -> (r:
    ControlFlowNode<Meta>)
    requires
        i < old(slots)@.len(),
        old(slots)@[i as int] is Some,
    ensures
        r == old(slots)@[i as int]->Some_0,
        final(slots)@ == old(slots)@.update(i as int, None::<ControlFlowNode<Meta>>),
{
    let slot = &mut slots[i];
    let taken = slot.take();
    match taken {
        Some(node) => node,
        None => vstd::pervasive::unreached(),
    }
}

impl<Meta> ControlFlowGraph<Meta> {
    /// Creates an empty graph; the first node inserted afterwards becomes the
    /// root.
    pub fn new_rootless() -> (g: Self)
        ensures
            g.wf(),
            g.spec_len() == 0,
            forall|n: NodeRef| !g.contains_spec(n),
            g.root_spec() is None,
    {
        ControlFlowGraph { slots: Vec::new(), count: 0, root: None }
    }

    /// Creates a graph holding a single root node with the given metadata.
    pub fn new(root: NodeRef, root_meta: Meta) -> (g: Self)
        ensures
            g.wf(),
            g.spec_len() == 1,
            forall|n: NodeRef| g.contains_spec(n) <==> n == root,
            g.spec_children(root) =~= Set::<NodeRef>::empty(),
            g.spec_parents(root) =~= Set::<NodeRef>::empty(),
            g.spec_meta(root) == root_meta,
            g.root_spec() == Some(root),
    {
        let mut new = Self::new_rootless();
        new.insert(NodeRef(0), root, root_meta);
        new
    }

    /// Whether this graph contains the given node.
    pub fn has(&self, data: NodeRef) -> (r: bool)
        ensures
            r == self.contains_spec(data),
    {
        data.0 < self.slots.len() && self.slots[data.0].is_some()
    }

    /// The number of nodes in this graph.
    pub fn len(&self) -> (r: usize)
        ensures
            r == self.spec_len(),
    {
        self.count
    }

    /// Internal accessor for an occupied slot.
    fn node(&self, n: NodeRef) -> (r: &ControlFlowNode<Meta>)
        requires
            self.contains_spec(n),
        ensures
            *r == self.node_at(n),
    {
        match &self.slots[n.0] {
            Some(node) => node,
            None => vstd::pervasive::unreached(),
        }
    }

    /// The children of a node.
    pub fn children_of(&self, node: NodeRef) -> (r: &Vec<NodeRef>)
        requires
            self.wf(),
            self.contains_spec(node),
        ensures
            r@.to_set() == self.spec_children(node),
            r@.no_duplicates(),
    {
        &self.node(node).children
    }

    /// The parents of a node.
    pub fn parents_of(&self, node: NodeRef) -> (r: &Vec<NodeRef>)
        requires
            self.wf(),
            self.contains_spec(node),
        ensures
            r@.to_set() == self.spec_parents(node),
            r@.no_duplicates(),
    {
        &self.node(node).parents
    }

    /// The metadata of a node.
    pub fn meta_of(&self, node: NodeRef) -> (r: &Meta)
        requires
            self.contains_spec(node),
        ensures
            *r == self.spec_meta(node),
    {
        &self.node(node).meta
    }

    /// The members of the graph, in ascending reference order.
    pub fn iter(&self) -> (r: Vec<NodeRef>)
        requires
            self.wf(),
        ensures
            r@.no_duplicates(),
            forall|n: NodeRef| r@.contains(n) <==> self.contains_spec(n),
            forall|i: int, j: int| 0 <= i < j < r@.len() ==> r@[i].0 < r@[j].0,
            r@.len() == self.spec_len(),
    {
        let mut out: Vec<NodeRef> = Vec::new();
        let n = self.slots.len();
        for i in 0..n
            invariant
                n == self.slots@.len(),
                forall|j: int, k: int| 0 <= j < k < out@.len() ==> out@[j].0 < out@[k].0,
                forall|j: int| 0 <= j < out@.len() ==> out@[j].0 < i,
                forall|m: NodeRef|
                    out@.contains(m) <==> m.0 < i && self.slots@[m.0 as int] is Some,
                out@.len() == count_some(self.slots@.subrange(0, i as int)),
        {
            proof {
                assert(self.slots@.subrange(0, i + 1).drop_last() =~= self.slots@.subrange(
                    0,
                    i as int,
                ));
            }
            if self.slots[i].is_some() {
                let ghost prev = out@;
                out.push(NodeRef(i));
                proof {
                    assert(out@.drop_last() =~= prev);
                    assert forall|m: NodeRef|
                        (m.0 < i + 1 && self.slots@[m.0 as int] is Some) implies out@.contains(
                        m,
                    ) by {
                        if m.0 < i {
                            assert(prev.contains(m));
                            let k = choose|k: int| 0 <= k < prev.len() && prev[k] == m;
                            assert(out@[k] == m);
                        } else {
                            assert(m == NodeRef(i));
                            assert(out@.last() == m);
                        }
                    }
                    assert forall|m: NodeRef|
                        out@.contains(m) implies (m.0 < i + 1 && self.slots@[m.0 as int] is Some) by {
                        let k = choose|k: int| 0 <= k < out@.len() && out@[k] == m;
                        if k < prev.len() {
                            assert(prev[k] == m);
                            assert(prev.contains(m));
                        } else {
                            assert(m == NodeRef(i));
                        }
                    }
                }
            }
        }
        proof {
            assert(self.slots@.subrange(0, self.slots@.len() as int) =~= self.slots@);
            assert(out@.no_duplicates()) by {
                assert forall|j: int, k: int|
                    0 <= j < out@.len() && 0 <= k < out@.len() && j != k implies out@[j]
                    != out@[k] by {
                    if j < k {
                        assert(out@[j].0 < out@[k].0);
                    } else {
                        assert(out@[k].0 < out@[j].0);
                    }
                }
            }
        }
        out
    }

    /// Writes a freshly created node (with no edges) into a vacant slot.
    fn put_fresh(&mut self, this: NodeRef, meta: Meta)
        requires
            old(self).inv_repr(),
            !old(self).contains_spec(this),
        ensures
            final(self).inv_repr(),
            final(self).contains_spec(this),
            final(self).node_at(this).data == this,
            final(self).node_at(this).children@ == Seq::<NodeRef>::empty(),
            final(self).node_at(this).parents@ == Seq::<NodeRef>::empty(),
            final(self).node_at(this).meta == meta,
            forall|n: NodeRef|
                n != this ==> (final(self).contains_spec(n) <==> old(self).contains_spec(n)),
            forall|n: NodeRef|
                n != this && old(self).contains_spec(n) ==> final(self).node_at(n) == old(
                    self,
                ).node_at(n),
            final(self).spec_len() == old(self).spec_len() + 1,
            final(self).root_spec() == old(self).root_spec(),
    {
        ensure_slot(&mut self.slots, this.0);
        let n = self.slots.len();
        let node = ControlFlowNode {
            data: this,
            children: Vec::<NodeRef>::new(),
            parents: Vec::<NodeRef>::new(),
            meta,
        };
        proof {
            lemma_count_some_update(self.slots@, this.0 as int, Some(node));
            lemma_count_some_le(self.slots@.update(this.0 as int, Some(node)));
            assert(count_some(self.slots@) + 1 <= n);
        }
        self.slots.set(this.0, Some(node));
        self.count = self.count + 1;
    }

    /// Replaces the node in an occupied slot.
    fn put_back(&mut self, this: NodeRef, node: ControlFlowNode<Meta>)
        requires
            old(self).inv_repr(),
            old(self).contains_spec(this),
            node.data == this,
            node.children@.no_duplicates(),
            node.parents@.no_duplicates(),
        ensures
            final(self).inv_repr(),
            final(self).contains_spec(this),
            final(self).node_at(this) == node,
            forall|n: NodeRef|
                n != this ==> (final(self).contains_spec(n) <==> old(self).contains_spec(n)),
            forall|n: NodeRef|
                n != this && old(self).contains_spec(n) ==> final(self).node_at(n) == old(
                    self,
                ).node_at(n),
            final(self).spec_len() == old(self).spec_len(),
            final(self).root_spec() == old(self).root_spec(),
    {
        proof {
            lemma_count_some_update(self.slots@, this.0 as int, Some(node));
        }
        self.slots.set(this.0, Some(node));
    }

    /// Insert a node without recording any edge: adds the node, or updates
    /// its metadata if already present.  On an empty graph the node becomes
    /// the root.
    pub fn insert_parentless(&mut self, this: NodeRef, meta: Meta)
        requires
            old(self).wf(),
        ensures
            final(self).wf(),
            final(self).contains_spec(this),
            final(self).spec_meta(this) == meta,
            final(self).spec_children(this) == if old(self).contains_spec(this) {
                old(self).spec_children(this)
            } else {
                Set::<NodeRef>::empty()
            },
            final(self).spec_parents(this) == if old(self).contains_spec(this) {
                old(self).spec_parents(this)
            } else {
                Set::<NodeRef>::empty()
            },
            forall|n: NodeRef|
                n != this ==> (final(self).contains_spec(n) <==> old(self).contains_spec(n)),
            forall|n: NodeRef|
                n != this && old(self).contains_spec(n) ==> {
                    &&& final(self).spec_children(n) == old(self).spec_children(n)
                    &&& final(self).spec_parents(n) == old(self).spec_parents(n)
                    &&& final(self).spec_meta(n) == old(self).spec_meta(n)
                },
            final(self).spec_len() == old(self).spec_len() + if old(self).contains_spec(this) {
                0int
            } else {
                1int
            },
            final(self).root_spec() == if old(self).spec_len() == 0 {
                Some(this)
            } else {
                old(self).root_spec()
            },
    {
        let ghost g0 = *self;
        if self.count == 0 {
            proof {
                if this.0 < g0.slots@.len() {
                    lemma_count_some_zero(g0.slots@, this.0 as int);
                }
            }
            self.put_fresh(this, meta);
            self.root = Some(this);
            proof {
                assert(Seq::<NodeRef>::empty().to_set() =~= Set::<NodeRef>::empty());
                assert forall|n: NodeRef| self.contains_spec(n) implies n == this by {
                    if n != this {
                        if n.0 < g0.slots@.len() {
                            lemma_count_some_zero(g0.slots@, n.0 as int);
                        }
                        assert(!g0.contains_spec(n));
                        assert(self.contains_spec(n) == g0.contains_spec(n));
                    }
                }
                self.lemma_no_edge_consistency(g0, this);
            }
        } else if self.has(this) {
            let mut node = take_node(&mut self.slots, this.0);
            let ghost mid = self.slots@;
            node.meta = meta;
            proof {
                lemma_count_some_update(g0.slots@, this.0 as int, None);
                lemma_count_some_update(mid, this.0 as int, Some(node));
                assert(mid.update(this.0 as int, Some(node)) =~= g0.slots@.update(
                    this.0 as int,
                    Some(node),
                ));
            }
            self.slots.set(this.0, Some(node));
            proof {
                assert forall|a: NodeRef, b: NodeRef|
                    self.contains_spec(a) && #[trigger] self.spec_children(a).contains(
                        b,
                    ) implies self.contains_spec(b) && self.spec_parents(b).contains(a) by {
                    assert(g0.spec_children(a).contains(b));
                }
                assert forall|a: NodeRef, b: NodeRef|
                    self.contains_spec(b) && #[trigger] self.spec_parents(b).contains(
                        a,
                    ) implies self.contains_spec(a) && self.spec_children(a).contains(b) by {
                    assert(g0.spec_parents(b).contains(a));
                }
            }
        } else {
            self.put_fresh(this, meta);
            proof {
                assert(Seq::<NodeRef>::empty().to_set() =~= Set::<NodeRef>::empty());
                self.lemma_no_edge_consistency(g0, this);
            }
        }
    }

    /// Edge consistency carries over to a graph that differs from a
    /// well-formed one only by a node without any edges.
    proof fn lemma_no_edge_consistency(&self, g0: Self, this: NodeRef)
        requires
            g0.wf(),
            !g0.contains_spec(this),
            self.contains_spec(this),
            self.spec_children(this) == Set::<NodeRef>::empty(),
            self.spec_parents(this) == Set::<NodeRef>::empty(),
            forall|n: NodeRef|
                n != this ==> (self.contains_spec(n) <==> g0.contains_spec(n)),
            forall|n: NodeRef|
                n != this && g0.contains_spec(n) ==> self.node_at(n) == g0.node_at(n),
        ensures
            self.edges_consistent(),
    {
        assert forall|a: NodeRef, b: NodeRef|
            self.contains_spec(a) && #[trigger] self.spec_children(a).contains(
                b,
            ) implies self.contains_spec(b) && self.spec_parents(b).contains(a) by {
            if a != this {
                assert(g0.spec_children(a).contains(b));
                assert(b != this);
            }
        }
        assert forall|a: NodeRef, b: NodeRef|
            self.contains_spec(b) && #[trigger] self.spec_parents(b).contains(
                a,
            ) implies self.contains_spec(a) && self.spec_children(a).contains(b) by {
            if b != this {
                assert(g0.spec_parents(b).contains(a));
                assert(a != this);
            }
        }
    }

    /// A graph whose members all lie below a bound holds at most that many
    /// nodes.
    pub proof fn lemma_len_bound(&self, b: usize)
        requires
            self.wf(),
            forall|n: NodeRef| self.contains_spec(n) ==> n.0 < b,
        ensures
            self.spec_len() <= b,
    {
        assert forall|i: int| b as int <= i < self.slots@.len() implies self.slots@[i] is None by {
            if i < self.slots@.len() && self.slots@[i] is Some {
                vstd::std_specs::vec::axiom_spec_len(&self.slots);
                let n = NodeRef(i as usize);
                assert(self.contains_spec(n));
            }
        }
        lemma_count_some_bound(self.slots@, b as int);
    }

    /// A well-formed graph with a member is not empty.
    pub proof fn lemma_member_nonempty(&self, n: NodeRef)
        requires
            self.wf(),
            self.contains_spec(n),
        ensures
            self.spec_len() >= 1,
    {
        lemma_count_some_pos(self.slots@, n.0 as int);
    }

    /// A well-formed graph holding no nodes has no members.
    pub proof fn lemma_empty(&self)
        requires
            self.wf(),
            self.spec_len() == 0,
        ensures
            forall|n: NodeRef| !self.contains_spec(n),
    {
        assert forall|n: NodeRef| !self.contains_spec(n) by {
            if n.0 < self.slots@.len() && self.slots@[n.0 as int] is Some {
                lemma_count_some_pos(self.slots@, n.0 as int);
            }
        }
    }

    /// Remove the provided node from the graph.
    ///
    /// The node disappears from every neighbor's edge sets on both sides.
    /// This does **not** reconnect the removed node's parents to its
    /// children: any subgraph-replacement semantics are the caller's
    /// responsibility.
    pub fn remove(&mut self, this: NodeRef)
        requires
            old(self).wf(),
            old(self).contains_spec(this),
        ensures
            final(self).wf(),
            !final(self).contains_spec(this),
            forall|n: NodeRef|
                n != this ==> (final(self).contains_spec(n) <==> old(self).contains_spec(n)),
            forall|n: NodeRef|
                n != this && old(self).contains_spec(n) ==> {
                    &&& final(self).spec_children(n) == old(self).spec_children(n).remove(this)
                    &&& final(self).spec_parents(n) == old(self).spec_parents(n).remove(this)
                    &&& final(self).spec_meta(n) == old(self).spec_meta(n)
                },
            final(self).spec_len() == old(self).spec_len() - 1,
            final(self).root_spec() == old(self).root_spec(),
    {
        let ghost g0 = *self;
        proof {
            lemma_count_some_pos(self.slots@, this.0 as int);
            lemma_count_some_update(self.slots@, this.0 as int, None);
        }
        let node = take_node(&mut self.slots, this.0);
        self.count = self.count - 1;
        let nc = node.children.len();
        for i in 0..nc
            invariant
                nc == node.children@.len(),
                g0.wf(),
                g0.contains_spec(this),
                node == g0.node_at(this),
                self.count == g0.spec_len() - 1,
                self.root_spec() == g0.root_spec(),
                self.slots@.len() == g0.slots@.len(),
                self.slots@[this.0 as int] is None,
                forall|n: NodeRef|
                    n != this ==> (self.contains_spec(n) <==> g0.contains_spec(n)),
                count_some(self.slots@) == count_some(g0.slots@) - 1,
                forall|n: NodeRef|
                    n != this && g0.contains_spec(n) ==> {
                        &&& self.node_at(n).data == g0.node_at(n).data
                        &&& self.node_at(n).meta == g0.node_at(n).meta
                        &&& self.node_at(n).children == g0.node_at(n).children
                        &&& self.node_at(n).parents@.no_duplicates()
                    },
                forall|n: NodeRef|
                    n != this && g0.contains_spec(n) && node.children@.subrange(0, i as int).contains(
                        n,
                    ) ==> self.spec_parents(n) == g0.spec_parents(n).remove(this),
                forall|n: NodeRef|
                    n != this && g0.contains_spec(n) && !node.children@.subrange(
                        0,
                        i as int,
                    ).contains(n) ==> self.spec_parents(n) == g0.spec_parents(n),
        {
            let c = node.children[i];
            proof {
                assert(node.children@.contains(c));
                assert(g0.spec_children(this).contains(c));
                assert(node.children@.subrange(0, i + 1) =~= node.children@.subrange(
                    0,
                    i as int,
                ).push(c));
                assert(node.children@.subrange(0, i + 1).contains(c)) by {
                    assert(node.children@.subrange(0, i + 1)[i as int] == c);
                }
                let ghost s0 = node.children@.subrange(0, i as int);
                let ghost s1 = node.children@.subrange(0, i + 1);
                assert forall|n: NodeRef|
                    n != c && s0.contains(n) implies s1.contains(n) by {
                    let k = choose|k: int| 0 <= k < s0.len() && #[trigger] s0[k] == n;
                    assert(s1[k] == n);
                }
                assert forall|n: NodeRef|
                    n != c && s1.contains(n) implies s0.contains(n) by {
                    let k = choose|k: int| 0 <= k < s1.len() && #[trigger] s1[k] == n;
                    assert(k < i);
                    assert(s0[k] == n);
                }
            }
            if c.0 != this.0 {
                let ghost gpre = *self;
                let mut cn = take_node(&mut self.slots, c.0);
                list_remove(&mut cn.parents, this);
                proof {
                    lemma_count_some_update(gpre.slots@, c.0 as int, None);
                    lemma_count_some_update(self.slots@, c.0 as int, Some(cn));
                    assert(self.slots@.update(c.0 as int, Some(cn)) =~= gpre.slots@.update(
                        c.0 as int,
                        Some(cn),
                    ));
                }
                self.slots.set(c.0, Some(cn));
                proof {
                    if gpre.spec_parents(c) == g0.spec_parents(c).remove(this) {
                        assert(self.spec_parents(c) =~= g0.spec_parents(c).remove(this));
                    }
                }
            }
        }
        proof {
            assert(node.children@.subrange(0, nc as int) =~= node.children@);
            assert forall|n: NodeRef|
                n != this && g0.contains_spec(n) implies self.spec_parents(n) == g0.spec_parents(
                n,
            ).remove(this) by {
                if !node.children@.contains(n) {
                    assert(!g0.spec_children(this).contains(n));
                    if g0.spec_parents(n).contains(this) {
                        assert(g0.spec_children(this).contains(n));
                    }
                    assert(g0.spec_parents(n).remove(this) =~= g0.spec_parents(n));
                }
            }
        }
        let ghost g1 = *self;
        let np = node.parents.len();
        for i in 0..np
            invariant
                np == node.parents@.len(),
                g0.wf(),
                g0.contains_spec(this),
                node == g0.node_at(this),
                self.count == g0.spec_len() - 1,
                self.root_spec() == g0.root_spec(),
                self.slots@.len() == g0.slots@.len(),
                self.slots@[this.0 as int] is None,
                forall|n: NodeRef|
                    n != this ==> (self.contains_spec(n) <==> g0.contains_spec(n)),
                count_some(self.slots@) == count_some(g0.slots@) - 1,
                forall|n: NodeRef|
                    n != this && g0.contains_spec(n) ==> {
                        &&& self.node_at(n).data == g0.node_at(n).data
                        &&& self.node_at(n).meta == g0.node_at(n).meta
                        &&& self.node_at(n).parents == g1.node_at(n).parents
                        &&& self.node_at(n).children@.no_duplicates()
                    },
                forall|n: NodeRef|
                    n != this && g0.contains_spec(n) ==> g1.spec_parents(n) == g0.spec_parents(
                        n,
                    ).remove(this),
                forall|n: NodeRef|
                    n != this && g0.contains_spec(n) && node.parents@.subrange(0, i as int).contains(
                        n,
                    ) ==> self.spec_children(n) == g0.spec_children(n).remove(this),
                forall|n: NodeRef|
                    n != this && g0.contains_spec(n) && !node.parents@.subrange(
                        0,
                        i as int,
                    ).contains(n) ==> self.spec_children(n) == g0.spec_children(n),
        {
            let p = node.parents[i];
            proof {
                assert(node.parents@.contains(p));
                assert(g0.spec_parents(this).contains(p));
                assert(node.parents@.subrange(0, i + 1) =~= node.parents@.subrange(
                    0,
                    i as int,
                ).push(p));
                assert(node.parents@.subrange(0, i + 1).contains(p)) by {
                    assert(node.parents@.subrange(0, i + 1)[i as int] == p);
                }
                let ghost s0 = node.parents@.subrange(0, i as int);
                let ghost s1 = node.parents@.subrange(0, i + 1);
                assert forall|n: NodeRef|
                    n != p && s0.contains(n) implies s1.contains(n) by {
                    let k = choose|k: int| 0 <= k < s0.len() && #[trigger] s0[k] == n;
                    assert(s1[k] == n);
                }
                assert forall|n: NodeRef|
                    n != p && s1.contains(n) implies s0.contains(n) by {
                    let k = choose|k: int| 0 <= k < s1.len() && #[trigger] s1[k] == n;
                    assert(k < i);
                    assert(s0[k] == n);
                }
            }
            if p.0 != this.0 {
                let ghost gpre = *self;
                let mut pn = take_node(&mut self.slots, p.0);
                list_remove(&mut pn.children, this);
                proof {
                    lemma_count_some_update(gpre.slots@, p.0 as int, None);
                    lemma_count_some_update(self.slots@, p.0 as int, Some(pn));
                    assert(self.slots@.update(p.0 as int, Some(pn)) =~= gpre.slots@.update(
                        p.0 as int,
                        Some(pn),
                    ));
                }
                self.slots.set(p.0, Some(pn));
                proof {
                    if gpre.spec_children(p) == g0.spec_children(p).remove(this) {
                        assert(self.spec_children(p) =~= g0.spec_children(p).remove(this));
                    }
                }
            }
        }
        proof {
            assert(node.parents@.subrange(0, np as int) =~= node.parents@);
            assert forall|n: NodeRef|
                n != this && g0.contains_spec(n) implies self.spec_children(n) == g0.spec_children(
                n,
            ).remove(this) by {
                if !node.parents@.contains(n) {
                    // no edge n -> this, so n's children never held this
                    assert(!g0.spec_parents(this).contains(n));
                    if g0.spec_children(n).contains(this) {
                        assert(g0.spec_parents(this).contains(n));
                    }
                    assert(g0.spec_children(n).remove(this) =~= g0.spec_children(n));
                }
            }
            assert forall|i: int|
                0 <= i < self.slots@.len() && self.slots@[i] is Some implies {
                    &&& (#[trigger] self.slots@[i])->Some_0.data.0 == i
                    &&& self.slots@[i]->Some_0.children@.no_duplicates()
                    &&& self.slots@[i]->Some_0.parents@.no_duplicates()
                } by {
                vstd::std_specs::vec::axiom_spec_len(&self.slots);
                let n = NodeRef(i as usize);
                assert(n.0 as int == i);
                assert(self.contains_spec(n));
                assert(n != this);
                assert(g0.contains_spec(n));
                assert(g0.slots@[i] is Some);
                assert(self.node_at(n).data == g0.node_at(n).data);
                assert(self.node_at(n).children@.no_duplicates());
                assert(self.node_at(n).parents == g1.node_at(n).parents);
                assert(g1.node_at(n).parents@.no_duplicates());
            }
            assert forall|a: NodeRef, b: NodeRef|
                self.contains_spec(a) && #[trigger] self.spec_children(a).contains(
                    b,
                ) implies self.contains_spec(b) && self.spec_parents(b).contains(a) by {
                assert(a != this && g0.contains_spec(a));
                assert(self.spec_children(a) == g0.spec_children(a).remove(this));
                assert(g0.spec_children(a).contains(b) && b != this);
                assert(g0.spec_parents(b).contains(a));
                assert(self.spec_parents(b) == g0.spec_parents(b).remove(this));
            }
            assert forall|a: NodeRef, b: NodeRef|
                self.contains_spec(b) && #[trigger] self.spec_parents(b).contains(
                    a,
                ) implies self.contains_spec(a) && self.spec_children(a).contains(b) by {
                assert(b != this && g0.contains_spec(b));
                assert(self.spec_parents(b) == g0.spec_parents(b).remove(this));
                assert(g0.spec_parents(b).contains(a) && a != this);
                assert(g0.spec_children(a).contains(b));
                assert(self.spec_children(a) == g0.spec_children(a).remove(this));
            }
        }
    }

    /// Push a new node to the control flow graph with the provided parent.
    ///
    /// On an empty graph the node becomes the root and the parent argument is
    /// ignored (the one-time bootstrap case).  Otherwise the parent must
    /// already be a member: construction order is parent-before-or-with-child.
    /// Records the `parent -> this` edge and sets or overwrites the node's
    /// metadata.
    pub fn insert(&mut self, parent: NodeRef, this: NodeRef, meta: Meta)
        requires
            old(self).wf(),
            old(self).spec_len() == 0 || old(self).contains_spec(parent),
        ensures
            final(self).wf(),
            final(self).contains_spec(this),
            final(self).spec_meta(this) == meta,
            old(self).spec_len() == 0 ==> {
                &&& forall|n: NodeRef| final(self).contains_spec(n) <==> n == this
                &&& final(self).spec_children(this) == Set::<NodeRef>::empty()
                &&& final(self).spec_parents(this) == Set::<NodeRef>::empty()
                &&& final(self).spec_len() == 1
                &&& final(self).root_spec() == Some(this)
            },
            old(self).spec_len() != 0 ==> {
                &&& final(self).spec_parents(this) == (if old(self).contains_spec(this) {
                    old(self).spec_parents(this)
                } else {
                    Set::<NodeRef>::empty()
                }).insert(parent)
                &&& final(self).spec_children(this) == {
                    let base = if old(self).contains_spec(this) {
                        old(self).spec_children(this)
                    } else {
                        Set::<NodeRef>::empty()
                    };
                    if parent == this {
                        base.insert(this)
                    } else {
                        base
                    }
                }
                &&& parent != this ==> {
                    &&& final(self).spec_children(parent) == old(self).spec_children(
                        parent,
                    ).insert(this)
                    &&& final(self).spec_parents(parent) == old(self).spec_parents(parent)
                    &&& final(self).spec_meta(parent) == old(self).spec_meta(parent)
                }
                &&& forall|n: NodeRef|
                    n != this ==> (final(self).contains_spec(n) <==> old(self).contains_spec(n))
                &&& forall|n: NodeRef|
                    n != this && n != parent && old(self).contains_spec(n) ==> {
                        &&& final(self).spec_children(n) == old(self).spec_children(n)
                        &&& final(self).spec_parents(n) == old(self).spec_parents(n)
                        &&& final(self).spec_meta(n) == old(self).spec_meta(n)
                    }
                &&& final(self).spec_len() == old(self).spec_len() + if old(self).contains_spec(
                    this,
                ) {
                    0int
                } else {
                    1int
                }
                &&& final(self).root_spec() == old(self).root_spec()
            },
    {
        let ghost g0 = *self;
        if self.count == 0 {
            proof {
                if this.0 < g0.slots@.len() {
                    lemma_count_some_zero(g0.slots@, this.0 as int);
                }
            }
            self.put_fresh(this, meta);
            self.root = Some(this);
            proof {
                assert(Seq::<NodeRef>::empty().to_set() =~= Set::<NodeRef>::empty());
                assert forall|n: NodeRef| self.contains_spec(n) implies n == this by {
                    if n != this {
                        if n.0 < g0.slots@.len() {
                            lemma_count_some_zero(g0.slots@, n.0 as int);
                        }
                        assert(!g0.contains_spec(n));
                        assert(self.contains_spec(n) == g0.contains_spec(n));
                    }
                }
                self.lemma_no_edge_consistency(g0, this);
            }
            return;
        }
        if self.has(this) {
            let mut node = take_node(&mut self.slots, this.0);
            node.meta = meta;
            list_insert(&mut node.parents, parent);
            proof {
                lemma_count_some_update(g0.slots@, this.0 as int, None);
                lemma_count_some_update(self.slots@, this.0 as int, Some(node));
                assert(self.slots@.update(this.0 as int, Some(node)) =~= g0.slots@.update(
                    this.0 as int,
                    Some(node),
                ));
            }
            self.slots.set(this.0, Some(node));
        } else {
            self.put_fresh(this, meta);
            let ghost gp = *self;
            let mut node = take_node(&mut self.slots, this.0);
            list_insert(&mut node.parents, parent);
            proof {
                lemma_count_some_update(gp.slots@, this.0 as int, None);
                lemma_count_some_update(self.slots@, this.0 as int, Some(node));
                assert(self.slots@.update(this.0 as int, Some(node)) =~= gp.slots@.update(
                    this.0 as int,
                    Some(node),
                ));
            }
            self.slots.set(this.0, Some(node));
            proof {
                assert(Seq::<NodeRef>::empty().to_set() =~= Set::<NodeRef>::empty());
            }
        }
        let ghost g1 = *self;
        // record the edge on the parent's side
        let target = if parent.0 == this.0 {
            this
        } else {
            parent
        };
        let mut pnode = take_node(&mut self.slots, target.0);
        list_insert(&mut pnode.children, this);
        proof {
            lemma_count_some_update(g1.slots@, target.0 as int, None);
            lemma_count_some_update(self.slots@, target.0 as int, Some(pnode));
            assert(self.slots@.update(target.0 as int, Some(pnode)) =~= g1.slots@.update(
                target.0 as int,
                Some(pnode),
            ));
        }
        self.slots.set(target.0, Some(pnode));
        proof {
            // how each node's edge sets relate to the initial graph
            assert forall|n: NodeRef| self.contains_spec(n) implies (g0.contains_spec(n) || n
                == this) by {}
            assert(self.contains_spec(this) && self.contains_spec(parent));
            assert(self.spec_children(target) == g1.spec_children(target).insert(this));
            assert(self.spec_parents(this) == (if g0.contains_spec(this) {
                g0.spec_parents(this)
            } else {
                Set::<NodeRef>::empty()
            }).insert(parent));
            assert forall|n: NodeRef|
                n != this && n != target && g0.contains_spec(n) implies self.node_at(n)
                == g0.node_at(n) by {}
            assert forall|a: NodeRef, b: NodeRef|
                self.contains_spec(a) && #[trigger] self.spec_children(a).contains(
                    b,
                ) implies self.contains_spec(b) && self.spec_parents(b).contains(a) by {
                if a == target && b == this {
                } else if a == target {
                    assert(g0.spec_children(a).contains(b));
                    assert(g0.spec_parents(b).contains(a));
                } else {
                    assert(self.spec_children(a) == g0.spec_children(a));
                    assert(g0.spec_children(a).contains(b));
                    assert(g0.spec_parents(b).contains(a));
                }
            }
            assert forall|a: NodeRef, b: NodeRef|
                self.contains_spec(b) && #[trigger] self.spec_parents(b).contains(
                    a,
                ) implies self.contains_spec(a) && self.spec_children(a).contains(b) by {
                if b == this && a == parent {
                } else if b == this {
                    assert(g0.spec_parents(b).contains(a));
                    assert(g0.spec_children(a).contains(b));
                } else {
                    assert(self.spec_parents(b) == g0.spec_parents(b));
                    assert(g0.spec_parents(b).contains(a));
                    assert(g0.spec_children(a).contains(b));
                }
            }
        }
    }
}

} // verus!
