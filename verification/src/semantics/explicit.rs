//! The explicit labelled transition system.
//!
//! An explicit LTS is a directed multigraph whose nodes are process states
//! and whose edges are transitions carrying actions.  Nodes and edges are
//! keyed by opaque indices and are append-only: once added they are never
//! mutated or removed.  [`Expander`] drives a work-list exploration loop that
//! grows such a graph to closure by handing one unexplored node at a time to
//! a [`Visitor`].

use crate::semantics::action::Action;
use vstd::prelude::*;

verus! {

/// A node of an explicit graph.
#[derive(Debug)]
pub enum Node<P> {
    /// A special process denoting termination.
    Omega,
    /// A process state.
    Process(P),
}

/// The mathematical shape of a [`Node`]: the same alternative over the view
/// of the process description.
pub ghost enum NodeView<PV> {
    Omega,
    Process(PV),
}

impl<P: View> View for Node<P> {
    type V = NodeView<P::V>;

    open spec fn view(&self) -> NodeView<P::V> {
        match self {
            Node::Omega => NodeView::Omega,
            Node::Process(p) => NodeView::Process(p@),
        }
    }
}

/// An edge in an explicit graph.
#[derive(Debug)]
pub struct Edge<E> {
    /// The CSP action.
    pub action: Action<E>,
}

impl<E: View> View for Edge<E> {
    type V = Action<E::V>;

    open spec fn view(&self) -> Action<E::V> {
        match &self.action {
            Action::Tick => Action::Tick,
            Action::Tau => Action::Tau,
            Action::Ev(e) => Action::Ev(e@),
        }
    }
}

/// A transition: an [`Edge`] together with the indices of its endpoints.
#[derive(Debug)]
pub struct Transition<E> {
    /// Index of the node the transition leaves.
    pub source: usize,
    /// Index of the node the transition enters.
    pub target: usize,
    /// The labelled edge itself.
    pub edge: Edge<E>,
}

/// The mathematical shape of a [`Transition`].
#[verifier::ext_equal]
pub ghost struct TransView<EV> {
    pub src: int,
    pub dst: int,
    pub action: Action<EV>,
}

impl<E: View> View for Transition<E> {
    type V = TransView<E::V>;

    open spec fn view(&self) -> TransView<E::V> {
        TransView { src: self.source as int, dst: self.target as int, action: self.edge@ }
    }
}

/// The mathematical shape of an explicit graph: the sequence of its nodes and
/// the sequence of its transitions, in insertion order.
#[verifier::ext_equal]
pub ghost struct GraphView<PV, EV> {
    pub nodes: Seq<NodeView<PV>>,
    pub edges: Seq<TransView<EV>>,
}

impl<PV, EV> GraphView<PV, EV> {
    /// Every edge connects two existing nodes.
    pub open spec fn wf(self) -> bool {
        forall|j: int|
            0 <= j < self.edges.len() ==> 0 <= #[trigger] self.edges[j].src < self.nodes.len()
                && 0 <= self.edges[j].dst < self.nodes.len()
    }

    /// `self` is `base` with zero or more nodes and edges appended.
    pub open spec fn extends(self, base: GraphView<PV, EV>) -> bool {
        base.nodes.is_prefix_of(self.nodes) && base.edges.is_prefix_of(self.edges)
    }
}

/// An explicit labelled transition system.
#[derive(Debug)]
pub struct Explicit<P, E> {
    nodes: Vec<Node<P>>,
    transitions: Vec<Transition<E>>,
}

impl<P: View, E: View> View for Explicit<P, E> {
    type V = GraphView<P::V, E::V>;

    closed spec fn view(&self) -> GraphView<P::V, E::V> {
        GraphView {
            nodes: self.nodes@.map_values(|n: Node<P>| n@),
            edges: self.transitions@.map_values(|t: Transition<E>| t@),
        }
    }
}

impl<P: View, E: View> Explicit<P, E> {
    /// An empty graph.
    pub fn new() -> (g: Self)
        ensures
            g@ == (GraphView {
                nodes: Seq::<NodeView<P::V>>::empty(),
                edges: Seq::<TransView<E::V>>::empty(),
            }),
    {
        let g = Explicit { nodes: Vec::new(), transitions: Vec::new() };
        proof {
            assert(g@.nodes =~= Seq::<NodeView<P::V>>::empty());
            assert(g@.edges =~= Seq::<TransView<E::V>>::empty());
            assert(g@ =~= (GraphView {
                nodes: Seq::<NodeView<P::V>>::empty(),
                edges: Seq::<TransView<E::V>>::empty(),
            }));
        }
        g
    }

    /// The number of nodes.
    pub fn node_count(&self) -> (n: usize)
        ensures
            n == self@.nodes.len(),
    {
        self.nodes.len()
    }

    /// The number of edges.
    pub fn edge_count(&self) -> (n: usize)
        ensures
            n == self@.edges.len(),
    {
        self.transitions.len()
    }

    /// Appends a node and returns its index.
    pub fn add_node(&mut self, w: Node<P>) -> (i: usize)
        ensures
            i as int == old(self)@.nodes.len(),
            final(self)@.nodes == old(self)@.nodes.push(w@),
            final(self)@.edges == old(self)@.edges,
    {
        let i = self.nodes.len();
        self.nodes.push(w);
        proof {
            assert(self@.nodes =~= old(self)@.nodes.push(w@));
            assert(self@.edges =~= old(self)@.edges);
        }
        i
    }

    /// Appends an edge between two existing nodes.
    pub fn add_edge(&mut self, source: usize, target: usize, edge: Edge<E>)
        requires
            (source as int) < old(self)@.nodes.len(),
            (target as int) < old(self)@.nodes.len(),
        ensures
            final(self)@.nodes == old(self)@.nodes,
            final(self)@.edges == old(self)@.edges.push(
                TransView { src: source as int, dst: target as int, action: edge@ },
            ),
    {
        let ghost t = TransView { src: source as int, dst: target as int, action: edge@ };
        self.transitions.push(Transition { source, target, edge });
        proof {
            assert(self@.nodes =~= old(self)@.nodes);
            assert(self@.edges =~= old(self)@.edges.push(t));
        }
    }

    /// A reference to the node at index `i`.
    pub fn node(&self, i: usize) -> (n: &Node<P>)
        requires
            (i as int) < self@.nodes.len(),
        ensures
            n@ == self@.nodes[i as int],
    {
        &self.nodes[i]
    }

    /// A reference to the transition at index `i`.
    pub fn transition(&self, i: usize) -> (t: &Transition<E>)
        requires
            (i as int) < self@.edges.len(),
        ensures
            t@ == self@.edges[i as int],
    {
        &self.transitions[i]
    }

    /// The index of the first `Omega` node, if the graph holds one.
    pub fn find_omega(&self) -> (r: Option<usize>)
        ensures
            match r {
                Some(i) => (i as int) < self@.nodes.len() && self@.nodes[i as int]
                    == NodeView::<P::V>::Omega && (forall|j: int|
                    0 <= j < i as int ==> self@.nodes[j] != NodeView::<P::V>::Omega),
                None => forall|j: int|
                    0 <= j < self@.nodes.len() ==> self@.nodes[j] != NodeView::<P::V>::Omega,
            },
    {
        let mut i: usize = 0;
        while i < self.nodes.len()
            invariant
                i <= self.nodes.len(),
                self@.nodes.len() == self.nodes@.len(),
                forall|j: int| 0 <= j < i as int ==> self@.nodes[j] != NodeView::<P::V>::Omega,
            decreases self.nodes.len() - i,
        {
            if let Node::Omega = &self.nodes[i] {
                return Some(i);
            }
            i += 1;
        }
        None
    }
}

/// A capability to compute one node's outgoing transitions: given a graph and
/// the index of a node in it, append that node's outgoing edges (and any
/// destination nodes they need).  The rule table of a process algebra is one
/// implementation; the expander is written against this interface alone.
pub trait Visitor<P: View, E: View>: Sized {
    /// Well-formedness of the visitor itself (its own configuration).
    spec fn inv(&self) -> bool;

    /// The effect of one visit: the graph after the visit as a function of
    /// the graph before it and the visited node.  A visitor is a pure
    /// function of its inputs, so a visit's entire effect is determined here.
    spec fn step(&self, g: GraphView<P::V, E::V>, node: int) -> GraphView<P::V, E::V>;

    /// An upper bound on how many nodes this visitor can still add to `g`
    /// over any number of future visits.  It pays for the expander's
    /// termination: every node a visit creates consumes one unit.
    spec fn budget(&self, g: GraphView<P::V, E::V>) -> nat;

    /// The laws every visitor obeys: a visit preserves well-formedness, only
    /// appends (nodes and edges already present are kept), adds edges leaving
    /// the visited node only, and pays for new nodes out of the budget.
    proof fn step_laws(&self, g: GraphView<P::V, E::V>, node: int)
        requires
            self.inv(),
            g.wf(),
            0 <= node < g.nodes.len(),
        ensures
            self.step(g, node).wf(),
            self.step(g, node).extends(g),
            forall|j: int|
                g.edges.len() <= j < self.step(g, node).edges.len() ==> #[trigger] self.step(
                    g,
                    node,
                ).edges[j].src == node,
            self.step(g, node).nodes.len() + self.budget(self.step(g, node)) <= g.nodes.len()
                + self.budget(g);

    /// Appends the outgoing transitions of `node` to `graph`.
    fn visit(&self, graph: &mut Explicit<P, E>, node: usize)
        requires
            self.inv(),
            old(graph)@.wf(),
            (node as int) < old(graph)@.nodes.len(),
        ensures
            final(graph)@ == self.step(old(graph)@, node as int);
}

/// The graph reached from `g0` by visiting the nodes of `order` in turn.
pub open spec fn run_graph<P: View, E: View, V: Visitor<P, E>>(
    v: V,
    g0: GraphView<P::V, E::V>,
    order: Seq<int>,
) -> GraphView<P::V, E::V>
    decreases order.len(),
{
    if order.len() == 0 {
        g0
    } else {
        v.step(run_graph(v, g0, order.drop_last()), order.last())
    }
}

/// `order` is a legal visit order from `g0` with `seen0` already visited:
/// each entry names a node that exists when it is visited and that was
/// visited neither before the run nor earlier in the run.
pub open spec fn run_ok<P: View, E: View, V: Visitor<P, E>>(
    v: V,
    g0: GraphView<P::V, E::V>,
    seen0: Set<int>,
    order: Seq<int>,
) -> bool
    decreases order.len(),
{
    if order.len() == 0 {
        true
    } else {
        let prev = order.drop_last();
        &&& run_ok(v, g0, seen0, prev)
        &&& 0 <= order.last() < run_graph(v, g0, prev).nodes.len()
        &&& !seen0.contains(order.last())
        &&& !prev.contains(order.last())
    }
}

/// A run is complete when it leaves no node unvisited.
pub open spec fn run_complete<P: View, E: View, V: Visitor<P, E>>(
    v: V,
    g0: GraphView<P::V, E::V>,
    seen0: Set<int>,
    order: Seq<int>,
) -> bool {
    &&& run_ok(v, g0, seen0, order)
    &&& forall|i: int|
        0 <= i < run_graph(v, g0, order).nodes.len() ==> order.contains(i) || seen0.contains(i)
}

/// The number of `false` entries in a sequence of marks.
pub open spec fn count_false(s: Seq<bool>) -> nat
    decreases s.len(),
{
    if s.len() == 0 {
        0
    } else {
        count_false(s.drop_last()) + if s.last() {
            0nat
        } else {
            1nat
        }
    }
}

proof fn lemma_count_false_update(s: Seq<bool>, i: int)
    requires
        0 <= i < s.len(),
        !s[i],
    ensures
        count_false(s.update(i, true)) + 1 == count_false(s),
    decreases s.len(),
{
    let t = s.update(i, true);
    if i == s.len() - 1 {
        assert(t.drop_last() =~= s.drop_last());
    } else {
        assert(t.drop_last() =~= s.drop_last().update(i, true));
        lemma_count_false_update(s.drop_last(), i);
    }
}

proof fn lemma_count_false_push(s: Seq<bool>, b: bool)
    ensures
        count_false(s.push(b)) == count_false(s) + if b {
            0nat
        } else {
            1nat
        },
{
    assert(s.push(b).drop_last() =~= s);
}

/// Whether the work list holds an entry for node `i`.
pub open spec fn pending_contains(s: Seq<usize>, i: int) -> bool {
    exists|k: int| 0 <= k < s.len() && s[k] as int == i
}

/// The set of node indices marked `true`.
pub open spec fn marked_set(s: Seq<bool>) -> Set<int> {
    Set::new(|i: int| 0 <= i < s.len() && s[i])
}

/// Expands an explicit graph by applying a recursive visitor onto each node.
pub struct Expander<'v, P, E, V> {
    to_visit: Vec<usize>,
    seen: Vec<bool>,
    graph: Explicit<P, E>,
    visitor: &'v V,
}

impl<'v, P: View, E: View, V: Visitor<P, E>> Expander<'v, P, E, V> {
    /// The graph grown so far.
    pub closed spec fn graph_view(&self) -> GraphView<P::V, E::V> {
        self.graph@
    }

    /// The work list of node indices waiting to be visited.
    pub closed spec fn pending(&self) -> Seq<usize> {
        self.to_visit@
    }

    /// The set of node indices already visited.
    pub closed spec fn seen_set(&self) -> Set<int> {
        marked_set(self.seen@)
    }

    /// The visitor driving the expansion.
    pub closed spec fn vis(&self) -> V {
        *self.visitor
    }

    /// The expander's invariant: the graph is well formed, the visitor is,
    /// the work list points into the graph, and every node is either already
    /// visited or still on the work list.
    pub closed spec fn wf(&self) -> bool {
        &&& self.graph@.wf()
        &&& self.visitor.inv()
        &&& self.seen@.len() == self.graph@.nodes.len()
        &&& forall|k: int|
            0 <= k < self.to_visit@.len() ==> (#[trigger] self.to_visit@[k] as int)
                < self.graph@.nodes.len()
        &&& forall|i: int|
            0 <= i < self.graph@.nodes.len() ==> self.seen_set().contains(i) || pending_contains(
                self.to_visit@,
                i,
            )
    }

    /// Seeds a one-node graph holding `initial` and a work list containing
    /// that node.
    pub fn new(initial: P, visitor: &'v V) -> (s: Self)
        requires
            visitor.inv(),
        ensures
            s.wf(),
            s.graph_view() == (GraphView {
                nodes: seq![NodeView::Process(initial@)],
                edges: Seq::<TransView<E::V>>::empty(),
            }),
            s.seen_set() == Set::<int>::empty(),
            s.vis() == *visitor,
    {
        let mut graph = Explicit::new();
        let initial_idx = graph.add_node(Node::Process(initial));

        let mut to_visit: Vec<usize> = Vec::new();
        to_visit.push(initial_idx);

        let mut seen: Vec<bool> = Vec::new();
        seen.push(false);

        let s = Expander { graph, to_visit, seen, visitor };
        proof {
            assert(s.graph_view().nodes =~= seq![NodeView::<P::V>::Process(initial@)]);
            assert(s.graph_view() =~= (GraphView {
                nodes: seq![NodeView::Process(initial@)],
                edges: Seq::<TransView<E::V>>::empty(),
            }));
            assert(s.seen_set() =~= Set::<int>::empty());
            assert(s.pending().len() == 1 && s.pending()[0] == 0usize);
            assert(pending_contains(s.pending(), 0));
        }
        s
    }

    /// Expands the explicit graph by applying the visitor to each node.
    ///
    /// The result is the graph of some complete run: a visit order in which
    /// every node — present at the start or created along the way — is
    /// visited exactly once, duplicate work-list entries notwithstanding.
    pub fn expand(self) -> (result: Explicit<P, E>)
        requires
            self.wf(),
        ensures
            result@.wf(),
            exists|order: Seq<int>|
                #![all_triggers]
                {
                    &&& run_complete(self.vis(), self.graph_view(), self.seen_set(), order)
                    &&& result@ == run_graph(self.vis(), self.graph_view(), order)
                },
    {
        let Expander { mut to_visit, mut seen, mut graph, visitor } = self;
        let ghost g0 = graph@;
        let ghost seen0 = marked_set(seen@);
        let ghost mut order: Seq<int> = Seq::empty();

        proof {
            assert(run_graph(*visitor, g0, order) =~= g0);
        }

        loop
            invariant
                graph@.wf(),
                visitor.inv(),
                seen@.len() == graph@.nodes.len(),
                forall|k: int|
                    0 <= k < to_visit@.len() ==> (#[trigger] to_visit@[k] as int)
                        < graph@.nodes.len(),
                forall|i: int|
                    0 <= i < graph@.nodes.len() && !seen@[i] ==> pending_contains(to_visit@, i),
                run_ok(*visitor, g0, seen0, order),
                graph@ == run_graph(*visitor, g0, order),
                marked_set(seen@) =~= seen0.union(order.to_set()),
            ensures
                graph@.wf(),
                seen@.len() == graph@.nodes.len(),
                run_ok(*visitor, g0, seen0, order),
                graph@ == run_graph(*visitor, g0, order),
                marked_set(seen@) =~= seen0.union(order.to_set()),
                forall|i: int| 0 <= i < graph@.nodes.len() ==> marked_set(seen@).contains(i),
            decreases visitor.budget(graph@) + count_false(seen@), to_visit@.len(),
        {
            let ghost pending_before = to_visit@;
            let popped = to_visit.pop();
            match popped {
                None => {
                    proof {
                        assert(to_visit@.len() == 0);
                        assert forall|i: int|
                            0 <= i < graph@.nodes.len() implies marked_set(seen@).contains(
                            i,
                        ) by {
                            assert(!pending_contains(to_visit@, i));
                            assert(seen@[i]);
                        }
                    }
                    break ;
                },
                Some(n) => {
                    if !seen[n] {
                        proof {
                            assert(!marked_set(seen@).contains(n as int));
                            assert(!seen0.contains(n as int));
                            assert(!order.contains(n as int)) by {
                                if order.contains(n as int) {
                                    assert(order.to_set().contains(n as int));
                                    assert(marked_set(seen@).contains(n as int));
                                }
                            }
                            visitor.step_laws(graph@, n as int);
                            lemma_count_false_update(seen@, n as int);
                        }
                        let ghost seen_before = seen@;
                        let ghost order_before = order;
                        seen.set(n, true);
                        proof {
                            assert(seen@ =~= seen_before.update(n as int, true));
                            assert(marked_set(seen@) =~= marked_set(seen_before).insert(
                                n as int,
                            ));
                        }
                        let ghost seen_marks = seen@;
                        let ghost g_before = graph@;
                        visitor.visit(&mut graph, n);
                        proof {
                            let new_order = order.push(n as int);
                            assert(new_order.drop_last() =~= order);
                            order = new_order;
                            assert(run_graph(*visitor, g0, order) == graph@);
                            assert(run_ok(*visitor, g0, seen0, order));
                            assert(order.to_set() =~= order.drop_last().to_set().insert(n as int))
                                by {
                                assert forall|x: int| #[trigger]
                                    order.to_set().contains(x) implies order.drop_last().to_set()
                                    .insert(n as int).contains(x) by {
                                    let k = choose|k: int| 0 <= k < order.len() && order[k] == x;
                                    if k < order.len() - 1 {
                                        assert(order.drop_last()[k] == x);
                                        assert(order.drop_last().contains(x));
                                    }
                                }
                                assert forall|x: int|
                                    order.drop_last().to_set().insert(n as int).contains(
                                        x,
                                    ) implies order.to_set().contains(x) by {
                                    if order.drop_last().contains(x) {
                                        let k = choose|k: int|
                                            0 <= k < order.drop_last().len() && order.drop_last()[k]
                                                == x;
                                        assert(order[k] == x);
                                    } else {
                                        assert(order[order.len() - 1] == x);
                                    }
                                }
                            }
                            assert(order.to_set() =~= order_before.to_set().insert(n as int));
                            assert(marked_set(seen@) =~= seen0.union(order.to_set())) by {
                                assert(marked_set(seen_before) =~= seen0.union(
                                    order_before.to_set(),
                                ));
                                assert(seen0.union(order.to_set()) =~= seen0.union(
                                    order_before.to_set(),
                                ).insert(n as int));
                            }
                        }
                        // Make room in the seen markers for nodes the visit
                        // created.
                        while seen.len() < graph.node_count()
                            invariant
                                seen@.len() <= graph@.nodes.len(),
                                marked_set(seen@) =~= marked_set(seen_marks),
                                count_false(seen@) == count_false(seen_marks) + seen@.len()
                                    - seen_marks.len(),
                                seen_marks.len() <= seen@.len(),
                            decreases graph@.nodes.len() - seen@.len(),
                        {
                            proof {
                                lemma_count_false_push(seen@, false);
                                assert(marked_set(seen@.push(false)) =~= marked_set(seen@));
                            }
                            seen.push(false);
                        }
                        // Enqueue every node not yet seen: nodes the visit
                        // created, and earlier nodes never queued.
                        let mut i: usize = 0;
                        while i < graph.node_count()
                            invariant
                                seen@.len() == graph@.nodes.len(),
                                i <= graph@.nodes.len(),
                                forall|k: int|
                                    0 <= k < to_visit@.len() ==> (#[trigger] to_visit@[k] as int)
                                        < graph@.nodes.len(),
                                forall|j: int|
                                    0 <= j < i as int && !seen@[j] ==> pending_contains(
                                        to_visit@,
                                        j,
                                    ),
                            decreases graph@.nodes.len() - i,
                        {
                            let ghost q_before = to_visit@;
                            if !seen[i] {
                                to_visit.push(i);
                                proof {
                                    assert(to_visit@[to_visit@.len() - 1] == i);
                                    assert(pending_contains(to_visit@, i as int));
                                }
                            }
                            proof {
                                assert forall|j: int|
                                    0 <= j < i as int && pending_contains(
                                        q_before,
                                        j,
                                    ) implies pending_contains(to_visit@, j) by {
                                    let k = choose|k: int|
                                        0 <= k < q_before.len() && q_before[k] as int == j;
                                    assert(to_visit@[k] as int == j);
                                }
                            }
                            i += 1;
                        }
                    } else {
                        proof {
                            assert forall|j: int|
                                0 <= j < graph@.nodes.len() && !seen@[j] implies pending_contains(
                                to_visit@,
                                j,
                            ) by {
                                assert(j != n as int);
                                assert(pending_contains(pending_before, j));
                                let k = choose|k: int|
                                    0 <= k < pending_before.len() && pending_before[k] as int == j;
                                assert(pending_before[pending_before.len() - 1] == n);
                                assert(k < pending_before.len() - 1);
                                assert(to_visit@[k] as int == j);
                            }
                        }
                    }
                },
            }
        }

        proof {
            assert forall|i: int|
                0 <= i < run_graph(*visitor, g0, order).nodes.len() implies order.contains(i)
                || seen0.contains(i) by {
                assert(marked_set(seen@).contains(i));
                if order.to_set().contains(i) {
                    assert(order.contains(i));
                }
            }
            assert(run_complete(*visitor, g0, seen0, order));
            assert(g0 == self.graph_view());
            assert(seen0 == self.seen_set());
            assert(*visitor == self.vis());
            assert(run_complete(self.vis(), self.graph_view(), self.seen_set(), order));
            assert(graph@ == run_graph(self.vis(), self.graph_view(), order));
        }
        graph
    }
}

/// Work-list duplicate tolerance: however many times a node is enqueued, a
/// legal run visits it at most once.
pub proof fn lemma_run_visits_once<P: View, E: View, V: Visitor<P, E>>(
    v: V,
    g0: GraphView<P::V, E::V>,
    seen0: Set<int>,
    order: Seq<int>,
)
    requires
        run_ok(v, g0, seen0, order),
    ensures
        order.no_duplicates(),
    decreases order.len(),
{
    if order.len() > 0 {
        lemma_run_visits_once(v, g0, seen0, order.drop_last());
        assert forall|i: int, j: int|
            0 <= i < order.len() && 0 <= j < order.len() && i != j implies order[i] != order[j] by {
            if i < order.len() - 1 && j < order.len() - 1 {
                assert(order.drop_last()[i] == order[i]);
                assert(order.drop_last()[j] == order[j]);
            } else if i == order.len() - 1 && j < order.len() - 1 {
                assert(!order.drop_last().contains(order[i]));
                assert(order.drop_last()[j] == order[j]);
            } else if j == order.len() - 1 && i < order.len() - 1 {
                assert(!order.drop_last().contains(order[j]));
                assert(order.drop_last()[i] == order[i]);
            }
        }
    }
}

} // verus!
