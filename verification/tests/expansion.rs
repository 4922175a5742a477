//! Expansion scenarios: the work-list expander driven by the CSP rule table.

use lbj::cspm::combinator::Combinators;
use lbj::cspm::process::{Binary, BinaryOp, ChoiceOp, Event, EventSuffix, Primitive, Process, Value};
use lbj::semantics::action::Action;
use lbj::semantics::explicit::{Explicit, Expander, Node};

type P = Process<u64, u64>;
type E = Event<u64>;

fn ev(head: u64) -> E {
    Event { head, tail: vec![EventSuffix::Dot(Value::Id(head + 100))] }
}

fn expand_term(t: P, universe: Vec<E>) -> Explicit<P, E> {
    let visitor: Combinators<u64, u64> = Combinators::new(universe);
    let expander = Expander::new(t, &visitor);
    expander.expand()
}

#[test]
fn expand_stop_single_node_no_edges() {
    let g = expand_term(Process::Prim(Primitive::Stop), vec![]);
    assert_eq!(g.node_count(), 1);
    assert_eq!(g.edge_count(), 0);
    assert!(matches!(g.node(0), Node::Process(Process::Prim(Primitive::Stop))));
}

#[test]
fn expand_skip_tick_to_omega() {
    let g = expand_term(Process::Prim(Primitive::Skip), vec![]);
    assert_eq!(g.node_count(), 2);
    assert_eq!(g.edge_count(), 1);
    assert!(matches!(g.node(0), Node::Process(Process::Prim(Primitive::Skip))));
    assert!(matches!(g.node(1), Node::Omega));
    let t = g.transition(0);
    assert_eq!(t.source, 0);
    assert_eq!(t.target, 1);
    assert_eq!(t.edge.action, Action::Tick);
}

#[test]
fn expand_skip_with_nonempty_universe() {
    let g = expand_term(Process::Prim(Primitive::Skip), vec![ev(1), ev(2), ev(3)]);
    assert_eq!(g.node_count(), 2);
    assert_eq!(g.edge_count(), 1);
    assert_eq!(g.transition(0).edge.action, Action::Tick);
}

#[test]
fn expansion_is_deterministic() {
    let t1 = expand_term(Process::Prim(Primitive::Skip), vec![ev(1), ev(2)]);
    let t2 = expand_term(Process::Prim(Primitive::Skip), vec![ev(1), ev(2)]);
    assert_eq!(t1.node_count(), t2.node_count());
    assert_eq!(t1.edge_count(), t2.edge_count());
    for i in 0..t1.edge_count() {
        let a = t1.transition(i);
        let b = t2.transition(i);
        assert_eq!(a.source, b.source);
        assert_eq!(a.target, b.target);
        assert_eq!(a.edge.action, b.edge.action);
    }
    for i in 0..t1.node_count() {
        match (t1.node(i), t2.node(i)) {
            (Node::Omega, Node::Omega) => {}
            (Node::Process(a), Node::Process(b)) => assert_eq!(a, b),
            _ => panic!("node kinds differ"),
        }
    }
}

#[test]
fn omega_unique_with_indegree_matching_ticks() {
    let g = expand_term(Process::Prim(Primitive::Skip), vec![]);
    let mut omegas = vec![];
    for i in 0..g.node_count() {
        if matches!(g.node(i), Node::Omega) {
            omegas.push(i);
        }
    }
    assert_eq!(omegas.len(), 1);
    let omega = omegas[0];
    let mut indegree = 0;
    let mut ticks = 0;
    for i in 0..g.edge_count() {
        let t = g.transition(i);
        if t.target == omega {
            indegree += 1;
        }
        if t.edge.action == Action::Tick {
            ticks += 1;
            assert!(matches!(g.node(t.target), Node::Omega));
        }
    }
    assert_eq!(indegree, ticks);
    assert_eq!(indegree, 1);
}

#[test]
fn duplicate_pending_entries_cause_no_second_visit() {
    // A second visit of the Skip node would append a second Tick edge, since
    // the existing Omega would be reused as its destination.  One edge means
    // the node was visited exactly once, however often it was enqueued.
    let g = expand_term(Process::Prim(Primitive::Skip), vec![ev(7)]);
    assert_eq!(g.edge_count(), 1);
    assert_eq!(g.node_count(), 2);
}

#[test]
fn expansion_terminates_on_composite_terms() {
    let t: P = Process::Binary(Binary {
        op: BinaryOp::Choice(ChoiceOp::External),
        lhs: Box::new(Process::Prim(Primitive::Stop)),
        rhs: Box::new(Process::Prim(Primitive::Skip)),
    });
    let g = expand_term(t, vec![ev(1)]);
    // No rules are attached to binary operators yet: the graph stays finite
    // and the expansion returns with the root alone.
    assert_eq!(g.node_count(), 1);
    assert_eq!(g.edge_count(), 0);
}

#[test]
fn expansion_terminates_on_prefix_terms() {
    let t: P = Process::Prefix(ev(1), Box::new(Process::Prim(Primitive::Skip)));
    let g = expand_term(t, vec![ev(1), ev(2)]);
    assert_eq!(g.node_count(), 1);
    assert_eq!(g.edge_count(), 0);
}

#[test]
fn expansion_of_named_reference_is_left_unresolved() {
    let g = expand_term(Process::Named(3), vec![]);
    assert_eq!(g.node_count(), 1);
    assert_eq!(g.edge_count(), 0);
}

#[test]
fn empty_graph_has_no_nodes() {
    let g: Explicit<P, E> = Explicit::new();
    assert_eq!(g.node_count(), 0);
    assert_eq!(g.edge_count(), 0);
    assert_eq!(g.find_omega(), None);
}
