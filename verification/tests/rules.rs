//! Quantifier expansion, acceptance checks, the primitive rule table, and
//! the session table.

use lbj::cspm::combinator::{Combinators, Quantifier};
use lbj::cspm::process::{Event, EventSuffix, Primitive, Process, Value};
use lbj::cspm::Session;
use lbj::semantics::action::Action;
use lbj::semantics::combinator::OnFunc;
use lbj::semantics::explicit::Node;

type P = Process<u64, u64>;

fn ev(head: u64) -> Event<u64> {
    Event { head, tail: vec![EventSuffix::Dot(Value::Id(head))] }
}

#[test]
fn universe_quantifier_expands_to_whole_universe() {
    let universe = vec![ev(1), ev(2), ev(3)];
    let out = Quantifier::Universe.expand(&universe);
    assert_eq!(out.len(), 3);
    for (a, b) in out.iter().zip(universe.iter()) {
        assert_eq!(a, b);
    }
}

#[test]
fn zero_quantifiers_give_one_empty_assignment() {
    let c: Combinators<u64, u64> = Combinators::new(vec![ev(1), ev(2)]);
    let asgs = c.expand_quants(&vec![]);
    assert_eq!(asgs.len(), 1);
    assert_eq!(asgs[0].len(), 0);
}

#[test]
fn two_quantifiers_over_three_events_give_nine_assignments() {
    let c: Combinators<u64, u64> = Combinators::new(vec![ev(1), ev(2), ev(3)]);
    let asgs = c.expand_quants(&vec![Quantifier::Universe, Quantifier::Universe]);
    assert_eq!(asgs.len(), 9);
    for a in asgs.iter() {
        assert_eq!(a.len(), 2);
    }
    // Earlier quantifiers vary slower: the first row binds the first event
    // twice, the second row moves only the second quantifier on.
    assert_eq!(asgs[0][0], ev(1));
    assert_eq!(asgs[0][1], ev(1));
    assert_eq!(asgs[1][0], ev(1));
    assert_eq!(asgs[1][1], ev(2));
    assert_eq!(asgs[3][0], ev(2));
}

#[test]
fn quantifier_expansion_over_empty_universe_is_empty() {
    let c: Combinators<u64, u64> = Combinators::new(vec![]);
    let asgs = c.expand_quants(&vec![Quantifier::Universe]);
    assert_eq!(asgs.len(), 0);
}

#[test]
fn acceptance_with_no_on_operands_is_vacuous() {
    let on: Vec<P> = vec![];
    let ok = lbj::cspm::combinator::events_accepted(
        &on,
        &OnFunc(vec![]),
        &vec![],
        &vec![ev(1)],
    );
    assert!(ok);
}

#[test]
fn stop_accepts_no_event() {
    let universe = vec![ev(1)];
    let accepted = lbj::cspm::combinator::event_accepted(
        &Process::<u64, u64>::Prim(Primitive::Stop),
        &ev(1),
        &universe,
    );
    assert!(!accepted);
}

#[test]
fn skip_offers_no_observable_event() {
    // Skip's one transition is Tick, which is not an observable event.
    let universe = vec![ev(1)];
    let accepted = lbj::cspm::combinator::event_accepted(
        &Process::<u64, u64>::Prim(Primitive::Skip),
        &ev(1),
        &universe,
    );
    assert!(!accepted);
}

#[test]
fn prefix_has_no_rules_yet_so_accepts_nothing() {
    let universe = vec![ev(1)];
    let t: P = Process::Prefix(ev(1), Box::new(Process::Prim(Primitive::Skip)));
    assert!(!lbj::cspm::combinator::event_accepted(&t, &ev(1), &universe));
}

#[test]
fn stop_rule_set_is_empty() {
    let rs = lbj::cspm::combinator::prim_rules::<u64>(Primitive::Stop);
    assert_eq!(rs.on.len(), 0);
    assert_eq!(rs.rules.len(), 0);
}

#[test]
fn skip_rule_set_is_one_tick_rule_to_omega() {
    let rs = lbj::cspm::combinator::prim_rules::<u64>(Primitive::Skip);
    assert_eq!(rs.on.len(), 0);
    assert_eq!(rs.rules.len(), 1);
    let rule = &rs.rules[0];
    assert_eq!(rule.quantifiers.len(), 0);
    assert_eq!(rule.triple.on_func.0.len(), 0);
    assert_eq!(rule.triple.action, Action::Tick);
    assert!(matches!(rule.triple.format, Node::Omega));
}

#[test]
fn session_insert_and_get() {
    let mut s: Session<u64, u64> = Session::new();
    assert_eq!(s.len(), 0);
    s.insert(1, Process::Prim(Primitive::Stop));
    s.insert(2, Process::Prim(Primitive::Skip));
    assert_eq!(s.len(), 2);
    assert_eq!(s.get(1), Some(&Process::Prim(Primitive::Stop)));
    assert_eq!(s.get(2), Some(&Process::Prim(Primitive::Skip)));
    assert_eq!(s.get(3), None);
}

#[test]
fn session_insert_replaces_earlier_definition() {
    let mut s: Session<u64, u64> = Session::default();
    s.insert(1, Process::Prim(Primitive::Stop));
    s.insert(1, Process::Prim(Primitive::Skip));
    assert_eq!(s.len(), 1);
    assert_eq!(s.get(1), Some(&Process::Prim(Primitive::Skip)));
}
