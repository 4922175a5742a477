//! Term substitution and action mapping.

use lbj::cspm::process::{Binary, BinaryOp, ChoiceOp, Event, EventSuffix, Primitive, Process, Value};
use lbj::semantics::action::Action;

type P = Process<u64, u64>;

fn ev(head: u64) -> Event<u64> {
    Event { head, tail: vec![EventSuffix::In(4), EventSuffix::Out(Value::Id(5))] }
}

#[test]
fn substitution_fixed_point_on_placeholder_free_term() {
    let t: P = Process::Binary(Binary {
        op: BinaryOp::Interrupt,
        lhs: Box::new(Process::Prefix(ev(1), Box::new(Process::Prim(Primitive::Stop)))),
        rhs: Box::new(Process::Prim(Primitive::Skip)),
    });
    let r = t.expand_pid(|p: u64| Process::Named(p));
    assert_eq!(r, t);
}

#[test]
fn substitution_replaces_single_placeholder() {
    let t: P = Process::Prefix(ev(1), Box::new(Process::Named(7)));
    let r = t.expand_pid(|_p: u64| Process::Prim(Primitive::Skip));
    let expected: P = Process::Prefix(ev(1), Box::new(Process::Prim(Primitive::Skip)));
    assert_eq!(r, expected);
}

#[test]
fn substitution_replaces_each_placeholder_by_identifier() {
    let t: P = Process::Binary(Binary {
        op: BinaryOp::Choice(ChoiceOp::Sliding),
        lhs: Box::new(Process::Named(1)),
        rhs: Box::new(Process::Named(2)),
    });
    let r: Process<u64, u64> = t.map_pid(|p: u64| p + 10);
    let expected: P = Process::Binary(Binary {
        op: BinaryOp::Choice(ChoiceOp::Sliding),
        lhs: Box::new(Process::Named(11)),
        rhs: Box::new(Process::Named(12)),
    });
    assert_eq!(r, expected);
}

#[test]
fn map_pid_changes_identifier_domain() {
    let t: Process<u64, u64> = Process::Named(3);
    let r: Process<u64, bool> = t.map_pid(|p: u64| p > 2);
    assert_eq!(r, Process::Named(true));
}

#[test]
fn expand_event_keeps_tick_and_tau() {
    let tick: Action<Event<u64>> = Action::Tick;
    let tau: Action<Event<u64>> = Action::Tau;
    assert_eq!(tick.expand_event(|_e: &Event<u64>| Action::<u64>::Tau), Action::Tick);
    assert_eq!(tau.expand_event(|_e: &Event<u64>| Action::<u64>::Tick), Action::Tau);
}

#[test]
fn map_event_applies_to_events_only() {
    let a: Action<Event<u64>> = Action::Ev(ev(9));
    let r: Action<u64> = a.map_event(|e: &Event<u64>| e.head * 2);
    assert_eq!(r, Action::Ev(18));
    let t: Action<Event<u64>> = Action::Tick;
    assert_eq!(t.map_event(|e: &Event<u64>| e.head), Action::Tick);
}

#[test]
fn event_equality_is_structural() {
    assert_eq!(ev(1), ev(1));
    assert_ne!(ev(1), ev(2));
    let short = Event::<u64> { head: 1, tail: vec![] };
    assert_ne!(ev(1), short);
}

#[test]
fn event_clone_preserves_structure() {
    let e = ev(3);
    let e2 = e.clone();
    assert_eq!(e, e2);
}

#[test]
fn process_clone_preserves_structure() {
    let t: P = Process::Prefix(ev(1), Box::new(Process::Named(2)));
    let t2 = t.clone();
    assert_eq!(t, t2);
}
