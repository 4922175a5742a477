//! Combinatorial semantics for CSP-M.
//!
//! The rule table: per primitive (and, once their rules are written, per
//! operator) the structural-operational-semantics rules that enumerate a
//! term's outgoing transitions.  Applying a rule expands its quantifiers into
//! the cartesian product of the bounded universe, checks that every "on"
//! operand accepts the event bound to it, resolves the destination node, and
//! appends the labelled edge.

use crate::cspm::process::{
    eq_reflects, pid_set, subst_view, Event, EventView, Primitive, Process, ProcessView,
};
use crate::semantics::action::Action;
use crate::semantics::combinator::{rule_wf, ruleset_wf, OnFuncArg, Ordinal, RuleSetView, RuleView, TripleView, OnFunc};
use crate::cspm::process::expand_result_rel;
use crate::cspm::process::lemma_subst_rel_functional;
use crate::semantics::explicit::{
    run_complete, run_graph, run_ok, Edge, GraphView, Node, NodeView, TransView, Visitor,
};
use vstd::arithmetic::power::pow;
use vstd::prelude::*;

verus! {

/// A CSP quantifier.
#[derive(Copy, Clone, Debug)]
pub enum Quantifier {
    /// Ranges over every event of the bounded universe.
    Universe,
}

/// A CSP combinator triple.
pub type Triple<Id> = crate::semantics::combinator::Triple<Process<Id, Ordinal>>;

/// A CSP combinator rule.
pub type Rule<Id> = crate::semantics::combinator::Rule<Process<Id, Ordinal>, Quantifier>;

/// A CSP combinator rule set.
pub type RuleSet<Id> = crate::semantics::combinator::RuleSet<Process<Id, Ordinal>, Quantifier>;

impl Quantifier {
    /// The events a quantifier ranges over, as a function of the universe.
    pub open spec fn expand_spec<CId>(self, universe: Seq<EventView<CId>>) -> Seq<EventView<CId>> {
        match self {
            Quantifier::Universe => universe,
        }
    }

    /// Expands a quantifier into a vector of all possible satisfying events.
    ///
    /// Enumeration order is deterministic: the universe's own order.
    pub fn expand<CId: Copy>(&self, universe: &Vec<Event<CId>>) -> (r: Vec<Event<CId>>)
        ensures
            r.deep_view() == self.expand_spec(universe.deep_view()),
    {
        match self {
            Quantifier::Universe => clone_events(universe),
        }
    }
}

/// Copies a vector of events.
fn clone_events<CId: Copy>(v: &Vec<Event<CId>>) -> (r: Vec<Event<CId>>)
    ensures
        r.deep_view() == v.deep_view(),
{
    let mut r: Vec<Event<CId>> = Vec::new();
    let mut i: usize = 0;
    while i < v.len()
        invariant
            i <= v.len(),
            r.deep_view() == v.deep_view().take(i as int),
        decreases v.len() - i,
    {
        let ghost prev = r.deep_view();
        let e2 = v[i].clone();
        proof {
            assert(e2@ == v@[i as int]@);
        }
        r.push(e2);
        proof {
            assert(r@.len() == prev.len() + 1);
            assert forall|j: int| 0 <= j < r@.len() implies r.deep_view()[j] == v.deep_view().take(
                i + 1,
            )[j] by {
                if j < i as int {
                    assert(r.deep_view()[j] == prev[j]);
                    assert(prev[j] == v.deep_view()[j]);
                } else {
                    assert(r@[j] == e2);
                    assert(r.deep_view()[j] == e2@);
                }
            }
            assert(r.deep_view() =~= v.deep_view().take(i + 1));
        }
        i += 1;
    }
    proof {
        assert(r.deep_view() =~= v.deep_view());
    }
    r
}

/// Every extension of `a` by one entry of `choices`, in order.
pub open spec fn extend_one<T>(a: Seq<T>, choices: Seq<T>) -> Seq<Seq<T>>
    decreases choices.len(),
{
    if choices.len() == 0 {
        Seq::empty()
    } else {
        extend_one(a, choices.drop_last()).push(a.push(choices.last()))
    }
}

/// Every extension of an entry of `acc` by an entry of `choices`, grouped by
/// the entry of `acc`.
pub open spec fn extend_all<T>(acc: Seq<Seq<T>>, choices: Seq<T>) -> Seq<Seq<T>>
    decreases acc.len(),
{
    if acc.len() == 0 {
        Seq::empty()
    } else {
        extend_all(acc.drop_last(), choices) + extend_one(acc.last(), choices)
    }
}

/// The cartesian product of a sequence of factors: one assignment for every
/// way of drawing one entry from each factor, earlier factors varying slower.
/// Zero factors give the single empty assignment.
pub open spec fn product_spec<T>(qs: Seq<Seq<T>>) -> Seq<Seq<T>>
    decreases qs.len(),
{
    if qs.len() == 0 {
        seq![Seq::<T>::empty()]
    } else {
        extend_all(product_spec(qs.drop_last()), qs.last())
    }
}

/// The assignments a rule's quantifiers generate against a universe.
pub open spec fn assignments_spec<CId>(
    quants: Seq<Quantifier>,
    u: Seq<EventView<CId>>,
) -> Seq<Seq<EventView<CId>>> {
    product_spec(quants.map_values(|q: Quantifier| q.expand_spec(u)))
}

/// The action template of a triple instantiated with a quantifier assignment.
pub open spec fn action_subst<CId>(a: Action<OnFuncArg>, asg: Seq<EventView<CId>>) -> Action<
    EventView<CId>,
> {
    match a {
        Action::Tick => Action::Tick,
        Action::Tau => Action::Tau,
        Action::Ev(k) => Action::Ev(asg[k.0 as int]),
    }
}

/// A destination template instantiated by substituting each `Ordinal`
/// placeholder with the corresponding syntactic operand.
pub open spec fn instantiate_spec<CId, PId>(
    fmt: ProcessView<CId, Ordinal>,
    args: Seq<ProcessView<CId, PId>>,
) -> ProcessView<CId, PId> {
    subst_view(fmt, |o: Ordinal| args[o.0 as int])
}

/// The height of a term: one more than its tallest operand.
pub open spec fn term_height<CId, PId>(t: ProcessView<CId, PId>) -> nat
    decreases t,
{
    match t {
        ProcessView::Named(_) => 1,
        ProcessView::Prim(_) => 1,
        ProcessView::Prefix(_, k) => 1 + term_height(*k),
        ProcessView::Binary(_, l, r) => 1 + if term_height(*l) > term_height(*r) {
            term_height(*l)
        } else {
            term_height(*r)
        },
    }
}

/// The syntactic operands of a term.
pub open spec fn term_operands_view<CId, PId>(t: ProcessView<CId, PId>) -> Seq<
    ProcessView<CId, PId>,
> {
    match t {
        ProcessView::Named(_) => Seq::empty(),
        ProcessView::Prim(_) => Seq::empty(),
        ProcessView::Prefix(_, k) => seq![*k],
        ProcessView::Binary(_, l, r) => seq![*l, *r],
    }
}

/// The rules the table attaches to a primitive process.
pub open spec fn prim_rules_view<Id>(prim: Primitive) -> RuleSetView<
    ProcessView<Id, Ordinal>,
    Quantifier,
> {
    match prim {
        Primitive::Stop => RuleSetView {
            on: Seq::empty(),
            rules: Seq::empty(),
        },
        Primitive::Skip => RuleSetView {
            on: Seq::empty(),
            rules: seq![
                RuleView {
                    quantifiers: Seq::empty(),
                    triple: TripleView {
                        on_func: Seq::empty(),
                        action: Action::Tick,
                        format: NodeView::Omega,
                    },
                },
            ],
        },
    }
}

/// The rule set the table attaches to a term: primitives have their rules;
/// every other shape has none yet.
pub open spec fn term_ruleset_view<CId, PId>(t: ProcessView<CId, PId>) -> RuleSetView<
    ProcessView<CId, Ordinal>,
    Quantifier,
> {
    match t {
        ProcessView::Prim(p) => prim_rules_view(p),
        _ => RuleSetView { on: Seq::empty(), rules: Seq::empty() },
    }
}

/// Rule instance `(ri, ai)` of `t`'s rule set yields a transition labelled
/// `Ev(ev)`: the assignment exists, every "on" operand accepts the event the
/// assignment binds to it, and the instantiated action template is `Ev(ev)`.
pub open spec fn rule_instance_matches<CId, PId>(
    t: ProcessView<CId, PId>,
    ri: int,
    ai: int,
    ev: EventView<CId>,
    u: Seq<EventView<CId>>,
) -> bool
    decreases term_height(t), 0int,
{
    let rs = term_ruleset_view::<CId, PId>(t);
    let ops = term_operands_view(t);
    &&& 0 <= ri < rs.rules.len()
    &&& {
        let rule = rs.rules[ri];
        let asgs = product_spec(
            rule.quantifiers.map_values(|q: Quantifier| q.expand_spec(u)),
        );
        &&& 0 <= ai < asgs.len()
        &&& (forall|j: int|
            0 <= j < rs.on.len() && j < rule.triple.on_func.len()
                ==> match #[trigger] rule.triple.on_func[j] {
                Some(k) => (rs.on[j] as int) < ops.len() && (k.0 as int) < asgs[ai].len()
                    && offers(ops[rs.on[j] as int], asgs[ai][k.0 as int], u),
                None => true,
            })
        &&& (rule.triple.action matches Action::Ev(k) ==> (k.0 as int) < asgs[ai].len())
        &&& action_subst(rule.triple.action, asgs[ai]) == Action::<EventView<CId>>::Ev(ev)
    }
}

/// A term offers the event `ev`: some rule instance of its own rule set
/// yields a transition labelled `Ev(ev)`.  This is the acceptance query of
/// the operational semantics: an "on" operand accepts an event exactly when
/// its own transition set holds a matching transition.
pub open spec fn offers<CId, PId>(
    t: ProcessView<CId, PId>,
    ev: EventView<CId>,
    u: Seq<EventView<CId>>,
) -> bool
    decreases term_height(t), 1int,
{
    exists|ri: int, ai: int| rule_instance_matches(t, ri, ai, ev, u)
}

/// Acceptance of a whole assignment by the selected "on" operands: each
/// operand bound by the 'on' function must offer the event it is bound to.
pub open spec fn accepted_events<CId, PId>(
    sel: Seq<ProcessView<CId, PId>>,
    onf: Seq<Option<OnFuncArg>>,
    asg: Seq<EventView<CId>>,
    u: Seq<EventView<CId>>,
) -> bool {
    forall|j: int|
        0 <= j < sel.len() && j < onf.len() ==> match #[trigger] onf[j] {
            Some(k) => (k.0 as int) < asg.len() && offers(sel[j], asg[k.0 as int], u),
            None => true,
        }
}


/// Appends a copy of `e` to a row of events.
fn push_event<CId: Copy>(row: &mut Vec<Event<CId>>, e: &Event<CId>)
    ensures
        final(row).deep_view() == old(row).deep_view().push(e@),
{
    let e2 = e.clone();
    row.push(e2);
    proof {
        assert forall|j: int|
            0 <= j < row.deep_view().len() implies row.deep_view()[j] == old(
            row,
        ).deep_view().push(e@)[j] by {
            if j < old(row)@.len() {
                assert(row@[j] == old(row)@[j]);
            } else {
                assert(row@[j] == e2);
            }
        }
        assert(row.deep_view() =~= old(row).deep_view().push(e@));
    }
}

/// Appends a row to a table of rows.
fn push_row<CId: Copy>(table: &mut Vec<Vec<Event<CId>>>, row: Vec<Event<CId>>)
    ensures
        final(table).deep_view() == old(table).deep_view().push(row.deep_view()),
{
    let ghost rv = row.deep_view();
    table.push(row);
    proof {
        assert forall|j: int|
            0 <= j < table.deep_view().len() implies table.deep_view()[j] == old(
            table,
        ).deep_view().push(rv)[j] by {
            if j < old(table)@.len() {
                assert(table@[j] == old(table)@[j]);
            }
        }
        assert(table.deep_view() =~= old(table).deep_view().push(rv));
    }
}

/// The assignments of a rule's quantifiers against the universe: the
/// cartesian product of the per-quantifier expansions, one factor per
/// quantifier.  Zero quantifiers give a single empty assignment.
fn all_assignments<CId: Copy>(quantifiers: &Vec<Quantifier>, universe: &Vec<Event<CId>>) -> (r:
    Vec<Vec<Event<CId>>>)
    ensures
        r.deep_view() == assignments_spec(quantifiers@, universe.deep_view()),
{
    let ghost u = universe.deep_view();
    let mut acc: Vec<Vec<Event<CId>>> = Vec::new();
    let first: Vec<Event<CId>> = Vec::new();
    proof {
        assert(first.deep_view() =~= Seq::<EventView<CId>>::empty());
    }
    acc.push(first);
    proof {
        assert(acc.deep_view() =~~= seq![Seq::<EventView<CId>>::empty()]);
        assert(quantifiers@.take(0).map_values(|q: Quantifier| q.expand_spec(u))
            =~= Seq::<Seq<EventView<CId>>>::empty());
    }
    let mut qi: usize = 0;
    while qi < quantifiers.len()
        invariant
            qi <= quantifiers@.len(),
            u == universe.deep_view(),
            acc.deep_view() == product_spec(
                quantifiers@.take(qi as int).map_values(|q: Quantifier| q.expand_spec(u)),
            ),
        decreases quantifiers@.len() - qi,
    {
        let choices = quantifiers[qi].expand(universe);
        let ghost cv = choices.deep_view();
        let ghost accv = acc.deep_view();
        let mut next: Vec<Vec<Event<CId>>> = Vec::new();
        proof {
            assert(next.deep_view() =~= Seq::<Seq<EventView<CId>>>::empty());
            assert(accv.take(0) =~= Seq::<Seq<EventView<CId>>>::empty());
        }
        let mut ai: usize = 0;
        while ai < acc.len()
            invariant
                ai <= acc@.len(),
                accv == acc.deep_view(),
                cv == choices.deep_view(),
                next.deep_view() == extend_all(accv.take(ai as int), cv),
            decreases acc@.len() - ai,
        {
            let mut ci: usize = 0;
            proof {
                assert(cv.take(0) =~= Seq::<EventView<CId>>::empty());
            }
            while ci < choices.len()
                invariant
                    ci <= choices@.len(),
                    ai < acc@.len(),
                    accv == acc.deep_view(),
                    cv == choices.deep_view(),
                    next.deep_view() == extend_all(accv.take(ai as int), cv) + extend_one(
                        accv[ai as int],
                        cv.take(ci as int),
                    ),
                decreases choices@.len() - ci,
            {
                let mut row = clone_events(&acc[ai]);
                proof {
                    assert(row.deep_view() == accv[ai as int]);
                }
                push_event(&mut row, &choices[ci]);
                proof {
                    assert(row.deep_view() == accv[ai as int].push(cv[ci as int]));
                }
                push_row(&mut next, row);
                proof {
                    assert(cv.take(ci + 1).drop_last() =~= cv.take(ci as int));
                    assert(cv.take(ci + 1).last() == cv[ci as int]);
                    assert(next.deep_view() =~= extend_all(accv.take(ai as int), cv) + extend_one(
                        accv[ai as int],
                        cv.take(ci + 1),
                    ));
                }
                ci += 1;
            }
            proof {
                assert(cv.take(cv.len() as int) =~= cv);
                assert(accv.take(ai + 1).drop_last() =~= accv.take(ai as int));
                assert(accv.take(ai + 1).last() == accv[ai as int]);
                assert(next.deep_view() =~= extend_all(accv.take(ai + 1), cv));
            }
            ai += 1;
        }
        acc = next;
        proof {
            let qs0 = quantifiers@.take(qi as int).map_values(|q: Quantifier| q.expand_spec(u));
            let qs1 = quantifiers@.take(qi + 1).map_values(|q: Quantifier| q.expand_spec(u));
            assert(accv.take(accv.len() as int) =~= accv);
            assert(qs1.drop_last() =~= qs0);
            assert(qs1.last() == quantifiers@[qi as int].expand_spec(u));
            assert(acc.deep_view() == product_spec(qs1));
        }
        qi += 1;
    }
    proof {
        assert(quantifiers@.take(quantifiers@.len() as int) =~= quantifiers@);
    }
    acc
}

/// The rule set of a primitive process: `Stop` has no rules; `Skip` has one
/// rule, with no quantifiers and no "on" operands, producing a `Tick` edge to
/// `Omega`.
pub fn prim_rules<Id>(prim: Primitive) -> (r: RuleSet<Id>)
    ensures
        r@ == prim_rules_view::<Id>(prim),
        ruleset_wf(r@),
{
    match prim {
        Primitive::Stop => {
            let r: RuleSet<Id> = crate::semantics::combinator::RuleSet {
                on: Vec::new(),
                rules: Vec::new(),
            };
            proof {
                assert(r@.on =~= prim_rules_view::<Id>(prim).on);
                assert(r@.rules =~= prim_rules_view::<Id>(prim).rules);
                assert(r@ =~= prim_rules_view::<Id>(prim));
            }
            r
        },
        Primitive::Skip => {
            let mut rules: Vec<Rule<Id>> = Vec::new();
            rules.push(
                crate::semantics::combinator::Rule {
                    quantifiers: Vec::new(),
                    triple: crate::semantics::combinator::Triple {
                        on_func: OnFunc(Vec::new()),
                        action: Action::Tick,
                        format: crate::semantics::explicit::Node::Omega,
                    },
                },
            );
            let r: RuleSet<Id> = crate::semantics::combinator::RuleSet { on: Vec::new(), rules };
            proof {
                let pv = prim_rules_view::<Id>(prim);
                assert(r@.on =~= pv.on);
                assert(r@.rules.len() == 1);
                assert(r@.rules[0].quantifiers =~= pv.rules[0].quantifiers);
                assert(r@.rules[0].triple.on_func =~= pv.rules[0].triple.on_func);
                assert(r@.rules[0] =~= pv.rules[0]);
                assert(r@.rules =~= pv.rules);
                assert(r@ =~= pv);
            }
            r
        },
    }
}

/// Checks that a triple is proposing events that all of the 'on' processes
/// can accept: each operand the 'on' function binds to an assignment index
/// must offer the event at that index.
pub fn events_accepted<CId: Copy + PartialEq, PId: Copy>(
    on: &Vec<Process<CId, PId>>,
    on_func: &OnFunc,
    assignment: &Vec<Event<CId>>,
    universe: &Vec<Event<CId>>,
) -> (r: bool)
    requires
        eq_reflects::<CId>(),
    ensures
        r == accepted_events(
            on.deep_view(),
            on_func.0@,
            assignment.deep_view(),
            universe.deep_view(),
        ),
{
    let ghost selv = on.deep_view();
    let ghost onf = on_func.0@;
    let ghost asgv = assignment.deep_view();
    let ghost u = universe.deep_view();
    let mut j: usize = 0;
    while j < on.len()
        invariant
            eq_reflects::<CId>(),
            j <= on@.len(),
            selv == on.deep_view(),
            onf == on_func.0@,
            asgv == assignment.deep_view(),
            u == universe.deep_view(),
            forall|jj: int|
                0 <= jj < j as int && jj < onf.len() ==> match #[trigger] onf[jj] {
                    Some(k) => (k.0 as int) < asgv.len() && offers(selv[jj], asgv[k.0 as int], u),
                    None => true,
                },
        decreases on@.len() - j,
    {
        if j < on_func.0.len() {
            match on_func.0[j] {
                None => {},
                Some(k) => {
                    if k.0 >= assignment.len() {
                        proof {
                            assert(!accepted_events(selv, onf, asgv, u));
                        }
                        return false;
                    }
                    if !event_accepted(&on[j], &assignment[k.0], universe) {
                        proof {
                            assert(selv[j as int] == on@[j as int].deep_view());
                            assert(!accepted_events(selv, onf, asgv, u));
                        }
                        return false;
                    }
                },
            }
        }
        j += 1;
    }
    true
}

/// Checks that a triple is proposing an event that its 'on' process can
/// accept, by querying the operand's own transition set for a matching
/// event.
pub fn event_accepted<CId: Copy + PartialEq, PId: Copy>(
    on: &Process<CId, PId>,
    assignment: &Event<CId>,
    universe: &Vec<Event<CId>>,
) -> (r: bool)
    requires
        eq_reflects::<CId>(),
    ensures
        r == offers(on@, assignment@, universe.deep_view()),
    decreases term_height(on@),
{
    let ghost t = on@;
    let ghost evv = assignment@;
    let ghost u = universe.deep_view();
    match on {
        Process::Prim(p) => {
            let rs: RuleSet<CId> = prim_rules(*p);
            let ops: Vec<Process<CId, PId>> = Vec::new();
            proof {
                assert(term_ruleset_view::<CId, PId>(t) == rs@);
                assert(term_operands_view(t) =~= Seq::<ProcessView<CId, PId>>::empty());
            }
            let mut ri: usize = 0;
            while ri < rs.rules.len()
                invariant
                    eq_reflects::<CId>(),
                    t == on@,
                    evv == assignment@,
                    u == universe.deep_view(),
                    rs@ == term_ruleset_view::<CId, PId>(t),
                    term_operands_view(t).len() == 0,
                    ops@.len() == 0,
                    ri <= rs.rules@.len(),
                    forall|r2: int, a2: int|
                        0 <= r2 < ri as int ==> !rule_instance_matches(t, r2, a2, evv, u),
                decreases rs.rules@.len() - ri,
            {
                let asgs = all_assignments(&rs.rules[ri].quantifiers, universe);
                proof {
                    assert(rs@.rules[ri as int] == rs.rules@[ri as int]@);
                    assert(asgs.deep_view() == product_spec(
                        rs@.rules[ri as int].quantifiers.map_values(
                            |q: Quantifier| q.expand_spec(u),
                        ),
                    ));
                }
                let mut ai: usize = 0;
                while ai < asgs.len()
                    invariant
                        eq_reflects::<CId>(),
                        t == on@,
                        evv == assignment@,
                        u == universe.deep_view(),
                        rs@ == term_ruleset_view::<CId, PId>(t),
                        term_operands_view(t).len() == 0,
                        ops@.len() == 0,
                        ri < rs.rules@.len(),
                        ai <= asgs@.len(),
                        asgs.deep_view() == product_spec(
                            rs@.rules[ri as int].quantifiers.map_values(
                                |q: Quantifier| q.expand_spec(u),
                            ),
                        ),
                        forall|a2: int|
                            0 <= a2 < ai as int ==> !rule_instance_matches(
                                t,
                                ri as int,
                                a2,
                                evv,
                                u,
                            ),
                    decreases asgs@.len() - ai,
                {
                    let ghost asgv = asgs.deep_view()[ai as int];
                    let mut accepted = true;
                    let mut j: usize = 0;
                    while j < rs.on.len()
                        invariant
                            eq_reflects::<CId>(),
                            t == on@,
                            u == universe.deep_view(),
                            rs@ == term_ruleset_view::<CId, PId>(t),
                            term_operands_view(t).len() == 0,
                            ops@.len() == 0,
                            ri < rs.rules@.len(),
                            ai < asgs@.len(),
                            asgv == asgs.deep_view()[ai as int],
                            asgs.deep_view()[ai as int].len() == asgs@[ai as int].deep_view().len(),
                            j <= rs.on@.len(),
                            accepted <==> (forall|jj: int|
                                0 <= jj < j as int && jj < rs@.rules[ri as int].triple.on_func.len()
                                    ==> match #[trigger] rs@.rules[ri as int].triple.on_func[jj] {
                                    Some(k) => (rs@.on[jj] as int) < term_operands_view(t).len() && (
                                    k.0 as int) < asgv.len() && offers(
                                        term_operands_view(t)[rs@.on[jj] as int],
                                        asgv[k.0 as int],
                                        u,
                                    ),
                                    None => true,
                                }),
                        decreases rs.on@.len() - j,
                    {
                        if accepted && j < rs.rules[ri].triple.on_func.0.len() {
                            match rs.rules[ri].triple.on_func.0[j] {
                                None => {},
                                Some(k) => {
                                    if rs.on[j] >= ops.len() {
                                        accepted = false;
                                    } else if k.0 >= asgs[ai].len() {
                                        accepted = false;
                                    } else {
                                        let sub_ok = event_accepted(
                                            &ops[rs.on[j]],
                                            &asgs[ai][k.0],
                                            universe,
                                        );
                                        if !sub_ok {
                                            accepted = false;
                                        }
                                    }
                                },
                            }
                        }
                        j += 1;
                    }
                    let is_match: bool;
                    if accepted {
                        match &rs.rules[ri].triple.action {
                            Action::Ev(k) => {
                                if k.0 < asgs[ai].len() {
                                    is_match = asgs[ai][k.0] == *assignment;
                                    proof {
                                        assert(asgs@[ai as int]@[k.0 as int]@ == asgv[k.0 as int]);
                                    }
                                } else {
                                    is_match = false;
                                }
                            },
                            Action::Tick => {
                                is_match = false;
                            },
                            Action::Tau => {
                                is_match = false;
                            },
                        }
                    } else {
                        is_match = false;
                    }
                    if is_match {
                        proof {
                            assert(rule_instance_matches(t, ri as int, ai as int, evv, u));
                            assert(offers(t, evv, u));
                        }
                        return true;
                    }
                    proof {
                        assert(!rule_instance_matches(t, ri as int, ai as int, evv, u));
                    }
                    ai += 1;
                }
                proof {
                    assert forall|a2: int| !rule_instance_matches(t, ri as int, a2, evv, u) by {
                        if 0 <= a2 < asgs.deep_view().len() {
                        } else {
                        }
                    }
                }
                ri += 1;
            }
            proof {
                assert(!offers(t, evv, u)) by {
                    if offers(t, evv, u) {
                        let (r2, a2) = choose|r2: int, a2: int|
                            rule_instance_matches(t, r2, a2, evv, u);
                        assert(0 <= r2 < rs@.rules.len());
                        assert(!rule_instance_matches(t, r2, a2, evv, u));
                    }
                }
            }
            false
        },
        Process::Named(_) => {
            proof {
                assert(!offers(t, evv, u)) by {
                    if offers(t, evv, u) {
                        let (r2, a2) = choose|r2: int, a2: int|
                            rule_instance_matches(t, r2, a2, evv, u);
                        assert(term_ruleset_view::<CId, PId>(t).rules.len() == 0);
                    }
                }
            }
            false
        },
        Process::Prefix(_, _) => {
            proof {
                assert(!offers(t, evv, u)) by {
                    if offers(t, evv, u) {
                        let (r2, a2) = choose|r2: int, a2: int|
                            rule_instance_matches(t, r2, a2, evv, u);
                        assert(term_ruleset_view::<CId, PId>(t).rules.len() == 0);
                    }
                }
            }
            false
        },
        Process::Binary(_) => {
            proof {
                assert(!offers(t, evv, u)) by {
                    if offers(t, evv, u) {
                        let (r2, a2) = choose|r2: int, a2: int|
                            rule_instance_matches(t, r2, a2, evv, u);
                        assert(term_ruleset_view::<CId, PId>(t).rules.len() == 0);
                    }
                }
            }
            false
        },
    }
}

/// The operand terms a rule set's "on" indices select.
pub open spec fn select_operands<CId, PId>(
    args: Seq<ProcessView<CId, PId>>,
    on: Seq<usize>,
) -> Seq<ProcessView<CId, PId>> {
    Seq::new(on.len(), |j: int| args[on[j] as int])
}

/// Whether a graph already holds an `Omega` node.
pub open spec fn has_omega<PV>(nodes: Seq<NodeView<PV>>) -> bool {
    exists|i: int| 0 <= i < nodes.len() && nodes[i] is Omega
}

/// The index of the first `Omega` node at or after `k`, or the length if
/// there is none there.
pub open spec fn first_omega_from<PV>(nodes: Seq<NodeView<PV>>, k: int) -> int
    decreases nodes.len() - k,
{
    if k < 0 || k >= nodes.len() {
        nodes.len() as int
    } else if nodes[k] is Omega {
        k
    } else {
        first_omega_from(nodes, k + 1)
    }
}

/// The index of the first `Omega` node.
pub open spec fn first_omega<PV>(nodes: Seq<NodeView<PV>>) -> int {
    first_omega_from(nodes, 0)
}

proof fn lemma_first_omega_from<PV>(nodes: Seq<NodeView<PV>>, k: int)
    requires
        0 <= k <= nodes.len(),
    ensures
        k <= first_omega_from(nodes, k) <= nodes.len(),
        first_omega_from(nodes, k) < nodes.len() ==> nodes[first_omega_from(nodes, k)] is Omega,
        forall|j: int| k <= j < first_omega_from(nodes, k) ==> !(nodes[j] is Omega),
        first_omega_from(nodes, k) == nodes.len() ==> forall|j: int|
            k <= j < nodes.len() ==> !(nodes[j] is Omega),
    decreases nodes.len() - k,
{
    if k < nodes.len() && !(nodes[k] is Omega) {
        lemma_first_omega_from(nodes, k + 1);
    }
}

/// The first `Omega` of a graph that holds one: in range, an `Omega`, and
/// preceded by none.
pub proof fn lemma_first_omega<PV>(nodes: Seq<NodeView<PV>>)
    requires
        has_omega(nodes),
    ensures
        0 <= first_omega(nodes) < nodes.len(),
        nodes[first_omega(nodes)] is Omega,
        forall|j: int| 0 <= j < first_omega(nodes) ==> !(nodes[j] is Omega),
{
    lemma_first_omega_from(nodes, 0);
    if first_omega(nodes) == nodes.len() {
        let w = choose|i: int| 0 <= i < nodes.len() && nodes[i] is Omega;
        assert(!(nodes[w] is Omega));
    }
}

/// Resolution of a destination format against a graph: an existing `Omega`
/// is reused, a missing one is created, and a process template is
/// instantiated and inserted as a brand-new node.
pub open spec fn resolve_dest_spec<CId, PId>(
    g: GraphView<ProcessView<CId, PId>, EventView<CId>>,
    args: Seq<ProcessView<CId, PId>>,
    format: NodeView<ProcessView<CId, Ordinal>>,
) -> (GraphView<ProcessView<CId, PId>, EventView<CId>>, int) {
    match format {
        NodeView::Omega => if has_omega(g.nodes) {
            (g, first_omega(g.nodes))
        } else {
            (
                GraphView { nodes: g.nodes.push(NodeView::Omega), edges: g.edges },
                g.nodes.len() as int,
            )
        },
        NodeView::Process(fmt) => (
            GraphView {
                nodes: g.nodes.push(NodeView::Process(instantiate_spec(fmt, args))),
                edges: g.edges,
            },
            g.nodes.len() as int,
        ),
    }
}

/// One triple applied to one assignment: nothing if the "on" operands reject
/// the assignment; otherwise the destination is resolved and one labelled
/// edge is appended.
pub open spec fn triple_apply_spec<CId, PId>(
    u: Seq<EventView<CId>>,
    g: GraphView<ProcessView<CId, PId>, EventView<CId>>,
    n: int,
    args: Seq<ProcessView<CId, PId>>,
    sel: Seq<ProcessView<CId, PId>>,
    triple: TripleView<ProcessView<CId, Ordinal>>,
    asg: Seq<EventView<CId>>,
) -> GraphView<ProcessView<CId, PId>, EventView<CId>> {
    if !accepted_events(sel, triple.on_func, asg, u) {
        g
    } else {
        let gd = resolve_dest_spec(g, args, triple.format);
        GraphView {
            nodes: gd.0.nodes,
            edges: gd.0.edges.push(
                TransView { src: n, dst: gd.1, action: action_subst(triple.action, asg) },
            ),
        }
    }
}

/// The first `count` assignments of a rule folded over the graph, in order.
pub open spec fn asgs_fold<CId, PId>(
    u: Seq<EventView<CId>>,
    g: GraphView<ProcessView<CId, PId>, EventView<CId>>,
    n: int,
    args: Seq<ProcessView<CId, PId>>,
    sel: Seq<ProcessView<CId, PId>>,
    triple: TripleView<ProcessView<CId, Ordinal>>,
    asgs: Seq<Seq<EventView<CId>>>,
    count: int,
) -> GraphView<ProcessView<CId, PId>, EventView<CId>>
    decreases count,
{
    if count <= 0 {
        g
    } else {
        triple_apply_spec(
            u,
            asgs_fold(u, g, n, args, sel, triple, asgs, count - 1),
            n,
            args,
            sel,
            triple,
            asgs[count - 1],
        )
    }
}

/// One rule applied: its quantifiers expanded into assignments, each folded
/// over the graph.
pub open spec fn rule_apply_spec<CId, PId>(
    u: Seq<EventView<CId>>,
    g: GraphView<ProcessView<CId, PId>, EventView<CId>>,
    n: int,
    args: Seq<ProcessView<CId, PId>>,
    sel: Seq<ProcessView<CId, PId>>,
    rule: RuleView<ProcessView<CId, Ordinal>, Quantifier>,
) -> GraphView<ProcessView<CId, PId>, EventView<CId>> {
    let asgs = product_spec(rule.quantifiers.map_values(|q: Quantifier| q.expand_spec(u)));
    asgs_fold(u, g, n, args, sel, rule.triple, asgs, asgs.len() as int)
}

/// The first `count` rules folded over the graph, in order.
pub open spec fn rules_fold<CId, PId>(
    u: Seq<EventView<CId>>,
    g: GraphView<ProcessView<CId, PId>, EventView<CId>>,
    n: int,
    args: Seq<ProcessView<CId, PId>>,
    sel: Seq<ProcessView<CId, PId>>,
    rules: Seq<RuleView<ProcessView<CId, Ordinal>, Quantifier>>,
    count: int,
) -> GraphView<ProcessView<CId, PId>, EventView<CId>>
    decreases count,
{
    if count <= 0 {
        g
    } else {
        rule_apply_spec(
            u,
            rules_fold(u, g, n, args, sel, rules, count - 1),
            n,
            args,
            sel,
            rules[count - 1],
        )
    }
}

/// A whole rule set applied to a node against its syntactic operands.
pub open spec fn ruleset_apply_spec<CId, PId>(
    u: Seq<EventView<CId>>,
    g: GraphView<ProcessView<CId, PId>, EventView<CId>>,
    n: int,
    args: Seq<ProcessView<CId, PId>>,
    rs: RuleSetView<ProcessView<CId, Ordinal>, Quantifier>,
) -> GraphView<ProcessView<CId, PId>, EventView<CId>> {
    rules_fold(u, g, n, args, select_operands(args, rs.on), rs.rules, rs.rules.len() as int)
}

/// The effect of the rule table on one node: a primitive process gets its
/// rule set applied (with no syntactic operands); named references, prefixes
/// and binary operators have no rules yet; an `Omega` node and an index out
/// of range change nothing.
pub open spec fn combinators_step<CId, PId>(
    u: Seq<EventView<CId>>,
    g: GraphView<ProcessView<CId, PId>, EventView<CId>>,
    n: int,
) -> GraphView<ProcessView<CId, PId>, EventView<CId>> {
    if 0 <= n < g.nodes.len() {
        match g.nodes[n] {
            NodeView::Process(t) => match t {
                ProcessView::Prim(p) => ruleset_apply_spec(
                    u,
                    g,
                    n,
                    Seq::empty(),
                    prim_rules_view(p),
                ),
                _ => g,
            },
            NodeView::Omega => g,
        }
    } else {
        g
    }
}

/// How many nodes the rule table may still create: one `Omega`, at most,
/// while the graph has none.
pub open spec fn omega_budget<CId, PId>(
    g: GraphView<ProcessView<CId, PId>, EventView<CId>>,
) -> nat {
    if has_omega(g.nodes) {
        0
    } else {
        1
    }
}

/// A format an author may write: a process template only mentions operands
/// that exist.
pub open spec fn format_wf<CId>(format: NodeView<ProcessView<CId, Ordinal>>, args_len: int) -> bool {
    format matches NodeView::Process(fmt) ==> forall|o: Ordinal|
        pid_set(fmt).contains(o) ==> (o.0 as int) < args_len
}

/// Rule-set well-formedness against a given operand count.
pub open spec fn csp_ruleset_wf<CId>(
    rs: RuleSetView<ProcessView<CId, Ordinal>, Quantifier>,
    args_len: int,
) -> bool {
    &&& ruleset_wf(rs)
    &&& forall|ri: int|
        0 <= ri < rs.rules.len() ==> format_wf(#[trigger] rs.rules[ri].triple.format, args_len)
}

proof fn lemma_resolve_dest_props<CId, PId>(
    g: GraphView<ProcessView<CId, PId>, EventView<CId>>,
    args: Seq<ProcessView<CId, PId>>,
    format: NodeView<ProcessView<CId, Ordinal>>,
)
    requires
        g.wf(),
    ensures
        ({
            let gd = resolve_dest_spec(g, args, format);
            &&& gd.0.wf()
            &&& gd.0.extends(g)
            &&& gd.0.edges == g.edges
            &&& g.nodes.len() <= gd.0.nodes.len() <= g.nodes.len() + 1
            &&& 0 <= gd.1 < gd.0.nodes.len()
            &&& (has_omega(g.nodes) ==> has_omega(gd.0.nodes))
            &&& (format is Omega ==> has_omega(gd.0.nodes))
            &&& (format is Omega ==> gd.0.nodes.len() + omega_budget(gd.0) == g.nodes.len()
                + omega_budget(g))
        }),
{
    match format {
        NodeView::Omega => {
            if has_omega(g.nodes) {
                lemma_first_omega(g.nodes);
                assert(g.nodes.is_prefix_of(g.nodes));
                assert(g.edges.is_prefix_of(g.edges));
            } else {
                let gd = resolve_dest_spec(g, args, format);
                assert(gd.0.nodes[g.nodes.len() as int] is Omega);
                assert(has_omega(gd.0.nodes));
                assert(g.nodes.is_prefix_of(gd.0.nodes));
                assert(g.edges.is_prefix_of(gd.0.edges));
            }
        },
        NodeView::Process(fmt) => {
            let gd = resolve_dest_spec(g, args, format);
            assert(g.nodes.is_prefix_of(gd.0.nodes));
            assert(g.edges.is_prefix_of(gd.0.edges));
            if has_omega(g.nodes) {
                let w = choose|i: int| 0 <= i < g.nodes.len() && g.nodes[i] is Omega;
                assert(gd.0.nodes[w] is Omega);
            }
        },
    }
}

proof fn lemma_triple_apply_props<CId, PId>(
    u: Seq<EventView<CId>>,
    g: GraphView<ProcessView<CId, PId>, EventView<CId>>,
    n: int,
    args: Seq<ProcessView<CId, PId>>,
    sel: Seq<ProcessView<CId, PId>>,
    triple: TripleView<ProcessView<CId, Ordinal>>,
    asg: Seq<EventView<CId>>,
)
    requires
        g.wf(),
        0 <= n < g.nodes.len(),
    ensures
        ({
            let g2 = triple_apply_spec(u, g, n, args, sel, triple, asg);
            &&& g2.wf()
            &&& g2.extends(g)
            &&& g.nodes.len() <= g2.nodes.len() <= g.nodes.len() + 1
            &&& (forall|j: int|
                g.edges.len() <= j < g2.edges.len() ==> #[trigger] g2.edges[j].src == n)
            &&& (has_omega(g.nodes) ==> has_omega(g2.nodes))
            &&& (triple.format is Omega ==> g2.nodes.len() + omega_budget(g2) <= g.nodes.len()
                + omega_budget(g))
        }),
{
    if accepted_events(sel, triple.on_func, asg, u) {
        lemma_resolve_dest_props(g, args, triple.format);
        let gd = resolve_dest_spec(g, args, triple.format);
        let g2 = triple_apply_spec(u, g, n, args, sel, triple, asg);
        assert(g2.nodes == gd.0.nodes);
        assert(g.nodes.is_prefix_of(g2.nodes));
        assert(g.edges.is_prefix_of(g2.edges));
        if has_omega(gd.0.nodes) {
            let w = choose|i: int| 0 <= i < gd.0.nodes.len() && gd.0.nodes[i] is Omega;
            assert(g2.nodes[w] is Omega);
        }
    } else {
        assert(g.nodes.is_prefix_of(g.nodes));
        assert(g.edges.is_prefix_of(g.edges));
    }
}

proof fn lemma_asgs_fold_props<CId, PId>(
    u: Seq<EventView<CId>>,
    g: GraphView<ProcessView<CId, PId>, EventView<CId>>,
    n: int,
    args: Seq<ProcessView<CId, PId>>,
    sel: Seq<ProcessView<CId, PId>>,
    triple: TripleView<ProcessView<CId, Ordinal>>,
    asgs: Seq<Seq<EventView<CId>>>,
    count: int,
)
    requires
        g.wf(),
        0 <= n < g.nodes.len(),
    ensures
        ({
            let g2 = asgs_fold(u, g, n, args, sel, triple, asgs, count);
            &&& g2.wf()
            &&& g2.extends(g)
            &&& g.nodes.len() <= g2.nodes.len()
            &&& (forall|j: int|
                g.edges.len() <= j < g2.edges.len() ==> #[trigger] g2.edges[j].src == n)
            &&& (has_omega(g.nodes) ==> has_omega(g2.nodes))
            &&& (triple.format is Omega ==> g2.nodes.len() + omega_budget(g2) <= g.nodes.len()
                + omega_budget(g))
        }),
    decreases count,
{
    if count > 0 {
        lemma_asgs_fold_props(u, g, n, args, sel, triple, asgs, count - 1);
        let g1 = asgs_fold(u, g, n, args, sel, triple, asgs, count - 1);
        lemma_triple_apply_props(u, g1, n, args, sel, triple, asgs[count - 1]);
    } else {
        assert(g.nodes.is_prefix_of(g.nodes));
        assert(g.edges.is_prefix_of(g.edges));
    }
}

proof fn lemma_rules_fold_props<CId, PId>(
    u: Seq<EventView<CId>>,
    g: GraphView<ProcessView<CId, PId>, EventView<CId>>,
    n: int,
    args: Seq<ProcessView<CId, PId>>,
    sel: Seq<ProcessView<CId, PId>>,
    rules: Seq<RuleView<ProcessView<CId, Ordinal>, Quantifier>>,
    count: int,
)
    requires
        g.wf(),
        0 <= n < g.nodes.len(),
        forall|ri: int| 0 <= ri < count ==> (#[trigger] rules[ri].triple.format) is Omega,
    ensures
        ({
            let g2 = rules_fold(u, g, n, args, sel, rules, count);
            &&& g2.wf()
            &&& g2.extends(g)
            &&& g.nodes.len() <= g2.nodes.len()
            &&& (forall|j: int|
                g.edges.len() <= j < g2.edges.len() ==> #[trigger] g2.edges[j].src == n)
            &&& (has_omega(g.nodes) ==> has_omega(g2.nodes))
            &&& g2.nodes.len() + omega_budget(g2) <= g.nodes.len() + omega_budget(g)
        }),
    decreases count,
{
    if count > 0 {
        lemma_rules_fold_props(u, g, n, args, sel, rules, count - 1);
        let g1 = rules_fold(u, g, n, args, sel, rules, count - 1);
        let rule = rules[count - 1];
        let asgs = product_spec(rule.quantifiers.map_values(|q: Quantifier| q.expand_spec(u)));
        lemma_asgs_fold_props(u, g1, n, args, sel, rule.triple, asgs, asgs.len() as int);
        let g2 = rules_fold(u, g, n, args, sel, rules, count);
        assert(g2 == asgs_fold(u, g1, n, args, sel, rule.triple, asgs, asgs.len() as int));
        assert(g.nodes.is_prefix_of(g2.nodes)) by {
            assert(g.nodes =~= g2.nodes.subrange(0, g.nodes.len() as int));
        }
        assert(g.edges.is_prefix_of(g2.edges)) by {
            assert(g.edges =~= g2.edges.subrange(0, g.edges.len() as int));
        }
        assert forall|j: int|
            g.edges.len() <= j < g2.edges.len() implies #[trigger] g2.edges[j].src == n by {
            if j < g1.edges.len() {
                assert(g1.edges[j] == g2.edges[j]);
            }
        }
    } else {
        assert(g.nodes.is_prefix_of(g.nodes));
        assert(g.edges.is_prefix_of(g.edges));
    }
}

/// The laws of the rule table's step: it preserves well-formedness, only
/// appends, adds edges out of the visited node only, and creates at most the
/// one `Omega` node the budget pays for.
pub proof fn lemma_combinators_step_props<CId, PId>(
    u: Seq<EventView<CId>>,
    g: GraphView<ProcessView<CId, PId>, EventView<CId>>,
    n: int,
)
    requires
        g.wf(),
        0 <= n < g.nodes.len(),
    ensures
        ({
            let g2 = combinators_step(u, g, n);
            &&& g2.wf()
            &&& g2.extends(g)
            &&& (forall|j: int|
                g.edges.len() <= j < g2.edges.len() ==> #[trigger] g2.edges[j].src == n)
            &&& g2.nodes.len() + omega_budget(g2) <= g.nodes.len() + omega_budget(g)
        }),
{
    let g2 = combinators_step(u, g, n);
    match g.nodes[n] {
        NodeView::Process(t) => match t {
            ProcessView::Prim(p) => {
                let rs = prim_rules_view::<CId>(p);
                assert(forall|ri: int|
                    0 <= ri < rs.rules.len() ==> (#[trigger] rs.rules[ri].triple.format)
                        is Omega);
                lemma_rules_fold_props(
                    u,
                    g,
                    n,
                    Seq::empty(),
                    select_operands(Seq::<ProcessView<CId, PId>>::empty(), rs.on),
                    rs.rules,
                    rs.rules.len() as int,
                );
            },
            _ => {
                assert(g.nodes.is_prefix_of(g.nodes));
                assert(g.edges.is_prefix_of(g.edges));
            },
        },
        NodeView::Omega => {
            assert(g.nodes.is_prefix_of(g.nodes));
            assert(g.edges.is_prefix_of(g.edges));
        },
    }
}


/// Appends a copy of a term to a vector of terms.
fn push_process<CId: Copy, PId: Copy>(v: &mut Vec<Process<CId, PId>>, p: &Process<CId, PId>)
    ensures
        final(v).deep_view() == old(v).deep_view().push(p@),
{
    let p2 = p.clone();
    v.push(p2);
    proof {
        assert forall|j: int|
            0 <= j < v.deep_view().len() implies v.deep_view()[j] == old(v).deep_view().push(p@)[j]
        by {
            if j < old(v)@.len() {
                assert(v@[j] == old(v)@[j]);
            } else {
                assert(v@[j] == p2);
            }
        }
        assert(v.deep_view() =~= old(v).deep_view().push(p@));
    }
}

/// A visitor for constructing CSP LTSes by applying combinator rules.
pub struct Combinators<CId, PId> {
    p_phantom: core::marker::PhantomData<PId>,
    /// The universe set, which must be bounded for an explicit graph.
    universe: Vec<Event<CId>>,
}

impl<CId: Copy + PartialEq, PId: Copy> Combinators<CId, PId> {
    /// The events of the bounded universe this visitor expands quantifiers
    /// against.
    pub closed spec fn universe_view(&self) -> Seq<EventView<CId>> {
        self.universe.deep_view()
    }

    /// Constructs a new combinator-based visitor with the given universe set.
    pub fn new(universe: Vec<Event<CId>>) -> (s: Self)
        ensures
            s.universe_view() == universe.deep_view(),
    {
        Combinators { p_phantom: core::marker::PhantomData, universe }
    }

    /// All assignments of events to a rule's quantifiers: the cartesian
    /// product of each quantifier's expansion against the universe, one
    /// factor per quantifier.
    pub fn expand_quants(&self, quantifiers: &Vec<Quantifier>) -> (r: Vec<Vec<Event<CId>>>)
        ensures
            r.deep_view() == assignments_spec(quantifiers@, self.universe_view()),
    {
        all_assignments(quantifiers, &self.universe)
    }

    fn resolve_process_dest(
        &self,
        graph: &mut crate::cspm::Explicit<CId, PId>,
        args: &Vec<Process<CId, PId>>,
        format: &Process<CId, Ordinal>,
    ) -> (i: usize)
        requires
            forall|o: Ordinal| pid_set(format@).contains(o) ==> (o.0 as int) < args@.len(),
        ensures
            i as int == old(graph)@.nodes.len(),
            final(graph)@.nodes == old(graph)@.nodes.push(
                NodeView::Process(instantiate_spec(format@, args.deep_view())),
            ),
            final(graph)@.edges == old(graph)@.edges,
    {
        let cl = |o: Ordinal| -> (r: Process<CId, PId>)
            requires
                (o.0 as int) < args@.len(),
            ensures
                r@ == args.deep_view()[o.0 as int],
            {
                args[o.0].clone()
            };
        let proc = format.expand_pid(cl);
        proof {
            let m = |o: Ordinal| args.deep_view()[o.0 as int];
            assert forall|p: Ordinal, v: ProcessView<CId, PId>| #[trigger]
                (expand_result_rel::<CId, Ordinal, PId, _>(cl)(p, v)) implies v == m(p) by {
                let vex = choose|vex: Process<CId, PId>|
                    call_ensures(cl, (p,), vex) && v == vex@;
            }
            lemma_subst_rel_functional(format@, proc@, expand_result_rel(cl), m);
        }
        graph.add_node(Node::Process(proc))
    }

    fn resolve_dest(
        &self,
        graph: &mut crate::cspm::Explicit<CId, PId>,
        args: &Vec<Process<CId, PId>>,
        format: &Node<Process<CId, Ordinal>>,
    ) -> (i: usize)
        requires
            old(graph)@.wf(),
            format_wf(format@, args@.len() as int),
        ensures
            final(graph)@ == resolve_dest_spec(old(graph)@, args.deep_view(), format@).0,
            i as int == resolve_dest_spec(old(graph)@, args.deep_view(), format@).1,
    {
        match format {
            Node::Omega => {
                match graph.find_omega() {
                    Some(o) => {
                        proof {
                            assert(has_omega(old(graph)@.nodes));
                            lemma_first_omega(old(graph)@.nodes);
                            let fo = first_omega(old(graph)@.nodes);
                            if fo < o as int {
                                assert(old(graph)@.nodes[fo] is Omega);
                                assert(false);
                            }
                            if (o as int) < fo {
                                assert(false);
                            }
                            assert(graph@ =~= resolve_dest_spec(
                                old(graph)@,
                                args.deep_view(),
                                format@,
                            ).0);
                        }
                        o
                    },
                    None => {
                        proof {
                            assert(!has_omega(old(graph)@.nodes));
                        }
                        let i = graph.add_node(Node::Omega);
                        proof {
                            assert(graph@ =~= resolve_dest_spec(
                                old(graph)@,
                                args.deep_view(),
                                format@,
                            ).0);
                        }
                        i
                    },
                }
            },
            Node::Process(p) => {
                let i = self.resolve_process_dest(graph, args, p);
                proof {
                    assert(graph@ =~= resolve_dest_spec(
                        old(graph)@,
                        args.deep_view(),
                        format@,
                    ).0);
                }
                i
            },
        }
    }

    fn apply_triple(
        &self,
        graph: &mut crate::cspm::Explicit<CId, PId>,
        node: usize,
        args: &Vec<Process<CId, PId>>,
        on: &Vec<Process<CId, PId>>,
        assignment: &Vec<Event<CId>>,
        triple: &Triple<CId>,
    )
        requires
            eq_reflects::<CId>(),
            old(graph)@.wf(),
            (node as int) < old(graph)@.nodes.len(),
            triple@.action matches Action::Ev(k) ==> (k.0 as int) < assignment@.len(),
            format_wf(triple@.format, args@.len() as int),
        ensures
            final(graph)@ == triple_apply_spec(
                self.universe_view(),
                old(graph)@,
                node as int,
                args.deep_view(),
                on.deep_view(),
                triple@,
                assignment.deep_view(),
            ),
    {
        if !events_accepted(on, &triple.on_func, assignment, &self.universe) {
            return ;
        }
        let dest = self.resolve_dest(graph, args, &triple.format);
        proof {
            lemma_resolve_dest_props(old(graph)@, args.deep_view(), triple@.format);
        }
        let pick = |i: &OnFuncArg| -> (ev: Event<CId>)
            requires
                (i.0 as int) < assignment@.len(),
            ensures
                ev@ == assignment.deep_view()[i.0 as int],
            {
                assignment[i.0].clone()
            };
        let action = triple.action.map_event(pick);
        graph.add_edge(node, dest, Edge { action });
        proof {
            assert(graph@ =~= triple_apply_spec(
                self.universe_view(),
                old(graph)@,
                node as int,
                args.deep_view(),
                on.deep_view(),
                triple@,
                assignment.deep_view(),
            ));
        }
    }
}


proof fn lemma_extend_one_props<T>(a: Seq<T>, c: Seq<T>)
    ensures
        extend_one(a, c).len() == c.len(),
        forall|j: int| 0 <= j < c.len() ==> extend_one(a, c)[j] == a.push(c[j]),
    decreases c.len(),
{
    if c.len() > 0 {
        lemma_extend_one_props(a, c.drop_last());
        assert forall|j: int| 0 <= j < c.len() implies extend_one(a, c)[j] == a.push(c[j]) by {
            if j < c.len() - 1 {
                assert(extend_one(a, c)[j] == extend_one(a, c.drop_last())[j]);
                assert(c.drop_last()[j] == c[j]);
            }
        }
    }
}

proof fn lemma_extend_all_props<T>(acc: Seq<Seq<T>>, c: Seq<T>)
    ensures
        extend_all(acc, c).len() == acc.len() * c.len(),
        forall|idx: int|
            0 <= idx < extend_all(acc, c).len() ==> exists|ai: int, ci: int|
                0 <= ai < acc.len() && 0 <= ci < c.len() && #[trigger] extend_all(acc, c)[idx]
                    == acc[ai].push(c[ci]),
    decreases acc.len(),
{
    if acc.len() > 0 {
        lemma_extend_all_props(acc.drop_last(), c);
        lemma_extend_one_props(acc.last(), c);
        assert((acc.len() - 1) * c.len() + c.len() == acc.len() * c.len()) by (nonlinear_arith);
        let pre = extend_all(acc.drop_last(), c);
        assert forall|idx: int|
            0 <= idx < extend_all(acc, c).len() implies exists|ai: int, ci: int|
            0 <= ai < acc.len() && 0 <= ci < c.len() && #[trigger] extend_all(acc, c)[idx]
                == acc[ai].push(c[ci]) by {
            if idx < pre.len() {
                assert(extend_all(acc, c)[idx] == pre[idx]);
                let (ai, ci) = choose|ai: int, ci: int|
                    0 <= ai < acc.drop_last().len() && 0 <= ci < c.len() && #[trigger] pre[idx]
                        == acc.drop_last()[ai].push(c[ci]);
                assert(acc.drop_last()[ai] == acc[ai]);
                assert(extend_all(acc, c)[idx] == acc[ai].push(c[ci]));
            } else {
                let ci = idx - pre.len();
                assert(extend_all(acc, c)[idx] == extend_one(acc.last(), c)[ci]);
                let ai = acc.len() - 1;
                assert(extend_all(acc, c)[idx] == acc[ai].push(c[ci]));
            }
        }
    }
}

/// Every assignment the product yields binds exactly one event per factor.
pub proof fn lemma_product_elem_len<T>(qs: Seq<Seq<T>>)
    ensures
        forall|i: int|
            0 <= i < product_spec(qs).len() ==> (#[trigger] product_spec(qs)[i]).len() == qs.len(),
    decreases qs.len(),
{
    if qs.len() > 0 {
        lemma_product_elem_len(qs.drop_last());
        let pre = product_spec(qs.drop_last());
        lemma_extend_all_props(pre, qs.last());
        assert forall|i: int|
            0 <= i < product_spec(qs).len() implies (#[trigger] product_spec(qs)[i]).len()
            == qs.len() by {
            let (ai, ci) = choose|ai: int, ci: int|
                0 <= ai < pre.len() && 0 <= ci < qs.last().len() && #[trigger] product_spec(qs)[i]
                    == pre[ai].push(qs.last()[ci]);
            assert(pre[ai].len() == qs.len() - 1);
        }
    }
}

impl<CId: Copy + PartialEq, PId: Copy> Combinators<CId, PId> {
    fn apply_rule(
        &self,
        graph: &mut crate::cspm::Explicit<CId, PId>,
        node: usize,
        args: &Vec<Process<CId, PId>>,
        on: &Vec<Process<CId, PId>>,
        rule: &Rule<CId>,
    )
        requires
            eq_reflects::<CId>(),
            old(graph)@.wf(),
            (node as int) < old(graph)@.nodes.len(),
            rule@.triple.action matches Action::Ev(k) ==> (k.0 as int) < rule@.quantifiers.len(),
            format_wf(rule@.triple.format, args@.len() as int),
        ensures
            final(graph)@ == rule_apply_spec(
                self.universe_view(),
                old(graph)@,
                node as int,
                args.deep_view(),
                on.deep_view(),
                rule@,
            ),
    {
        let ghost u = self.universe_view();
        let ghost g0 = graph@;
        let ghost argsv = args.deep_view();
        let ghost selv = on.deep_view();
        let assignments = self.expand_quants(&rule.quantifiers);
        let ghost asgsv = assignments.deep_view();
        proof {
            assert(asgsv == product_spec(
                rule@.quantifiers.map_values(|q: Quantifier| q.expand_spec(u)),
            ));
            lemma_product_elem_len(rule@.quantifiers.map_values(|q: Quantifier| q.expand_spec(u)));
        }
        let mut ai: usize = 0;
        while ai < assignments.len()
            invariant
                eq_reflects::<CId>(),
                ai <= assignments@.len(),
                u == self.universe_view(),
                g0.wf(),
                (node as int) < g0.nodes.len(),
                argsv == args.deep_view(),
                selv == on.deep_view(),
                asgsv == assignments.deep_view(),
                asgsv == product_spec(
                    rule@.quantifiers.map_values(|q: Quantifier| q.expand_spec(u)),
                ),
                forall|i: int|
                    0 <= i < asgsv.len() ==> (#[trigger] asgsv[i]).len()
                        == rule@.quantifiers.len(),
                rule@.triple.action matches Action::Ev(k) ==> (k.0 as int)
                    < rule@.quantifiers.len(),
                format_wf(rule@.triple.format, argsv.len() as int),
                graph@ == asgs_fold(u, g0, node as int, argsv, selv, rule@.triple, asgsv, ai as int),
            decreases assignments@.len() - ai,
        {
            proof {
                lemma_asgs_fold_props(u, g0, node as int, argsv, selv, rule@.triple, asgsv, ai as int);
                assert(assignments@[ai as int].deep_view() == asgsv[ai as int]);
            }
            self.apply_triple(graph, node, args, on, &assignments[ai], &rule.triple);
            ai += 1;
        }
        proof {
            assert(graph@ == rule_apply_spec(u, g0, node as int, argsv, selv, rule@));
        }
    }

    fn apply_ruleset(
        &self,
        graph: &mut crate::cspm::Explicit<CId, PId>,
        node: usize,
        args: &Vec<Process<CId, PId>>,
        rules: RuleSet<CId>,
    )
        requires
            eq_reflects::<CId>(),
            old(graph)@.wf(),
            (node as int) < old(graph)@.nodes.len(),
            csp_ruleset_wf(rules@, args@.len() as int),
            forall|i: int|
                0 <= i < rules.on@.len() ==> (#[trigger] rules.on@[i] as int) < args@.len(),
        ensures
            final(graph)@ == ruleset_apply_spec(
                self.universe_view(),
                old(graph)@,
                node as int,
                args.deep_view(),
                rules@,
            ),
    {
        let ghost u = self.universe_view();
        let ghost g0 = graph@;
        let ghost argsv = args.deep_view();
        // First, deduce the list of processes that are 'on' by mapping them
        // against the 'on' indices in the rule set.
        let mut on_processes: Vec<Process<CId, PId>> = Vec::new();
        let mut oi: usize = 0;
        proof {
            assert(on_processes.deep_view() =~= select_operands(argsv, rules.on@.take(0)));
        }
        while oi < rules.on.len()
            invariant
                oi <= rules.on@.len(),
                argsv == args.deep_view(),
                forall|i: int|
                    0 <= i < rules.on@.len() ==> (#[trigger] rules.on@[i] as int) < args@.len(),
                on_processes.deep_view() == select_operands(argsv, rules.on@.take(oi as int)),
            decreases rules.on@.len() - oi,
        {
            let idx = rules.on[oi];
            push_process(&mut on_processes, &args[idx]);
            proof {
                assert(args@[idx as int]@ == argsv[idx as int]);
                assert(on_processes.deep_view() =~= select_operands(
                    argsv,
                    rules.on@.take(oi + 1),
                ));
            }
            oi += 1;
        }
        proof {
            assert(rules.on@.take(rules.on@.len() as int) =~= rules.on@);
            assert(on_processes.deep_view() == select_operands(argsv, rules@.on));
        }
        let ghost selv = on_processes.deep_view();
        let mut ri: usize = 0;
        while ri < rules.rules.len()
            invariant
                eq_reflects::<CId>(),
                ri <= rules.rules@.len(),
                u == self.universe_view(),
                g0.wf(),
                (node as int) < g0.nodes.len(),
                argsv == args.deep_view(),
                selv == on_processes.deep_view(),
                csp_ruleset_wf(rules@, argsv.len() as int),
                graph@ == rules_fold(u, g0, node as int, argsv, selv, rules@.rules, ri as int),
            decreases rules.rules@.len() - ri,
        {
            proof {
                lemma_rules_fold_extends(u, g0, node as int, argsv, selv, rules@.rules, ri as int);
                assert(rules@.rules[ri as int] == rules.rules@[ri as int]@);
                assert(rule_wf(rules@.on.len() as int, rules@.rules[ri as int]));
            }
            self.apply_rule(graph, node, args, &on_processes, &rules.rules[ri]);
            ri += 1;
        }
        proof {
            assert(graph@ == ruleset_apply_spec(u, g0, node as int, argsv, rules@));
        }
    }

    fn visit_prim(
        &self,
        graph: &mut crate::cspm::Explicit<CId, PId>,
        node: usize,
        prim: Primitive,
    )
        requires
            eq_reflects::<CId>(),
            old(graph)@.wf(),
            (node as int) < old(graph)@.nodes.len(),
        ensures
            final(graph)@ == ruleset_apply_spec(
                self.universe_view(),
                old(graph)@,
                node as int,
                Seq::<ProcessView<CId, PId>>::empty(),
                prim_rules_view(prim),
            ),
    {
        let def: RuleSet<CId> = prim_rules(prim);
        let args: Vec<Process<CId, PId>> = Vec::new();
        proof {
            assert(args.deep_view() =~= Seq::<ProcessView<CId, PId>>::empty());
            assert(csp_ruleset_wf(def@, 0)) by {
                assert forall|ri: int|
                    0 <= ri < def@.rules.len() implies format_wf(
                    #[trigger] def@.rules[ri].triple.format,
                    0,
                ) by {
                    assert(def@.rules[ri].triple.format is Omega);
                }
            }
        }
        self.apply_ruleset(graph, node, &args, def);
    }

    fn visit_process(
        &self,
        graph: &mut crate::cspm::Explicit<CId, PId>,
        node: usize,
        proc: Process<CId, PId>,
    )
        requires
            eq_reflects::<CId>(),
            old(graph)@.wf(),
            (node as int) < old(graph)@.nodes.len(),
            old(graph)@.nodes[node as int] == NodeView::<ProcessView<CId, PId>>::Process(proc@),
        ensures
            final(graph)@ == combinators_step(self.universe_view(), old(graph)@, node as int),
    {
        match proc {
            Process::Named(_) => {},
            Process::Prim(p) => {
                self.visit_prim(graph, node, p);
            },
            Process::Prefix(_, _) => {},
            Process::Binary(_) => {},
        }
    }
}

proof fn lemma_rules_fold_extends<CId, PId>(
    u: Seq<EventView<CId>>,
    g: GraphView<ProcessView<CId, PId>, EventView<CId>>,
    n: int,
    args: Seq<ProcessView<CId, PId>>,
    sel: Seq<ProcessView<CId, PId>>,
    rules: Seq<RuleView<ProcessView<CId, Ordinal>, Quantifier>>,
    count: int,
)
    requires
        g.wf(),
        0 <= n < g.nodes.len(),
    ensures
        ({
            let g2 = rules_fold(u, g, n, args, sel, rules, count);
            &&& g2.wf()
            &&& g2.extends(g)
            &&& g.nodes.len() <= g2.nodes.len()
        }),
    decreases count,
{
    if count > 0 {
        lemma_rules_fold_extends(u, g, n, args, sel, rules, count - 1);
        let g1 = rules_fold(u, g, n, args, sel, rules, count - 1);
        let rule = rules[count - 1];
        let asgs = product_spec(rule.quantifiers.map_values(|q: Quantifier| q.expand_spec(u)));
        lemma_asgs_fold_props(u, g1, n, args, sel, rule.triple, asgs, asgs.len() as int);
        let g2 = rules_fold(u, g, n, args, sel, rules, count);
        assert(g.nodes.is_prefix_of(g2.nodes)) by {
            assert(g.nodes =~= g2.nodes.subrange(0, g.nodes.len() as int));
        }
        assert(g.edges.is_prefix_of(g2.edges)) by {
            assert(g.edges =~= g2.edges.subrange(0, g.edges.len() as int));
        }
    } else {
        assert(g.nodes.is_prefix_of(g.nodes));
        assert(g.edges.is_prefix_of(g.edges));
    }
}

impl<CId: Copy + PartialEq, PId: Copy> Visitor<Process<CId, PId>, Event<CId>> for Combinators<
    CId,
    PId,
> {
    open spec fn inv(&self) -> bool {
        eq_reflects::<CId>()
    }

    open spec fn step(
        &self,
        g: GraphView<ProcessView<CId, PId>, EventView<CId>>,
        node: int,
    ) -> GraphView<ProcessView<CId, PId>, EventView<CId>> {
        combinators_step(self.universe_view(), g, node)
    }

    open spec fn budget(&self, g: GraphView<ProcessView<CId, PId>, EventView<CId>>) -> nat {
        omega_budget(g)
    }

    proof fn step_laws(&self, g: GraphView<ProcessView<CId, PId>, EventView<CId>>, node: int) {
        lemma_combinators_step_props(self.universe_view(), g, node);
    }

    fn visit(
        &self,
        graph: &mut crate::semantics::explicit::Explicit<Process<CId, PId>, Event<CId>>,
        node: usize,
    ) {
        // Don't bother visiting an omega node.
        let node_term: Option<Process<CId, PId>> = match graph.node(node) {
            Node::Process(p) => Some(p.clone()),
            Node::Omega => None,
        };
        match node_term {
            Some(t) => {
                self.visit_process(graph, node, t);
            },
            None => {},
        }
    }
}


/// Quantifier cardinality: a rule with `k` quantifiers over a universe of
/// size `n` generates exactly `n^k` assignments, so at most `n^k` rule
/// instances are attempted per rule application.
pub proof fn lemma_assignments_count<CId>(quants: Seq<Quantifier>, u: Seq<EventView<CId>>)
    ensures
        assignments_spec(quants, u).len() == pow(u.len() as int, quants.len() as nat),
    decreases quants.len(),
{
    let qs = quants.map_values(|q: Quantifier| q.expand_spec(u));
    if quants.len() == 0 {
        assert(qs =~= Seq::<Seq<EventView<CId>>>::empty());
        assert(assignments_spec(quants, u) == product_spec(qs));
        assert(product_spec(qs).len() == 1);
        vstd::arithmetic::power::lemma_pow0(u.len() as int);
    } else {
        lemma_assignments_count(quants.drop_last(), u);
        let qs0 = quants.drop_last().map_values(|q: Quantifier| q.expand_spec(u));
        assert(qs.drop_last() =~= qs0);
        lemma_extend_all_props(product_spec(qs0), qs.last());
        assert(qs.last() == quants.last().expand_spec(u));
        assert(quants.last().expand_spec(u) == u);
        assert(product_spec(qs0).len() * u.len() == pow(u.len() as int, quants.len() as nat)) by {
            vstd::arithmetic::power::lemma_pow_adds(
                u.len() as int,
                (quants.len() - 1) as nat,
                1nat,
            );
            vstd::arithmetic::power::lemma_pow1(u.len() as int);
        }
        assert(assignments_spec(quants.drop_last(), u) == product_spec(qs0));
        assert(assignments_spec(quants, u) == product_spec(qs));
        assert(qs.len() == quants.len());
        assert(product_spec(qs) == extend_all(product_spec(qs.drop_last()), qs.last()));
        assert(product_spec(qs.drop_last()) == product_spec(qs0));
        assert(extend_all(product_spec(qs0), qs.last()).len() == product_spec(qs0).len()
            * qs.last().len());
    }
}

/// The one-node graph an expansion of `t` starts from.
pub open spec fn init_graph<CId, PId>(t: ProcessView<CId, PId>) -> GraphView<
    ProcessView<CId, PId>,
    EventView<CId>,
> {
    GraphView { nodes: seq![NodeView::Process(t)], edges: Seq::empty() }
}

/// The finished graph an expansion of `t` reaches: `Skip` gains the `Omega`
/// node and its single `Tick` transition; every other term (under the current
/// rule table) keeps the single root node and no transitions.
pub open spec fn expansion_spec<CId, PId>(
    u: Seq<EventView<CId>>,
    t: ProcessView<CId, PId>,
) -> GraphView<ProcessView<CId, PId>, EventView<CId>> {
    if t == ProcessView::<CId, PId>::Prim(Primitive::Skip) {
        GraphView {
            nodes: seq![NodeView::Process(t), NodeView::Omega],
            edges: seq![TransView { src: 0, dst: 1, action: Action::Tick }],
        }
    } else {
        init_graph(t)
    }
}

proof fn lemma_step_on_init<CId, PId>(u: Seq<EventView<CId>>, t: ProcessView<CId, PId>)
    ensures
        combinators_step(u, init_graph(t), 0) == expansion_spec(u, t),
{
    let g = init_graph::<CId, PId>(t);
    assert(g.nodes[0] == NodeView::<ProcessView<CId, PId>>::Process(t));
    match t {
        ProcessView::Prim(p) => {
            let rs = prim_rules_view::<CId>(p);
            let args = Seq::<ProcessView<CId, PId>>::empty();
            let sel = select_operands(args, rs.on);
            match p {
                Primitive::Stop => {
                    assert(rs.rules.len() == 0);
                    assert(combinators_step(u, g, 0) == g);
                },
                Primitive::Skip => {
                    let rule = rs.rules[0];
                    let qs = rule.quantifiers.map_values(|q: Quantifier| q.expand_spec(u));
                    assert(qs =~= Seq::<Seq<EventView<CId>>>::empty());
                    let asgs = product_spec(qs);
                    assert(asgs =~= seq![Seq::<EventView<CId>>::empty()]);
                    let g0fold = asgs_fold(u, g, 0, args, sel, rule.triple, asgs, 0);
                    assert(g0fold == g);
                    let g1 = triple_apply_spec(u, g, 0, args, sel, rule.triple, asgs[0]);
                    assert(accepted_events(sel, rule.triple.on_func, asgs[0], u)) by {
                        assert(sel.len() == 0);
                    }
                    assert(!has_omega(g.nodes)) by {
                        if has_omega(g.nodes) {
                            let w = choose|i: int|
                                0 <= i < g.nodes.len() && g.nodes[i] is Omega;
                            assert(w == 0);
                        }
                    }
                    assert(g1.nodes =~= expansion_spec(u, t).nodes);
                    assert(action_subst(rule.triple.action, asgs[0]) == Action::<
                        EventView<CId>,
                    >::Tick);
                    assert(g1.edges =~= expansion_spec(u, t).edges);
                    assert(g1 =~= expansion_spec(u, t));
                    assert(asgs_fold(u, g, 0, args, sel, rule.triple, asgs, 1) == g1);
                    assert(rules_fold(u, g, 0, args, sel, rs.rules, 0) == g);
                    assert(rules_fold(u, g, 0, args, sel, rs.rules, 1) == rule_apply_spec(
                        u,
                        g,
                        0,
                        args,
                        sel,
                        rule,
                    ));
                    assert(combinators_step(u, g, 0) == expansion_spec(u, t));
                },
            }
        },
        ProcessView::Named(_) => {},
        ProcessView::Prefix(_, _) => {},
        ProcessView::Binary(_, _, _) => {},
    }
}

proof fn lemma_run_shape<CId: Copy + PartialEq, PId: Copy>(
    c: Combinators<CId, PId>,
    t: ProcessView<CId, PId>,
    order: Seq<int>,
)
    requires
        run_ok(c, init_graph(t), Set::<int>::empty(), order),
    ensures
        order.len() == 0 ==> run_graph(c, init_graph(t), order) == init_graph(t),
        order.len() >= 1 ==> order[0] == 0 && run_graph(c, init_graph(t), order)
            == expansion_spec(c.universe_view(), t),
        order.len() <= 2,
        order.len() == 2 ==> t == ProcessView::<CId, PId>::Prim(Primitive::Skip),
    decreases order.len(),
{
    let u = c.universe_view();
    let g0 = init_graph(t);
    if order.len() > 0 {
        let prev = order.drop_last();
        lemma_run_shape(c, t, prev);
        lemma_step_on_init(u, t);
        if prev.len() == 0 {
            assert(run_graph(c, g0, prev) == g0);
            assert(order.last() == 0);
            assert(order[0] == 0);
            assert(run_graph(c, g0, order) == c.step(g0, 0));
        } else if prev.len() == 1 {
            let gx = expansion_spec(u, t);
            assert(run_graph(c, g0, prev) == gx);
            assert(prev[0] == 0);
            assert(prev.contains(0int));
            if t == ProcessView::<CId, PId>::Prim(Primitive::Skip) {
                assert(gx.nodes.len() == 2);
                assert(order.last() == 1);
                assert(gx.nodes[1] is Omega);
                assert(c.step(gx, 1) == gx);
                assert(run_graph(c, g0, order) == gx);
                assert(order[0] == prev[0]);
            } else {
                assert(gx.nodes.len() == 1);
                assert(false);
            }
        } else {
            let gx = expansion_spec(u, t);
            assert(prev.len() == 2 && t == ProcessView::<CId, PId>::Prim(Primitive::Skip));
            assert(run_graph(c, g0, prev) == gx);
            assert(gx.nodes.len() == 2);
            assert(prev[0] == 0);
            assert(prev.contains(0int));
            assert(prev.contains(prev[1]));
            assert(0 <= order.last() < 2);
            assert(run_ok(c, g0, Set::<int>::empty(), prev));
            assert(run_ok(c, g0, Set::<int>::empty(), prev.drop_last()));
            assert(0 <= prev.last() < run_graph(c, g0, prev.drop_last()).nodes.len());
            lemma_run_shape(c, t, prev.drop_last());
            assert(run_graph(c, g0, prev.drop_last()) == gx);
            assert(0 <= prev.last() < 2);
            if prev[1] == 1 {
                assert(prev.contains(1int));
                assert(false);
            } else {
                assert(run_ok(c, g0, Set::<int>::empty(), prev));
                assert(!prev.drop_last().contains(prev.last()));
                assert(prev.drop_last()[0] == 0);
                assert(prev.drop_last().contains(0int));
                assert(false);
            }
        }
    }
}

/// Determinism, and the shape of the result: every complete run of the rule
/// table from a fresh root `t` ends in the same graph, `expansion_spec`.
pub proof fn lemma_complete_run_result<CId: Copy + PartialEq, PId: Copy>(
    c: Combinators<CId, PId>,
    t: ProcessView<CId, PId>,
    order: Seq<int>,
)
    requires
        run_complete(c, init_graph(t), Set::<int>::empty(), order),
    ensures
        run_graph(c, init_graph(t), order) == expansion_spec(c.universe_view(), t),
    decreases order.len(),
{
    lemma_run_shape(c, t, order);
    if order.len() == 0 {
        assert(run_graph(c, init_graph(t), order).nodes.len() == 1);
        assert(order.contains(0int) || Set::<int>::empty().contains(0int));
        let k = choose|k: int| 0 <= k < order.len() && order[k] == 0;
        assert(false);
    }
}

/// Determinism: expanding the same term against the same bounded universe
/// twice yields the same graph — the same labels and the same edge
/// multiplicities, node for node.
pub proof fn lemma_expansion_deterministic<CId: Copy + PartialEq, PId: Copy>(
    c: Combinators<CId, PId>,
    t: ProcessView<CId, PId>,
    order1: Seq<int>,
    order2: Seq<int>,
)
    requires
        run_complete(c, init_graph(t), Set::<int>::empty(), order1),
        run_complete(c, init_graph(t), Set::<int>::empty(), order2),
    ensures
        run_graph(c, init_graph(t), order1) == run_graph(c, init_graph(t), order2),
{
    lemma_complete_run_result(c, t, order1);
    lemma_complete_run_result(c, t, order2);
}

/// Expanding `Stop` yields exactly one node and zero edges.
pub proof fn lemma_expand_stop<CId: Copy + PartialEq, PId: Copy>(
    c: Combinators<CId, PId>,
    order: Seq<int>,
)
    requires
        run_complete(
            c,
            init_graph(ProcessView::<CId, PId>::Prim(Primitive::Stop)),
            Set::<int>::empty(),
            order,
        ),
    ensures
        ({
            let g = run_graph(
                c,
                init_graph(ProcessView::<CId, PId>::Prim(Primitive::Stop)),
                order,
            );
            &&& g.nodes.len() == 1
            &&& g.nodes[0] == NodeView::<ProcessView<CId, PId>>::Process(
                ProcessView::Prim(Primitive::Stop),
            )
            &&& g.edges.len() == 0
        }),
{
    lemma_complete_run_result(c, ProcessView::<CId, PId>::Prim(Primitive::Stop), order);
}

/// Expanding `Skip` yields exactly two nodes — the `Skip` state and `Omega` —
/// and exactly one edge, labelled `Tick`, from `Skip` to `Omega`.
pub proof fn lemma_expand_skip<CId: Copy + PartialEq, PId: Copy>(
    c: Combinators<CId, PId>,
    order: Seq<int>,
)
    requires
        run_complete(
            c,
            init_graph(ProcessView::<CId, PId>::Prim(Primitive::Skip)),
            Set::<int>::empty(),
            order,
        ),
    ensures
        ({
            let g = run_graph(
                c,
                init_graph(ProcessView::<CId, PId>::Prim(Primitive::Skip)),
                order,
            );
            &&& g.nodes.len() == 2
            &&& g.nodes[0] == NodeView::<ProcessView<CId, PId>>::Process(
                ProcessView::Prim(Primitive::Skip),
            )
            &&& g.nodes[1] == NodeView::<ProcessView<CId, PId>>::Omega
            &&& g.edges.len() == 1
            &&& g.edges[0] == (TransView::<EventView<CId>> {
                src: 0,
                dst: 1,
                action: Action::Tick,
            })
        }),
{
    lemma_complete_run_result(c, ProcessView::<CId, PId>::Prim(Primitive::Skip), order);
}

/// The number of `Omega` nodes in a graph.
pub open spec fn omega_count<PV>(nodes: Seq<NodeView<PV>>) -> nat
    decreases nodes.len(),
{
    if nodes.len() == 0 {
        0
    } else {
        omega_count(nodes.drop_last()) + if nodes.last() is Omega {
            1nat
        } else {
            0nat
        }
    }
}

/// The number of `Tick`-labelled edges.
pub open spec fn tick_count<EV>(edges: Seq<TransView<EV>>) -> nat
    decreases edges.len(),
{
    if edges.len() == 0 {
        0
    } else {
        tick_count(edges.drop_last()) + if edges.last().action is Tick {
            1nat
        } else {
            0nat
        }
    }
}

/// The number of edges entering node `d`.
pub open spec fn indegree<EV>(edges: Seq<TransView<EV>>, d: int) -> nat
    decreases edges.len(),
{
    if edges.len() == 0 {
        0
    } else {
        indegree(edges.drop_last(), d) + if edges.last().dst == d {
            1nat
        } else {
            0nat
        }
    }
}

/// Termination sentinel uniqueness: the graph of any complete expansion holds
/// at most one `Omega` node; every `Tick` edge enters it, and its indegree is
/// exactly the number of terminating transitions.
pub proof fn lemma_omega_unique<CId: Copy + PartialEq, PId: Copy>(
    c: Combinators<CId, PId>,
    t: ProcessView<CId, PId>,
    order: Seq<int>,
)
    requires
        run_complete(c, init_graph(t), Set::<int>::empty(), order),
    ensures
        ({
            let g = run_graph(c, init_graph(t), order);
            &&& omega_count(g.nodes) <= 1
            &&& (forall|j: int|
                0 <= j < g.edges.len() && (#[trigger] g.edges[j].action) is Tick ==> g.nodes[g.edges[j].dst] is Omega)
            &&& (has_omega(g.nodes) ==> indegree(g.edges, first_omega(g.nodes)) == tick_count(
                g.edges,
            ))
        }),
{
    lemma_complete_run_result(c, t, order);
    let u = c.universe_view();
    let g = run_graph(c, init_graph(t), order);
    reveal_with_fuel(omega_count, 4);
    reveal_with_fuel(tick_count, 3);
    reveal_with_fuel(indegree, 3);
    if t == ProcessView::<CId, PId>::Prim(Primitive::Skip) {
        assert(g.nodes =~= seq![
            NodeView::<ProcessView<CId, PId>>::Process(t),
            NodeView::<ProcessView<CId, PId>>::Omega,
        ]);
        assert(omega_count(g.nodes.drop_last()) == 0) by {
            assert(g.nodes.drop_last().drop_last() =~= Seq::<
                NodeView<ProcessView<CId, PId>>,
            >::empty());
        }
        assert(has_omega(g.nodes)) by {
            assert(g.nodes[1] is Omega);
        }
        lemma_first_omega(g.nodes);
        assert(first_omega(g.nodes) == 1);
        assert(g.edges.drop_last() =~= Seq::<TransView<EventView<CId>>>::empty());
        assert(indegree(g.edges, 1) == 1);
        assert(tick_count(g.edges) == 1);
    } else {
        assert(g.nodes =~= seq![NodeView::<ProcessView<CId, PId>>::Process(t)]);
        assert(omega_count(g.nodes.drop_last()) == 0) by {
            assert(g.nodes.drop_last() =~= Seq::<NodeView<ProcessView<CId, PId>>>::empty());
        }
        assert(!has_omega(g.nodes)) by {
            if has_omega(g.nodes) {
                let w = choose|i: int| 0 <= i < g.nodes.len() && g.nodes[i] is Omega;
                assert(w == 0);
            }
        }
    }
}

/// Finiteness: a complete expansion from a fresh root adds at most the one
/// `Omega` node to the initial graph.
pub proof fn lemma_expansion_finite<CId: Copy + PartialEq, PId: Copy>(
    c: Combinators<CId, PId>,
    t: ProcessView<CId, PId>,
    order: Seq<int>,
)
    requires
        run_complete(c, init_graph(t), Set::<int>::empty(), order),
    ensures
        run_graph(c, init_graph(t), order).nodes.len() <= init_graph(t).nodes.len() + 1,
        run_graph(c, init_graph(t), order).edges.len() <= 1,
{
    lemma_complete_run_result(c, t, order);
}

} // verus!
