//! The CSP-M process model.

use vstd::prelude::*;
use vstd::std_specs::cmp::PartialEqSpec;

verus! {

/// Holds when the executable `==` of `T` agrees with mathematical equality:
/// `T`'s equality obeys its specification, and that specification is
/// structural equality.  Identifier domains used by the combinator semantics
/// (plain integers, for instance) satisfy this.
pub open spec fn eq_reflects<T: PartialEq>() -> bool {
    &&& T::obeys_eq_spec()
    &&& forall|a: T, b: T| #[trigger] a.eq_spec(&b) <==> a == b
}

/// A CSP-M value.
#[derive(Copy, Clone, Debug)]
pub enum Value<CId> {
    /// An identifier.
    Id(CId),
}

impl<CId: Copy + PartialEq> PartialEq for Value<CId> {
    fn eq(&self, other: &Self) -> (r: bool) {
        match (self, other) {
            (Value::Id(a), Value::Id(b)) => *a == *b,
        }
    }
}

impl<CId: Copy + PartialEq> vstd::std_specs::cmp::PartialEqSpecImpl for Value<CId> {
    open spec fn obeys_eq_spec() -> bool {
        eq_reflects::<CId>()
    }

    open spec fn eq_spec(&self, other: &Self) -> bool {
        *self == *other
    }
}

/// A suffix in a CSP-M event.
#[derive(Copy, Clone, Debug)]
pub enum EventSuffix<CId> {
    /// A dotted event suffix.
    Dot(Value<CId>),
    /// An inputted event suffix.
    In(CId),
    /// An outputted event suffix.
    Out(Value<CId>),
}

impl<CId: Copy + PartialEq> PartialEq for EventSuffix<CId> {
    fn eq(&self, other: &Self) -> (r: bool) {
        match (self, other) {
            (EventSuffix::Dot(a), EventSuffix::Dot(b)) => a == b,
            (EventSuffix::In(a), EventSuffix::In(b)) => *a == *b,
            (EventSuffix::Out(a), EventSuffix::Out(b)) => a == b,
            _ => false,
        }
    }
}

impl<CId: Copy + PartialEq> vstd::std_specs::cmp::PartialEqSpecImpl for EventSuffix<CId> {
    open spec fn obeys_eq_spec() -> bool {
        eq_reflects::<CId>()
    }

    open spec fn eq_spec(&self, other: &Self) -> bool {
        *self == *other
    }
}

/// A CSP-M event: a base channel identifier followed by a finite sequence of
/// suffixes.
#[derive(Debug)]
pub struct Event<CId> {
    /// Identifier of the base channel of this event.
    pub head: CId,
    /// The tail of this event.
    pub tail: Vec<EventSuffix<CId>>,
}

/// The mathematical shape of an [`Event`]: its head and the sequence of its
/// suffixes.
#[verifier::ext_equal]
pub ghost struct EventView<CId> {
    pub head: CId,
    pub tail: Seq<EventSuffix<CId>>,
}

impl<CId> View for Event<CId> {
    type V = EventView<CId>;

    open spec fn view(&self) -> EventView<CId> {
        EventView { head: self.head, tail: self.tail@ }
    }
}

impl<CId> DeepView for Event<CId> {
    type V = EventView<CId>;

    open spec fn deep_view(&self) -> EventView<CId> {
        self@
    }
}

impl<CId: Copy> Clone for Event<CId> {
    fn clone(&self) -> (r: Self)
        ensures
            r@ == self@,
    {
        let mut tail: Vec<EventSuffix<CId>> = Vec::new();
        let mut i: usize = 0;
        while i < self.tail.len()
            invariant
                i <= self.tail.len(),
                tail@ == self.tail@.take(i as int),
            decreases self.tail.len() - i,
        {
            tail.push(self.tail[i]);
            i += 1;
        }
        proof {
            assert(tail@ =~= self.tail@);
        }
        Event { head: self.head, tail }
    }
}

impl<CId: Copy + PartialEq> PartialEq for Event<CId> {
    fn eq(&self, other: &Self) -> (r: bool) {
        if !(self.head == other.head) {
            return false;
        }
        if self.tail.len() != other.tail.len() {
            proof {
                assert(self@ != other@) by {
                    if self@ == other@ {
                        assert(self@.tail.len() == other@.tail.len());
                    }
                }
            }
            return false;
        }
        let mut i: usize = 0;
        while i < self.tail.len()
            invariant
                i <= self.tail.len(),
                self.tail.len() == other.tail.len(),
                eq_reflects::<CId>() ==> forall|j: int|
                    0 <= j < i ==> self.tail@[j] == other.tail@[j],
            decreases self.tail.len() - i,
        {
            if !(self.tail[i] == other.tail[i]) {
                proof {
                    assert(eq_reflects::<CId>() ==> self@ != other@) by {
                        if eq_reflects::<CId>() && self@ == other@ {
                            assert(self@.tail[i as int] == other@.tail[i as int]);
                        }
                    }
                }
                return false;
            }
            i += 1;
        }
        proof {
            if eq_reflects::<CId>() {
                assert(self@.tail =~= other@.tail);
            }
        }
        true
    }
}

impl<CId: Copy + PartialEq> vstd::std_specs::cmp::PartialEqSpecImpl for Event<CId> {
    open spec fn obeys_eq_spec() -> bool {
        eq_reflects::<CId>()
    }

    open spec fn eq_spec(&self, other: &Self) -> bool {
        self@ == other@
    }
}

/// A primitive process.
#[derive(Copy, Clone, Debug, PartialEq, Eq, Structural)]
pub enum Primitive {
    /// Deadlock.
    Stop,
    /// Termination.
    Skip,
}

/// A choice operator.
#[derive(Copy, Clone, Debug, Eq, PartialEq, Structural, Hash)]
pub enum ChoiceOp {
    /// External choice (`[]`).
    External,
    /// Internal choice (`|~|`).
    Internal,
    /// Sliding choice (`|>`).
    Sliding,
}

/// A binary operator.
#[derive(Copy, Clone, Debug, Eq, PartialEq, Structural, Hash)]
pub enum BinaryOp {
    /// A choice operator.
    Choice(ChoiceOp),
    /// An interrupt.
    Interrupt,
}

/// A CSP-M process.
#[derive(Debug)]
pub enum Process<CId, PId> {
    /// A named process.
    Named(PId),
    /// A primitive process.
    Prim(Primitive),
    /// Prefix.
    Prefix(Event<CId>, Box<Process<CId, PId>>),
    /// Binary operation on processes.
    Binary(Binary<CId, PId>),
}

/// A binary operation.
#[derive(Debug)]
pub struct Binary<CId, PId> {
    /// The operator applied.
    pub op: BinaryOp,
    /// The left operand.
    pub lhs: Box<Process<CId, PId>>,
    /// The right operand.
    pub rhs: Box<Process<CId, PId>>,
}

/// The mathematical shape of a [`Process`] term.
#[verifier::ext_equal]
pub ghost enum ProcessView<CId, PId> {
    Named(PId),
    Prim(Primitive),
    Prefix(EventView<CId>, Box<ProcessView<CId, PId>>),
    Binary(BinaryOp, Box<ProcessView<CId, PId>>, Box<ProcessView<CId, PId>>),
}

/// The view of a process term: the same tree with every event replaced by its
/// view and the `Binary` record flattened into an operator and two operands.
pub open spec fn term_view<CId, PId>(t: Process<CId, PId>) -> ProcessView<CId, PId>
    decreases t,
{
    match t {
        Process::Named(p) => ProcessView::Named(p),
        Process::Prim(pr) => ProcessView::Prim(pr),
        Process::Prefix(e, k) => ProcessView::Prefix(e@, Box::new(term_view(*k))),
        Process::Binary(b) => ProcessView::Binary(
            b.op,
            Box::new(term_view(*b.lhs)),
            Box::new(term_view(*b.rhs)),
        ),
    }
}

impl<CId, PId> View for Process<CId, PId> {
    type V = ProcessView<CId, PId>;

    open spec fn view(&self) -> ProcessView<CId, PId> {
        term_view(*self)
    }
}

impl<CId, PId> DeepView for Process<CId, PId> {
    type V = ProcessView<CId, PId>;

    open spec fn deep_view(&self) -> ProcessView<CId, PId> {
        self@
    }
}

impl<CId: Copy + PartialEq, PId: Copy + PartialEq> PartialEq for Process<CId, PId> {
    fn eq(&self, other: &Self) -> (r: bool)
        decreases self,
    {
        match (self, other) {
            (Process::Named(a), Process::Named(b)) => *a == *b,
            (Process::Prim(a), Process::Prim(b)) => *a == *b,
            (Process::Prefix(e1, k1), Process::Prefix(e2, k2)) => {
                if e1 == e2 {
                    (**k1) == (**k2)
                } else {
                    false
                }
            },
            (Process::Binary(b1), Process::Binary(b2)) => *b1 == *b2,
            _ => false,
        }
    }
}

impl<CId: Copy + PartialEq, PId: Copy + PartialEq> vstd::std_specs::cmp::PartialEqSpecImpl for Process<CId, PId> {
    open spec fn obeys_eq_spec() -> bool {
        eq_reflects::<CId>() && eq_reflects::<PId>()
    }

    open spec fn eq_spec(&self, other: &Self) -> bool {
        self@ == other@
    }
}

impl<CId: Copy + PartialEq, PId: Copy + PartialEq> PartialEq for Binary<CId, PId> {
    fn eq(&self, other: &Self) -> (r: bool)
        decreases self,
    {
        if !(self.op == other.op) {
            return false;
        }
        if !((*self.lhs) == (*other.lhs)) {
            return false;
        }
        (*self.rhs) == (*other.rhs)
    }
}

impl<CId: Copy + PartialEq, PId: Copy + PartialEq> vstd::std_specs::cmp::PartialEqSpecImpl for Binary<CId, PId> {
    open spec fn obeys_eq_spec() -> bool {
        eq_reflects::<CId>() && eq_reflects::<PId>()
    }

    open spec fn eq_spec(&self, other: &Self) -> bool {
        self.op == other.op && self.lhs@ == other.lhs@ && self.rhs@ == other.rhs@
    }
}

impl<CId: Copy, PId: Copy> Clone for Binary<CId, PId> {
    fn clone(&self) -> (r: Self)
        ensures
            r.op == self.op,
            r.lhs@ == self.lhs@,
            r.rhs@ == self.rhs@,
    {
        Binary {
            op: self.op,
            lhs: Box::new((*self.lhs).clone()),
            rhs: Box::new((*self.rhs).clone()),
        }
    }
}

impl<CId: Copy, PId: Copy> Clone for Process<CId, PId> {
    fn clone(&self) -> (r: Self)
        ensures
            r@ == self@,
        decreases self,
    {
        match self {
            Process::Named(p) => Process::Named(*p),
            Process::Prim(pr) => Process::Prim(*pr),
            Process::Prefix(e, k) => Process::Prefix(e.clone(), Box::new((**k).clone())),
            Process::Binary(b) => Process::Binary(
                Binary {
                    op: b.op,
                    lhs: Box::new((*b.lhs).clone()),
                    rhs: Box::new((*b.rhs).clone()),
                },
            ),
        }
    }
}

/// The set of placeholder process identifiers occurring in a term.
pub open spec fn pid_set<CId, PId>(t: ProcessView<CId, PId>) -> Set<PId>
    decreases t,
{
    match t {
        ProcessView::Named(p) => Set::empty().insert(p),
        ProcessView::Prim(_) => Set::empty(),
        ProcessView::Prefix(_, k) => pid_set(*k),
        ProcessView::Binary(_, l, r) => pid_set(*l).union(pid_set(*r)),
    }
}

/// Structural substitution: every placeholder `Named(p)` becomes `m(p)`,
/// every other node is rebuilt unchanged.
pub open spec fn subst_view<CId, PId, N>(
    t: ProcessView<CId, PId>,
    m: spec_fn(PId) -> ProcessView<CId, N>,
) -> ProcessView<CId, N>
    decreases t,
{
    match t {
        ProcessView::Named(p) => m(p),
        ProcessView::Prim(pr) => ProcessView::Prim(pr),
        ProcessView::Prefix(e, k) => ProcessView::Prefix(e, Box::new(subst_view(*k, m))),
        ProcessView::Binary(op, l, r) => ProcessView::Binary(
            op,
            Box::new(subst_view(*l, m)),
            Box::new(subst_view(*r, m)),
        ),
    }
}

/// Relational substitution: `r` is obtained from `t` by replacing each
/// placeholder `Named(p)` with some term related to `p` by `rel`, and copying
/// everything else verbatim.
pub open spec fn subst_rel<CId, PId, N>(
    t: ProcessView<CId, PId>,
    r: ProcessView<CId, N>,
    rel: spec_fn(PId, ProcessView<CId, N>) -> bool,
) -> bool
    decreases t,
{
    match t {
        ProcessView::Named(p) => rel(p, r),
        ProcessView::Prim(pr) => r == ProcessView::<CId, N>::Prim(pr),
        ProcessView::Prefix(e, k) => r matches ProcessView::Prefix(e2, k2) && e2 == e
            && subst_rel(*k, *k2, rel),
        ProcessView::Binary(op, l, rr) => r matches ProcessView::Binary(op2, l2, r2) && op2 == op
            && subst_rel(*l, *l2, rel) && subst_rel(*rr, *r2, rel),
    }
}

/// Substitution fixed point: substitution on a term with no placeholders
/// returns a structurally-equal term, whatever the replacement relation.
pub proof fn lemma_substitution_fixed_point<CId, PId>(
    t: ProcessView<CId, PId>,
    r: ProcessView<CId, PId>,
    rel: spec_fn(PId, ProcessView<CId, PId>) -> bool,
)
    requires
        subst_rel(t, r, rel),
        pid_set(t).is_empty(),
    ensures
        r == t,
    decreases t,
{
    match t {
        ProcessView::Named(p) => {
            assert(pid_set(t).contains(p));
        },
        ProcessView::Prim(_) => {},
        ProcessView::Prefix(e, k) => {
            lemma_substitution_fixed_point(*k, *r->Prefix_1, rel);
        },
        ProcessView::Binary(op, l, rr) => {
            assert(pid_set(*l).is_empty() && pid_set(*rr).is_empty()) by {
                assert forall|p: PId| !pid_set(*l).contains(p) && !pid_set(*rr).contains(
                    p,
                ) by {
                    assert(!pid_set(t).contains(p));
                }
                assert(pid_set(*l) =~= Set::<PId>::empty());
                assert(pid_set(*rr) =~= Set::<PId>::empty());
            }
            lemma_substitution_fixed_point(*l, *r->Binary_1, rel);
            lemma_substitution_fixed_point(*rr, *r->Binary_2, rel);
        },
    }
}

/// If `rel` relates every placeholder to the single term `m(p)`, then
/// relational substitution pins the result down to `subst_view(t, m)`.
pub proof fn lemma_subst_rel_functional<CId, PId, N>(
    t: ProcessView<CId, PId>,
    r: ProcessView<CId, N>,
    rel: spec_fn(PId, ProcessView<CId, N>) -> bool,
    m: spec_fn(PId) -> ProcessView<CId, N>,
)
    requires
        subst_rel(t, r, rel),
        forall|p: PId, v: ProcessView<CId, N>| #[trigger] rel(p, v) ==> v == m(p),
    ensures
        r == subst_view(t, m),
    decreases t,
{
    match t {
        ProcessView::Named(_) => {},
        ProcessView::Prim(_) => {},
        ProcessView::Prefix(_, k) => {
            lemma_subst_rel_functional(*k, *r->Prefix_1, rel, m);
        },
        ProcessView::Binary(_, l, rr) => {
            lemma_subst_rel_functional(*l, *r->Binary_1, rel, m);
            lemma_subst_rel_functional(*rr, *r->Binary_2, rel, m);
        },
    }
}

/// A result related by the stronger relation is related by the weaker one.
pub proof fn lemma_subst_rel_weaken<CId, PId, N>(
    t: ProcessView<CId, PId>,
    r: ProcessView<CId, N>,
    rel1: spec_fn(PId, ProcessView<CId, N>) -> bool,
    rel2: spec_fn(PId, ProcessView<CId, N>) -> bool,
)
    requires
        subst_rel(t, r, rel1),
        forall|p: PId, v: ProcessView<CId, N>| #[trigger] rel1(p, v) ==> rel2(p, v),
    ensures
        subst_rel(t, r, rel2),
    decreases t,
{
    match t {
        ProcessView::Named(_) => {},
        ProcessView::Prim(_) => {},
        ProcessView::Prefix(_, k) => {
            lemma_subst_rel_weaken(*k, *r->Prefix_1, rel1, rel2);
        },
        ProcessView::Binary(_, l, rr) => {
            lemma_subst_rel_weaken(*l, *r->Binary_1, rel1, rel2);
            lemma_subst_rel_weaken(*rr, *r->Binary_2, rel1, rel2);
        },
    }
}

/// What `expand_pid` promises of each replaced placeholder: the replacement
/// is the view of some term that `f` can return for that identifier.
pub open spec fn expand_result_rel<CId, PId, N, F: Fn(PId) -> Process<CId, N>>(f: F) -> spec_fn(
    PId,
    ProcessView<CId, N>,
) -> bool {
    |p: PId, rv: ProcessView<CId, N>|
        exists|v: Process<CId, N>| #[trigger] call_ensures(f, (p,), v) && rv == v@
}

/// What `map_pid` promises of each replaced placeholder: the replacement is
/// a named reference to some identifier that `f` can return.
pub open spec fn map_result_rel<CId, PId, N, F: Fn(PId) -> N>(f: F) -> spec_fn(
    PId,
    ProcessView<CId, N>,
) -> bool {
    |p: PId, rv: ProcessView<CId, N>|
        exists|n: N| #[trigger] call_ensures(f, (p,), n) && rv == ProcessView::<CId, N>::Named(n)
}

impl<CId: Copy, PId: Copy> Process<CId, PId> {
    /// Maps `f` over all process IDs in a process, expanding them into processes.
    pub fn expand_pid<N, F: Fn(PId) -> Process<CId, N> + Copy>(&self, f: F) -> (r: Process<
        CId,
        N,
    >)
        requires
            forall|p: PId| pid_set(self@).contains(p) ==> #[trigger] call_requires(f, (p,)),
        ensures
            subst_rel(self@, r@, expand_result_rel(f)),
        decreases self,
    {
        match self {
            Process::Named(pid) => {
                let r = f(*pid);
                proof {
                    let rel = expand_result_rel::<CId, PId, N, F>(f);
                    assert(rel(*pid, r@));
                }
                r
            },
            Process::Prim(p) => Process::Prim(*p),
            Process::Prefix(x, y) => {
                let x2 = x.clone();
                let y2 = Box::new(y.expand_pid(f));
                Process::Prefix(x2, y2)
            },
            Process::Binary(b) => {
                let op = b.op;
                let lhs = Box::new(b.lhs.expand_pid(f));
                let rhs = Box::new(b.rhs.expand_pid(f));
                Process::Binary(Binary { op, lhs, rhs })
            },
        }
    }

    /// Maps `f` over all process IDs in a process.
    pub fn map_pid<N, F: Fn(PId) -> N + Copy>(&self, f: F) -> (r: Process<CId, N>)
        requires
            forall|p: PId| pid_set(self@).contains(p) ==> #[trigger] call_requires(f, (p,)),
        ensures
            subst_rel(self@, r@, map_result_rel(f)),
    {
        let g = |p: PId| -> (res: Process<CId, N>)
            requires
                call_requires(f, (p,)),
            ensures
                exists|n: N| #[trigger] call_ensures(f, (p,), n) && res == Process::<
                    CId,
                    N,
                >::Named(n),
            {
                Process::Named(f(p))
            };
        let r = self.expand_pid(g);
        proof {
            lemma_subst_rel_weaken(self@, r@, expand_result_rel(g), map_result_rel(f));
        }
        r
    }
}

} // verus!
