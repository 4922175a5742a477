//! Combinator rule representation.
//!
//! A rule set describes one operator of a process algebra: which of the
//! operator's syntactic operands are "on" (must actively contribute an
//! event), and a list of rules.  Each rule carries quantifiers over the event
//! universe and a triple: an "on" function binding each on-operand to the
//! assignment event it must accept, an action template, and the format of the
//! destination node.

use crate::semantics::action::Action;
use crate::semantics::explicit::{Node, NodeView};
use vstd::prelude::*;

verus! {

/// An ordinal used in a combinator: a zero-based index referring to one of
/// the operator's syntactic operands.
#[derive(Copy, Clone, Debug, PartialEq, Eq, Structural)]
pub struct Ordinal(pub usize);

/// An argument in an 'on' function representation: an index into a rule
/// instance's quantifier assignment.
#[derive(Copy, Clone, Debug, PartialEq, Eq, Structural)]
pub struct OnFuncArg(pub usize);

/// An 'on' function, represented as a list of partial mappings (one for each
/// 'on' argument).
#[derive(Clone, Debug)]
pub struct OnFunc(pub Vec<Option<OnFuncArg>>);

/// A combinator triple, parameterised over the type of primitive process.
#[derive(Debug)]
pub struct Triple<P> {
    /// The function from 'on' operator indices to contributed actions.
    pub on_func: OnFunc,
    /// The action occurring in the combinator.
    pub action: Action<OnFuncArg>,
    /// The format of the remaining process.
    pub format: Node<P>,
}

/// The mathematical shape of a [`Triple`].
#[verifier::ext_equal]
pub ghost struct TripleView<PV> {
    pub on_func: Seq<Option<OnFuncArg>>,
    pub action: Action<OnFuncArg>,
    pub format: NodeView<PV>,
}

impl<P: View> View for Triple<P> {
    type V = TripleView<P::V>;

    open spec fn view(&self) -> TripleView<P::V> {
        TripleView { on_func: self.on_func.0@, action: self.action, format: self.format@ }
    }
}

/// A combinator rule.
#[derive(Debug)]
pub struct Rule<P, Q> {
    /// A list of semantics-defined quantifiers over the action arguments.
    pub quantifiers: Vec<Q>,
    /// The triple applied for each quantifier assignment.
    pub triple: Triple<P>,
}

/// The mathematical shape of a [`Rule`].
#[verifier::ext_equal]
pub ghost struct RuleView<PV, Q> {
    pub quantifiers: Seq<Q>,
    pub triple: TripleView<PV>,
}

impl<P: View, Q> View for Rule<P, Q> {
    type V = RuleView<P::V, Q>;

    open spec fn view(&self) -> RuleView<P::V, Q> {
        RuleView { quantifiers: self.quantifiers@, triple: self.triple@ }
    }
}

/// A set of combinator rules defining an operator.
#[derive(Debug)]
pub struct RuleSet<P, Q> {
    /// The set of indices of arguments of this operator that are 'on'.
    pub on: Vec<usize>,
    /// The rules used in this operator's definition.
    pub rules: Vec<Rule<P, Q>>,
}

/// The mathematical shape of a [`RuleSet`].
#[verifier::ext_equal]
pub ghost struct RuleSetView<PV, Q> {
    pub on: Seq<usize>,
    pub rules: Seq<RuleView<PV, Q>>,
}

impl<P: View, Q> View for RuleSet<P, Q> {
    type V = RuleSetView<P::V, Q>;

    open spec fn view(&self) -> RuleSetView<P::V, Q> {
        RuleSetView { on: self.on@, rules: self.rules@.map_values(|r: Rule<P, Q>| r@) }
    }
}

/// Rule-table well-formedness: the 'on' function covers exactly the 'on'
/// operands, and the action template only mentions assignment indices the
/// rule's quantifiers provide.
pub open spec fn rule_wf<PV, Q>(on_len: int, rule: RuleView<PV, Q>) -> bool {
    &&& rule.triple.on_func.len() == on_len
    &&& (rule.triple.action matches Action::Ev(k) ==> (k.0 as int) < rule.quantifiers.len())
}

/// Well-formedness of a whole rule set.
pub open spec fn ruleset_wf<PV, Q>(rs: RuleSetView<PV, Q>) -> bool {
    forall|ri: int| 0 <= ri < rs.rules.len() ==> rule_wf(rs.on.len() as int, #[trigger] rs.rules[ri])
}

} // verus!
