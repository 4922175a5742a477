//! Actions: the labels carried by transitions.

use vstd::prelude::*;

verus! {

/// Enumeration of things that can be tick, tau, or some type of event.
#[derive(Clone, Debug, PartialEq, Eq)]
pub enum Action<E> {
    /// Termination.
    Tick,
    /// Internal action.
    Tau,
    /// An event.
    Ev(E),
}

impl<E> Action<E> {
    /// Replaces an event action with the result of `f` over it; `Tick` and
    /// `Tau` are returned unchanged.
    pub fn expand_event<T, F: Fn(&E) -> Action<T>>(&self, f: F) -> (r: Action<T>)
        requires
            forall|e: &E| *self == Action::Ev(*e) ==> call_requires(f, (e,)),
        ensures
            self is Tick ==> r == Action::<T>::Tick,
            self is Tau ==> r == Action::<T>::Tau,
            self matches Action::Ev(e) ==> call_ensures(f, (&e,), r),
    {
        match self {
            Action::Ev(e) => f(e),
            Action::Tick => Action::Tick,
            Action::Tau => Action::Tau,
        }
    }

    /// Maps `f` over this action if it is an event.
    pub fn map_event<T, F: Fn(&E) -> T>(&self, f: F) -> (r: Action<T>)
        requires
            forall|e: &E| *self == Action::Ev(*e) ==> call_requires(f, (e,)),
        ensures
            self is Tick ==> r == Action::<T>::Tick,
            self is Tau ==> r == Action::<T>::Tau,
            self matches Action::Ev(e) ==> (r matches Action::Ev(t) && call_ensures(
                f,
                (&e,),
                t,
            )),
    {
        match self {
            Action::Ev(e) => Action::Ev(f(e)),
            Action::Tick => Action::Tick,
            Action::Tau => Action::Tau,
        }
    }
}

} // verus!
