//! The CSP-M process-algebra instantiation of the semantics.

pub mod combinator;
pub mod process;

use process::{Event, Process};
use vstd::prelude::*;

verus! {

/// A CSP explicit graph.
pub type Explicit<CId, PId> = crate::semantics::explicit::Explicit<
    Process<CId, PId>,
    Event<CId>,
>;

/// A CSP action.
pub type Action<CId> = crate::semantics::action::Action<Event<CId>>;

/// A CSP-M session: the table of named process definitions the parser built.
///
/// The table is a mapping: at most one definition per process identifier,
/// later definitions of the same name replacing earlier ones.
pub struct Session<CId, PId> {
    processes: Vec<(PId, Process<CId, PId>)>,
}

/// The definition bound to `name` in the entries of `s` at or after position
/// `k`: the first entry whose key is `name`.
pub open spec fn lookup_from<CId, PId>(
    s: Seq<(PId, process::ProcessView<CId, PId>)>,
    name: PId,
    k: int,
) -> Option<process::ProcessView<CId, PId>>
    decreases s.len() - k,
{
    if k < 0 || k >= s.len() {
        None
    } else if s[k].0 == name {
        Some(s[k].1)
    } else {
        lookup_from(s, name, k + 1)
    }
}

/// The definition bound to `name` in the entries of `s`.
pub open spec fn lookup_spec<CId, PId>(
    s: Seq<(PId, process::ProcessView<CId, PId>)>,
    name: PId,
) -> Option<process::ProcessView<CId, PId>> {
    lookup_from(s, name, 0)
}

/// No process identifier is defined twice.
pub open spec fn keys_unique<CId, PId>(s: Seq<(PId, process::ProcessView<CId, PId>)>) -> bool {
    forall|i: int, j: int| 0 <= i < j < s.len() ==> (#[trigger] s[i]).0 != (#[trigger] s[j]).0
}

impl<CId: Copy, PId: Copy + PartialEq> Session<CId, PId> {
    /// The table's entries: each name with the view of its definition, in
    /// insertion order.
    pub closed spec fn table(&self) -> Seq<(PId, process::ProcessView<CId, PId>)> {
        self.processes@.map_values(|e: (PId, Process<CId, PId>)| (e.0, e.1@))
    }

    /// The table is a mapping: its keys are unique.
    pub open spec fn wf(&self) -> bool {
        keys_unique(self.table())
    }

    /// An empty table.
    pub fn new() -> (s: Self)
        ensures
            s.wf(),
            s.table() == Seq::<(PId, process::ProcessView<CId, PId>)>::empty(),
    {
        let s = Session { processes: Vec::new() };
        proof {
            assert(s.table() =~= Seq::<(PId, process::ProcessView<CId, PId>)>::empty());
        }
        s
    }

    /// Defines `name` as `proc`, replacing any earlier definition of `name`.
    pub fn insert(&mut self, name: PId, proc: Process<CId, PId>)
        requires
            process::eq_reflects::<PId>(),
            old(self).wf(),
        ensures
            final(self).wf(),
            lookup_spec(final(self).table(), name) == Some(proc@),
            forall|other: PId|
                other != name ==> #[trigger] lookup_spec(final(self).table(), other)
                    == lookup_spec(old(self).table(), other),
    {
        let ghost t0 = self.table();
        let mut i: usize = 0;
        while i < self.processes.len()
            invariant
                process::eq_reflects::<PId>(),
                i <= self.processes@.len(),
                t0 == self.table(),
                t0 == old(self).table(),
                keys_unique(t0),
                forall|j: int| 0 <= j < i as int ==> (#[trigger] t0[j]).0 != name,
            decreases self.processes@.len() - i,
        {
            if self.processes[i].0 == name {
                self.processes.set(i, (name, proc));
                proof {
                    let t1 = self.table();
                    assert(t1 =~= t0.update(i as int, (name, proc@)));
                    assert(t0[i as int].0 == name);
                    assert(keys_unique(t1)) by {
                        assert(forall|j: int|
                            0 <= j < t1.len() ==> (#[trigger] t1[j]).0 == t0[j].0);
                    }
                    lemma_lookup_found(t1, name, i as int);
                    assert(t0 == old(self).table());
                    assert forall|other: PId| other != name implies #[trigger] lookup_spec(
                        self.table(),
                        other,
                    ) == lookup_spec(old(self).table(), other) by {
                        lemma_lookup_update_other(t0, t1, other, i as int, 0);
                        assert(lookup_spec(t1, other) == lookup_spec(t0, other));
                    }
                }
                return ;
            }
            i += 1;
        }
        self.processes.push((name, proc));
        proof {
            let t1 = self.table();
            assert(t1 =~= t0.push((name, proc@)));
            assert(keys_unique(t1)) by {
                assert(forall|j: int| 0 <= j < t0.len() ==> (#[trigger] t0[j]).0 != name);
            }
            lemma_lookup_found(t1, name, t0.len() as int);
            assert forall|other: PId| other != name implies #[trigger] lookup_spec(t1, other)
                == lookup_spec(t0, other) by {
                lemma_lookup_push_other(t0, (name, proc@), other, 0);
            }
        }
    }

    /// The definition of `name`, if the table holds one.
    pub fn get(&self, name: PId) -> (r: Option<&Process<CId, PId>>)
        requires
            process::eq_reflects::<PId>(),
        ensures
            match r {
                Some(p) => lookup_spec(self.table(), name) == Some(p@),
                None => lookup_spec(self.table(), name) is None,
            },
    {
        let mut i: usize = 0;
        while i < self.processes.len()
            invariant
                process::eq_reflects::<PId>(),
                i <= self.processes@.len(),
                lookup_spec(self.table(), name) == lookup_from(self.table(), name, i as int),
            decreases self.processes@.len() - i,
        {
            if self.processes[i].0 == name {
                return Some(&self.processes[i].1);
            }
            i += 1;
        }
        None
    }

    /// The number of definitions.
    pub fn len(&self) -> (n: usize)
        ensures
            n == self.table().len(),
    {
        self.processes.len()
    }
}

impl<CId: Copy, PId: Copy + PartialEq> Default for Session<CId, PId> {
    fn default() -> (s: Self)
        ensures
            s.wf(),
            s.table() == Seq::<(PId, process::ProcessView<CId, PId>)>::empty(),
    {
        Session::new()
    }
}

proof fn lemma_lookup_found<CId, PId>(
    s: Seq<(PId, process::ProcessView<CId, PId>)>,
    name: PId,
    at: int,
)
    requires
        0 <= at < s.len(),
        s[at].0 == name,
        forall|j: int| 0 <= j < at ==> (#[trigger] s[j]).0 != name,
    ensures
        lookup_spec(s, name) == Some(s[at].1),
{
    lemma_lookup_scan(s, name, 0, at);
}

proof fn lemma_lookup_scan<CId, PId>(
    s: Seq<(PId, process::ProcessView<CId, PId>)>,
    name: PId,
    k: int,
    at: int,
)
    requires
        0 <= k <= at < s.len(),
        s[at].0 == name,
        forall|j: int| k <= j < at ==> (#[trigger] s[j]).0 != name,
    ensures
        lookup_from(s, name, k) == Some(s[at].1),
    decreases at - k,
{
    if k < at {
        lemma_lookup_scan(s, name, k + 1, at);
    }
}

proof fn lemma_lookup_update_other<CId, PId>(
    s: Seq<(PId, process::ProcessView<CId, PId>)>,
    t: Seq<(PId, process::ProcessView<CId, PId>)>,
    other: PId,
    at: int,
    k: int,
)
    requires
        0 <= at < s.len(),
        t.len() == s.len(),
        forall|j: int| 0 <= j < s.len() && j != at ==> #[trigger] t[j] == s[j],
        s[at].0 != other,
        t[at].0 != other,
        0 <= k <= s.len(),
    ensures
        lookup_from(t, other, k) == lookup_from(s, other, k),
    decreases s.len() - k,
{
    if k < s.len() {
        lemma_lookup_update_other(s, t, other, at, k + 1);
    }
}

proof fn lemma_lookup_push_other<CId, PId>(
    s: Seq<(PId, process::ProcessView<CId, PId>)>,
    entry: (PId, process::ProcessView<CId, PId>),
    other: PId,
    k: int,
)
    requires
        entry.0 != other,
        0 <= k <= s.len(),
    ensures
        lookup_from(s.push(entry), other, k) == lookup_from(s, other, k),
    decreases s.len() - k,
{
    if k < s.len() {
        assert(s.push(entry)[k] == s[k]);
        lemma_lookup_push_other(s, entry, other, k + 1);
    } else {
        assert(s.push(entry)[k] == entry);
        assert(lookup_from(s.push(entry), other, k + 1) == None::<
            process::ProcessView<CId, PId>,
        >);
        assert(lookup_from(s, other, k) == None::<process::ProcessView<CId, PId>>);
    }
}

} // verus!
