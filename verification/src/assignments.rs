//! The bound-read / bound-write interface that the propagator consumes.
//!
//! The propagator only ever observes a variable through its current
//! `[lower_bound, upper_bound]` interval and only ever mutates it through
//! `set_lower_bound` / `set_upper_bound`.  This module provides that store,
//! together with the predicates that make up explanations, the conflict
//! type, and the small registration surface used at initialisation.

use vstd::prelude::*;

verus! {

/// An atom of an explanation: `start_var >= value` or `start_var <= value`.
#[derive(Clone, Copy, Debug)]
pub enum PredicateKind {
    GreaterEqual,
    LessEqual,
}

/// A single bound predicate over a start-time variable.
#[derive(Clone, Copy, Debug)]
pub struct Predicate {
    pub var: usize,
    pub kind: PredicateKind,
    pub value: i32,
}

/// A conjunction of bound predicates; the `reason` attached to every push
/// and to every conflict.
#[derive(Debug)]
pub struct PropositionalConjunction {
    pub atoms: Vec<Predicate>,
}

impl View for PropositionalConjunction {
    type V = Seq<Predicate>;

    open spec fn view(&self) -> Seq<Predicate> {
        self.atoms@
    }
}

impl PropositionalConjunction {
    pub fn new() -> (c: PropositionalConjunction)
        ensures
            c@ == Seq::<Predicate>::empty(),
    {
        PropositionalConjunction { atoms: Vec::new() }
    }

    pub fn push(&mut self, p: Predicate)
        ensures
            final(self)@ == old(self)@.push(p),
    {
        self.atoms.push(p);
    }
}

/// Resource-logical infeasibility, carrying the explanation that drove it.
#[derive(Debug)]
pub enum Inconsistency {
    Conflict(PropositionalConjunction),
}

/// Bound-change events a propagator can subscribe to.
#[derive(Clone, Copy, Debug)]
pub struct DomainEvents {
    pub lower_bound: bool,
    pub upper_bound: bool,
}

/// Whether a notified propagator wants to be placed on the propagation queue.
#[derive(Clone, Copy, Debug)]
pub enum EnqueueDecision {
    Enqueue,
    Skip,
}

/// Collects the event subscriptions made at initialisation.
pub struct PropagatorInitialisationContext {
    pub registrations: Vec<(usize, DomainEvents, usize)>,
}

impl View for PropagatorInitialisationContext {
    type V = Seq<(usize, DomainEvents, usize)>;

    open spec fn view(&self) -> Seq<(usize, DomainEvents, usize)> {
        self.registrations@
    }
}

impl PropagatorInitialisationContext {
    pub fn new() -> (c: PropagatorInitialisationContext)
        ensures
            c@ == Seq::<(usize, DomainEvents, usize)>::empty(),
    {
        PropagatorInitialisationContext { registrations: Vec::new() }
    }

    /// Subscribes `local_id` to the given events on `var`.
    pub fn register(&mut self, var: usize, events: DomainEvents, local_id: usize)
        ensures
            final(self)@ == old(self)@.push((var, events, local_id)),
    {
        self.registrations.push((var, events, local_id));
    }
}

/// The variable store: one `[lower_bound, upper_bound]` interval per
/// start-time variable, indexed by the variable handle.
pub struct Assignments {
    pub bounds: Vec<(i32, i32)>,
}

impl View for Assignments {
    type V = Seq<(i32, i32)>;

    open spec fn view(&self) -> Seq<(i32, i32)> {
        self.bounds@
    }
}

impl Assignments {
    pub fn new() -> (a: Assignments)
        ensures
            a@ == Seq::<(i32, i32)>::empty(),
    {
        Assignments { bounds: Vec::new() }
    }

    /// Creates a fresh variable with domain `[lb, ub]` and returns its handle.
    pub fn new_variable(&mut self, lb: i32, ub: i32) -> (var: usize)
        requires
            lb <= ub,
        ensures
            final(self)@ == old(self)@.push((lb, ub)),
            var == old(self)@.len(),
    {
        let var = self.bounds.len();
        self.bounds.push((lb, ub));
        var
    }

    /// A copy of the current bounds: the coherent snapshot a propagation
    /// call works from.
    pub fn snapshot(&self) -> (c: Assignments)
        ensures
            c@ == self@,
    {
        let mut bounds: Vec<(i32, i32)> = Vec::new();
        let mut i: usize = 0;
        while i < self.bounds.len()
            invariant
                i <= self.bounds@.len(),
                bounds@ == self.bounds@.take(i as int),
            decreases self.bounds@.len() - i,
        {
            bounds.push(self.bounds[i]);
            proof {
                assert(bounds@ == self.bounds@.take(i + 1));
            }
            i = i + 1;
        }
        proof {
            assert(self.bounds@.take(self.bounds@.len() as int) == self.bounds@);
        }
        Assignments { bounds }
    }

    pub fn num_variables(&self) -> (n: usize)
        ensures
            n == self@.len(),
    {
        self.bounds.len()
    }

    pub fn lower_bound(&self, var: usize) -> (lb: i32)
        requires
            var < self@.len(),
        ensures
            lb == self@[var as int].0,
    {
        self.bounds[var].0
    }

    pub fn upper_bound(&self, var: usize) -> (ub: i32)
        requires
            var < self@.len(),
        ensures
            ub == self@[var as int].1,
    {
        self.bounds[var].1
    }

    /// Raises the lower bound of `var` to `value` (a no-op if the bound is
    /// already at least `value`).  Rejected, leaving the store untouched,
    /// exactly when the new bound would empty the domain.  The `reason` is
    /// what the enclosing solver would record for conflict analysis; this
    /// store keeps only the bounds.
    pub fn set_lower_bound(
        &mut self,
        var: usize,
        value: i32,
        _reason: &PropositionalConjunction,
    ) -> (r: Result<(), ()>)
        requires
            var < old(self)@.len(),
        ensures
            value > old(self)@[var as int].1 ==> r is Err && final(self)@ == old(self)@,
            value <= old(self)@[var as int].1 ==> r is Ok && final(self)@ == old(self)@.update(
                var as int,
                (if value > old(self)@[var as int].0 {
                    value
                } else {
                    old(self)@[var as int].0
                }, old(self)@[var as int].1),
            ),
    {
        let (lb, ub) = self.bounds[var];
        if value > ub {
            return Err(());
        }
        let new_lb = if value > lb {
            value
        } else {
            lb
        };
        self.bounds.set(var, (new_lb, ub));
        Ok(())
    }

    /// Mirror of `set_lower_bound` for the upper bound.
    pub fn set_upper_bound(
        &mut self,
        var: usize,
        value: i32,
        _reason: &PropositionalConjunction,
    ) -> (r: Result<(), ()>)
        requires
            var < old(self)@.len(),
        ensures
            value < old(self)@[var as int].0 ==> r is Err && final(self)@ == old(self)@,
            value >= old(self)@[var as int].0 ==> r is Ok && final(self)@ == old(self)@.update(
                var as int,
                (old(self)@[var as int].0, if value < old(self)@[var as int].1 {
                    value
                } else {
                    old(self)@[var as int].1
                }),
            ),
    {
        let (lb, ub) = self.bounds[var];
        if value < lb {
            return Err(());
        }
        let new_ub = if value < ub {
            value
        } else {
            ub
        };
        self.bounds.set(var, (lb, new_ub));
        Ok(())
    }

    /// Removes `value` from the domain of `var`, as far as an interval can
    /// express it: a removal at either end shrinks the interval, an interior
    /// removal leaves it unchanged.  Rejected when the domain is the
    /// singleton `{value}`.
    pub fn remove(&mut self, var: usize, value: i32) -> (r: Result<(), ()>)
        requires
            var < old(self)@.len(),
            old(self)@[var as int].0 <= old(self)@[var as int].1,
        ensures
            ({
                let lb = old(self)@[var as int].0;
                let ub = old(self)@[var as int].1;
                if lb == ub && value == lb {
                    r is Err && final(self)@ == old(self)@
                } else if value == lb {
                    r is Ok && final(self)@ == old(self)@.update(var as int, ((lb + 1) as i32, ub))
                } else if value == ub {
                    r is Ok && final(self)@ == old(self)@.update(var as int, (lb, (ub - 1) as i32))
                } else {
                    r is Ok && final(self)@ == old(self)@
                }
            }),
    {
        let (lb, ub) = self.bounds[var];
        if lb == ub && value == lb {
            return Err(());
        }
        if value == lb {
            self.bounds.set(var, (lb + 1, ub));
        } else if value == ub {
            self.bounds.set(var, (lb, ub - 1));
        }
        Ok(())
    }
}

} // verus!
