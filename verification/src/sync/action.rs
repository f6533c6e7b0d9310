//! The unit of work that belongs to a declared migration.

use vstd::prelude::*;

verus! {

/// A unit of work that runs at most once, on a handle of the backend.
trait MigrationAction<C, E> {
    /// The handles that the action may be given.
    spec fn accepts(&self, target: C) -> bool;

    /// The results that the action may have on a handle.
    spec fn yields(&self, target: C, r: Result<(), E>) -> bool;

    /// Runs the action.
    fn apply(self: Box<Self>, target: C) -> (r: Result<(), E>)
        requires
            self.accepts(target),
        ensures
            self.yields(target, r),
    ;
}

/// A closure as an action.
struct FnAction<F> {
    f: F,
}

impl<C, E, F: FnOnce(C) -> Result<(), E>> MigrationAction<C, E> for FnAction<F> {
    closed spec fn accepts(&self, target: C) -> bool {
        call_requires(self.f, (target,))
    }

    closed spec fn yields(&self, target: C, r: Result<(), E>) -> bool {
        call_ensures(self.f, (target,), r)
    }

    fn apply(self: Box<Self>, target: C) -> (r: Result<(), E>) {
        let action = *self;
        (action.f)(target)
    }
}

/// An action of any kind, owned by the entry that it belongs to.
#[verifier::reject_recursive_types(C)]
#[verifier::reject_recursive_types(E)]
pub struct Action<C, E> {
    inner: Box<dyn MigrationAction<C, E>>,
}

impl<C, E> Action<C, E> {
    /// The handles that the action may be given.
    pub closed spec fn accepts(&self, target: C) -> bool {
        self.inner.accepts(target)
    }

    /// The results that the action may have on a handle.
    pub closed spec fn yields(&self, target: C, r: Result<(), E>) -> bool {
        self.inner.yields(target, r)
    }

    /// Makes an action of a closure: it may be given what the closure may
    /// be given, and has the closure's results.
    pub fn new<F>(f: F) -> (r: Self) where F: FnOnce(C) -> Result<(), E> + 'static
        ensures
            forall|target: C| call_requires(f, (target,)) ==> r.accepts(target),
            forall|target: C, outcome: Result<(), E>|
                r.yields(target, outcome) ==> call_ensures(f, (target,), outcome),
    {
        Action { inner: Box::new(FnAction { f }) }
    }

    /// Runs the action, which uses it up.
    pub fn apply(self, target: C) -> (r: Result<(), E>)
        requires
            self.accepts(target),
        ensures
            self.yields(target, r),
    {
        self.inner.apply(target)
    }
}

} // verus!
