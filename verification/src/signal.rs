//! Reactive values: [`Signal`], a value shared by every clone of it, and
//! [`Computed`], a read-only value derived from a closure on each read.

use std::rc::Rc;
use vstd::cell::invcell::InvCell;
use vstd::predicate::Predicate;
use vstd::prelude::*;

verus! {

/// The invariant of a signal's cell: every value of the type may be stored.
pub struct AnyValue;

impl<T> Predicate<T> for AnyValue {
    open spec fn predicate(&self, v: T) -> bool {
        true
    }
}

/// Shares an `Rc` with `Rc::clone`: the new pointer refers to the same
/// allocation, so the pointee is the same value.
#[verifier::external_body]
fn share<T: ?Sized>(rc: &Rc<T>) -> (r: Rc<T>)
    ensures
        r == *rc,
{
    Rc::clone(rc)
}

/// A reactive value, shared by reference: a clone points to the same cell, so
/// a value set through one clone is read through every other.
pub struct Signal<T> {
    cell: Rc<InvCell<T, AnyValue>>,
}

impl<T> Signal<T> {
    /// The cell this signal reads and writes; clones share it.
    pub closed spec fn cell_of(&self) -> InvCell<T, AnyValue> {
        *self.cell
    }
}

impl<T> Clone for Signal<T> {
    /// A second handle to the same cell.
    fn clone(&self) -> (s: Self)
        ensures
            s.cell_of() == self.cell_of(),
    {
        Signal { cell: share(&self.cell) }
    }
}

impl<T: Copy> Signal<T> {
    /// Creates a signal holding `value`.
    pub fn new(value: T) -> (s: Self) {
        Signal { cell: Rc::new(InvCell::new(value, Ghost(AnyValue))) }
    }

    /// The current value.
    pub fn get(&self) -> (v: T) {
        self.cell.get()
    }

    /// Writes `value`; every clone of the signal reads it from now on.
    pub fn set(&self, value: T) {
        self.cell.set(value)
    }
}

/// A derived, read-only value: the closure `F` is run again on every read, so
/// the value follows the signals it captures.
pub struct Computed<F> {
    f: Rc<F>,
}

impl<F> Clone for Computed<F> {
    /// A second handle to the same closure.
    fn clone(&self) -> (c: Self)
        ensures
            c.source() == self.source(),
    {
        Computed { f: share(&self.f) }
    }
}

impl<F> Computed<F> {
    /// The closure behind this value.
    pub closed spec fn source(&self) -> F {
        *self.f
    }
}

impl<T, F: Fn() -> T> Computed<F> {
    /// Creates a derived value from a closure.
    pub fn new(f: F) -> (c: Self)
        ensures
            c.source() == f,
    {
        Computed { f: Rc::new(f) }
    }

    /// Runs the closure and returns what it gives back.
    pub fn get(&self) -> (v: T)
        requires
            self.source().requires(()),
        ensures
            self.source().ensures((), v),
    {
        (self.f)()
    }
}

} // verus!
