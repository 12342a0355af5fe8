//! A snapshot-swap cell: one current, immutable, reference-counted value.
//!
//! Readers take a handle to the current value and work on it undisturbed: publishing a new
//! value replaces the handle in the cell and leaves the values behind other handles alone.

use crate::ordmap::share;
use std::sync::Arc;
use vstd::prelude::*;

verus! {

/// How many handles share the value behind `a`: calls `Arc::strong_count`, which counts `a`
/// itself too. The count depends on what the rest of the program holds, so nothing more is
/// claimed of it.
#[verifier::external_body]
fn handles<T>(a: &Arc<T>) -> (r: usize)
    ensures
        r >= 1,
{
    Arc::strong_count(a)
}

/// A cell that holds one immutable, reference-counted value.
#[derive(Debug)]
pub struct RcuSwap<T> {
    inner: Arc<T>,
}

impl<T> RcuSwap<T> {
    /// The current value.
    pub closed spec fn view(&self) -> T {
        *self.inner
    }

    /// A cell that holds `init`.
    pub fn new(init: T) -> (r: RcuSwap<T>)
        ensures
            r@ == init,
    {
        RcuSwap { inner: Arc::new(init) }
    }

    /// A handle pinned to the current value.
    pub fn load(&self) -> (r: Arc<T>)
        ensures
            *r == self@,
    {
        share(&self.inner)
    }

    /// The current value.
    pub fn current(&self) -> (r: &T)
        ensures
            *r == self@,
    {
        &self.inner
    }

    /// Replace the current value with `next`; returns the previous one.
    pub fn store(&mut self, next: Arc<T>) -> (r: Arc<T>)
        ensures
            *r == old(self)@,
            final(self)@ == *next,
    {
        let prev: Arc<T> = share(&self.inner);
        self.inner = next;
        prev
    }

    /// How many handles share the current value, the cell's own included.
    pub fn live_clones(&self) -> (r: usize)
        ensures
            r >= 1,
    {
        handles(&self.inner)
    }
}

} // verus!
