//! The running priority of the system.
use vstd::prelude::*;

verus! {

/// The current (logical) priority of the running context.
pub struct Priority {
    inner: u8,
}

impl View for Priority {
    type V = u8;

    closed spec fn view(&self) -> u8 {
        self.inner
    }
}

impl Priority {
    /// Create a priority holding `value`.
    pub fn new(value: u8) -> (p: Self)
        ensures
            p@ == value,
    {
        Priority { inner: value }
    }

    /// Change the current priority to `value`.
    pub fn set(&mut self, value: u8)
        ensures
            final(self)@ == after_set(old(self)@, value),
    {
        self.inner = value;
    }

    /// Get the current priority.
    pub fn get(&self) -> (v: u8)
        ensures
            v == self@,
    {
        self.inner
    }
}

/// The priority after `set(value)` on a priority whose value was `p`.
pub open spec fn after_set(p: u8, value: u8) -> u8 {
    value
}

/// The priority after `set` was called with each of `values` in turn on a
/// priority whose value was `p`.
pub open spec fn after_sets(p: u8, values: Seq<u8>) -> u8
    decreases values.len(),
{
    if values.len() == 0 {
        p
    } else {
        after_set(after_sets(p, values.drop_last()), values.last())
    }
}

/// A priority created with `new(v0)` and then set to each of `values` in
/// turn, with no other change, gives back with `get` the last value set, or
/// `v0` when nothing was set.
pub proof fn lemma_get_after_sets(v0: u8, values: Seq<u8>)
    ensures
        after_sets(v0, values) == if values.len() == 0 { v0 } else { values.last() },
{
}

} // verus!
