//! Resources locked under the Stack Resource Policy (hosted variant): a
//! resource with ceiling `CEIL` is accessed with the running priority raised
//! to at least `CEIL`, and the priority is restored afterwards.
use vstd::prelude::*;
use crate::priority::Priority;

verus! {

/// A resource holding a value of type `T`, with ceiling `CEIL`.
pub struct Resource<T, const CEIL: u8> {
    cell: T,
    accesses: Ghost<Seq<u8>>,
}

/// The priority at which a resource with ceiling `ceiling` is accessed from
/// priority `current`.
pub open spec fn locked_priority(current: u8, ceiling: u8) -> u8 {
    if ceiling > current { ceiling } else { current }
}

/// Raise the running priority to the ceiling `ceiling` when it is below it;
/// returns the priority to restore afterwards.
pub fn raise_priority(priority: &mut Priority, ceiling: u8) -> (previous: u8)
    ensures
        previous == old(priority)@,
        final(priority)@ == locked_priority(old(priority)@, ceiling),
        final(priority)@ >= ceiling,
        final(priority)@ >= previous,
{
    let current = priority.get();
    if ceiling > current {
        priority.set(ceiling);
    }
    current
}

impl<T, const CEIL: u8> Resource<T, CEIL> {
    /// The value held by the resource.
    pub closed spec fn value(&self) -> T {
        self.cell
    }

    /// The running priorities at which the value has been accessed, oldest first.
    pub closed spec fn accesses(&self) -> Seq<u8> {
        self.accesses@
    }

    /// A resource holding `v`, not accessed yet.
    pub fn new(v: T) -> (r: Self)
        ensures
            r.value() == v,
            r.accesses() == Seq::<u8>::empty(),
    {
        Resource { cell: v, accesses: Ghost(Seq::empty()) }
    }

    /// Run `f` on the value at the running priority held by `priority`,
    /// recording that priority as an access.
    fn access<R, F: FnOnce(&mut T) -> R>(&mut self, priority: &Priority, f: F) -> (r: R)
        requires
            forall|v: &mut T| *v == old(self).value() ==> f.requires((v,)),
        ensures
            final(self).accesses() == old(self).accesses().push(priority@),
            exists|m: &mut T| *m == old(self).value() && *final(m) == final(self).value() && f.ensures((m,), r),
    {
        self.accesses = Ghost(self.accesses@.push(priority@));
        f(&mut self.cell)
    }

    /// Run `f` on the value of the resource with the running priority raised
    /// to the ceiling `CEIL` (Stack Resource Policy): `f` gets the value and
    /// the running priority, which holds `locked_priority(current, CEIL)`,
    /// where `current` is the priority held by `priority`; `f` may lock
    /// further resources with it. The access is recorded at that priority and
    /// `priority` gets its value back afterwards. The result is the one `f`
    /// returns.
    pub fn lock<R, F: FnOnce(&mut T, &mut Priority) -> R>(&mut self, priority: &mut Priority, f: F) -> (r: R)
        requires
            forall|v: &mut T, p: &mut Priority|
                *v == old(self).value() && p@ == locked_priority(old(priority)@, CEIL) ==> f.requires((v, p)),
        ensures
            final(priority)@ == old(priority)@,
            final(self).accesses() == old(self).accesses().push(locked_priority(old(priority)@, CEIL)),
            exists|m: &mut T, q: &mut Priority|
                *m == old(self).value() && *final(m) == final(self).value()
                    && q@ == locked_priority(old(priority)@, CEIL) && f.ensures((m, q), r),
    {
        let previous = raise_priority(priority, CEIL);
        self.accesses = Ghost(self.accesses@.push(priority@));
        let r = f(&mut self.cell, priority);
        priority.set(previous);
        r
    }
}

/// Nested locks on one running priority: a lock taken inside another, with
/// the priority the outer lock hands to its closure, runs at the highest of
/// the entry priority `p` and the two ceilings, never below the level of the
/// outer lock, whichever of the two ceilings is the higher; and as each lock
/// gives the priority back its entry value, `p` holds again after both.
pub proof fn lemma_nested_lock_level(p: u8, outer: u8, inner: u8)
    ensures
        locked_priority(locked_priority(p, outer), inner) >= locked_priority(p, outer),
        locked_priority(locked_priority(p, outer), inner) >= p,
        locked_priority(locked_priority(p, outer), inner) >= outer,
        locked_priority(locked_priority(p, outer), inner) >= inner,
        locked_priority(locked_priority(p, outer), inner) == p
            || locked_priority(locked_priority(p, outer), inner) == outer
            || locked_priority(locked_priority(p, outer), inner) == inner,
        locked_priority(locked_priority(p, outer), inner) == locked_priority(locked_priority(p, inner), outer),
{
}

/// The access a context has to a resource: the resource together with the
/// priority of the context.
pub struct Mutex<'a, T, const CEIL: u8> {
    pub priority: &'a mut Priority,
    pub resource: &'a mut Resource<T, CEIL>,
}

impl<'a, T, const CEIL: u8> Mutex<'a, T, CEIL> {
    /// The value of the resource.
    pub open spec fn value(&self) -> T {
        self.resource.value()
    }

    /// The priority of the context.
    pub open spec fn priority(&self) -> u8 {
        self.priority@
    }

    /// Access to `resource` from the context whose priority `priority` holds.
    pub fn new(resource: &'a mut Resource<T, CEIL>, priority: &'a mut Priority) -> (m: Self)
        ensures
            *m.resource == *old(resource),
            *m.priority == *old(priority),
            *final(m.resource) == *final(resource),
            *final(m.priority) == *final(priority),
    {
        Mutex { priority, resource }
    }

    /// Lock the resource and run `f` on its value at the priority
    /// `locked_priority(p, CEIL)`, where `p` is the priority of the context;
    /// the priority of the context is `p` again afterwards.
    pub fn lock<R, F: FnOnce(&mut T) -> R>(&mut self, f: F) -> (r: R)
        requires
            forall|v: &mut T| *v == old(self).value() ==> f.requires((v,)),
        ensures
            final(self).priority() == old(self).priority(),
            final(self).resource.accesses() == old(self).resource.accesses().push(
                locked_priority(old(self).priority(), CEIL),
            ),
            *final(final(self).resource) == *final(old(self).resource),
            *final(final(self).priority) == *final(old(self).priority),
            exists|m: &mut T| *m == old(self).value() && *final(m) == final(self).value() && f.ensures((m,), r),
    {
        let previous = raise_priority(self.priority, CEIL);
        let r = self.resource.access(self.priority, f);
        self.priority.set(previous);
        r
    }
}

} // verus!
