//! Priority handling of the Cortex-M backend: the mapping from logical task
//! priorities to NVIC hardware priorities, and the decisions taken when a
//! resource is locked under the Stack Resource Policy.
//!
//! The hardware steps themselves (writing BASEPRI, masking interrupts) are
//! carried out by the caller; this module decides which steps are taken and
//! keeps track of the logical system priority.
use vstd::prelude::*;
use vstd::arithmetic::power2::{pow2, lemma2_to64, lemma_pow2_adds, lemma_pow2_pos};
use crate::priority::Priority;

verus! {

/// Number of logical priority levels that `nvic_prio_bits` priority bits give.
pub open spec fn levels(nvic_prio_bits: u8) -> int {
    pow2(nvic_prio_bits as nat) as int
}

/// Whether `nvic_prio_bits` is a width that the mapping supports.
pub open spec fn valid_prio_bits(nvic_prio_bits: u8) -> bool {
    1 <= nvic_prio_bits <= 7
}

/// The NVIC priority register value of logical priority `logical`.
///
/// Logical priorities grow with urgency while the NVIC treats smaller values
/// as more urgent, and only the `nvic_prio_bits` most significant bits of the
/// register are implemented: the value is `256 - logical * 2^(8 - bits)`,
/// wrapped into a byte (so logical 0 is the register value 0).
pub open spec fn hw_priority(logical: u8, nvic_prio_bits: u8) -> int {
    if logical == 0 {
        0
    } else {
        256 - logical * pow2((8 - nvic_prio_bits) as nat)
    }
}

proof fn lemma_top_level(b: u8)
    requires
        valid_prio_bits(b),
    ensures
        (1u8 << b) == levels(b),
        levels(b) <= 128,
{
    lemma2_to64();
    if b == 1 { assert(1u8 << 1u8 == 2) by (bit_vector); }
    else if b == 2 { assert(1u8 << 2u8 == 4) by (bit_vector); }
    else if b == 3 { assert(1u8 << 3u8 == 8) by (bit_vector); }
    else if b == 4 { assert(1u8 << 4u8 == 16) by (bit_vector); }
    else if b == 5 { assert(1u8 << 5u8 == 32) by (bit_vector); }
    else if b == 6 { assert(1u8 << 6u8 == 64) by (bit_vector); }
    else { assert(1u8 << 7u8 == 128) by (bit_vector); }
}

proof fn lemma_levels_step(b: u8)
    requires
        valid_prio_bits(b),
    ensures
        levels(b) * pow2((8 - b) as nat) == 256,
        pow2((8 - b) as nat) > 0,
{
    lemma_pow2_adds(b as nat, (8 - b) as nat);
    lemma_pow2_pos((8 - b) as nat);
    lemma2_to64();
}

/// The number of logical priority levels, when `nvic_prio_bits` is a
/// supported width.
pub fn level_count(nvic_prio_bits: u8) -> (n: Option<u8>)
    ensures
        n matches Some(l) ==> valid_prio_bits(nvic_prio_bits) && l == levels(nvic_prio_bits),
        n is None ==> !valid_prio_bits(nvic_prio_bits),
{
    if 1 <= nvic_prio_bits && nvic_prio_bits <= 7 {
        proof {
            lemma_top_level(nvic_prio_bits);
        }
        Some(1u8 << nvic_prio_bits)
    } else {
        None
    }
}

/// Map a logical priority to the value of an NVIC priority register.
pub fn logical2hw(logical: u8, nvic_prio_bits: u8) -> (hw: u8)
    requires
        valid_prio_bits(nvic_prio_bits),
        logical <= levels(nvic_prio_bits),
    ensures
        hw == hw_priority(logical, nvic_prio_bits),
{
    proof {
        lemma2_to64();
        let b = nvic_prio_bits;
        let l = logical;
        if b == 1 {
            assert((((1u8 << 1u8) - l) as u8) << 7u8 == (if l == 0 { 0 } else { 256 - l * 128 })) by (bit_vector)
                requires l <= 2;
        } else if b == 2 {
            assert((((1u8 << 2u8) - l) as u8) << 6u8 == (if l == 0 { 0 } else { 256 - l * 64 })) by (bit_vector)
                requires l <= 4;
        } else if b == 3 {
            assert((((1u8 << 3u8) - l) as u8) << 5u8 == (if l == 0 { 0 } else { 256 - l * 32 })) by (bit_vector)
                requires l <= 8;
        } else if b == 4 {
            assert((((1u8 << 4u8) - l) as u8) << 4u8 == (if l == 0 { 0 } else { 256 - l * 16 })) by (bit_vector)
                requires l <= 16;
        } else if b == 5 {
            assert((((1u8 << 5u8) - l) as u8) << 3u8 == (if l == 0 { 0 } else { 256 - l * 8 })) by (bit_vector)
                requires l <= 32;
        } else if b == 6 {
            assert((((1u8 << 6u8) - l) as u8) << 2u8 == (if l == 0 { 0 } else { 256 - l * 4 })) by (bit_vector)
                requires l <= 64;
        } else {
            assert((((1u8 << 7u8) - l) as u8) << 1u8 == (if l == 0 { 0 } else { 256 - l * 2 })) by (bit_vector)
                requires l <= 128;
        }
        lemma_top_level(b);
    }
    ((1u8 << nvic_prio_bits) - logical) << (8 - nvic_prio_bits)
}

/// What locking a resource takes, decided from the current logical priority,
/// the resource ceiling and the number of NVIC priority bits.
pub enum LockPlan {
    /// The ceiling does not exceed the current priority: the resource is
    /// accessed directly, nothing is raised.
    Direct,
    /// The ceiling is the highest hardware level: the access runs inside a
    /// global critical section with the logical priority set to `raised`,
    /// which is restored to `previous` afterwards.
    CriticalSection { raised: u8, previous: u8 },
    /// The system ceiling is raised through BASEPRI: `enter` is written
    /// before the access and `exit` after it, while the logical priority is
    /// `raised` during the access and `previous` again afterwards.
    Basepri { raised: u8, previous: u8, enter: u8, exit: u8 },
}

impl LockPlan {
    /// The logical priority at which the access runs, when it started at `current`.
    pub open spec fn level(self, current: u8) -> u8 {
        match self {
            LockPlan::Direct => current,
            LockPlan::CriticalSection { raised, .. } => raised,
            LockPlan::Basepri { raised, .. } => raised,
        }
    }

    /// The logical priority in force once the lock is released.
    pub open spec fn restored(self, current: u8) -> u8 {
        match self {
            LockPlan::Direct => current,
            LockPlan::CriticalSection { previous, .. } => previous,
            LockPlan::Basepri { previous, .. } => previous,
        }
    }
}

/// Whether locking from `current` with `ceiling` can be planned: when the
/// ceiling is above the current priority the NVIC mapping is needed, so the
/// priority bits must be supported and the ceiling a logical level.
pub open spec fn plannable(current: u8, ceiling: u8, nvic_prio_bits: u8) -> bool {
    current < ceiling ==> valid_prio_bits(nvic_prio_bits) && ceiling <= levels(nvic_prio_bits)
}

/// The plan for locking a resource with ceiling `ceiling` from logical
/// priority `current`; `critical` is the logical priority recorded while a
/// ceiling at the highest hardware level is held.
pub open spec fn spec_plan(current: u8, ceiling: u8, nvic_prio_bits: u8, critical: u8) -> LockPlan {
    if ceiling <= current {
        LockPlan::Direct
    } else if ceiling == levels(nvic_prio_bits) {
        LockPlan::CriticalSection { raised: critical, previous: current }
    } else {
        LockPlan::Basepri {
            raised: ceiling,
            previous: current,
            enter: hw_priority(ceiling, nvic_prio_bits) as u8,
            exit: hw_priority(current, nvic_prio_bits) as u8,
        }
    }
}

fn plan(current: u8, ceiling: u8, nvic_prio_bits: u8, critical: u8) -> (p: LockPlan)
    requires
        plannable(current, ceiling, nvic_prio_bits),
    ensures
        p == spec_plan(current, ceiling, nvic_prio_bits, critical),
{
    if current < ceiling {
        proof {
            lemma2_to64();
        }
        proof {
            lemma_top_level(nvic_prio_bits);
        }
        let top: u8 = 1u8 << nvic_prio_bits;
        if ceiling == top {
            LockPlan::CriticalSection { raised: critical, previous: current }
        } else {
            let enter = logical2hw(ceiling, nvic_prio_bits);
            let exit = logical2hw(current, nvic_prio_bits);
            LockPlan::Basepri { raised: ceiling, previous: current, enter, exit }
        }
    } else {
        LockPlan::Direct
    }
}

/// The three ways a lock goes under the Stack Resource Policy: a ceiling
/// not above the current priority gives direct access; a ceiling between
/// the current priority and the highest hardware level raises BASEPRI to the
/// ceiling's hardware priority and writes back the current one afterwards,
/// with the logical priority at the ceiling meanwhile; and only the ceiling
/// `2^nvic_prio_bits`, the highest level, masks all interrupts.
pub proof fn lemma_plan_cases(current: u8, ceiling: u8, nvic_prio_bits: u8, critical: u8)
    requires
        plannable(current, ceiling, nvic_prio_bits),
    ensures
        ceiling <= current ==> spec_plan(current, ceiling, nvic_prio_bits, critical) == LockPlan::Direct,
        current < ceiling < levels(nvic_prio_bits) ==> spec_plan(current, ceiling, nvic_prio_bits, critical)
            == (LockPlan::Basepri {
                raised: ceiling,
                previous: current,
                enter: hw_priority(ceiling, nvic_prio_bits) as u8,
                exit: hw_priority(current, nvic_prio_bits) as u8,
            }),
        current < ceiling && ceiling == levels(nvic_prio_bits) ==> spec_plan(current, ceiling, nvic_prio_bits, critical)
            == (LockPlan::CriticalSection { raised: critical, previous: current }),
        (spec_plan(current, ceiling, nvic_prio_bits, critical) is CriticalSection) ==> ceiling == levels(nvic_prio_bits),
        (spec_plan(current, ceiling, nvic_prio_bits, critical) is Basepri) ==> current < ceiling < levels(nvic_prio_bits),
        current < ceiling < levels(nvic_prio_bits) ==> 0 < hw_priority(ceiling, nvic_prio_bits) < 256,
{
    if current < ceiling && ceiling < levels(nvic_prio_bits) {
        lemma_levels_step(nvic_prio_bits);
        let k = pow2((8 - nvic_prio_bits) as nat);
        assert(ceiling * k < levels(nvic_prio_bits) * k) by (nonlinear_arith)
            requires ceiling < levels(nvic_prio_bits), k > 0;
        assert(ceiling * k >= k) by (nonlinear_arith)
            requires ceiling >= 1, k > 0;
    }
}

/// The decisions of the free-standing `lock`: a ceiling at the highest
/// hardware level is held with the logical priority saturated to `u8::MAX`.
pub fn lock_plan(current: u8, ceiling: u8, nvic_prio_bits: u8) -> (p: LockPlan)
    requires
        plannable(current, ceiling, nvic_prio_bits),
    ensures
        p == spec_plan(current, ceiling, nvic_prio_bits, u8::MAX),
{
    plan(current, ceiling, nvic_prio_bits, u8::MAX)
}

/// `std::mem::forget`: takes ownership of `v` without running its
/// destructor; nothing is returned, so nothing is stated.
#[verifier::external_body]
fn forget<T>(v: T) {
    std::mem::forget(v)
}

/// A shared resource with ceiling `CEIL`. Its storage starts out empty and
/// is filled once, by the code that moves the values returned by `init` into
/// the resources.
pub struct Resource<T, const CEIL: u8> {
    cell: Option<T>,
}

impl<T, const CEIL: u8> Resource<T, CEIL> {
    /// The value stored in the resource, if it has been written.
    pub closed spec fn contents(&self) -> Option<T> {
        self.cell
    }

    /// An empty resource.
    pub fn new() -> (r: Self)
        ensures
            r.contents() is None,
    {
        Resource { cell: None }
    }

    /// Whether the initial value has been stored.
    pub fn is_initialized(&self) -> (b: bool)
        ensures
            b == self.contents() is Some,
    {
        self.cell.is_some()
    }

    /// Store the initial value of the resource. A value stored earlier is
    /// overwritten without being dropped.
    pub fn write_maybe_uninit(&mut self, v: T)
        ensures
            final(self).contents() == Some(v),
    {
        if let Some(previous) = self.cell.take() {
            forget(previous);
        }
        self.cell = Some(v);
    }

    /// Start a lock from the running priority: returns what has to be done
    /// to the hardware and sets the logical priority to the level of the
    /// access.
    pub fn begin_lock(&self, priority: &mut Priority, nvic_prio_bits: u8) -> (p: LockPlan)
        requires
            plannable(old(priority)@, CEIL, nvic_prio_bits),
        ensures
            p == spec_plan(old(priority)@, CEIL, nvic_prio_bits, CEIL),
            final(priority)@ == p.level(old(priority)@),
    {
        let current = priority.get();
        let p = plan(current, CEIL, nvic_prio_bits, CEIL);
        match p {
            LockPlan::Direct => {},
            LockPlan::CriticalSection { raised, .. } => priority.set(raised),
            LockPlan::Basepri { raised, .. } => priority.set(raised),
        }
        p
    }

    /// Run `f` on the stored value.
    pub fn access<R, F: FnOnce(&mut T) -> R>(&mut self, f: F) -> (r: R)
        requires
            old(self).contents() is Some,
            forall|v: &mut T| *v == old(self).contents()->0 ==> f.requires((v,)),
        ensures
            final(self).contents() is Some,
            exists|m: &mut T|
                *m == old(self).contents()->0 && *final(m) == final(self).contents()->0 && f.ensures((m,), r),
    {
        let v = self.cell.as_mut().unwrap();
        f(v)
    }
}

/// Finish a lock: give the logical priority back the value it had before.
pub fn end_lock(priority: &mut Priority, plan: &LockPlan)
    ensures
        final(priority)@ == plan.restored(old(priority)@),
{
    match plan {
        LockPlan::Direct => {},
        LockPlan::CriticalSection { previous, .. } => priority.set(*previous),
        LockPlan::Basepri { previous, .. } => priority.set(*previous),
    }
}

/// Access to a shared resource from a task running at the priority held by
/// `priority`.
pub struct ResourceProxy<'a, T, const CEIL: u8> {
    pub priority: &'a mut Priority,
    pub resource: &'a mut Resource<T, CEIL>,
}

impl<'a, T, const CEIL: u8> ResourceProxy<'a, T, CEIL> {
    /// A proxy for `resource` used at the priority held by `priority`.
    pub fn new(resource: &'a mut Resource<T, CEIL>, priority: &'a mut Priority) -> (p: Self)
        ensures
            *p.resource == *old(resource),
            *p.priority == *old(priority),
            *final(p.resource) == *final(resource),
            *final(p.priority) == *final(priority),
    {
        ResourceProxy { priority, resource }
    }
}

/// The NVIC values of the logical levels are evenly spaced: level 1 is one
/// hardware step, `2^(8 - bits)`, below 256, each further level is one step
/// lower, and level 0 as well as the top level `2^bits` wrap to 0.
pub proof fn lemma_hw_priority_steps(l: u8, nvic_prio_bits: u8)
    requires
        valid_prio_bits(nvic_prio_bits),
        1 <= l < levels(nvic_prio_bits),
    ensures
        hw_priority(1, nvic_prio_bits) + pow2((8 - nvic_prio_bits) as nat) == 256,
        hw_priority(l, nvic_prio_bits) - hw_priority((l + 1) as u8, nvic_prio_bits) == pow2((8 - nvic_prio_bits) as nat)
            || (l + 1 == levels(nvic_prio_bits) && hw_priority((l + 1) as u8, nvic_prio_bits) == 0),
{
    lemma_levels_step(nvic_prio_bits);
    lemma_top_level(nvic_prio_bits);
    let k = pow2((8 - nvic_prio_bits) as nat);
    assert((l + 1) * k == l * k + k) by (nonlinear_arith);
    assert(((l + 1) as u8) == l + 1);
}

/// Logical priority 0 (the idle level) and the top logical level both map to
/// the register value 0; between them the mapping reverses the order, so a
/// more urgent logical priority always gets a smaller (more urgent) NVIC
/// value, and every value fits in a byte.
pub proof fn lemma_hw_priority_order(a: u8, c: u8, nvic_prio_bits: u8)
    requires
        valid_prio_bits(nvic_prio_bits),
        a <= levels(nvic_prio_bits),
        c <= levels(nvic_prio_bits),
    ensures
        hw_priority(0, nvic_prio_bits) == 0,
        hw_priority(levels(nvic_prio_bits) as u8, nvic_prio_bits) == 0,
        0 <= hw_priority(a, nvic_prio_bits) < 256,
        1 <= a < c < levels(nvic_prio_bits) ==> hw_priority(a, nvic_prio_bits) > hw_priority(c, nvic_prio_bits) > 0,
{
    lemma2_to64();
    let b = nvic_prio_bits;
    lemma_top_level(b);
    let k = pow2((8 - b) as nat);
    lemma_levels_step(b);
    assert(k > 0);
    assert(a <= levels(b) ==> a * k <= levels(b) * k) by (nonlinear_arith);
    assert(a < c ==> a * k < c * k) by (nonlinear_arith) requires k > 0;
    assert(c < levels(b) ==> c * k < levels(b) * k) by (nonlinear_arith) requires k > 0;
    assert(a >= 1 ==> a * k >= 1) by (nonlinear_arith) requires k > 0;
}

/// Locking never lowers the running priority, always reaches the resource
/// ceiling, and releasing the lock restores the priority it started from.
/// When BASEPRI is used, the value written on entry masks (it is not 0) and
/// is more urgent than the value written on exit, which is the register value
/// of the starting priority.
pub proof fn lemma_plan_protects(current: u8, ceiling: u8, nvic_prio_bits: u8, critical: u8)
    requires
        plannable(current, ceiling, nvic_prio_bits),
        critical >= ceiling,
    ensures
        ({
            let p = spec_plan(current, ceiling, nvic_prio_bits, critical);
            &&& p.level(current) >= current
            &&& p.level(current) >= ceiling
            &&& p.restored(current) == current
            &&& p.restored(p.level(current)) == current
            &&& (p matches LockPlan::Basepri { enter, exit, .. } ==> {
                &&& enter != 0
                &&& enter == hw_priority(ceiling, nvic_prio_bits)
                &&& exit == hw_priority(current, nvic_prio_bits)
                &&& (exit == 0 || enter < exit)
            })
        }),
{
    if current < ceiling && ceiling != levels(nvic_prio_bits) {
        lemma_hw_priority_order(current, ceiling, nvic_prio_bits);
        lemma_hw_priority_order(ceiling, ceiling, nvic_prio_bits);
        lemma2_to64();
        let k = pow2((8 - nvic_prio_bits) as nat);
        assert(ceiling < levels(nvic_prio_bits));
        assert(hw_priority(ceiling, nvic_prio_bits) > 0) by {
            lemma_top_level(nvic_prio_bits);
            let b = nvic_prio_bits;
            lemma_levels_step(b);
            assert(ceiling * k < levels(b) * k) by (nonlinear_arith) requires ceiling < levels(b), k > 0;
        }
    }
}

} // verus!
