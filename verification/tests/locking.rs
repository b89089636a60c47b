use rtic_zero::backend::{end_lock, level_count, lock_plan, logical2hw, LockPlan, Resource as HwResource, ResourceProxy};
use rtic_zero::mutex::Mutex as MutexTrait;
use rtic_zero::priority::Priority;
use rtic_zero::resource::{raise_priority, Mutex, Resource};

#[test]
fn priority_get_set() {
    let mut p = Priority::new(3);
    assert_eq!(p.get(), 3);
    p.set(7);
    assert_eq!(p.get(), 7);
}

#[test]
fn lock_raises_and_restores() {
    let mut p = Priority::new(0);
    let mut r: Resource<u32, 2> = Resource::new(5);
    let v = r.lock(&mut p, |v, _| {
        *v += 1;
        *v
    });
    assert_eq!(v, 6);
    assert_eq!(p.get(), 0);
    let v = r.lock(&mut p, |v, _| *v);
    assert_eq!(v, 6);
}

#[test]
fn lock_from_above_ceiling_keeps_priority() {
    let mut p = Priority::new(3);
    let mut r: Resource<u32, 1> = Resource::new(10);
    let v = r.lock(&mut p, |v, _| {
        *v -= 1;
        *v
    });
    assert_eq!(v, 9);
    assert_eq!(p.get(), 3);
}

fn inc(r: &mut Mutex<u32, 1>) -> u32 {
    r.lock(|v| {
        *v += 1;
        *v
    })
}

fn dec(r: &mut Mutex<u32, 1>) -> u32 {
    r.lock(|v| {
        *v -= 1;
        *v
    })
}

fn gen<const CEIL: u8>(r: &mut Mutex<u32, CEIL>) -> u32 {
    r.lock(|v| {
        *v -= CEIL as u32;
        *v
    })
}

#[test]
fn mutex_sequence() {
    let mut priority = Priority::new(0);
    let mut res: Resource<u32, 1> = Resource::new(5);
    let mut m = Mutex::new(&mut res, &mut priority);
    assert_eq!(inc(&mut m), 6);
    assert_eq!(dec(&mut m), 5);
    assert_eq!(gen(&mut m), 4);
    assert_eq!(m.priority.get(), 0);
}

fn through_trait<M: MutexTrait<u32>>(m: &mut M) -> u32 {
    m.lock(|v| {
        *v *= 2;
        *v
    })
}

#[test]
fn mutex_trait_locks() {
    let mut priority = Priority::new(1);
    let mut res: Resource<u32, 2> = Resource::new(21);
    let mut m = Mutex::new(&mut res, &mut priority);
    assert_eq!(through_trait(&mut m), 42);
    assert_eq!(m.priority.get(), 1);
}

#[test]
fn logical_to_hardware() {
    // three priority bits: logical 1..=8 map to 0xE0, 0xC0, ..., 0x00
    assert_eq!(logical2hw(1, 3), 0xE0);
    assert_eq!(logical2hw(2, 3), 0xC0);
    assert_eq!(logical2hw(3, 3), 0xA0);
    assert_eq!(logical2hw(7, 3), 0x20);
    assert_eq!(logical2hw(8, 3), 0x00);
    assert_eq!(logical2hw(0, 3), 0x00);
    assert_eq!(logical2hw(1, 1), 0x80);
    assert_eq!(logical2hw(1, 7), 0xFE);
    assert_eq!(logical2hw(128, 7), 0x00);
    assert_eq!(logical2hw(5, 4), 0xB0);
}

#[test]
fn lock_plans() {
    assert!(matches!(lock_plan(3, 2, 3), LockPlan::Direct));
    assert!(matches!(lock_plan(2, 2, 3), LockPlan::Direct));
    assert!(matches!(lock_plan(1, 8, 3), LockPlan::CriticalSection { raised: 255, previous: 1 }));
    assert!(matches!(
        lock_plan(1, 3, 3),
        LockPlan::Basepri { raised: 3, previous: 1, enter: 0xA0, exit: 0xE0 }
    ));
    assert!(matches!(
        lock_plan(0, 2, 3),
        LockPlan::Basepri { raised: 2, previous: 0, enter: 0xC0, exit: 0x00 }
    ));
    // a ceiling that does not exceed the current priority needs no hardware
    assert!(matches!(lock_plan(9, 9, 0), LockPlan::Direct));
}

#[test]
fn backend_resource_lock_cycle() {
    let mut priority = Priority::new(1);
    let mut res: HwResource<u64, 3> = HwResource::new();
    res.write_maybe_uninit(40);
    let plan = res.begin_lock(&mut priority, 3);
    assert!(matches!(plan, LockPlan::Basepri { raised: 3, previous: 1, enter: 0xA0, exit: 0xE0 }));
    assert_eq!(priority.get(), 3);
    let v = res.access(|v| {
        *v += 2;
        *v
    });
    assert_eq!(v, 42);
    end_lock(&mut priority, &plan);
    assert_eq!(priority.get(), 1);
}

#[test]
fn backend_top_ceiling_uses_critical_section() {
    let mut priority = Priority::new(2);
    let res: HwResource<u8, 8> = HwResource::new();
    let plan = res.begin_lock(&mut priority, 3);
    assert!(matches!(plan, LockPlan::CriticalSection { raised: 8, previous: 2 }));
    assert_eq!(priority.get(), 8);
    end_lock(&mut priority, &plan);
    assert_eq!(priority.get(), 2);
}

#[test]
fn proxy_holds_resource_and_priority() {
    let mut priority = Priority::new(0);
    let mut res: HwResource<u8, 1> = HwResource::new();
    res.write_maybe_uninit(7);
    let proxy = ResourceProxy::new(&mut res, &mut priority);
    let plan = proxy.resource.begin_lock(proxy.priority, 3);
    assert!(matches!(plan, LockPlan::Basepri { raised: 1, previous: 0, enter: 0xE0, exit: 0 }));
    let v = proxy.resource.access(|v| *v);
    end_lock(proxy.priority, &plan);
    assert_eq!(v, 7);
    assert_eq!(proxy.priority.get(), 0);
}

#[test]
fn level_counts() {
    assert_eq!(level_count(0), None);
    assert_eq!(level_count(1), Some(2));
    assert_eq!(level_count(3), Some(8));
    assert_eq!(level_count(7), Some(128));
    assert_eq!(level_count(8), None);
}

#[test]
fn backend_resource_starts_empty() {
    let mut res: HwResource<u32, 1> = HwResource::new();
    assert!(!res.is_initialized());
    res.write_maybe_uninit(3);
    assert!(res.is_initialized());
}

#[test]
fn raising_priority() {
    let mut p = Priority::new(1);
    assert_eq!(raise_priority(&mut p, 3), 1);
    assert_eq!(p.get(), 3);
    assert_eq!(raise_priority(&mut p, 2), 3);
    assert_eq!(p.get(), 3);
}

struct Counted(std::rc::Rc<std::cell::Cell<u32>>);

impl Drop for Counted {
    fn drop(&mut self) {
        self.0.set(self.0.get() + 1);
    }
}

#[test]
fn rewriting_a_resource_drops_nothing() {
    let drops = std::rc::Rc::new(std::cell::Cell::new(0u32));
    let mut res: HwResource<Counted, 1> = HwResource::new();
    res.write_maybe_uninit(Counted(drops.clone()));
    res.write_maybe_uninit(Counted(drops.clone()));
    // the first value is overwritten, not dropped
    assert_eq!(drops.get(), 0);
    assert!(res.is_initialized());
}

#[test]
fn priority_gives_back_the_last_value_set() {
    let mut p = Priority::new(4);
    assert_eq!(p.get(), 4);
    assert_eq!(p.get(), 4);
    p.set(1);
    p.set(7);
    p.set(2);
    assert_eq!(p.get(), 2);
    assert_eq!(p.get(), 2);
}

#[test]
fn nested_locks_share_one_priority() {
    let mut p = Priority::new(1);
    let mut outer: Resource<u32, 2> = Resource::new(5);
    let mut inner: Resource<u32, 4> = Resource::new(7);
    let mut low: Resource<u32, 1> = Resource::new(9);
    let sum = outer.lock(&mut p, |a, q| {
        // the outer lock runs at max(1, 2)
        assert_eq!(q.get(), 2);
        let b = inner.lock(q, |b, q2| {
            // the inner lock runs at max(2, 4)
            assert_eq!(q2.get(), 4);
            let c = low.lock(q2, |c, q3| {
                // a lower ceiling does not lower the priority
                assert_eq!(q3.get(), 4);
                *c
            });
            assert_eq!(q2.get(), 4);
            *b + c
        });
        // the inner lock gave back the outer level
        assert_eq!(q.get(), 2);
        *a + b
    });
    assert_eq!(sum, 21);
    assert_eq!(p.get(), 1);
}
