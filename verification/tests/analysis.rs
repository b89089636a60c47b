use rtic_zero::analysis::resource_ceiling;
use rtic_zero::syntax::{task_set, Idle, Resource, TaskSet};

fn res(id: &str, ty: &str) -> Resource {
    Resource { id: id.to_string(), ty: ty.to_string() }
}

#[test]
fn cielings() {
    let task_set = task_set();
    let rtp = resource_ceiling(&task_set);
    println!("ceilings {:?}", rtp.len());
}

#[test]
fn ceilings_of_example_task_set() {
    let ts = task_set();
    let rtp = resource_ceiling(&ts);
    assert_eq!(rtp.len(), 3);
    assert_eq!(rtp.get(&res("r1", "u32")), Some(&2));
    assert_eq!(rtp.get(&res("r2", "u32")), Some(&3));
    assert_eq!(rtp.get(&res("r3", "u32")), Some(&3));
    assert_eq!(rtp.get(&res("r4", "u32")), None);
    // same id, other type: another resource
    assert_eq!(rtp.get(&res("r1", "u64")), None);
}

#[test]
fn idle_takes_part_at_priority_zero() {
    let mut ts: TaskSet = task_set();
    ts.tasks.clear();
    ts.idle = Some(Idle { shared: vec![res("x", "u8")], locals: vec![] });
    let rtp = resource_ceiling(&ts);
    assert_eq!(rtp.len(), 1);
    assert_eq!(rtp.get(&res("x", "u8")), Some(&0));
}

#[test]
fn idle_does_not_lower_a_ceiling() {
    let mut ts: TaskSet = task_set();
    ts.idle = Some(Idle { shared: vec![res("r1", "u32")], locals: vec![] });
    let rtp = resource_ceiling(&ts);
    assert_eq!(rtp.get(&res("r1", "u32")), Some(&2));
}

#[test]
fn no_tasks_no_ceilings() {
    let mut ts: TaskSet = task_set();
    ts.tasks.clear();
    let rtp = resource_ceiling(&ts);
    assert_eq!(rtp.len(), 0);
}

#[test]
fn example_task_set_contents() {
    let ts = task_set();
    assert_eq!(ts.device, "some_dev");
    assert_eq!(ts.tasks.len(), 3);
    assert_eq!(ts.tasks[0].id, "t1");
    assert_eq!(ts.tasks[0].binds, Some("EXTI0".to_string()));
    assert_eq!(ts.tasks[2].binds, None);
    assert_eq!(ts.tasks[0].locals[1].value, "2");
    assert_eq!(ts.tasks[1].shared.len(), 2);
}
