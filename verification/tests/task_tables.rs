use rtic_zero::ceilings::{cielings, ttr_add, NameSet, TasksToPriorities, TasksToResources};

fn s(x: &str) -> String {
    x.to_string()
}

fn names(set: &NameSet) -> Vec<String> {
    let mut v = Vec::new();
    for i in 0..set.len() {
        v.push(set.entry(i).0.clone());
    }
    v.sort();
    v
}

#[test]
fn t1() {
    let r1 = s("r1");
    let r2 = s("r2");
    let r3 = s("r3");

    let t1 = s("t1");
    let t2 = s("t2");
    let t3 = s("t3");

    let mut ttr = TasksToResources::new();
    let mut ttp = TasksToPriorities::new();

    ttp.insert(t1.clone(), 1); // task 1, priority 1
    ttp.insert(t2.clone(), 2); // task 2, priority 2
    ttp.insert(t3.clone(), 3); // task 3, priority 3

    // task 1 = {r1, r2, r3}
    ttr_add(&mut ttr, &t1, &r1);
    ttr_add(&mut ttr, &t1, &r2);
    ttr_add(&mut ttr, &t1, &r3);

    // task 2 = {r1, r2}
    ttr_add(&mut ttr, &t2, &r1);
    ttr_add(&mut ttr, &t2, &r2);

    // task 3 = {r2, r3}
    ttr_add(&mut ttr, &t3, &r2);
    ttr_add(&mut ttr, &t3, &r3);

    println!("ttp {:?}", ttp.len());
    println!("ttr {:?}", ttr.len());

    let rtp = cielings(&ttr, &ttp);
    println!("rtp {:?}", rtp.len());
}

#[test]
fn ceilings_from_tables() {
    let mut ttr = TasksToResources::new();
    let mut ttp = TasksToPriorities::new();
    ttp.insert(s("t1"), 1);
    ttp.insert(s("t2"), 2);
    ttp.insert(s("t3"), 3);
    ttr_add(&mut ttr, &s("t1"), &s("r1"));
    ttr_add(&mut ttr, &s("t1"), &s("r2"));
    ttr_add(&mut ttr, &s("t1"), &s("r3"));
    ttr_add(&mut ttr, &s("t2"), &s("r1"));
    ttr_add(&mut ttr, &s("t2"), &s("r2"));
    ttr_add(&mut ttr, &s("t3"), &s("r2"));
    ttr_add(&mut ttr, &s("t3"), &s("r3"));
    let rtp = cielings(&ttr, &ttp);
    assert_eq!(rtp.len(), 3);
    assert_eq!(rtp.get(&s("r1")), Some(&2));
    assert_eq!(rtp.get(&s("r2")), Some(&3));
    assert_eq!(rtp.get(&s("r3")), Some(&3));
    assert_eq!(rtp.get(&s("r4")), None);
}

#[test]
fn ttr_add_collects_sets() {
    let mut ttr = TasksToResources::new();
    ttr_add(&mut ttr, &s("t1"), &s("r2"));
    ttr_add(&mut ttr, &s("t1"), &s("r1"));
    ttr_add(&mut ttr, &s("t1"), &s("r2"));
    ttr_add(&mut ttr, &s("t2"), &s("r1"));
    assert_eq!(ttr.len(), 2);
    assert_eq!(names(ttr.get(&s("t1")).unwrap()), vec![s("r1"), s("r2")]);
    assert_eq!(names(ttr.get(&s("t2")).unwrap()), vec![s("r1")]);
    assert!(ttr.get(&s("t3")).is_none());
}

#[test]
fn priority_table_insert_replaces() {
    let mut ttp = TasksToPriorities::new();
    ttp.insert(s("t1"), 1);
    ttp.insert(s("t1"), 4);
    assert_eq!(ttp.len(), 1);
    assert_eq!(ttp.get(&s("t1")), Some(&4));
    assert!(ttp.contains_key(&s("t1")));
    assert!(!ttp.contains_key(&s("t2")));
}

#[test]
fn empty_tables_give_no_ceilings() {
    let ttr = TasksToResources::new();
    let ttp = TasksToPriorities::new();
    let rtp = cielings(&ttr, &ttp);
    assert_eq!(rtp.len(), 0);
}
