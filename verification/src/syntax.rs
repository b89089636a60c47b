//! The description of an application: its tasks, their priorities and the
//! resources they share or own.
use vstd::prelude::*;
use vstd::string::*;
use crate::keyed::KeyEq;

verus! {

/// A resource shared between tasks, with the Rust type of its value.
#[derive(Debug)]
pub struct Resource {
    pub id: String,
    pub ty: String,
}

/// A resource owned by one context, with its type and initial value (both
/// Rust source text).
#[derive(Debug)]
pub struct ResourceInit {
    pub id: String,
    pub ty: String,
    pub value: String,
}

/// A hardware task: it runs at `priority` when the interrupt it `binds` fires.
#[derive(Debug)]
pub struct Task {
    pub id: String,
    pub priority: u8,
    pub binds: Option<String>,
    pub shared: Vec<Resource>,
    pub locals: Vec<ResourceInit>,
}

/// The initialisation context.
#[derive(Debug)]
pub struct Init {
    pub locals: Vec<ResourceInit>,
    pub late: (),
}

/// The idle context, running at priority 0.
#[derive(Debug)]
pub struct Idle {
    pub shared: Vec<Resource>,
    pub locals: Vec<ResourceInit>,
}

/// A whole application.
#[derive(Debug)]
pub struct TaskSet {
    pub device: String,
    pub shared: Vec<Resource>,
    pub locals: Vec<Resource>,
    pub init: Init,
    pub idle: Option<Idle>,
    pub tasks: Vec<Task>,
}

impl View for Resource {
    type V = (Seq<char>, Seq<char>);

    open spec fn view(&self) -> (Seq<char>, Seq<char>) {
        (self.id@, self.ty@)
    }
}

impl Clone for Resource {
    fn clone(&self) -> (r: Self)
        ensures
            r@ == self@,
    {
        Resource { id: self.id.clone(), ty: self.ty.clone() }
    }
}

impl KeyEq for Resource {
    fn key_eq(&self, other: &Self) -> (b: bool) {
        self.id == other.id && self.ty == other.ty
    }

    fn key_clone(&self) -> (c: Self) {
        self.clone()
    }
}

impl Clone for ResourceInit {
    fn clone(&self) -> (r: Self)
        ensures
            r.id@ == self.id@,
            r.ty@ == self.ty@,
            r.value@ == self.value@,
    {
        ResourceInit { id: self.id.clone(), ty: self.ty.clone(), value: self.value.clone() }
    }
}

/// The views of a sequence of resources.
pub open spec fn resource_views(rs: Seq<Resource>) -> Seq<(Seq<char>, Seq<char>)> {
    rs.map_values(|r: Resource| r@)
}

fn resource(id: &str, ty: &str) -> (r: Resource)
    ensures
        r.id@ == id@,
        r.ty@ == ty@,
{
    Resource { id: String::from_str(id), ty: String::from_str(ty) }
}

fn resource_init(id: &str, ty: &str, value: &str) -> (r: ResourceInit)
    ensures
        r.id@ == id@,
        r.ty@ == ty@,
        r.value@ == value@,
{
    ResourceInit { id: String::from_str(id), ty: String::from_str(ty), value: String::from_str(value) }
}

/// An example application: three tasks at priorities 1, 2 and 3 sharing the
/// resources `r1`, `r2` and `r3` (all of type `u32`).
pub fn task_set() -> (ts: TaskSet)
    ensures
        ts.device@ == "some_dev"@,
        ts.shared@.len() == 0,
        ts.locals@.len() == 0,
        ts.init.locals@.len() == 0,
        ts.idle is None,
        ts.tasks@.len() == 3,
        ts.tasks@[0].id@ == "t1"@,
        ts.tasks@[0].priority == 1,
        ts.tasks@[0].binds matches Some(b) && b@ == "EXTI0"@,
        resource_views(ts.tasks@[0].shared@) == seq![("r1"@, "u32"@), ("r2"@, "u32"@), ("r3"@, "u32"@)],
        ts.tasks@[0].locals@.len() == 2,
        ts.tasks@[0].locals@[0].id@ == "ri1"@,
        ts.tasks@[0].locals@[0].ty@ == "u32"@,
        ts.tasks@[0].locals@[0].value@ == "1"@,
        ts.tasks@[0].locals@[1].id@ == "ri2"@,
        ts.tasks@[0].locals@[1].ty@ == "u32"@,
        ts.tasks@[0].locals@[1].value@ == "2"@,
        ts.tasks@[1].id@ == "t2"@,
        ts.tasks@[1].priority == 2,
        ts.tasks@[1].binds matches Some(b) && b@ == "EXTI1"@,
        resource_views(ts.tasks@[1].shared@) == seq![("r1"@, "u32"@), ("r2"@, "u32"@)],
        ts.tasks@[1].locals@.len() == 0,
        ts.tasks@[2].id@ == "t3"@,
        ts.tasks@[2].priority == 3,
        ts.tasks@[2].binds is None,
        resource_views(ts.tasks@[2].shared@) == seq![("r2"@, "u32"@), ("r3"@, "u32"@)],
        ts.tasks@[2].locals@.len() == 0,
{
    let r1 = resource("r1", "u32");
    let r2 = resource("r2", "u32");
    let r3 = resource("r3", "u32");

    let ri1 = resource_init("ri1", "u32", "1");
    let ri2 = resource_init("ri2", "u32", "2");

    let t1 = Task {
        id: String::from_str("t1"),
        priority: 1,
        binds: Some(String::from_str("EXTI0")),
        shared: vec![r1.clone(), r2.clone(), r3.clone()],
        locals: vec![ri1.clone(), ri2.clone()],
    };
    let t2 = Task {
        id: String::from_str("t2"),
        priority: 2,
        binds: Some(String::from_str("EXTI1")),
        shared: vec![r1.clone(), r2.clone()],
        locals: vec![],
    };
    let t3 = Task {
        priority: 3,
        id: String::from_str("t3"),
        binds: None,
        shared: vec![r2.clone(), r3.clone()],
        locals: vec![],
    };
    let ts = TaskSet {
        device: String::from_str("some_dev"),
        shared: vec![],
        locals: vec![],
        init: Init { locals: vec![], late: () },
        idle: None,
        tasks: vec![t1, t2, t3],
    };
    assert(resource_views(ts.tasks@[0].shared@) =~= seq![("r1"@, "u32"@), ("r2"@, "u32"@), ("r3"@, "u32"@)]);
    assert(resource_views(ts.tasks@[1].shared@) =~= seq![("r1"@, "u32"@), ("r2"@, "u32"@)]);
    assert(resource_views(ts.tasks@[2].shared@) =~= seq![("r2"@, "u32"@), ("r3"@, "u32"@)]);
    ts
}

} // verus!
