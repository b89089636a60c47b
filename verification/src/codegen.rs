//! Generation of the application glue code from a task set and its resource
//! ceilings: the resource statics and proxies, the `init`, `idle` and task
//! modules, the interrupt handlers and `main`.
//!
//! The code is produced as Rust source text. The generators require that
//! every name that becomes an identifier is one, that every shared resource
//! has a ceiling, that every task is bound to an interrupt and that every
//! type and initial value lexes as tokens; `check_task_set` establishes this,
//! and `generate` checks and generates in one go.
use vstd::prelude::*;
use vstd::string::*;
use crate::analysis::{contexts, is_ceiling_map, resource_ceiling, ResourceToPriority};
use crate::syntax::{Idle, Init, Resource, ResourceInit, Task, TaskSet};
use crate::tokens::{fallback_lexes, is_ident, valid_ident, valid_tokens, parse_tokens};
use proc_macro2::TokenStream;

verus! {

/// Why code could not be generated.
#[derive(Debug)]
pub enum CodegenError {
    /// A name that must become an identifier is not one.
    InvalidIdent(String),
    /// A type or initial value does not lex as Rust tokens.
    InvalidTokens(String),
    /// A shared resource (named by its id) has no ceiling.
    MissingCeiling(String),
    /// A task (named by its id) is not bound to an interrupt.
    UnboundTask(String),
    /// The generated code does not lex as Rust tokens.
    Unlexable,
}

// ---------------------------------------------------------------------------
// Text helpers

/// The concatenation of `f` applied to every element of `s`, in order.
pub open spec fn concat<A>(s: Seq<A>, f: spec_fn(A) -> Seq<char>) -> Seq<char>
    decreases s.len(),
{
    if s.len() == 0 {
        Seq::empty()
    } else {
        concat(s.drop_last(), f) + f(s.last())
    }
}

pub proof fn lemma_concat_step<A>(s: Seq<A>, f: spec_fn(A) -> Seq<char>, j: int)
    requires
        0 <= j < s.len(),
    ensures
        concat(s.take(j + 1), f) == concat(s.take(j), f) + f(s[j]),
{
    assert(s.take(j + 1).drop_last() =~= s.take(j));
}

pub proof fn lemma_concat_all<A>(s: Seq<A>, f: spec_fn(A) -> Seq<char>)
    ensures
        concat(s.take(s.len() as int), f) == concat(s, f),
        concat(s.take(0), f) == Seq::<char>::empty(),
{
    assert(s.take(s.len() as int) =~= s);
}

/// The elements of `s` mapped by `f` and separated by `sep`.
pub open spec fn join<A>(s: Seq<A>, f: spec_fn(A) -> Seq<char>, sep: Seq<char>) -> Seq<char>
    decreases s.len(),
{
    if s.len() == 0 {
        Seq::empty()
    } else if s.len() == 1 {
        f(s[0])
    } else {
        join(s.drop_last(), f, sep) + sep + f(s.last())
    }
}

pub proof fn lemma_join_step<A>(s: Seq<A>, f: spec_fn(A) -> Seq<char>, sep: Seq<char>, j: int)
    requires
        0 <= j < s.len(),
    ensures
        join(s.take(j + 1), f, sep) == if j == 0 {
            f(s[0])
        } else {
            join(s.take(j), f, sep) + sep + f(s[j])
        },
        join(s.take(0), f, sep) == Seq::<char>::empty(),
        join(s.take(s.len() as int), f, sep) == join(s, f, sep),
{
    assert(s.take(j + 1).drop_last() =~= s.take(j));
    assert(s.take(s.len() as int) =~= s);
    if j == 0 {
        assert(s.take(1)[0] == s[0]);
    }
}

pub proof fn lemma_join_all<A>(s: Seq<A>, f: spec_fn(A) -> Seq<char>, sep: Seq<char>)
    ensures
        join(s.take(0), f, sep) == Seq::<char>::empty(),
        join(s.take(s.len() as int), f, sep) == join(s, f, sep),
{
    assert(s.take(s.len() as int) =~= s);
}

/// Append `item` to `out`, preceded by `sep` unless it is the first element.
fn append_joined(out: &mut String, first: bool, sep: &str, item: &str)
    ensures
        final(out)@ == if first { old(out)@ + item@ } else { old(out)@ + sep@ + item@ },
{
    if !first {
        out.append(sep);
    }
    out.append(item);
}

/// The decimal digit `d`.
pub open spec fn digit_char(d: int) -> char {
    if d == 0 { '0' }
    else if d == 1 { '1' }
    else if d == 2 { '2' }
    else if d == 3 { '3' }
    else if d == 4 { '4' }
    else if d == 5 { '5' }
    else if d == 6 { '6' }
    else if d == 7 { '7' }
    else if d == 8 { '8' }
    else { '9' }
}

/// The decimal notation of `n`.
pub open spec fn decimal(n: nat) -> Seq<char>
    decreases n,
{
    if n < 10 {
        seq![digit_char(n as int)]
    } else {
        decimal(n / 10) + seq![digit_char((n % 10) as int)]
    }
}

fn digit(d: u8) -> (s: &'static str)
    requires
        d < 10,
    ensures
        s@ == seq![digit_char(d as int)],
{
    proof {
        reveal_strlit("0");
        reveal_strlit("1");
        reveal_strlit("2");
        reveal_strlit("3");
        reveal_strlit("4");
        reveal_strlit("5");
        reveal_strlit("6");
        reveal_strlit("7");
        reveal_strlit("8");
        reveal_strlit("9");
    }
    let s = if d == 0 { "0" }
    else if d == 1 { "1" }
    else if d == 2 { "2" }
    else if d == 3 { "3" }
    else if d == 4 { "4" }
    else if d == 5 { "5" }
    else if d == 6 { "6" }
    else if d == 7 { "7" }
    else if d == 8 { "8" }
    else { "9" };
    assert(s@ =~= seq![digit_char(d as int)]);
    s
}

/// The decimal notation of `n`.
pub fn u8_decimal(n: u8) -> (s: String)
    ensures
        s@ == decimal(n as nat),
{
    if n >= 100 {
        let mut s = String::from_str(digit(n / 100));
        s.append(digit((n / 10) % 10));
        s.append(digit(n % 10));
        assert(decimal((n / 10) as nat) == decimal((n / 100) as nat) + seq![digit_char(((n / 10) % 10) as int)]);
        assert(decimal((n / 100) as nat) == seq![digit_char((n / 100) as int)]);
        s
    } else if n >= 10 {
        let mut s = String::from_str(digit(n / 10));
        s.append(digit(n % 10));
        assert(decimal((n / 10) as nat) == seq![digit_char((n / 10) as int)]);
        s
    } else {
        String::from_str(digit(n))
    }
}

// ---------------------------------------------------------------------------
// What generation needs

/// A shared resource can be generated: its id is an identifier and it has a ceiling.
pub open spec fn resource_ok(r: Resource, m: Map<(Seq<char>, Seq<char>), u8>) -> bool {
    &&& is_ident(r.id@)
    &&& m.contains_key(r@)
}

/// The type of a shared resource lexes.
pub open spec fn resource_lexes(r: Resource) -> bool {
    fallback_lexes(r.ty@)
}

/// `e` reports a genuine defect of the shared resource `r`.
pub open spec fn resource_defect(r: Resource, m: Map<(Seq<char>, Seq<char>), u8>, e: CodegenError) -> bool {
    match e {
        CodegenError::InvalidIdent(x) => x@ == r.id@ && !is_ident(r.id@),
        CodegenError::MissingCeiling(x) => x@ == r.id@ && !m.contains_key(r@),
        _ => false,
    }
}

pub open spec fn all_resources_ok(rs: Seq<Resource>, m: Map<(Seq<char>, Seq<char>), u8>) -> bool {
    forall|k: int| 0 <= k < rs.len() ==> #[trigger] resource_ok(rs[k], m)
}

pub open spec fn all_resources_lex(rs: Seq<Resource>) -> bool {
    forall|k: int| 0 <= k < rs.len() ==> #[trigger] resource_lexes(rs[k])
}

pub open spec fn some_resource_defect(rs: Seq<Resource>, m: Map<(Seq<char>, Seq<char>), u8>, e: CodegenError) -> bool {
    exists|k: int| 0 <= k < rs.len() && #[trigger] resource_defect(rs[k], m, e)
}

/// `x` is the type of one of the resources `rs`.
pub open spec fn resource_token_text(rs: Seq<Resource>, x: Seq<char>) -> bool {
    exists|k: int| 0 <= k < rs.len() && #[trigger] rs[k].ty@ == x
}

/// A local resource can be generated: its id is an identifier.
pub open spec fn local_ok(l: ResourceInit) -> bool {
    is_ident(l.id@)
}

/// The type and the initial value of a local resource lex.
pub open spec fn local_lexes(l: ResourceInit) -> bool {
    fallback_lexes(l.ty@) && fallback_lexes(l.value@)
}

/// `e` reports a genuine defect of the local resource `l`.
pub open spec fn local_defect(l: ResourceInit, e: CodegenError) -> bool {
    e matches CodegenError::InvalidIdent(x) && x@ == l.id@ && !is_ident(l.id@)
}

pub open spec fn all_locals_ok(ls: Seq<ResourceInit>) -> bool {
    forall|k: int| 0 <= k < ls.len() ==> #[trigger] local_ok(ls[k])
}

pub open spec fn all_locals_lex(ls: Seq<ResourceInit>) -> bool {
    forall|k: int| 0 <= k < ls.len() ==> #[trigger] local_lexes(ls[k])
}

pub open spec fn some_local_defect(ls: Seq<ResourceInit>, e: CodegenError) -> bool {
    exists|k: int| 0 <= k < ls.len() && #[trigger] local_defect(ls[k], e)
}

/// `x` is the type or the initial value of the local resource `l`.
pub open spec fn local_has_text(l: ResourceInit, x: Seq<char>) -> bool {
    l.ty@ == x || l.value@ == x
}

/// `x` is the type or the initial value of one of the local resources `ls`.
pub open spec fn local_token_text(ls: Seq<ResourceInit>, x: Seq<char>) -> bool {
    exists|k: int| 0 <= k < ls.len() && #[trigger] local_has_text(ls[k], x)
}

/// A task can be generated: its id and interrupt are identifiers and its
/// resources can be generated.
pub open spec fn task_ok(t: Task, m: Map<(Seq<char>, Seq<char>), u8>) -> bool {
    &&& is_ident(t.id@)
    &&& t.binds matches Some(b) && is_ident(b@)
    &&& all_locals_ok(t.locals@)
    &&& all_resources_ok(t.shared@, m)
}

/// The types and initial values of a task's resources lex.
pub open spec fn task_lexes(t: Task) -> bool {
    all_locals_lex(t.locals@) && all_resources_lex(t.shared@)
}

/// `e` reports a genuine defect of the task `t`.
pub open spec fn task_defect(t: Task, m: Map<(Seq<char>, Seq<char>), u8>, e: CodegenError) -> bool {
    ||| (e matches CodegenError::InvalidIdent(x) && x@ == t.id@ && !is_ident(t.id@))
    ||| (e matches CodegenError::UnboundTask(x) && x@ == t.id@ && t.binds is None)
    ||| (e matches CodegenError::InvalidIdent(x) && t.binds matches Some(b) && x@ == b@ && !is_ident(b@))
    ||| some_local_defect(t.locals@, e)
    ||| some_resource_defect(t.shared@, m, e)
}

/// `x` is a type or an initial value of one of the task's resources.
pub open spec fn task_token_text(t: Task, x: Seq<char>) -> bool {
    local_token_text(t.locals@, x) || resource_token_text(t.shared@, x)
}

/// The idle context can be generated.
pub open spec fn idle_ok(idle: Option<Idle>, m: Map<(Seq<char>, Seq<char>), u8>) -> bool {
    idle matches Some(i) ==> all_locals_ok(i.locals@) && all_resources_ok(i.shared@, m)
}

/// The types and initial values of idle's resources lex.
pub open spec fn idle_lexes(idle: Option<Idle>) -> bool {
    idle matches Some(i) ==> all_locals_lex(i.locals@) && all_resources_lex(i.shared@)
}

/// `e` reports a genuine defect of the idle context.
pub open spec fn idle_defect(idle: Option<Idle>, m: Map<(Seq<char>, Seq<char>), u8>, e: CodegenError) -> bool {
    idle matches Some(i) && (some_local_defect(i.locals@, e) || some_resource_defect(i.shared@, m, e))
}

/// `x` is a type or an initial value of one of idle's resources.
pub open spec fn idle_token_text(idle: Option<Idle>, x: Seq<char>) -> bool {
    idle matches Some(i) && (local_token_text(i.locals@, x) || resource_token_text(i.shared@, x))
}

/// All tasks can be generated, for a device crate whose name is an identifier.
pub open spec fn tasks_ok(ts: TaskSet, m: Map<(Seq<char>, Seq<char>), u8>) -> bool {
    &&& is_ident(ts.device@)
    &&& forall|i: int| 0 <= i < ts.tasks@.len() ==> #[trigger] task_ok(ts.tasks@[i], m)
}

/// The types and initial values of all tasks' resources lex.
pub open spec fn tasks_lex(ts: TaskSet) -> bool {
    forall|i: int| 0 <= i < ts.tasks@.len() ==> #[trigger] task_lexes(ts.tasks@[i])
}

/// `e` reports a genuine defect of the device name or of a task.
pub open spec fn tasks_defect(ts: TaskSet, m: Map<(Seq<char>, Seq<char>), u8>, e: CodegenError) -> bool {
    ||| (e matches CodegenError::InvalidIdent(x) && x@ == ts.device@ && !is_ident(ts.device@))
    ||| exists|i: int| 0 <= i < ts.tasks@.len() && #[trigger] task_defect(ts.tasks@[i], m, e)
}

/// The whole application can be generated: names, bindings and ceilings.
pub open spec fn task_set_ok(ts: TaskSet, m: Map<(Seq<char>, Seq<char>), u8>) -> bool {
    &&& all_locals_ok(ts.init.locals@)
    &&& all_resources_ok(ts.shared@, m)
    &&& idle_ok(ts.idle, m)
    &&& tasks_ok(ts, m)
}

/// Every type and initial value in the application lexes.
pub open spec fn task_set_lexes(ts: TaskSet) -> bool {
    &&& all_locals_lex(ts.init.locals@)
    &&& all_resources_lex(ts.shared@)
    &&& idle_lexes(ts.idle)
    &&& tasks_lex(ts)
}

/// `e` reports a genuine defect of the names, bindings or ceilings of the application.
pub open spec fn task_set_defect(ts: TaskSet, m: Map<(Seq<char>, Seq<char>), u8>, e: CodegenError) -> bool {
    ||| some_local_defect(ts.init.locals@, e)
    ||| some_resource_defect(ts.shared@, m, e)
    ||| idle_defect(ts.idle, m, e)
    ||| tasks_defect(ts, m, e)
}

/// `x` is a type or an initial value of some resource of the application.
pub open spec fn token_text(ts: TaskSet, x: Seq<char>) -> bool {
    ||| local_token_text(ts.init.locals@, x)
    ||| resource_token_text(ts.shared@, x)
    ||| idle_token_text(ts.idle, x)
    ||| exists|i: int| 0 <= i < ts.tasks@.len() && #[trigger] task_token_text(ts.tasks@[i], x)
}

// ---------------------------------------------------------------------------
// Checking

fn check_resources(rs: &Vec<Resource>, rtp: &ResourceToPriority) -> (res: Result<(), CodegenError>)
    requires
        rtp.wf(),
    ensures
        res is Ok <==> all_resources_ok(rs@, rtp.map()),
        res matches Err(e) ==> some_resource_defect(rs@, rtp.map(), e),
{
    let n = rs.len();
    let mut j: usize = 0;
    while j < n
        invariant
            n == rs@.len(),
            rtp.wf(),
            j <= n,
            forall|k: int| 0 <= k < j ==> #[trigger] resource_ok(rs@[k], rtp.map()),
        decreases n - j,
    {
        let r = &rs[j];
        if !valid_ident(r.id.as_str()) {
            let e = CodegenError::InvalidIdent(r.id.clone());
            assert(resource_defect(rs@[j as int], rtp.map(), e));
            assert(!resource_ok(rs@[j as int], rtp.map()));
            return Err(e);
        }
        if !rtp.contains_key(r) {
            let e = CodegenError::MissingCeiling(r.id.clone());
            assert(resource_defect(rs@[j as int], rtp.map(), e));
            assert(!resource_ok(rs@[j as int], rtp.map()));
            return Err(e);
        }
        j = j + 1;
    }
    Ok(())
}

fn check_locals(ls: &Vec<ResourceInit>) -> (res: Result<(), CodegenError>)
    ensures
        res is Ok <==> all_locals_ok(ls@),
        res matches Err(e) ==> some_local_defect(ls@, e),
{
    let n = ls.len();
    let mut j: usize = 0;
    while j < n
        invariant
            n == ls@.len(),
            j <= n,
            forall|k: int| 0 <= k < j ==> #[trigger] local_ok(ls@[k]),
        decreases n - j,
    {
        let l = &ls[j];
        if !valid_ident(l.id.as_str()) {
            let e = CodegenError::InvalidIdent(l.id.clone());
            assert(local_defect(ls@[j as int], e));
            assert(!local_ok(ls@[j as int]));
            return Err(e);
        }
        j = j + 1;
    }
    Ok(())
}

fn check_task(t: &Task, rtp: &ResourceToPriority) -> (res: Result<(), CodegenError>)
    requires
        rtp.wf(),
    ensures
        res is Ok <==> task_ok(*t, rtp.map()),
        res matches Err(e) ==> task_defect(*t, rtp.map(), e),
{
    if !valid_ident(t.id.as_str()) {
        return Err(CodegenError::InvalidIdent(t.id.clone()));
    }
    match &t.binds {
        Some(b) => {
            if !valid_ident(b.as_str()) {
                return Err(CodegenError::InvalidIdent(b.clone()));
            }
        },
        None => return Err(CodegenError::UnboundTask(t.id.clone())),
    }
    check_locals(&t.locals)?;
    check_resources(&t.shared, rtp)
}

fn check_structure(ts: &TaskSet, rtp: &ResourceToPriority) -> (res: Result<(), CodegenError>)
    requires
        rtp.wf(),
    ensures
        res is Ok <==> task_set_ok(*ts, rtp.map()),
        res matches Err(e) ==> task_set_defect(*ts, rtp.map(), e),
{
    check_locals(&ts.init.locals)?;
    check_resources(&ts.shared, rtp)?;
    if let Some(idle) = &ts.idle {
        check_locals(&idle.locals)?;
        check_resources(&idle.shared, rtp)?;
    }
    if !valid_ident(ts.device.as_str()) {
        return Err(CodegenError::InvalidIdent(ts.device.clone()));
    }
    let n = ts.tasks.len();
    let mut i: usize = 0;
    while i < n
        invariant
            n == ts.tasks@.len(),
            rtp.wf(),
            i <= n,
            forall|k: int| 0 <= k < i ==> #[trigger] task_ok(ts.tasks@[k], rtp.map()),
        decreases n - i,
    {
        match check_task(&ts.tasks[i], rtp) {
            Ok(()) => {},
            Err(e) => {
                assert(task_defect(ts.tasks@[i as int], rtp.map(), e));
                return Err(e);
            },
        }
        i = i + 1;
    }
    Ok(())
}

// ---------------------------------------------------------------------------
// Lexing the types and initial values

/// The views of a sequence of strings.
pub open spec fn views(v: Seq<String>) -> Seq<Seq<char>> {
    v.map_values(|s: String| s@)
}

/// The types of the shared resources `rs`, in order.
pub open spec fn resource_texts(rs: Seq<Resource>) -> Seq<Seq<char>> {
    rs.map_values(|r: Resource| r.ty@)
}

/// The type and then the initial value of each local resource of `ls`, in order.
pub open spec fn local_texts(ls: Seq<ResourceInit>) -> Seq<Seq<char>>
    decreases ls.len(),
{
    if ls.len() == 0 {
        Seq::empty()
    } else {
        local_texts(ls.drop_last()).push(ls.last().ty@).push(ls.last().value@)
    }
}

/// The texts of a task: those of its local resources, then those of its shared ones.
pub open spec fn task_texts(t: Task) -> Seq<Seq<char>> {
    local_texts(t.locals@) + resource_texts(t.shared@)
}

/// The texts of the tasks `ts`, task by task.
pub open spec fn tasks_texts(ts: Seq<Task>) -> Seq<Seq<char>>
    decreases ts.len(),
{
    if ts.len() == 0 {
        Seq::empty()
    } else {
        tasks_texts(ts.drop_last()) + task_texts(ts.last())
    }
}

/// The texts of the idle context, none without one.
pub open spec fn idle_texts(idle: Option<Idle>) -> Seq<Seq<char>> {
    match idle {
        Some(i) => local_texts(i.locals@) + resource_texts(i.shared@),
        None => Seq::empty(),
    }
}

/// Every type and initial value of the application, in the order in which
/// they are handed to the lexer: `init`'s locals, the shared resources,
/// idle's locals and shared resources, then each task's.
pub open spec fn token_texts(ts: TaskSet) -> Seq<Seq<char>> {
    local_texts(ts.init.locals@) + resource_texts(ts.shared@) + idle_texts(ts.idle) + tasks_texts(ts.tasks@)
}

/// `v` holds one verdict of the lexer per text of `token_texts(ts)`; a text
/// accepted by the lexer passes proc-macro2's own lexer.
pub open spec fn lexer_verdicts(ts: TaskSet, v: Seq<bool>) -> bool {
    &&& v.len() == token_texts(ts).len()
    &&& forall|i: int| 0 <= i < v.len() && #[trigger] v[i] ==> fallback_lexes(token_texts(ts)[i])
}

/// `i` is the first position at which `v` holds a refusal.
pub open spec fn is_first_refused(v: Seq<bool>, i: int) -> bool {
    &&& 0 <= i < v.len()
    &&& !v[i]
    &&& forall|j: int| 0 <= j < i ==> #[trigger] v[j]
}

/// The outcome of checking the application `ts` with ceilings `m` when the
/// lexer's verdicts on `token_texts(ts)` are `v`: a genuine defect of names,
/// bindings or ceilings whenever there is one; otherwise success when every
/// text was accepted, and else the first refused text.
pub open spec fn verdict_result(
    ts: TaskSet,
    m: Map<(Seq<char>, Seq<char>), u8>,
    v: Seq<bool>,
    res: Result<(), CodegenError>,
) -> bool {
    if !task_set_ok(ts, m) {
        res matches Err(e) && task_set_defect(ts, m, e)
    } else if forall|j: int| 0 <= j < v.len() ==> #[trigger] v[j] {
        res is Ok
    } else {
        exists|i: int| #[trigger] is_first_refused(v, i)
            && (res matches Err(CodegenError::InvalidTokens(x)) && x@ == token_texts(ts)[i])
    }
}

/// A defect of names, bindings or ceilings is never a refusal of the whole text.
proof fn lemma_defect_not_unlexable(ts: TaskSet, m: Map<(Seq<char>, Seq<char>), u8>, e: CodegenError)
    requires
        task_set_defect(ts, m, e),
    ensures
        !(e is Unlexable),
{
    if some_local_defect(ts.init.locals@, e) {
        let k = choose|k: int| 0 <= k < ts.init.locals@.len() && #[trigger] local_defect(ts.init.locals@[k], e);
    } else if some_resource_defect(ts.shared@, m, e) {
        let k = choose|k: int| 0 <= k < ts.shared@.len() && #[trigger] resource_defect(ts.shared@[k], m, e);
    } else if idle_defect(ts.idle, m, e) {
        let i = ts.idle->0;
        if some_local_defect(i.locals@, e) {
            let k = choose|k: int| 0 <= k < i.locals@.len() && #[trigger] local_defect(i.locals@[k], e);
        } else {
            let k = choose|k: int| 0 <= k < i.shared@.len() && #[trigger] resource_defect(i.shared@[k], m, e);
        }
    } else if exists|j: int| 0 <= j < ts.tasks@.len() && #[trigger] task_defect(ts.tasks@[j], m, e) {
        let j = choose|j: int| 0 <= j < ts.tasks@.len() && #[trigger] task_defect(ts.tasks@[j], m, e);
        let t = ts.tasks@[j];
        if some_local_defect(t.locals@, e) {
            let k = choose|k: int| 0 <= k < t.locals@.len() && #[trigger] local_defect(t.locals@[k], e);
        } else if some_resource_defect(t.shared@, m, e) {
            let k = choose|k: int| 0 <= k < t.shared@.len() && #[trigger] resource_defect(t.shared@[k], m, e);
        }
    }
}

proof fn lemma_contains_add(a: Seq<Seq<char>>, b: Seq<Seq<char>>, x: Seq<char>)
    ensures
        (a + b).contains(x) <==> a.contains(x) || b.contains(x),
{
    if (a + b).contains(x) {
        let i = choose|i: int| 0 <= i < (a + b).len() && (a + b)[i] == x;
        if i < a.len() {
            assert(a[i] == x);
        } else {
            assert(b[i - a.len()] == x);
        }
    }
    if a.contains(x) {
        let i = choose|i: int| 0 <= i < a.len() && a[i] == x;
        assert((a + b)[i] == x);
    }
    if b.contains(x) {
        let i = choose|i: int| 0 <= i < b.len() && b[i] == x;
        assert((a + b)[i + a.len()] == x);
    }
}

proof fn lemma_resource_texts(rs: Seq<Resource>, x: Seq<char>)
    ensures
        resource_texts(rs).contains(x) <==> resource_token_text(rs, x),
{
    if resource_texts(rs).contains(x) {
        let i = choose|i: int| 0 <= i < resource_texts(rs).len() && resource_texts(rs)[i] == x;
        assert(rs[i].ty@ == x);
    }
    if resource_token_text(rs, x) {
        let i = choose|i: int| 0 <= i < rs.len() && #[trigger] rs[i].ty@ == x;
        assert(resource_texts(rs)[i] == x);
    }
}

proof fn lemma_local_texts(ls: Seq<ResourceInit>, x: Seq<char>)
    ensures
        local_texts(ls).contains(x) <==> local_token_text(ls, x),
    decreases ls.len(),
{
    if ls.len() > 0 {
        let p = ls.drop_last();
        lemma_local_texts(p, x);
        let l = ls.last();
        let t = local_texts(p).push(l.ty@).push(l.value@);
        assert(t =~= local_texts(p) + seq![l.ty@, l.value@]);
        lemma_contains_add(local_texts(p), seq![l.ty@, l.value@], x);
        if seq![l.ty@, l.value@].contains(x) {
            let i = choose|i: int| 0 <= i < 2 && seq![l.ty@, l.value@][i] == x;
            assert(local_has_text(ls[ls.len() - 1], x));
        }
        if local_token_text(p, x) {
            let k = choose|k: int| 0 <= k < p.len() && #[trigger] local_has_text(p[k], x);
            assert(ls[k] == p[k]);
        }
        if local_token_text(ls, x) {
            let k = choose|k: int| 0 <= k < ls.len() && #[trigger] local_has_text(ls[k], x);
            if k < p.len() {
                assert(ls[k] == p[k]);
                assert(local_token_text(p, x));
            } else {
                assert(seq![l.ty@, l.value@][0] == l.ty@);
                assert(seq![l.ty@, l.value@][1] == l.value@);
            }
        }
    }
}

proof fn lemma_tasks_texts(ts: Seq<Task>, x: Seq<char>)
    ensures
        tasks_texts(ts).contains(x) <==> exists|i: int| 0 <= i < ts.len() && #[trigger] task_token_text(ts[i], x),
    decreases ts.len(),
{
    if ts.len() > 0 {
        let p = ts.drop_last();
        let t = ts.last();
        lemma_tasks_texts(p, x);
        lemma_contains_add(tasks_texts(p), task_texts(t), x);
        lemma_contains_add(local_texts(t.locals@), resource_texts(t.shared@), x);
        lemma_local_texts(t.locals@, x);
        lemma_resource_texts(t.shared@, x);
        if exists|i: int| 0 <= i < p.len() && #[trigger] task_token_text(p[i], x) {
            let i = choose|i: int| 0 <= i < p.len() && #[trigger] task_token_text(p[i], x);
            assert(ts[i] == p[i]);
        }
        if exists|i: int| 0 <= i < ts.len() && #[trigger] task_token_text(ts[i], x) {
            let i = choose|i: int| 0 <= i < ts.len() && #[trigger] task_token_text(ts[i], x);
            if i < p.len() {
                assert(ts[i] == p[i]);
            } else {
                assert(ts[i] == t);
            }
        }
        if task_token_text(t, x) {
            assert(task_token_text(ts[ts.len() - 1], x));
        }
    }
}

/// The texts handed to the lexer are exactly the types and initial values of
/// the application.
pub proof fn lemma_token_texts(ts: TaskSet, x: Seq<char>)
    ensures
        token_texts(ts).contains(x) <==> token_text(ts, x),
{
    let a = local_texts(ts.init.locals@);
    let b = resource_texts(ts.shared@);
    let c = idle_texts(ts.idle);
    let d = tasks_texts(ts.tasks@);
    lemma_contains_add(a + b + c, d, x);
    lemma_contains_add(a + b, c, x);
    lemma_contains_add(a, b, x);
    lemma_local_texts(ts.init.locals@, x);
    lemma_resource_texts(ts.shared@, x);
    lemma_tasks_texts(ts.tasks@, x);
    if let Some(i) = ts.idle {
        lemma_contains_add(local_texts(i.locals@), resource_texts(i.shared@), x);
        lemma_local_texts(i.locals@, x);
        lemma_resource_texts(i.shared@, x);
    }
}

proof fn lemma_all_texts_lex(ts: TaskSet)
    requires
        forall|i: int| 0 <= i < token_texts(ts).len() ==> fallback_lexes(#[trigger] token_texts(ts)[i]),
    ensures
        task_set_lexes(ts),
{
    assert forall|x: Seq<char>| token_text(ts, x) implies fallback_lexes(x) by {
        lemma_token_texts(ts, x);
        let i = choose|i: int| 0 <= i < token_texts(ts).len() && token_texts(ts)[i] == x;
        assert(fallback_lexes(token_texts(ts)[i]));
    }
    assert forall|k: int| 0 <= k < ts.init.locals@.len() implies #[trigger] local_lexes(ts.init.locals@[k]) by {
        let l = ts.init.locals@[k];
        assert(local_has_text(ts.init.locals@[k], l.ty@));
        assert(local_has_text(ts.init.locals@[k], l.value@));
        assert(local_token_text(ts.init.locals@, l.ty@));
        assert(local_token_text(ts.init.locals@, l.value@));
        assert(token_text(ts, l.ty@));
        assert(token_text(ts, l.value@));
    }
    assert forall|k: int| 0 <= k < ts.shared@.len() implies #[trigger] resource_lexes(ts.shared@[k]) by {
        assert(resource_token_text(ts.shared@, ts.shared@[k].ty@));
        assert(token_text(ts, ts.shared@[k].ty@));
    }
    if let Some(idle) = ts.idle {
        assert forall|k: int| 0 <= k < idle.locals@.len() implies #[trigger] local_lexes(idle.locals@[k]) by {
            let l = idle.locals@[k];
            assert(local_has_text(idle.locals@[k], l.ty@));
            assert(local_has_text(idle.locals@[k], l.value@));
            assert(local_has_text(idle.locals@[k], l.ty@));
        assert(local_has_text(idle.locals@[k], l.value@));
        assert(local_token_text(idle.locals@, l.ty@));
            assert(local_token_text(idle.locals@, l.value@));
            assert(token_text(ts, l.ty@));
            assert(token_text(ts, l.value@));
        }
        assert forall|k: int| 0 <= k < idle.shared@.len() implies #[trigger] resource_lexes(idle.shared@[k]) by {
            assert(resource_token_text(idle.shared@, idle.shared@[k].ty@));
            assert(token_text(ts, idle.shared@[k].ty@));
        }
    }
    assert forall|i: int| 0 <= i < ts.tasks@.len() implies #[trigger] task_lexes(ts.tasks@[i]) by {
        let t = ts.tasks@[i];
        assert forall|k: int| 0 <= k < t.locals@.len() implies #[trigger] local_lexes(t.locals@[k]) by {
            let l = t.locals@[k];
            assert(local_has_text(t.locals@[k], l.ty@));
            assert(local_has_text(t.locals@[k], l.value@));
            assert(local_has_text(t.locals@[k], l.ty@));
        assert(local_has_text(t.locals@[k], l.value@));
        assert(local_token_text(t.locals@, l.ty@));
            assert(local_token_text(t.locals@, l.value@));
            assert(task_token_text(ts.tasks@[i], l.ty@));
            assert(task_token_text(ts.tasks@[i], l.value@));
            assert(token_text(ts, l.ty@));
            assert(token_text(ts, l.value@));
        }
        assert forall|k: int| 0 <= k < t.shared@.len() implies #[trigger] resource_lexes(t.shared@[k]) by {
            assert(resource_token_text(t.shared@, t.shared@[k].ty@));
            assert(task_token_text(ts.tasks@[i], t.shared@[k].ty@));
            assert(token_text(ts, t.shared@[k].ty@));
        }
    }
}

fn push_resource_texts(out: &mut Vec<String>, rs: &Vec<Resource>)
    ensures
        views(final(out)@) == views(old(out)@) + resource_texts(rs@),
{
    let ghost start = views(out@);
    let n = rs.len();
    let mut j: usize = 0;
    while j < n
        invariant
            n == rs@.len(),
            j <= n,
            views(out@) == start + resource_texts(rs@.take(j as int)),
        decreases n - j,
    {
        let ghost before = views(out@);
        out.push(rs[j].ty.clone());
        assert(views(out@) =~= before.push(rs@[j as int].ty@));
        assert(resource_texts(rs@.take(j + 1)) =~= resource_texts(rs@.take(j as int)).push(rs@[j as int].ty@));
        assert(views(out@) =~= start + resource_texts(rs@.take(j + 1)));
        j = j + 1;
    }
    assert(rs@.take(n as int) =~= rs@);
}

fn push_local_texts(out: &mut Vec<String>, ls: &Vec<ResourceInit>)
    ensures
        views(final(out)@) == views(old(out)@) + local_texts(ls@),
{
    let ghost start = views(out@);
    let n = ls.len();
    let mut j: usize = 0;
    assert(local_texts(ls@.take(0)) =~= Seq::<Seq<char>>::empty());
    assert(views(out@) =~= start + local_texts(ls@.take(0)));
    while j < n
        invariant
            n == ls@.len(),
            j <= n,
            views(out@) == start + local_texts(ls@.take(j as int)),
        decreases n - j,
    {
        let ghost before = views(out@);
        out.push(ls[j].ty.clone());
        out.push(ls[j].value.clone());
        assert(views(out@) =~= before.push(ls@[j as int].ty@).push(ls@[j as int].value@));
        assert(ls@.take(j + 1).drop_last() =~= ls@.take(j as int));
        assert(local_texts(ls@.take(j + 1)) == local_texts(ls@.take(j as int)).push(ls@[j as int].ty@).push(ls@[j as int].value@));
        assert(views(out@) =~= start + local_texts(ls@.take(j + 1)));
        j = j + 1;
    }
    assert(ls@.take(n as int) =~= ls@);
}

/// The types and initial values of the application, in the order of `token_texts`.
pub fn token_texts_of(task_set: &TaskSet) -> (texts: Vec<String>)
    ensures
        views(texts@) == token_texts(*task_set),
{
    let mut out: Vec<String> = Vec::new();
    assert(views(out@) =~= Seq::<Seq<char>>::empty());
    push_local_texts(&mut out, &task_set.init.locals);
    push_resource_texts(&mut out, &task_set.shared);
    let ghost after_shared = views(out@);
    match &task_set.idle {
        Some(idle) => {
            push_local_texts(&mut out, &idle.locals);
            push_resource_texts(&mut out, &idle.shared);
            assert(views(out@) =~= after_shared + idle_texts(task_set.idle));
        },
        None => {
            assert(views(out@) =~= after_shared + idle_texts(task_set.idle));
        },
    }
    let ghost prefix = views(out@);
    let ts = &task_set.tasks;
    let n = ts.len();
    let mut i: usize = 0;
    assert(tasks_texts(ts@.take(0)) =~= Seq::<Seq<char>>::empty());
    assert(views(out@) =~= prefix + tasks_texts(ts@.take(0)));
    while i < n
        invariant
            n == ts@.len(),
            i <= n,
            views(out@) == prefix + tasks_texts(ts@.take(i as int)),
        decreases n - i,
    {
        let ghost before = views(out@);
        push_local_texts(&mut out, &ts[i].locals);
        push_resource_texts(&mut out, &ts[i].shared);
        assert(ts@.take(i + 1).drop_last() =~= ts@.take(i as int));
        assert(tasks_texts(ts@.take(i + 1)) == tasks_texts(ts@.take(i as int)) + task_texts(ts@[i as int]));
        assert(views(out@) =~= prefix + tasks_texts(ts@.take(i + 1)));
        i = i + 1;
    }
    assert(ts@.take(n as int) =~= ts@);
    out
}

/// The position of the first refusal among the lexer's verdicts, if any.
pub fn first_refused(verdicts: &Vec<bool>) -> (r: Option<usize>)
    ensures
        match r {
            Some(i) => is_first_refused(verdicts@, i as int),
            None => forall|j: int| 0 <= j < verdicts@.len() ==> #[trigger] verdicts@[j],
        },
{
    let n = verdicts.len();
    let mut i: usize = 0;
    while i < n
        invariant
            n == verdicts@.len(),
            i <= n,
            forall|j: int| 0 <= j < i ==> #[trigger] verdicts@[j],
        decreases n - i,
    {
        if !verdicts[i] {
            return Some(i);
        }
        i = i + 1;
    }
    None
}

/// Check the application with the lexer's verdicts `verdicts` on `texts`,
/// its types and initial values: a defect of names, bindings or ceilings is
/// reported whenever there is one; otherwise the first refused text, if any.
pub fn check_with_verdicts(
    task_set: &TaskSet,
    rtp: &ResourceToPriority,
    texts: &Vec<String>,
    verdicts: &Vec<bool>,
) -> (res: Result<(), CodegenError>)
    requires
        rtp.wf(),
        views(texts@) == token_texts(*task_set),
        verdicts@.len() == texts@.len(),
    ensures
        verdict_result(*task_set, rtp.map(), verdicts@, res),
{
    check_structure(task_set, rtp)?;
    match first_refused(verdicts) {
        None => Ok(()),
        Some(i) => {
            let x = texts[i].clone();
            assert(x@ == views(texts@)[i as int]);
            let res = Err(CodegenError::InvalidTokens(x));
            assert(is_first_refused(verdicts@, i as int));
            res
        },
    }
}

/// Check that code can be generated for `task_set` with the ceilings `rtp`:
/// every type and initial value is handed to the lexer, and the outcome is
/// the one `check_with_verdicts` gives for its verdicts. On success the
/// generators' requirements hold.
pub fn check_task_set(task_set: &TaskSet, rtp: &ResourceToPriority) -> (res: Result<(), CodegenError>)
    requires
        rtp.wf(),
    ensures
        res is Ok ==> task_set_ok(*task_set, rtp.map()) && task_set_lexes(*task_set),
        exists|v: Seq<bool>| #[trigger] lexer_verdicts(*task_set, v) && verdict_result(*task_set, rtp.map(), v, res),
{
    let texts = token_texts_of(task_set);
    let n = texts.len();
    let mut verdicts: Vec<bool> = Vec::new();
    let mut i: usize = 0;
    while i < n
        invariant
            n == texts@.len(),
            views(texts@) == token_texts(*task_set),
            i <= n,
            verdicts@.len() == i,
            forall|j: int| 0 <= j < i && #[trigger] verdicts@[j] ==> fallback_lexes(token_texts(*task_set)[j]),
        decreases n - i,
    {
        let b = valid_tokens(texts[i].as_str());
        assert(texts@[i as int]@ == token_texts(*task_set)[i as int]);
        verdicts.push(b);
        i = i + 1;
    }
    let res = check_with_verdicts(task_set, rtp, &texts, &verdicts);
    assert(lexer_verdicts(*task_set, verdicts@));
    proof {
        if res is Ok {
            assert(forall|j: int| 0 <= j < verdicts@.len() ==> #[trigger] verdicts@[j]);
            assert forall|j: int| 0 <= j < token_texts(*task_set).len() implies fallback_lexes(#[trigger] token_texts(*task_set)[j]) by {
                assert(verdicts@[j]);
            }
            lemma_all_texts_lex(*task_set);
        }
    }
    res
}

// ---------------------------------------------------------------------------
// Shared resources

/// The field of a context's `Shared` struct giving access to `r`.
pub open spec fn proxy_field(m: Map<(Seq<char>, Seq<char>), u8>) -> spec_fn(Resource) -> Seq<char> {
    |r: Resource| "pub "@ + r.id@ + ": ResourceProxy<'a, "@ + r.ty@ + ", "@ + decimal(m[r@] as nat) + ">"@
}

/// The initialiser of the proxy field for `r`.
pub open spec fn proxy_new() -> spec_fn(Resource) -> Seq<char> {
    |r: Resource| r.id@ + ": ResourceProxy::new(&resources::"@ + r.id@ + ", priority)"@
}

/// The `Shared` struct of a context sharing `rs`: fields and initialisers
/// separated by commas.
pub open spec fn shared_text(rs: Seq<Resource>, m: Map<(Seq<char>, Seq<char>), u8>) -> Seq<char> {
    "pub struct Shared<'a> {\n"@ + join(rs, proxy_field(m), ",\n"@)
        + "\n}\nimpl<'a> Shared<'a> {\npub unsafe fn new(priority: &'a Priority) -> Self {\nSelf {\n"@
        + join(rs, proxy_new(), ",\n"@) + "\n}\n}\n}\n"@
}

fn ceiling_of(r: &Resource, rtp: &ResourceToPriority) -> (c: u8)
    requires
        rtp.wf(),
        rtp.map().contains_key(r@),
    ensures
        c == rtp.map()[r@],
{
    match rtp.get(r) {
        Some(c) => *c,
        None => {
            assert(false);
            0
        },
    }
}

/// The `Shared` struct through which a context reaches the resources `resources`.
pub fn shared(resources: &Vec<Resource>, rtp: &ResourceToPriority) -> (s: String)
    requires
        rtp.wf(),
        all_resources_ok(resources@, rtp.map()),
        all_resources_lex(resources@),
    ensures
        s@ == shared_text(resources@, rtp.map()),
{
    let ghost m = rtp.map();
    let ghost rs = resources@;
    let ghost sep = ",\n"@;
    let mut fields = String::new();
    let mut news = String::new();
    proof {
        lemma_join_all(rs, proxy_field(m), sep);
        lemma_join_all(rs, proxy_new(), sep);
    }
    let n = resources.len();
    let mut j: usize = 0;
    while j < n
        invariant
            n == rs.len(),
            rs == resources@,
            m == rtp.map(),
            sep == ",\n"@,
            rtp.wf(),
            all_resources_ok(rs, m),
            j <= n,
            fields@ == join(rs.take(j as int), proxy_field(m), sep),
            news@ == join(rs.take(j as int), proxy_new(), sep),
        decreases n - j,
    {
        let r = &resources[j];
        assert(resource_ok(rs[j as int], m));
        let ceil = ceiling_of(r, rtp);
        let mut field = String::from_str("pub ");
        field.append(r.id.as_str());
        field.append(": ResourceProxy<'a, ");
        field.append(r.ty.as_str());
        field.append(", ");
        field.append(u8_decimal(ceil).as_str());
        field.append(">");
        let mut new = r.id.clone();
        new.append(": ResourceProxy::new(&resources::");
        new.append(r.id.as_str());
        new.append(", priority)");
        append_joined(&mut fields, j == 0, ",\n", field.as_str());
        append_joined(&mut news, j == 0, ",\n", new.as_str());
        proof {
            lemma_join_step(rs, proxy_field(m), sep, j as int);
            lemma_join_step(rs, proxy_new(), sep, j as int);
            assert(field@ == proxy_field(m)(rs[j as int]));
            assert(new@ == proxy_new()(rs[j as int]));
            if j == 0 {
                assert(fields@ =~= join(rs.take(j + 1), proxy_field(m), sep));
                assert(news@ =~= join(rs.take(j + 1), proxy_new(), sep));
            }
        }
        j = j + 1;
    }
    let mut out = String::from_str("pub struct Shared<'a> {\n");
    out.append(fields.as_str());
    out.append("\n}\nimpl<'a> Shared<'a> {\npub unsafe fn new(priority: &'a Priority) -> Self {\nSelf {\n");
    out.append(news.as_str());
    out.append("\n}\n}\n}\n");
    out
}

// ---------------------------------------------------------------------------
// Local resources

/// The static cell holding the local resource `l`.
pub open spec fn local_cell() -> spec_fn(ResourceInit) -> Seq<char> {
    |l: ResourceInit| "#[allow(non_upper_case_globals)]\nstatic "@ + l.id@ + ": RacyCell<"@ + l.ty@
        + "> = RacyCell::new("@ + l.value@ + ")"@
}

/// The field of a context's `Local` struct for `l`.
pub open spec fn local_field() -> spec_fn(ResourceInit) -> Seq<char> {
    |l: ResourceInit| "pub "@ + l.id@ + ": &'a mut "@ + l.ty@
}

/// The initialiser of the field for `l`.
pub open spec fn local_new() -> spec_fn(ResourceInit) -> Seq<char> {
    |l: ResourceInit| l.id@ + ": &mut *"@ + l.id@ + ".get_mut()"@
}

/// The cells (separated and ended by `;`) and the `Local` struct (fields and
/// initialisers separated by commas) of a context owning `ls`.
pub open spec fn local_text(ls: Seq<ResourceInit>) -> Seq<char> {
    join(ls, local_cell(), ";\n"@) + ";\npub struct Local<'a> {\n"@ + join(ls, local_field(), ",\n"@)
        + "\n}\nimpl<'a> Local<'a> {\npub unsafe fn new() -> Self {\nSelf {\n"@ + join(ls, local_new(), ",\n"@)
        + "\n}\n}\n}\n"@
}

/// The cells holding the resources `resources` owned by a context, and the
/// `Local` struct through which it reaches them.
pub fn local(resources: &Vec<ResourceInit>) -> (s: String)
    requires
        all_locals_ok(resources@),
        all_locals_lex(resources@),
    ensures
        s@ == local_text(resources@),
{
    let ghost ls = resources@;
    let ghost semi = ";\n"@;
    let ghost comma = ",\n"@;
    let mut cells = String::new();
    let mut fields = String::new();
    let mut news = String::new();
    proof {
        lemma_join_all(ls, local_cell(), semi);
        lemma_join_all(ls, local_field(), comma);
        lemma_join_all(ls, local_new(), comma);
    }
    let n = resources.len();
    let mut j: usize = 0;
    while j < n
        invariant
            n == ls.len(),
            ls == resources@,
            semi == ";\n"@,
            comma == ",\n"@,
            j <= n,
            cells@ == join(ls.take(j as int), local_cell(), semi),
            fields@ == join(ls.take(j as int), local_field(), comma),
            news@ == join(ls.take(j as int), local_new(), comma),
        decreases n - j,
    {
        let l = &resources[j];
        let mut cell = String::from_str("#[allow(non_upper_case_globals)]\nstatic ");
        cell.append(l.id.as_str());
        cell.append(": RacyCell<");
        cell.append(l.ty.as_str());
        cell.append("> = RacyCell::new(");
        cell.append(l.value.as_str());
        cell.append(")");
        let mut field = String::from_str("pub ");
        field.append(l.id.as_str());
        field.append(": &'a mut ");
        field.append(l.ty.as_str());
        let mut new = l.id.clone();
        new.append(": &mut *");
        new.append(l.id.as_str());
        new.append(".get_mut()");
        append_joined(&mut cells, j == 0, ";\n", cell.as_str());
        append_joined(&mut fields, j == 0, ",\n", field.as_str());
        append_joined(&mut news, j == 0, ",\n", new.as_str());
        proof {
            lemma_join_step(ls, local_cell(), semi, j as int);
            lemma_join_step(ls, local_field(), comma, j as int);
            lemma_join_step(ls, local_new(), comma, j as int);
            assert(cell@ == local_cell()(ls[j as int]));
            assert(field@ == local_field()(ls[j as int]));
            assert(new@ == local_new()(ls[j as int]));
            if j == 0 {
                assert(cells@ =~= join(ls.take(j + 1), local_cell(), semi));
                assert(fields@ =~= join(ls.take(j + 1), local_field(), comma));
                assert(news@ =~= join(ls.take(j + 1), local_new(), comma));
            }
        }
        j = j + 1;
    }
    let mut out = cells;
    out.append(";\npub struct Local<'a> {\n");
    out.append(fields.as_str());
    out.append("\n}\nimpl<'a> Local<'a> {\npub unsafe fn new() -> Self {\nSelf {\n");
    out.append(news.as_str());
    out.append("\n}\n}\n}\n");
    out
}

// ---------------------------------------------------------------------------
// Resource declarations

/// The field of the `Shared` struct returned by `init` for `r`.
pub open spec fn declared_field() -> spec_fn(Resource) -> Seq<char> {
    |r: Resource| "pub "@ + r.id@ + ": "@ + r.ty@
}

/// The static holding the shared resource `r`.
pub open spec fn declared_static(m: Map<(Seq<char>, Seq<char>), u8>) -> spec_fn(Resource) -> Seq<char> {
    |r: Resource| "#[allow(non_upper_case_globals)]\npub static "@ + r.id@ + ": Resource<"@ + r.ty@ + ", "@
        + decimal(m[r@] as nat) + "> = Resource::new();\n"@
}

/// The statement moving the value of `r` returned by `init` into its static.
pub open spec fn declared_move() -> spec_fn(Resource) -> Seq<char> {
    |r: Resource| r.id@ + ".write_maybe_uninit(shared."@ + r.id@ + ");\n"@
}

/// The `Shared` struct returned by `init` (fields separated by commas) and the
/// `resources` module holding the shared resources `rs`.
pub open spec fn resources_text(rs: Seq<Resource>, m: Map<(Seq<char>, Seq<char>), u8>) -> Seq<char> {
    "pub struct Shared {\n"@ + join(rs, declared_field(), ",\n"@) + "\n}\nmod resources {\nuse super::*;\n"@
        + concat(rs, declared_static(m)) + "pub unsafe fn move_shared(shared: Shared) {\n"@
        + concat(rs, declared_move()) + "}\n}\n"@
}

/// The declarations of the shared resources `shared`.
pub fn gen_shared(shared: &Vec<Resource>, rtp: &ResourceToPriority) -> (s: String)
    requires
        rtp.wf(),
        all_resources_ok(shared@, rtp.map()),
        all_resources_lex(shared@),
    ensures
        s@ == resources_text(shared@, rtp.map()),
{
    let ghost m = rtp.map();
    let ghost rs = shared@;
    let ghost comma = ",\n"@;
    let mut fields = String::new();
    let mut statics = String::new();
    let mut moves = String::new();
    proof {
        lemma_join_all(rs, declared_field(), comma);
        lemma_concat_all(rs, declared_static(m));
        lemma_concat_all(rs, declared_move());
    }
    let n = shared.len();
    let mut j: usize = 0;
    while j < n
        invariant
            n == rs.len(),
            rs == shared@,
            m == rtp.map(),
            comma == ",\n"@,
            rtp.wf(),
            all_resources_ok(rs, m),
            j <= n,
            fields@ == join(rs.take(j as int), declared_field(), comma),
            statics@ == concat(rs.take(j as int), declared_static(m)),
            moves@ == concat(rs.take(j as int), declared_move()),
        decreases n - j,
    {
        let r = &shared[j];
        assert(resource_ok(rs[j as int], m));
        let ceil = ceiling_of(r, rtp);
        let mut field = String::from_str("pub ");
        field.append(r.id.as_str());
        field.append(": ");
        field.append(r.ty.as_str());
        append_joined(&mut fields, j == 0, ",\n", field.as_str());
        statics.append("#[allow(non_upper_case_globals)]\npub static ");
        statics.append(r.id.as_str());
        statics.append(": Resource<");
        statics.append(r.ty.as_str());
        statics.append(", ");
        statics.append(u8_decimal(ceil).as_str());
        statics.append("> = Resource::new();\n");
        moves.append(r.id.as_str());
        moves.append(".write_maybe_uninit(shared.");
        moves.append(r.id.as_str());
        moves.append(");\n");
        proof {
            lemma_join_step(rs, declared_field(), comma, j as int);
            lemma_concat_step(rs, declared_static(m), j as int);
            lemma_concat_step(rs, declared_move(), j as int);
            assert(field@ == declared_field()(rs[j as int]));
            if j == 0 {
                assert(fields@ =~= join(rs.take(j + 1), declared_field(), comma));
            }
            assert(statics@ =~= concat(rs.take(j as int), declared_static(m)) + declared_static(m)(rs[j as int]));
            assert(moves@ =~= concat(rs.take(j as int), declared_move()) + declared_move()(rs[j as int]));
        }
        j = j + 1;
    }
    proof {
        lemma_concat_all(rs, declared_static(m));
        lemma_concat_all(rs, declared_move());
    }
    let mut out = String::from_str("pub struct Shared {\n");
    out.append(fields.as_str());
    out.append("\n}\nmod resources {\nuse super::*;\n");
    out.append(statics.as_str());
    out.append("pub unsafe fn move_shared(shared: Shared) {\n");
    out.append(moves.as_str());
    out.append("}\n}\n");
    out
}

/// `piece` occurs in `text`.
pub open spec fn occurs_in(piece: Seq<char>, text: Seq<char>) -> bool {
    exists|a: Seq<char>, b: Seq<char>| #[trigger] (a + piece + b) == text
}

proof fn lemma_occurs_around(piece: Seq<char>, text: Seq<char>, before: Seq<char>, after: Seq<char>)
    requires
        occurs_in(piece, text),
    ensures
        occurs_in(piece, before + text + after),
{
    let (a, b) = choose|a: Seq<char>, b: Seq<char>| #[trigger] (a + piece + b) == text;
    assert((before + a) + piece + (b + after) =~= before + text + after);
}

proof fn lemma_join_occurs<A>(s: Seq<A>, f: spec_fn(A) -> Seq<char>, sep: Seq<char>, i: int)
    requires
        0 <= i < s.len(),
    ensures
        occurs_in(f(s[i]), join(s, f, sep)),
    decreases s.len(),
{
    let e = Seq::<char>::empty();
    if s.len() == 1 {
        assert(e + f(s[i]) + e =~= join(s, f, sep));
    } else if i == s.len() - 1 {
        assert((join(s.drop_last(), f, sep) + sep) + f(s[i]) + e =~= join(s, f, sep));
    } else {
        lemma_join_occurs(s.drop_last(), f, sep, i);
        assert(s.drop_last()[i] == s[i]);
        lemma_occurs_around(f(s[i]), join(s.drop_last(), f, sep), e, sep + f(s.last()));
        assert(e + join(s.drop_last(), f, sep) + (sep + f(s.last())) =~= join(s, f, sep));
    }
}

proof fn lemma_concat_occurs<A>(s: Seq<A>, f: spec_fn(A) -> Seq<char>, i: int)
    requires
        0 <= i < s.len(),
    ensures
        occurs_in(f(s[i]), concat(s, f)),
    decreases s.len(),
{
    let e = Seq::<char>::empty();
    if i == s.len() - 1 {
        assert(concat(s.drop_last(), f) + f(s[i]) + e =~= concat(s, f));
    } else {
        lemma_concat_occurs(s.drop_last(), f, i);
        assert(s.drop_last()[i] == s[i]);
        lemma_occurs_around(f(s[i]), concat(s.drop_last(), f), e, f(s.last()));
        assert(e + concat(s.drop_last(), f) + f(s.last()) =~= concat(s, f));
    }
}

/// A context's proxy for a shared resource carries the ceiling of the
/// resource's static: for a resource `rs[i]` handed to `shared` and the same
/// resource `sh[j]` handed to `gen_shared` with the same ceilings `m`, the
/// field `ResourceProxy<'a, T, CEIL>` in `shared_text` and the static
/// `Resource<T, CEIL>` in `resources_text` print the same `CEIL`, `m[r@]`, so
/// `ResourceProxy::new(&resources::<id>, priority)` is well typed.
pub proof fn lemma_proxy_ceiling_matches_static(
    rs: Seq<Resource>,
    sh: Seq<Resource>,
    m: Map<(Seq<char>, Seq<char>), u8>,
    i: int,
    j: int,
)
    requires
        0 <= i < rs.len(),
        0 <= j < sh.len(),
        rs[i]@ == sh[j]@,
    ensures
        occurs_in(
            "pub "@ + rs[i].id@ + ": ResourceProxy<'a, "@ + rs[i].ty@ + ", "@ + decimal(m[rs[i]@] as nat) + ">"@,
            shared_text(rs, m),
        ),
        occurs_in(
            "#[allow(non_upper_case_globals)]\npub static "@ + rs[i].id@ + ": Resource<"@ + rs[i].ty@ + ", "@
                + decimal(m[rs[i]@] as nat) + "> = Resource::new();\n"@,
            resources_text(sh, m),
        ),
{
    let comma = ",\n"@;
    lemma_join_occurs(rs, proxy_field(m), comma, i);
    lemma_occurs_around(
        proxy_field(m)(rs[i]),
        join(rs, proxy_field(m), comma),
        "pub struct Shared<'a> {\n"@,
        "\n}\nimpl<'a> Shared<'a> {\npub unsafe fn new(priority: &'a Priority) -> Self {\nSelf {\n"@
            + join(rs, proxy_new(), comma) + "\n}\n}\n}\n"@,
    );
    assert(shared_text(rs, m) =~= "pub struct Shared<'a> {\n"@ + join(rs, proxy_field(m), comma) + (
        "\n}\nimpl<'a> Shared<'a> {\npub unsafe fn new(priority: &'a Priority) -> Self {\nSelf {\n"@
            + join(rs, proxy_new(), comma) + "\n}\n}\n}\n"@));
    lemma_concat_occurs(sh, declared_static(m), j);
    let before = "pub struct Shared {\n"@ + join(sh, declared_field(), comma) + "\n}\nmod resources {\nuse super::*;\n"@;
    let after = "pub unsafe fn move_shared(shared: Shared) {\n"@ + concat(sh, declared_move()) + "}\n}\n"@;
    lemma_occurs_around(declared_static(m)(sh[j]), concat(sh, declared_static(m)), before, after);
    assert(resources_text(sh, m) =~= before + concat(sh, declared_static(m)) + after);
    assert(sh[j].id@ == rs[i].id@ && sh[j].ty@ == rs[i].ty@);
}

// ---------------------------------------------------------------------------
// Contexts

/// The `init` module for the initialisation context `init`.
pub open spec fn init_text(init: Init) -> Seq<char> {
    "pub mod init {\nuse super::*;\n"@ + local_text(init.locals@)
        + "pub struct Context<'a> {\npub local: Local<'a>,\n}\npub unsafe fn run() -> Shared {\ninit(Context {\nlocal: Local::new(),\n})\n}\nextern \"Rust\" {\nfn init(cx: Context) -> Shared;\n}\n}\n"@
}

/// The `init` module.
pub fn gen_init(init: &Init) -> (s: String)
    requires
        all_locals_ok(init.locals@),
        all_locals_lex(init.locals@),
    ensures
        s@ == init_text(*init),
{
    let local = local(&init.locals);
    let mut out = String::from_str("pub mod init {\nuse super::*;\n");
    out.append(local.as_str());
    out.append("pub struct Context<'a> {\npub local: Local<'a>,\n}\npub unsafe fn run() -> Shared {\ninit(Context {\nlocal: Local::new(),\n})\n}\nextern \"Rust\" {\nfn init(cx: Context) -> Shared;\n}\n}\n");
    out
}

/// The `idle` module, empty without an idle context.
pub open spec fn idle_text(idle: Option<Idle>, m: Map<(Seq<char>, Seq<char>), u8>) -> Seq<char> {
    match idle {
        Some(i) => "pub mod idle {\nuse super::*;\n"@ + local_text(i.locals@) + shared_text(i.shared@, m)
            + "pub struct Context<'a> {\npub local: Local<'a>,\npub shared: Shared<'a>,\n}\npub unsafe fn run<'a>(priority: &'a Priority) {\nidle(Context {\nlocal: Local::new(),\nshared: Shared::new(priority),\n});\n}\nextern \"Rust\" {\nfn idle(cx: Context);\n}\n}\n"@,
        None => Seq::empty(),
    }
}

/// The statements of `main` that run the idle context at priority 0, none
/// without an idle context.
pub open spec fn idle_call_text(idle: Option<Idle>) -> Seq<char> {
    match idle {
        Some(_) => "let priority = Priority::new(0);\nidle::run(&priority);\n"@,
        None => Seq::empty(),
    }
}

/// The `idle` module and the statements of `main` that run it.
pub fn gen_idle(idle: &Option<Idle>, rtp: &ResourceToPriority) -> (res: (String, String))
    requires
        rtp.wf(),
        idle_ok(*idle, rtp.map()),
        idle_lexes(*idle),
    ensures
        res.0@ == idle_text(*idle, rtp.map()),
        res.1@ == idle_call_text(*idle),
{
    match idle {
        Some(i) => {
            let local = local(&i.locals);
            let shared = shared(&i.shared, rtp);
            let mut out = String::from_str("pub mod idle {\nuse super::*;\n");
            out.append(local.as_str());
            out.append(shared.as_str());
            out.append("pub struct Context<'a> {\npub local: Local<'a>,\npub shared: Shared<'a>,\n}\npub unsafe fn run<'a>(priority: &'a Priority) {\nidle(Context {\nlocal: Local::new(),\nshared: Shared::new(priority),\n});\n}\nextern \"Rust\" {\nfn idle(cx: Context);\n}\n}\n");
            (out, String::from_str("let priority = Priority::new(0);\nidle::run(&priority);\n"))
        },
        None => (String::new(), String::new()),
    }
}

/// The interrupt the task is bound to.
pub open spec fn interrupt(t: Task) -> Seq<char> {
    match t.binds {
        Some(b) => b@,
        None => Seq::empty(),
    }
}

/// The module of task `t`, for a device crate named `device`.
pub open spec fn task_text(t: Task, device: Seq<char>, m: Map<(Seq<char>, Seq<char>), u8>) -> Seq<char> {
    "pub mod "@ + t.id@ + " {\nuse super::*;\n"@ + local_text(t.locals@) + shared_text(t.shared@, m)
        + "pub struct Context<'a> {\npub shared: Shared<'a>,\npub local: Local<'a>,\n}\npub fn pend() {\nrtic_arch::pend("@
        + device + "::Interrupt::"@ + interrupt(t) + ")\n}\npub unsafe fn run<'a>(priority: &'a Priority) {\n"@
        + t.id@ + "(Context {\nlocal: Local::new(),\nshared: Shared::new(priority),\n});\n}\nextern \"Rust\" {\nfn "@
        + t.id@ + "(cx: Context);\n}\n#[allow(non_snake_case)]\n#[no_mangle]\nunsafe fn "@ + interrupt(t)
        + "() {\nlet priority = Priority::new("@ + decimal(t.priority as nat) + "u8);\nrun(&priority);\n}\n}\n"@
}

/// The module of `task`, whose interrupt belongs to the device crate `device`.
pub fn gen_task(task: &Task, device: &String, rtp: &ResourceToPriority) -> (s: String)
    requires
        rtp.wf(),
        task_ok(*task, rtp.map()),
        task_lexes(*task),
    ensures
        s@ == task_text(*task, device@, rtp.map()),
{
    let irq = match &task.binds {
        Some(b) => b,
        None => {
            assert(false);
            &task.id
        },
    };
    let local = local(&task.locals);
    let shared = shared(&task.shared, rtp);
    let mut out = String::from_str("pub mod ");
    out.append(task.id.as_str());
    out.append(" {\nuse super::*;\n");
    out.append(local.as_str());
    out.append(shared.as_str());
    out.append("pub struct Context<'a> {\npub shared: Shared<'a>,\npub local: Local<'a>,\n}\npub fn pend() {\nrtic_arch::pend(");
    out.append(device.as_str());
    out.append("::Interrupt::");
    out.append(irq.as_str());
    out.append(")\n}\npub unsafe fn run<'a>(priority: &'a Priority) {\n");
    out.append(task.id.as_str());
    out.append("(Context {\nlocal: Local::new(),\nshared: Shared::new(priority),\n});\n}\nextern \"Rust\" {\nfn ");
    out.append(task.id.as_str());
    out.append("(cx: Context);\n}\n#[allow(non_snake_case)]\n#[no_mangle]\nunsafe fn ");
    out.append(irq.as_str());
    out.append("() {\nlet priority = Priority::new(");
    out.append(u8_decimal(task.priority).as_str());
    out.append("u8);\nrun(&priority);\n}\n}\n");
    out
}

// ---------------------------------------------------------------------------
// Tasks and the whole application

/// The module of a task.
pub open spec fn task_module(device: Seq<char>, m: Map<(Seq<char>, Seq<char>), u8>) -> spec_fn(Task) -> Seq<char> {
    |t: Task| task_text(t, device, m)
}

/// The statements of `main` that enable the interrupt of a task and give it
/// the task's priority.
pub open spec fn interrupt_init(device: Seq<char>) -> spec_fn(Task) -> Seq<char> {
    |t: Task| "rtic_arch::unmask("@ + device + "::Interrupt::"@ + interrupt(t) + ");\nrtic_arch::set_priority("@
        + device + "::Interrupt::"@ + interrupt(t) + ", "@ + decimal(t.priority as nat) + "u8);\n"@
}

fn task_item(t: &Task, device: &String, rtp: &ResourceToPriority) -> (res: (String, String))
    requires
        rtp.wf(),
        task_ok(*t, rtp.map()),
        task_lexes(*t),
    ensures
        res.0@ == task_module(device@, rtp.map())(*t),
        res.1@ == interrupt_init(device@)(*t),
{
    let module = gen_task(t, device, rtp);
    let irq = match &t.binds {
        Some(b) => b,
        None => {
            assert(false);
            &t.id
        },
    };
    let mut init = String::from_str("rtic_arch::unmask(");
    init.append(device.as_str());
    init.append("::Interrupt::");
    init.append(irq.as_str());
    init.append(");\nrtic_arch::set_priority(");
    init.append(device.as_str());
    init.append("::Interrupt::");
    init.append(irq.as_str());
    init.append(", ");
    init.append(u8_decimal(t.priority).as_str());
    init.append("u8);\n");
    (module, init)
}

/// The modules of all tasks, and the statements of `main` setting up their interrupts.
pub fn gen_tasks(task_set: &TaskSet, rtp: &ResourceToPriority) -> (res: (String, String))
    requires
        rtp.wf(),
        tasks_ok(*task_set, rtp.map()),
        tasks_lex(*task_set),
    ensures
        res.0@ == concat(task_set.tasks@, task_module(task_set.device@, rtp.map())),
        res.1@ == concat(task_set.tasks@, interrupt_init(task_set.device@)),
{
    let ghost m = rtp.map();
    let ghost ts = task_set.tasks@;
    let ghost dev = task_set.device@;
    let mut tasks = String::new();
    let mut inits = String::new();
    proof {
        lemma_concat_all(ts, task_module(dev, m));
        lemma_concat_all(ts, interrupt_init(dev));
    }
    let n = task_set.tasks.len();
    let mut j: usize = 0;
    while j < n
        invariant
            n == ts.len(),
            ts == task_set.tasks@,
            dev == task_set.device@,
            m == rtp.map(),
            rtp.wf(),
            tasks_ok(*task_set, m),
            tasks_lex(*task_set),
            j <= n,
            tasks@ == concat(ts.take(j as int), task_module(dev, m)),
            inits@ == concat(ts.take(j as int), interrupt_init(dev)),
        decreases n - j,
    {
        let t = &task_set.tasks[j];
        assert(task_ok(ts[j as int], m));
        assert(task_lexes(ts[j as int]));
        let (module, init) = task_item(t, &task_set.device, rtp);
        tasks.append(module.as_str());
        inits.append(init.as_str());
        proof {
            lemma_concat_step(ts, task_module(dev, m), j as int);
            lemma_concat_step(ts, interrupt_init(dev), j as int);
            assert(tasks@ =~= concat(ts.take(j as int), task_module(dev, m)) + task_module(dev, m)(ts[j as int]));
            assert(inits@ =~= concat(ts.take(j as int), interrupt_init(dev)) + interrupt_init(dev)(ts[j as int]));
        }
        j = j + 1;
    }
    proof {
        lemma_concat_all(ts, task_module(dev, m));
        lemma_concat_all(ts, interrupt_init(dev));
    }
    (tasks, inits)
}

/// The code generated for the application `ts` with ceilings `m`: the
/// imports, `main` (which runs `init` in a critical section, moves the shared
/// resources into place, enables every task's interrupt at its priority and
/// then runs idle), the resource declarations and the `init`, `idle` and task
/// modules.
pub open spec fn task_set_text(ts: TaskSet, m: Map<(Seq<char>, Seq<char>), u8>) -> Seq<char> {
    "#[allow(unused_imports)]\nuse crate::rtic_arch::{self, ResourceProxy, Resource};\n#[allow(unused_imports)]\nuse mutex::Mutex;\n#[allow(unused_imports)]\nuse rtic_zero::{racy_cell::RacyCell, priority::Priority};\n#[allow(unused_imports)]\nuse core::mem::MaybeUninit;\nuse cortex_m_semihosting::debug;\n#[no_mangle]\nunsafe extern \"C\" fn main() -> ! {\nrtic_arch::interrupt_free(|_| {\nlet shared = init::run();\nresources::move_shared(shared);\n"@
        + concat(ts.tasks@, interrupt_init(ts.device@)) + "});\n"@ + idle_call_text(ts.idle)
        + "debug::exit(debug::EXIT_SUCCESS);\nloop {}\n}\n"@ + resources_text(ts.shared@, m)
        + init_text(ts.init) + idle_text(ts.idle, m) + concat(ts.tasks@, task_module(ts.device@, m))
}

/// The code for the application `task_set` with the ceilings `rtp`.
pub fn gen_task_set(task_set: &TaskSet, rtp: &ResourceToPriority) -> (s: String)
    requires
        rtp.wf(),
        task_set_ok(*task_set, rtp.map()),
        task_set_lexes(*task_set),
    ensures
        s@ == task_set_text(*task_set, rtp.map()),
{
    let init = gen_init(&task_set.init);
    let resources = gen_shared(&task_set.shared, rtp);
    let (idle, idle_call) = gen_idle(&task_set.idle, rtp);
    let (tasks, interrupt_init) = gen_tasks(task_set, rtp);
    let mut out = String::from_str("#[allow(unused_imports)]\nuse crate::rtic_arch::{self, ResourceProxy, Resource};\n#[allow(unused_imports)]\nuse mutex::Mutex;\n#[allow(unused_imports)]\nuse rtic_zero::{racy_cell::RacyCell, priority::Priority};\n#[allow(unused_imports)]\nuse core::mem::MaybeUninit;\nuse cortex_m_semihosting::debug;\n#[no_mangle]\nunsafe extern \"C\" fn main() -> ! {\nrtic_arch::interrupt_free(|_| {\nlet shared = init::run();\nresources::move_shared(shared);\n");
    out.append(interrupt_init.as_str());
    out.append("});\n");
    out.append(idle_call.as_str());
    out.append("debug::exit(debug::EXIT_SUCCESS);\nloop {}\n}\n");
    out.append(resources.as_str());
    out.append(init.as_str());
    out.append(idle.as_str());
    out.append(tasks.as_str());
    out
}

/// The outcome of the check inside a call that generated `res`.
pub open spec fn check_outcome<A>(res: Result<A, CodegenError>) -> Result<(), CodegenError> {
    match res {
        Ok(_) => Ok(()),
        Err(CodegenError::Unlexable) => Ok(()),
        Err(e) => Err(e),
    }
}

/// Check the application `task_set` against the ceilings `rtp` and generate
/// its code as Rust tokens. The check goes as in `check_task_set`; after it,
/// the generated text is lexed, and `Unlexable` is returned if the lexer
/// refuses it. What the tokens are is not stated.
pub fn gen_task_set_tokens(task_set: &TaskSet, rtp: &ResourceToPriority) -> (res: Result<TokenStream, CodegenError>)
    requires
        rtp.wf(),
    ensures
        res is Ok ==> task_set_ok(*task_set, rtp.map()) && task_set_lexes(*task_set)
            && fallback_lexes(task_set_text(*task_set, rtp.map())),
        res is Err && res->Err_0 is Unlexable ==> task_set_ok(*task_set, rtp.map()) && task_set_lexes(*task_set),
        exists|v: Seq<bool>| #[trigger] lexer_verdicts(*task_set, v)
            && verdict_result(*task_set, rtp.map(), v, check_outcome(res)),
{
    let checked = check_task_set(task_set, rtp);
    let ghost v = choose|v: Seq<bool>| #[trigger] lexer_verdicts(*task_set, v)
        && verdict_result(*task_set, rtp.map(), v, checked);
    match checked {
        Err(e) => {
            proof {
                if task_set_ok(*task_set, rtp.map()) {
                    assert(e is InvalidTokens);
                } else {
                    lemma_defect_not_unlexable(*task_set, rtp.map(), e);
                }
            }
            Err(e)
        },
        Ok(()) => {
            let text = gen_task_set(task_set, rtp);
            match parse_tokens(text.as_str()) {
                Ok(tokens) => Ok(tokens),
                Err(_) => Err(CodegenError::Unlexable),
            }
        },
    }
}

/// What `generate` returns for the application `ts` whose ceilings are `m`:
/// the exact code when it succeeds, and otherwise the outcome of the check
/// for some verdicts of the lexer on the application's texts.
pub open spec fn generated(ts: TaskSet, m: Map<(Seq<char>, Seq<char>), u8>, res: Result<String, CodegenError>) -> bool {
    &&& (res matches Ok(s) ==> task_set_ok(ts, m) && task_set_lexes(ts) && s@ == task_set_text(ts, m))
    &&& !(res matches Err(CodegenError::Unlexable))
    &&& exists|v: Seq<bool>| #[trigger] lexer_verdicts(ts, v) && verdict_result(ts, m, v, check_outcome(res))
}

/// Analyse the application `task_set`, check it and generate its code.
pub fn generate(task_set: &TaskSet) -> (res: Result<String, CodegenError>)
    ensures
        !(res matches Err(CodegenError::Unlexable)),
        exists|m: Map<(Seq<char>, Seq<char>), u8>|
            is_ceiling_map(contexts(*task_set), m) && #[trigger] generated(*task_set, m, res),
{
    let rtp = resource_ceiling(task_set);
    let ghost m = rtp.map();
    let checked = check_task_set(task_set, &rtp);
    let ghost v = choose|v: Seq<bool>| #[trigger] lexer_verdicts(*task_set, v)
        && verdict_result(*task_set, m, v, checked);
    let res = match checked {
        Ok(()) => {
            let r: Result<String, CodegenError> = Ok(gen_task_set(task_set, &rtp));
            assert(verdict_result(*task_set, m, v, check_outcome(r)));
            r
        },
        Err(e) => {
            proof {
                if task_set_ok(*task_set, m) {
                    assert(e is InvalidTokens);
                } else {
                    lemma_defect_not_unlexable(*task_set, m, e);
                }
            }
            let r: Result<String, CodegenError> = Err(e);
            assert(check_outcome(r) == checked);
            r
        },
    };
    assert(generated(*task_set, m, res));
    res
}

/// What `generate` answers, whatever the lexer's verdicts: on success
/// exactly the code of the application; a failure always names its cause,
/// which is a defect of names, bindings or ceilings, or else, on an
/// otherwise sound application, one of its types or initial values; the
/// code it generates is never reported as unlexable; and an application
/// with a defect is never accepted.
pub proof fn lemma_generate_outcome(ts: TaskSet, m: Map<(Seq<char>, Seq<char>), u8>, res: Result<String, CodegenError>)
    requires
        generated(ts, m, res),
    ensures
        res matches Ok(s) ==> s@ == task_set_text(ts, m),
        res matches Err(e) ==> task_set_defect(ts, m, e)
            || (task_set_ok(ts, m) && (e matches CodegenError::InvalidTokens(x) && token_text(ts, x@))),
        !(res matches Err(CodegenError::Unlexable)),
        !task_set_ok(ts, m) ==> (res matches Err(e) && task_set_defect(ts, m, e)),
{
    let v = choose|v: Seq<bool>| #[trigger] lexer_verdicts(ts, v) && verdict_result(ts, m, v, check_outcome(res));
    if let Err(e) = res {
        if task_set_ok(ts, m) {
            if !(forall|j: int| 0 <= j < v.len() ==> #[trigger] v[j]) {
                let i = choose|i: int| #[trigger] is_first_refused(v, i)
                    && (check_outcome(res) matches Err(CodegenError::InvalidTokens(x)) && x@ == token_texts(ts)[i]);
                let x = e->InvalidTokens_0;
                lemma_token_texts(ts, x@);
                assert(token_texts(ts)[i] == x@);
            }
        }
    }
}

/// With an idle context `i`, the generated code is the code without one,
/// with `main` running idle at priority 0 right after the interrupt setup
/// and before the exit, and with the idle module added; without an idle
/// context `main` goes from the interrupt setup straight to the exit.
pub proof fn lemma_idle_adds_run_and_module(ts: TaskSet, i: Idle, m: Map<(Seq<char>, Seq<char>), u8>)
    ensures
        exists|a: Seq<char>, b: Seq<char>, c: Seq<char>|
            #[trigger] task_set_text(
                TaskSet { device: ts.device, shared: ts.shared, locals: ts.locals, init: ts.init, idle: None, tasks: ts.tasks },
                m,
            ) == a + "});\n"@ + "debug::exit(debug::EXIT_SUCCESS);\nloop {}\n}\n"@ + b + c
            && task_set_text(
                TaskSet { device: ts.device, shared: ts.shared, locals: ts.locals, init: ts.init, idle: Some(i), tasks: ts.tasks },
                m,
            ) == a + "});\n"@ + "let priority = Priority::new(0);\nidle::run(&priority);\n"@
                + "debug::exit(debug::EXIT_SUCCESS);\nloop {}\n}\n"@ + b + idle_text(Some(i), m) + c,
{
    let t0 = TaskSet { device: ts.device, shared: ts.shared, locals: ts.locals, init: ts.init, idle: None, tasks: ts.tasks };
    let t1 = TaskSet { device: ts.device, shared: ts.shared, locals: ts.locals, init: ts.init, idle: Some(i), tasks: ts.tasks };
    let a = "#[allow(unused_imports)]\nuse crate::rtic_arch::{self, ResourceProxy, Resource};\n#[allow(unused_imports)]\nuse mutex::Mutex;\n#[allow(unused_imports)]\nuse rtic_zero::{racy_cell::RacyCell, priority::Priority};\n#[allow(unused_imports)]\nuse core::mem::MaybeUninit;\nuse cortex_m_semihosting::debug;\n#[no_mangle]\nunsafe extern \"C\" fn main() -> ! {\nrtic_arch::interrupt_free(|_| {\nlet shared = init::run();\nresources::move_shared(shared);\n"@
        + concat(ts.tasks@, interrupt_init(ts.device@));
    let close = "});\n"@;
    let exit = "debug::exit(debug::EXIT_SUCCESS);\nloop {}\n}\n"@;
    let call = "let priority = Priority::new(0);\nidle::run(&priority);\n"@;
    let b = resources_text(ts.shared@, m) + init_text(ts.init);
    let c = concat(ts.tasks@, task_module(ts.device@, m));
    let e = Seq::<char>::empty();
    let r = resources_text(ts.shared@, m);
    let n = init_text(ts.init);
    let d = idle_text(Some(i), m);
    assert(task_set_text(t0, m) == a + close + e + exit + r + n + e + c);
    assert(a + close + e + exit + r + n + e + c =~= a + close + exit + b + c);
    assert(task_set_text(t1, m) == a + close + call + exit + r + n + d + c);
    assert(a + close + call + exit + r + n + d + c =~= a + close + call + exit + b + d + c);
}

} // verus!
