use proc_macro2::TokenStream;
use rtic_zero::analysis::resource_ceiling;
use std::str::FromStr;
use rtic_zero::codegen::{check_task_set, check_with_verdicts, first_refused, token_texts_of, gen_init, gen_shared, gen_task_set, gen_task_set_tokens, generate, local, shared, u8_decimal, CodegenError};
use rtic_zero::syntax::{Idle, Init, Resource, ResourceInit, Task, TaskSet, task_set};

fn res(id: &str, ty: &str) -> Resource {
    Resource { id: id.to_string(), ty: ty.to_string() }
}

fn init_res(id: &str, ty: &str, value: &str) -> ResourceInit {
    ResourceInit { id: id.to_string(), ty: ty.to_string(), value: value.to_string() }
}

fn task(id: &str, priority: u8, binds: &str) -> Task {
    Task {
        id: id.to_string(),
        priority,
        binds: Some(binds.to_string()),
        shared: vec![res("c", "u64")],
        locals: vec![init_res("b", "u64", "64")],
    }
}

/// The application of the example firmware: two shared resources, an idle
/// context and three interrupt-bound tasks.
fn app() -> TaskSet {
    TaskSet {
        device: "lm3s6965".to_string(),
        shared: vec![res("c", "u64"), res("d", "u8")],
        locals: vec![],
        init: Init { locals: vec![init_res("a", "u32", "32"), init_res("b", "u64", "64")], late: () },
        idle: Some(Idle { shared: vec![res("c", "u64"), res("d", "u8")], locals: vec![init_res("a", "u32", "32")] }),
        tasks: vec![task("t1", 1, "GPIOA"), task("t2", 2, "GPIOB"), task("systick", 3, "SystTick")],
    }
}

const EXPECTED: &str = r#####"#[allow(unused_imports)]
use crate::rtic_arch::{self, ResourceProxy, Resource};
#[allow(unused_imports)]
use mutex::Mutex;
#[allow(unused_imports)]
use rtic_zero::{racy_cell::RacyCell, priority::Priority};
#[allow(unused_imports)]
use core::mem::MaybeUninit;
use cortex_m_semihosting::debug;
#[no_mangle]
unsafe extern "C" fn main() -> ! {
rtic_arch::interrupt_free(|_| {
let shared = init::run();
resources::move_shared(shared);
rtic_arch::unmask(lm3s6965::Interrupt::GPIOA);
rtic_arch::set_priority(lm3s6965::Interrupt::GPIOA, 1u8);
rtic_arch::unmask(lm3s6965::Interrupt::GPIOB);
rtic_arch::set_priority(lm3s6965::Interrupt::GPIOB, 2u8);
rtic_arch::unmask(lm3s6965::Interrupt::SystTick);
rtic_arch::set_priority(lm3s6965::Interrupt::SystTick, 3u8);
});
let priority = Priority::new(0);
idle::run(&priority);
debug::exit(debug::EXIT_SUCCESS);
loop {}
}
pub struct Shared {
pub c: u64,
pub d: u8
}
mod resources {
use super::*;
#[allow(non_upper_case_globals)]
pub static c: Resource<u64, 3> = Resource::new();
#[allow(non_upper_case_globals)]
pub static d: Resource<u8, 0> = Resource::new();
pub unsafe fn move_shared(shared: Shared) {
c.write_maybe_uninit(shared.c);
d.write_maybe_uninit(shared.d);
}
}
pub mod init {
use super::*;
#[allow(non_upper_case_globals)]
static a: RacyCell<u32> = RacyCell::new(32);
#[allow(non_upper_case_globals)]
static b: RacyCell<u64> = RacyCell::new(64);
pub struct Local<'a> {
pub a: &'a mut u32,
pub b: &'a mut u64
}
impl<'a> Local<'a> {
pub unsafe fn new() -> Self {
Self {
a: &mut *a.get_mut(),
b: &mut *b.get_mut()
}
}
}
pub struct Context<'a> {
pub local: Local<'a>,
}
pub unsafe fn run() -> Shared {
init(Context {
local: Local::new(),
})
}
extern "Rust" {
fn init(cx: Context) -> Shared;
}
}
pub mod idle {
use super::*;
#[allow(non_upper_case_globals)]
static a: RacyCell<u32> = RacyCell::new(32);
pub struct Local<'a> {
pub a: &'a mut u32
}
impl<'a> Local<'a> {
pub unsafe fn new() -> Self {
Self {
a: &mut *a.get_mut()
}
}
}
pub struct Shared<'a> {
pub c: ResourceProxy<'a, u64, 3>,
pub d: ResourceProxy<'a, u8, 0>
}
impl<'a> Shared<'a> {
pub unsafe fn new(priority: &'a Priority) -> Self {
Self {
c: ResourceProxy::new(&resources::c, priority),
d: ResourceProxy::new(&resources::d, priority)
}
}
}
pub struct Context<'a> {
pub local: Local<'a>,
pub shared: Shared<'a>,
}
pub unsafe fn run<'a>(priority: &'a Priority) {
idle(Context {
local: Local::new(),
shared: Shared::new(priority),
});
}
extern "Rust" {
fn idle(cx: Context);
}
}
pub mod t1 {
use super::*;
#[allow(non_upper_case_globals)]
static b: RacyCell<u64> = RacyCell::new(64);
pub struct Local<'a> {
pub b: &'a mut u64
}
impl<'a> Local<'a> {
pub unsafe fn new() -> Self {
Self {
b: &mut *b.get_mut()
}
}
}
pub struct Shared<'a> {
pub c: ResourceProxy<'a, u64, 3>
}
impl<'a> Shared<'a> {
pub unsafe fn new(priority: &'a Priority) -> Self {
Self {
c: ResourceProxy::new(&resources::c, priority)
}
}
}
pub struct Context<'a> {
pub shared: Shared<'a>,
pub local: Local<'a>,
}
pub fn pend() {
rtic_arch::pend(lm3s6965::Interrupt::GPIOA)
}
pub unsafe fn run<'a>(priority: &'a Priority) {
t1(Context {
local: Local::new(),
shared: Shared::new(priority),
});
}
extern "Rust" {
fn t1(cx: Context);
}
#[allow(non_snake_case)]
#[no_mangle]
unsafe fn GPIOA() {
let priority = Priority::new(1u8);
run(&priority);
}
}
pub mod t2 {
use super::*;
#[allow(non_upper_case_globals)]
static b: RacyCell<u64> = RacyCell::new(64);
pub struct Local<'a> {
pub b: &'a mut u64
}
impl<'a> Local<'a> {
pub unsafe fn new() -> Self {
Self {
b: &mut *b.get_mut()
}
}
}
pub struct Shared<'a> {
pub c: ResourceProxy<'a, u64, 3>
}
impl<'a> Shared<'a> {
pub unsafe fn new(priority: &'a Priority) -> Self {
Self {
c: ResourceProxy::new(&resources::c, priority)
}
}
}
pub struct Context<'a> {
pub shared: Shared<'a>,
pub local: Local<'a>,
}
pub fn pend() {
rtic_arch::pend(lm3s6965::Interrupt::GPIOB)
}
pub unsafe fn run<'a>(priority: &'a Priority) {
t2(Context {
local: Local::new(),
shared: Shared::new(priority),
});
}
extern "Rust" {
fn t2(cx: Context);
}
#[allow(non_snake_case)]
#[no_mangle]
unsafe fn GPIOB() {
let priority = Priority::new(2u8);
run(&priority);
}
}
pub mod systick {
use super::*;
#[allow(non_upper_case_globals)]
static b: RacyCell<u64> = RacyCell::new(64);
pub struct Local<'a> {
pub b: &'a mut u64
}
impl<'a> Local<'a> {
pub unsafe fn new() -> Self {
Self {
b: &mut *b.get_mut()
}
}
}
pub struct Shared<'a> {
pub c: ResourceProxy<'a, u64, 3>
}
impl<'a> Shared<'a> {
pub unsafe fn new(priority: &'a Priority) -> Self {
Self {
c: ResourceProxy::new(&resources::c, priority)
}
}
}
pub struct Context<'a> {
pub shared: Shared<'a>,
pub local: Local<'a>,
}
pub fn pend() {
rtic_arch::pend(lm3s6965::Interrupt::SystTick)
}
pub unsafe fn run<'a>(priority: &'a Priority) {
systick(Context {
local: Local::new(),
shared: Shared::new(priority),
});
}
extern "Rust" {
fn systick(cx: Context);
}
#[allow(non_snake_case)]
#[no_mangle]
unsafe fn SystTick() {
let priority = Priority::new(3u8);
run(&priority);
}
}
"#####;

#[test]
fn generates_application() {
    let ts = app();
    let rtp = resource_ceiling(&ts);
    assert_eq!(rtp.get(&res("c", "u64")), Some(&3));
    assert_eq!(rtp.get(&res("d", "u8")), Some(&0));
    assert!(check_task_set(&ts, &rtp).is_ok());
    let text = gen_task_set(&ts, &rtp);
    assert_eq!(text, EXPECTED);
    assert_eq!(generate(&ts).unwrap(), EXPECTED);
}

#[test]
fn generated_application_lexes() {
    let ts = app();
    let rtp = resource_ceiling(&ts);
    let tokens = gen_task_set_tokens(&ts, &rtp).unwrap();
    let s = tokens.to_string();
    assert!(s.contains("pub mod systick"));
    assert!(s.contains("SystTick"));
}

#[test]
fn decimal_text() {
    assert_eq!(u8_decimal(0), "0");
    assert_eq!(u8_decimal(7), "7");
    assert_eq!(u8_decimal(10), "10");
    assert_eq!(u8_decimal(99), "99");
    assert_eq!(u8_decimal(100), "100");
    assert_eq!(u8_decimal(255), "255");
}

#[test]
fn empty_local_and_shared() {
    let rtp = resource_ceiling(&app());
    assert_eq!(
        local(&vec![]),
        ";\npub struct Local<'a> {\n\n}\nimpl<'a> Local<'a> {\npub unsafe fn new() -> Self {\nSelf {\n\n}\n}\n}\n"
    );
    assert_eq!(
        shared(&vec![], &rtp),
        "pub struct Shared<'a> {\n\n}\nimpl<'a> Shared<'a> {\npub unsafe fn new(priority: &'a Priority) -> Self {\nSelf {\n\n}\n}\n}\n"
    );
}

#[test]
fn pieces_without_trailing_separators() {
    let rtp = resource_ceiling(&app());
    assert_eq!(
        shared(&vec![res("c", "u64"), res("d", "u8")], &rtp),
        "pub struct Shared<'a> {\npub c: ResourceProxy<'a, u64, 3>,\npub d: ResourceProxy<'a, u8, 0>\n}\nimpl<'a> Shared<'a> {\npub unsafe fn new(priority: &'a Priority) -> Self {\nSelf {\nc: ResourceProxy::new(&resources::c, priority),\nd: ResourceProxy::new(&resources::d, priority)\n}\n}\n}\n"
    );
    assert_eq!(
        local(&vec![init_res("a", "u32", "32"), init_res("b", "u64", "64")]),
        "#[allow(non_upper_case_globals)]\nstatic a: RacyCell<u32> = RacyCell::new(32);\n#[allow(non_upper_case_globals)]\nstatic b: RacyCell<u64> = RacyCell::new(64);\npub struct Local<'a> {\npub a: &'a mut u32,\npub b: &'a mut u64\n}\nimpl<'a> Local<'a> {\npub unsafe fn new() -> Self {\nSelf {\na: &mut *a.get_mut(),\nb: &mut *b.get_mut()\n}\n}\n}\n"
    );
    assert_eq!(
        gen_shared(&vec![res("c", "u64"), res("d", "u8")], &rtp),
        "pub struct Shared {\npub c: u64,\npub d: u8\n}\nmod resources {\nuse super::*;\n#[allow(non_upper_case_globals)]\npub static c: Resource<u64, 3> = Resource::new();\n#[allow(non_upper_case_globals)]\npub static d: Resource<u8, 0> = Resource::new();\npub unsafe fn move_shared(shared: Shared) {\nc.write_maybe_uninit(shared.c);\nd.write_maybe_uninit(shared.d);\n}\n}\n"
    );
}

#[test]
fn init_module_text() {
    let init = Init { locals: vec![], late: () };
    assert_eq!(
        gen_init(&init),
        "pub mod init {\nuse super::*;\n;\npub struct Local<'a> {\n\n}\nimpl<'a> Local<'a> {\npub unsafe fn new() -> Self {\nSelf {\n\n}\n}\n}\npub struct Context<'a> {\npub local: Local<'a>,\n}\npub unsafe fn run() -> Shared {\ninit(Context {\nlocal: Local::new(),\n})\n}\nextern \"Rust\" {\nfn init(cx: Context) -> Shared;\n}\n}\n"
    );
}

#[test]
fn unbound_task_is_refused() {
    // task t3 of the example task set is not bound to an interrupt
    let ts = task_set();
    match generate(&ts) {
        Err(CodegenError::UnboundTask(t)) => assert_eq!(t, "t3"),
        other => panic!("unexpected {:?}", other),
    }
}

#[test]
fn invalid_identifier_is_refused() {
    let mut ts = app();
    ts.tasks[1].id = "t 2".to_string();
    match generate(&ts) {
        Err(CodegenError::InvalidIdent(s)) => assert_eq!(s, "t 2"),
        other => panic!("unexpected {:?}", other),
    }
    let mut ts = app();
    ts.device = "".to_string();
    assert!(matches!(generate(&ts), Err(CodegenError::InvalidIdent(s)) if s.is_empty()));
    let mut ts = app();
    ts.tasks[0].binds = Some("3GPIO".to_string());
    assert!(matches!(generate(&ts), Err(CodegenError::InvalidIdent(s)) if s == "3GPIO"));
}

#[test]
fn unlexable_type_is_refused() {
    let mut ts = app();
    ts.shared[1].ty = "u8 /*".to_string();
    // the declared resource `d` then differs from the one idle shares: the
    // missing ceiling is reported before any text is lexed
    let rtp = resource_ceiling(&ts);
    assert!(matches!(check_task_set(&ts, &rtp), Err(CodegenError::MissingCeiling(s)) if s == "d"));
    let mut ts = app();
    ts.tasks[2].locals[0].ty = "u64 /*".to_string();
    let rtp = resource_ceiling(&ts);
    assert!(matches!(check_task_set(&ts, &rtp), Err(CodegenError::InvalidTokens(s)) if s == "u64 /*"));
    let mut ts = app();
    ts.init.locals[0].value = "\"unterminated".to_string();
    assert!(matches!(generate(&ts), Err(CodegenError::InvalidTokens(s)) if s == "\"unterminated"));
}

#[test]
fn missing_ceiling_is_refused() {
    // a declared resource that no context shares has no ceiling
    let mut ts = app();
    ts.shared.push(res("e", "u16"));
    assert!(matches!(generate(&ts), Err(CodegenError::MissingCeiling(s)) if s == "e"));
}

#[test]
fn unicode_identifiers_are_accepted() {
    let mut ts = app();
    ts.tasks[0].id = "tâche".to_string();
    let text = generate(&ts).unwrap();
    assert!(text.contains("pub mod tâche {"));
}

fn same_tokens(a: &str, b: &str) -> bool {
    TokenStream::from_str(a).unwrap().to_string() == TokenStream::from_str(b).unwrap().to_string()
}

#[test]
fn pieces_match_quoted_tokens() {
    let rtp = resource_ceiling(&app());
    assert!(same_tokens(
        &gen_shared(&vec![res("c", "u64"), res("d", "u8")], &rtp),
        "pub struct Shared{pub c: u64, pub d: u8} mod resources{use super::*; #[allow(non_upper_case_globals)] pub static c: Resource<u64,3> = Resource::new(); #[allow(non_upper_case_globals)] pub static d: Resource<u8,0> = Resource::new(); pub unsafe fn move_shared(shared: Shared){c.write_maybe_uninit(shared.c); d.write_maybe_uninit(shared.d);}}"
    ));
    assert!(same_tokens(
        &local(&vec![init_res("a", "u32", "32"), init_res("b", "u64", "64")]),
        "#[allow(non_upper_case_globals)] static a: RacyCell<u32> = RacyCell::new(32); #[allow(non_upper_case_globals)] static b: RacyCell<u64> = RacyCell::new(64); pub struct Local<'a>{pub a: &'a mut u32, pub b: &'a mut u64} impl<'a> Local<'a>{pub unsafe fn new() -> Self {Self{a: &mut *a.get_mut(), b: &mut *b.get_mut()}}}"
    ));
    assert!(same_tokens(
        &shared(&vec![res("c", "u64"), res("d", "u8")], &rtp),
        "pub struct Shared<'a>{pub c: ResourceProxy<'a,u64,3>, pub d: ResourceProxy<'a,u8,0>} impl<'a> Shared<'a>{pub unsafe fn new(priority: &'a Priority) -> Self {Self{c: ResourceProxy::new(&resources::c, priority), d: ResourceProxy::new(&resources::d, priority)}}}"
    ));
}

#[test]
fn token_texts_in_lexing_order() {
    let texts = token_texts_of(&app());
    let expected: Vec<&str> = vec![
        "u32", "32", "u64", "64", // init's locals
        "u64", "u8", // shared resources
        "u32", "32", "u64", "u8", // idle's locals, then its shared resources
        "u64", "64", "u64", // t1
        "u64", "64", "u64", // t2
        "u64", "64", "u64", // systick
    ];
    assert_eq!(texts, expected);
}

#[test]
fn first_refusal_is_found() {
    assert_eq!(first_refused(&vec![]), None);
    assert_eq!(first_refused(&vec![true, true]), None);
    assert_eq!(first_refused(&vec![true, false, false]), Some(1));
    assert_eq!(first_refused(&vec![false]), Some(0));
}

#[test]
fn verdicts_decide_the_reported_text() {
    let ts = app();
    let rtp = resource_ceiling(&ts);
    let texts = token_texts_of(&ts);
    let mut verdicts = vec![true; texts.len()];
    assert!(check_with_verdicts(&ts, &rtp, &texts, &verdicts).is_ok());
    verdicts[4] = false;
    verdicts[7] = false;
    assert!(matches!(check_with_verdicts(&ts, &rtp, &texts, &verdicts), Err(CodegenError::InvalidTokens(s)) if s == "u64"));
    verdicts[1] = false;
    assert!(matches!(check_with_verdicts(&ts, &rtp, &texts, &verdicts), Err(CodegenError::InvalidTokens(s)) if s == "32"));
    // a defect of names comes first, whatever the verdicts
    let mut bad = app();
    bad.tasks[0].binds = None;
    let texts = token_texts_of(&bad);
    let verdicts = vec![false; texts.len()];
    assert!(matches!(check_with_verdicts(&bad, &rtp, &texts, &verdicts), Err(CodegenError::UnboundTask(s)) if s == "t1"));
}

#[test]
fn proxy_ceilings_match_statics() {
    let ts = app();
    let rtp = resource_ceiling(&ts);
    let proxies = shared(&ts.idle.as_ref().unwrap().shared, &rtp);
    let statics = gen_shared(&ts.shared, &rtp);
    assert!(proxies.contains("pub c: ResourceProxy<'a, u64, 3>"));
    assert!(statics.contains("pub static c: Resource<u64, 3> = Resource::new();"));
    assert!(proxies.contains("pub d: ResourceProxy<'a, u8, 0>"));
    assert!(statics.contains("pub static d: Resource<u8, 0> = Resource::new();"));
}
