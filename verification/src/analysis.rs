//! Resource-ceiling analysis: the ceiling of a shared resource is the highest
//! priority of the contexts that use it.
use vstd::prelude::*;
use crate::keyed::{KeyEq, KeyedList};
use crate::syntax::{resource_views, Resource, Task, TaskSet};

verus! {

/// Ceilings of resources, keyed by resource.
pub type ResourceToPriority = KeyedList<Resource, u8>;

/// Whether `k` occurs in `rs`.
pub open spec fn mentions<K>(rs: Seq<K>, k: K) -> bool {
    exists|j: int| 0 <= j < rs.len() && #[trigger] rs[j] == k
}

/// Whether some context of `ctx` uses the resource `k`.
pub open spec fn used<K>(ctx: Seq<(u8, Seq<K>)>, k: K) -> bool {
    exists|i: int| 0 <= i < ctx.len() && #[trigger] mentions(ctx[i].1, k)
}

/// `m` gives the ceiling of every resource used by the contexts `ctx`
/// (pairs of a priority and the resources shared at that priority): exactly
/// the used resources are keys, no user has a priority above the ceiling,
/// and some user runs at the ceiling.
pub open spec fn is_ceiling_map<K>(ctx: Seq<(u8, Seq<K>)>, m: Map<K, u8>) -> bool {
    &&& forall|k: K| #[trigger] m.contains_key(k) == used(ctx, k)
    &&& forall|i: int, j: int| 0 <= i < ctx.len() && 0 <= j < ctx[i].1.len()
        ==> ctx[i].0 <= m[#[trigger] ctx[i].1[j]]
    &&& forall|k: K| #[trigger] m.contains_key(k) ==>
        exists|i: int| 0 <= i < ctx.len() && #[trigger] mentions(ctx[i].1, k) && ctx[i].0 == m[k]
}

/// The contexts of a task set that share resources: every task with its
/// priority, followed by idle at priority 0 when there is an idle context.
pub open spec fn contexts(ts: TaskSet) -> Seq<(u8, Seq<(Seq<char>, Seq<char>)>)> {
    let tasks = ts.tasks@.map_values(|t: Task| (t.priority, resource_views(t.shared@)));
    match ts.idle {
        Some(idle) => tasks.push((0u8, resource_views(idle.shared@))),
        None => tasks,
    }
}

/// `m1` is `m0` once a context at priority `p` sharing `rs` is accounted
/// for: the resources of `rs` become keys and their ceilings are raised to
/// `p` where they were lower.
pub open spec fn raised_by<K>(m0: Map<K, u8>, m1: Map<K, u8>, rs: Seq<K>, p: u8) -> bool {
    &&& forall|k: K| #[trigger] m1.contains_key(k) == (m0.contains_key(k) || mentions(rs, k))
    &&& forall|k: K| #[trigger] m1.contains_key(k) ==>
        m1[k] == if !mentions(rs, k) {
            m0[k]
        } else if m0.contains_key(k) && m0[k] > p {
            m0[k]
        } else {
            p
        }
}

pub proof fn lemma_step<K>(ctx: Seq<(u8, Seq<K>)>, p: u8, rs: Seq<K>, m0: Map<K, u8>, m1: Map<K, u8>)
    requires
        is_ceiling_map(ctx, m0),
        raised_by(m0, m1, rs, p),
    ensures
        is_ceiling_map(ctx.push((p, rs)), m1),
{
    let c2 = ctx.push((p, rs));
    assert forall|k: K| #[trigger] m1.contains_key(k) == used(c2, k) by {
        if used(c2, k) {
            let i = choose|i: int| 0 <= i < c2.len() && #[trigger] mentions(c2[i].1, k);
            if i < ctx.len() {
                assert(mentions(ctx[i].1, k));
            }
        }
        if used(ctx, k) {
            let i = choose|i: int| 0 <= i < ctx.len() && #[trigger] mentions(ctx[i].1, k);
            assert(mentions(c2[i].1, k));
        }
        if mentions(rs, k) {
            assert(mentions(c2[ctx.len() as int].1, k));
        }
    }
    assert forall|i: int, j: int| 0 <= i < c2.len() && 0 <= j < c2[i].1.len()
        implies c2[i].0 <= m1[#[trigger] c2[i].1[j]] by {
        let k = c2[i].1[j];
        assert(mentions(c2[i].1, k));
        assert(m1.contains_key(k));
        if i < ctx.len() {
            assert(ctx[i].1[j] == k);
            assert(ctx[i].0 <= m0[k]);
        } else {
            assert(rs[j] == k);
            assert(mentions(rs, k));
        }
    }
    assert forall|k: K| #[trigger] m1.contains_key(k) implies
        exists|i: int| 0 <= i < c2.len() && #[trigger] mentions(c2[i].1, k) && c2[i].0 == m1[k] by {
        if !mentions(rs, k) || (m0.contains_key(k) && m0[k] > p) {
            assert(m0.contains_key(k));
            let i = choose|i: int| 0 <= i < ctx.len() && #[trigger] mentions(ctx[i].1, k) && ctx[i].0 == m0[k];
            assert(c2[i] == ctx[i]);
            assert(m1[k] == m0[k]);
            assert(mentions(c2[i].1, k));
        } else {
            assert(c2[ctx.len() as int] == (p, rs));
            assert(m1[k] == p);
            assert(mentions(c2[ctx.len() as int].1, k));
        }
    }
}

/// Raising is cumulative: accounting for `rs` and then for `r` at the same
/// priority is accounting for `rs` followed by `r`.
pub proof fn lemma_raised_push<K>(m0: Map<K, u8>, m1: Map<K, u8>, m2: Map<K, u8>, rs: Seq<K>, r: K, p: u8)
    requires
        raised_by(m0, m1, rs, p),
        raised_by(m1, m2, seq![r], p),
    ensures
        raised_by(m0, m2, rs.push(r), p),
{
    let rs2 = rs.push(r);
    assert forall|k: K| mentions(rs2, k) == (mentions(rs, k) || mentions(seq![r], k)) by {
        if mentions(rs2, k) {
            let j = choose|j: int| 0 <= j < rs2.len() && #[trigger] rs2[j] == k;
            if j < rs.len() {
                assert(rs[j] == k);
            } else {
                assert(seq![r][0] == k);
            }
        }
        if mentions(rs, k) {
            let j = choose|j: int| 0 <= j < rs.len() && #[trigger] rs[j] == k;
            assert(rs2[j] == k);
        }
        if mentions(seq![r], k) {
            assert(rs2[rs.len() as int] == k);
        }
    }
}

/// Account for the context at priority `priority` using the resource `r`.
pub fn raise_one<K: KeyEq>(rtp: &mut KeyedList<K, u8>, r: &K, priority: u8)
    requires
        old(rtp).wf(),
    ensures
        final(rtp).wf(),
        raised_by(old(rtp).map(), final(rtp).map(), seq![r@], priority),
{
    assert forall|k: K::V| mentions(seq![r@], k) == (k == r@) by {
        if k == r@ {
            assert(seq![r@][0] == k);
        }
    }
    match rtp.find(r) {
        Some(i) => {
            let (_, cur) = rtp.entry(i);
            let cur: u8 = *cur;
            if priority > cur {
                rtp.set_value(i, priority);
            }
        },
        None => {
            rtp.insert_new(r.key_clone(), priority);
        },
    }
}

/// Account for the context at priority `priority` sharing `shared`.
fn raise_ceilings(rtp: &mut ResourceToPriority, shared: &Vec<Resource>, priority: u8)
    requires
        old(rtp).wf(),
    ensures
        final(rtp).wf(),
        raised_by(old(rtp).map(), final(rtp).map(), resource_views(shared@), priority),
{
    let ghost views = resource_views(shared@);
    let n = shared.len();
    let mut j: usize = 0;
    assert(raised_by(rtp.map(), rtp.map(), views.take(0), priority)) by {
        assert forall|k: (Seq<char>, Seq<char>)| !mentions(views.take(0), k) by {}
    }
    while j < n
        invariant
            n == shared@.len(),
            views == resource_views(shared@),
            j <= n,
            rtp.wf(),
            raised_by(old(rtp).map(), rtp.map(), views.take(j as int), priority),
        decreases n - j,
    {
        let r = &shared[j];
        let ghost before = rtp.map();
        raise_one(rtp, r, priority);
        proof {
            lemma_raised_push(old(rtp).map(), before, rtp.map(), views.take(j as int), r@, priority);
            assert(views.take(j as int).push(r@) =~= views.take(j + 1));
        }
        j = j + 1;
    }
    assert(views.take(n as int) =~= views);
}

/// The ceiling of every shared resource: the highest priority among the
/// tasks (and idle, at priority 0) that share it. Resources that no context
/// shares get no ceiling.
pub fn resource_ceiling(task_set: &TaskSet) -> (rtp: ResourceToPriority)
    ensures
        rtp.wf(),
        is_ceiling_map(contexts(*task_set), rtp.map()),
{
    let mut rtp = ResourceToPriority::new();
    let ghost tasks = task_set.tasks@.map_values(|t: Task| (t.priority, resource_views(t.shared@)));
    let n = task_set.tasks.len();
    let mut i: usize = 0;
    assert(tasks.take(0) =~= Seq::<(u8, Seq<(Seq<char>, Seq<char>)>)>::empty());
    while i < n
        invariant
            n == task_set.tasks@.len(),
            tasks == task_set.tasks@.map_values(|t: Task| (t.priority, resource_views(t.shared@))),
            i <= n,
            rtp.wf(),
            is_ceiling_map(tasks.take(i as int), rtp.map()),
        decreases n - i,
    {
        let t = &task_set.tasks[i];
        let ghost old_map = rtp.map();
        raise_ceilings(&mut rtp, &t.shared, t.priority);
        proof {
            lemma_step(tasks.take(i as int), t.priority, resource_views(t.shared@), old_map, rtp.map());
        }
        assert(tasks.take(i + 1) =~= tasks.take(i as int).push((t.priority, resource_views(t.shared@))));
        i = i + 1;
    }
    assert(tasks.take(n as int) =~= tasks);
    if let Some(idle) = &task_set.idle {
        let ghost old_map = rtp.map();
        raise_ceilings(&mut rtp, &idle.shared, 0);
        proof {
            lemma_step(tasks, 0, resource_views(idle.shared@), old_map, rtp.map());
        }
    }
    rtp
}

/// The Stack Resource Policy holds for the ceilings of a task set: every
/// resource that a task or idle shares has a ceiling, no context that
/// shares it runs above that ceiling, and the ceiling is the priority of one
/// of them.
pub proof fn lemma_contexts_within_ceilings(ts: TaskSet, m: Map<(Seq<char>, Seq<char>), u8>)
    requires
        is_ceiling_map(contexts(ts), m),
    ensures
        forall|i: int, j: int| 0 <= i < ts.tasks@.len() && 0 <= j < ts.tasks@[i].shared@.len() ==> {
            &&& m.contains_key(#[trigger] ts.tasks@[i].shared@[j]@)
            &&& ts.tasks@[i].priority <= m[ts.tasks@[i].shared@[j]@]
        },
        ts.idle matches Some(idle) ==> forall|j: int| 0 <= j < idle.shared@.len()
            ==> m.contains_key(#[trigger] idle.shared@[j]@),
        forall|k: (Seq<char>, Seq<char>)| #[trigger] m.contains_key(k) ==>
            (exists|i: int, j: int| 0 <= i < ts.tasks@.len() && 0 <= j < ts.tasks@[i].shared@.len()
                && ts.tasks@[i].shared@[j]@ == k && ts.tasks@[i].priority == m[k])
            || (m[k] == 0 && (ts.idle matches Some(idle) && mentions(resource_views(idle.shared@), k))),
{
    let ctx = contexts(ts);
    let tasks = ts.tasks@.map_values(|t: Task| (t.priority, resource_views(t.shared@)));
    assert forall|i: int, j: int| 0 <= i < ts.tasks@.len() && 0 <= j < ts.tasks@[i].shared@.len() implies {
        &&& m.contains_key(#[trigger] ts.tasks@[i].shared@[j]@)
        &&& ts.tasks@[i].priority <= m[ts.tasks@[i].shared@[j]@]
    } by {
        assert(ctx[i] == tasks[i]);
        assert(ctx[i].1[j] == ts.tasks@[i].shared@[j]@);
        assert(mentions(ctx[i].1, ts.tasks@[i].shared@[j]@));
        assert(used(ctx, ts.tasks@[i].shared@[j]@));
    }
    if let Some(idle) = ts.idle {
        assert forall|j: int| 0 <= j < idle.shared@.len() implies m.contains_key(#[trigger] idle.shared@[j]@) by {
            let last = ctx.len() - 1;
            assert(ctx[last].1[j] == idle.shared@[j]@);
            assert(mentions(ctx[last].1, idle.shared@[j]@));
            assert(used(ctx, idle.shared@[j]@));
        }
    }
    assert forall|k: (Seq<char>, Seq<char>)| #[trigger] m.contains_key(k) implies
        (exists|i: int, j: int| 0 <= i < ts.tasks@.len() && 0 <= j < ts.tasks@[i].shared@.len()
            && ts.tasks@[i].shared@[j]@ == k && ts.tasks@[i].priority == m[k])
        || (m[k] == 0 && (ts.idle matches Some(idle) && mentions(resource_views(idle.shared@), k))) by {
        let i = choose|i: int| 0 <= i < ctx.len() && #[trigger] mentions(ctx[i].1, k) && ctx[i].0 == m[k];
        if i < ts.tasks@.len() {
            assert(ctx[i] == tasks[i]);
            let j = choose|j: int| 0 <= j < ctx[i].1.len() && #[trigger] ctx[i].1[j] == k;
            assert(ts.tasks@[i].shared@[j]@ == k);
        }
    }
}

/// A ceiling map is determined by its contexts.
pub proof fn lemma_ceiling_map_unique<K>(ctx: Seq<(u8, Seq<K>)>, m1: Map<K, u8>, m2: Map<K, u8>)
    requires
        is_ceiling_map(ctx, m1),
        is_ceiling_map(ctx, m2),
    ensures
        m1 == m2,
{
    assert forall|k: K| m1.contains_key(k) implies m1[k] <= m2[k] by {
        let i = choose|i: int| 0 <= i < ctx.len() && #[trigger] mentions(ctx[i].1, k) && ctx[i].0 == m1[k];
        let j = choose|j: int| 0 <= j < ctx[i].1.len() && #[trigger] ctx[i].1[j] == k;
        assert(ctx[i].0 <= m2[ctx[i].1[j]]);
    }
    assert forall|k: K| m2.contains_key(k) implies m2[k] <= m1[k] by {
        let i = choose|i: int| 0 <= i < ctx.len() && #[trigger] mentions(ctx[i].1, k) && ctx[i].0 == m2[k];
        let j = choose|j: int| 0 <= j < ctx[i].1.len() && #[trigger] ctx[i].1[j] == k;
        assert(ctx[i].0 <= m1[ctx[i].1[j]]);
    }
    assert(m1.dom() =~= m2.dom());
    assert(m1 =~= m2);
}

/// Some context of `ctx` runs at priority `p` and uses `k`.
pub open spec fn uses_at<K>(ctx: Seq<(u8, Seq<K>)>, p: u8, k: K) -> bool {
    exists|i: int| 0 <= i < ctx.len() && ctx[i].0 == p && #[trigger] mentions(ctx[i].1, k)
}

/// The two lists of contexts pair the same priorities with the same
/// resources, whatever their order and repetitions.
pub open spec fn same_users<K>(c1: Seq<(u8, Seq<K>)>, c2: Seq<(u8, Seq<K>)>) -> bool {
    forall|p: u8, k: K| #[trigger] uses_at(c1, p, k) == uses_at(c2, p, k)
}

proof fn lemma_same_users_ceiling<K>(c1: Seq<(u8, Seq<K>)>, c2: Seq<(u8, Seq<K>)>, m: Map<K, u8>)
    requires
        is_ceiling_map(c1, m),
        same_users(c1, c2),
    ensures
        is_ceiling_map(c2, m),
{
    assert forall|k: K| #[trigger] m.contains_key(k) == used(c2, k) by {
        if used(c2, k) {
            let i = choose|i: int| 0 <= i < c2.len() && #[trigger] mentions(c2[i].1, k);
            assert(uses_at(c2, c2[i].0, k));
            assert(uses_at(c1, c2[i].0, k));
        }
        if used(c1, k) {
            let i = choose|i: int| 0 <= i < c1.len() && #[trigger] mentions(c1[i].1, k);
            assert(uses_at(c1, c1[i].0, k));
            assert(uses_at(c2, c1[i].0, k));
        }
    }
    assert forall|i: int, j: int| 0 <= i < c2.len() && 0 <= j < c2[i].1.len()
        implies c2[i].0 <= m[#[trigger] c2[i].1[j]] by {
        let k = c2[i].1[j];
        assert(mentions(c2[i].1, k));
        assert(uses_at(c2, c2[i].0, k));
        assert(uses_at(c1, c2[i].0, k));
        let i1 = choose|i1: int| 0 <= i1 < c1.len() && c1[i1].0 == c2[i].0 && #[trigger] mentions(c1[i1].1, k);
        let j1 = choose|j1: int| 0 <= j1 < c1[i1].1.len() && #[trigger] c1[i1].1[j1] == k;
        assert(c1[i1].0 <= m[c1[i1].1[j1]]);
    }
    assert forall|k: K| #[trigger] m.contains_key(k) implies
        exists|i: int| 0 <= i < c2.len() && #[trigger] mentions(c2[i].1, k) && c2[i].0 == m[k] by {
        let i1 = choose|i1: int| 0 <= i1 < c1.len() && #[trigger] mentions(c1[i1].1, k) && c1[i1].0 == m[k];
        assert(uses_at(c1, m[k], k));
        assert(uses_at(c2, m[k], k));
    }
}

/// The ceilings do not depend on the order of the contexts, nor on the order
/// or repetition of the resources in them: two task sets whose contexts pair
/// the same priorities with the same resources (for instance one with the
/// tasks permuted and shared lists reordered, with duplicates added or
/// dropped) get the same ceilings.
pub proof fn lemma_ceilings_ignore_order(
    ts1: TaskSet,
    ts2: TaskSet,
    m1: Map<(Seq<char>, Seq<char>), u8>,
    m2: Map<(Seq<char>, Seq<char>), u8>,
)
    requires
        is_ceiling_map(contexts(ts1), m1),
        is_ceiling_map(contexts(ts2), m2),
        same_users(contexts(ts1), contexts(ts2)),
    ensures
        m1 == m2,
{
    lemma_same_users_ceiling(contexts(ts1), contexts(ts2), m1);
    lemma_ceiling_map_unique(contexts(ts2), m1, m2);
}

/// The ceilings of two maps combined: every key of either, with the larger
/// ceiling where both have one.
pub open spec fn max_merge<K>(ma: Map<K, u8>, mb: Map<K, u8>) -> Map<K, u8> {
    Map::new(
        |k: K| ma.contains_key(k) || mb.contains_key(k),
        |k: K|
            if ma.contains_key(k) && mb.contains_key(k) {
                if ma[k] >= mb[k] { ma[k] } else { mb[k] }
            } else if ma.contains_key(k) {
                ma[k]
            } else {
                mb[k]
            },
    )
}

/// The ceilings of two lists of contexts taken together are the two lists'
/// ceilings merged: adding contexts never removes a ceiling nor lowers one.
pub proof fn lemma_ceilings_of_split<K>(a: Seq<(u8, Seq<K>)>, b: Seq<(u8, Seq<K>)>, ma: Map<K, u8>, mb: Map<K, u8>, m: Map<K, u8>)
    requires
        is_ceiling_map(a, ma),
        is_ceiling_map(b, mb),
        is_ceiling_map(a + b, m),
    ensures
        m == max_merge(ma, mb),
{
    let c = a + b;
    let mm = max_merge(ma, mb);
    assert forall|k: K| #[trigger] mm.contains_key(k) == used(c, k) by {
        if used(c, k) {
            let i = choose|i: int| 0 <= i < c.len() && #[trigger] mentions(c[i].1, k);
            if i < a.len() {
                assert(c[i] == a[i]);
                assert(used(a, k));
            } else {
                assert(c[i] == b[i - a.len()]);
                assert(mentions(b[i - a.len()].1, k));
                assert(used(b, k));
            }
        }
        if used(a, k) {
            let i = choose|i: int| 0 <= i < a.len() && #[trigger] mentions(a[i].1, k);
            assert(c[i] == a[i]);
            assert(mentions(c[i].1, k));
        }
        if used(b, k) {
            let i = choose|i: int| 0 <= i < b.len() && #[trigger] mentions(b[i].1, k);
            assert(c[i + a.len()] == b[i]);
            assert(mentions(c[i + a.len()].1, k));
        }
    }
    assert forall|i: int, j: int| 0 <= i < c.len() && 0 <= j < c[i].1.len()
        implies c[i].0 <= mm[#[trigger] c[i].1[j]] by {
        let k = c[i].1[j];
        if i < a.len() {
            assert(c[i] == a[i]);
            assert(a[i].1[j] == k);
            assert(a[i].0 <= ma[a[i].1[j]]);
            assert(mentions(a[i].1, k));
            assert(used(a, k));
        } else {
            let ib = i - a.len();
            assert(c[i] == b[ib]);
            assert(b[ib].1[j] == k);
            assert(b[ib].0 <= mb[b[ib].1[j]]);
            assert(mentions(b[ib].1, k));
            assert(used(b, k));
        }
    }
    assert forall|k: K| #[trigger] mm.contains_key(k) implies
        exists|i: int| 0 <= i < c.len() && #[trigger] mentions(c[i].1, k) && c[i].0 == mm[k] by {
        if ma.contains_key(k) && (!mb.contains_key(k) || ma[k] >= mb[k]) {
            let i = choose|i: int| 0 <= i < a.len() && #[trigger] mentions(a[i].1, k) && a[i].0 == ma[k];
            assert(c[i] == a[i]);
            assert(mentions(c[i].1, k));
        } else {
            let i = choose|i: int| 0 <= i < b.len() && #[trigger] mentions(b[i].1, k) && b[i].0 == mb[k];
            assert(c[i + a.len()] == b[i]);
            assert(mentions(c[i + a.len()].1, k));
        }
    }
    lemma_ceiling_map_unique(c, m, mm);
}

/// For task sets without idle: the ceilings of a task set whose tasks are
/// those of `tsa` followed by those of `tsb` are the ceilings of `tsa` and
/// `tsb` merged.
pub proof fn lemma_task_set_ceilings_of_split(
    ts: TaskSet,
    tsa: TaskSet,
    tsb: TaskSet,
    m: Map<(Seq<char>, Seq<char>), u8>,
    ma: Map<(Seq<char>, Seq<char>), u8>,
    mb: Map<(Seq<char>, Seq<char>), u8>,
)
    requires
        ts.idle is None,
        tsa.idle is None,
        tsb.idle is None,
        ts.tasks@ == tsa.tasks@ + tsb.tasks@,
        is_ceiling_map(contexts(ts), m),
        is_ceiling_map(contexts(tsa), ma),
        is_ceiling_map(contexts(tsb), mb),
    ensures
        m == max_merge(ma, mb),
{
    assert(contexts(ts) =~= contexts(tsa) + contexts(tsb));
    lemma_ceilings_of_split(contexts(tsa), contexts(tsb), ma, mb, m);
}

} // verus!
