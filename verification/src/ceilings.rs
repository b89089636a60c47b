//! Ceilings computed from explicit tables: which resources each task uses and
//! which priority each task runs at.
use vstd::prelude::*;
use crate::keyed::KeyedList;
use crate::analysis::{is_ceiling_map, lemma_raised_push, lemma_step, mentions, raise_one, raised_by, used};

verus! {

/// A set of names.
pub type NameSet = KeyedList<String, ()>;

/// The resources used by each task.
pub type TasksToResources = KeyedList<String, NameSet>;

/// The priority of each task.
pub type TasksToPriorities = KeyedList<String, u8>;

/// The ceiling of each resource.
pub type ResourceToPriorities = KeyedList<String, u8>;

/// The table and every set in it are well formed.
pub open spec fn ttr_wf(ttr: TasksToResources) -> bool {
    &&& ttr.wf()
    &&& forall|t: Seq<char>| #[trigger] ttr.map().contains_key(t) ==> ttr.map()[t].wf()
}

proof fn lemma_entry_wf(ttr: TasksToResources, i: int)
    requires
        ttr_wf(ttr),
        0 <= i < ttr.pairs().len(),
    ensures
        ttr.map().contains_key(ttr.pairs()[i].0),
        ttr.map()[ttr.pairs()[i].0] == ttr.pairs()[i].1,
        ttr.pairs()[i].1.wf(),
{
    ttr.lemma_keys();
    assert(ttr.map().contains_key(ttr.pairs()[i].0));
}

/// The table as a map from task names to sets of resource names.
pub open spec fn ttr_view(ttr: TasksToResources) -> Map<Seq<char>, Set<Seq<char>>> {
    Map::new(|t: Seq<char>| ttr.map().contains_key(t), |t: Seq<char>| ttr.map()[t].map().dom())
}

/// Record that task `t` uses resource `r`.
pub fn ttr_add(ttr: &mut TasksToResources, t: &String, r: &String)
    requires
        ttr_wf(*old(ttr)),
    ensures
        ttr_wf(*final(ttr)),
        ttr_view(*final(ttr)) == ttr_view(*old(ttr)).insert(
            t@,
            if ttr_view(*old(ttr)).contains_key(t@) {
                ttr_view(*old(ttr))[t@].insert(r@)
            } else {
                Set::empty().insert(r@)
            },
        ),
{
    let ghost before = ttr_view(*ttr);
    match ttr.find(t) {
        Some(i) => {
            proof {
                lemma_entry_wf(*ttr, i as int);
            }
            let mut s = ttr.replace_value(i, NameSet::new());
            s.insert(r.clone(), ());
            ttr.set_value(i, s);
            assert(ttr.map().dom() =~= old(ttr).map().dom());
        },
        None => {
            let mut hs = NameSet::new();
            hs.insert(r.clone(), ());
            ttr.insert_new(t.clone(), hs);
            assert(hs.map().dom() =~= Set::empty().insert(r@));
        },
    }
    assert(ttr_view(*ttr) =~= before.insert(
        t@,
        if before.contains_key(t@) { before[t@].insert(r@) } else { Set::empty().insert(r@) },
    ));
}

/// `m` gives every resource used by some task the highest priority of the
/// tasks using it, and nothing else.
pub open spec fn is_name_ceiling_map(
    tr: Map<Seq<char>, Set<Seq<char>>>,
    tp: Map<Seq<char>, u8>,
    m: Map<Seq<char>, u8>,
) -> bool {
    &&& forall|r: Seq<char>| #[trigger] m.contains_key(r) <==>
        exists|t: Seq<char>| #[trigger] tr.contains_key(t) && tr[t].contains(r)
    &&& forall|t: Seq<char>, r: Seq<char>| #[trigger] tr.contains_key(t) && #[trigger] tr[t].contains(r)
        ==> tp[t] <= m[r]
    &&& forall|r: Seq<char>| #[trigger] m.contains_key(r) ==>
        exists|t: Seq<char>| #[trigger] tr.contains_key(t) && tr[t].contains(r) && tp[t] == m[r]
}

/// The names of a set, in its order.
pub open spec fn names(s: NameSet) -> Seq<Seq<char>> {
    s.pairs().map_values(|e: (Seq<char>, ())| e.0)
}

/// One context per task of the table: its priority and its resources.
pub open spec fn name_contexts(ttr: TasksToResources, ttp: TasksToPriorities) -> Seq<(u8, Seq<Seq<char>>)> {
    ttr.pairs().map_values(|e: (Seq<char>, NameSet)| (ttp.map()[e.0], names(e.1)))
}

proof fn lemma_names(s: NameSet, r: Seq<char>)
    requires
        s.wf(),
    ensures
        mentions(names(s), r) == s.map().contains_key(r),
{
    s.lemma_keys();
    if mentions(names(s), r) {
        let j = choose|j: int| 0 <= j < names(s).len() && #[trigger] names(s)[j] == r;
        assert(s.pairs()[j].0 == r);
    }
    if s.map().contains_key(r) {
        let j = choose|j: int| 0 <= j < s.pairs().len() && s.pairs()[j].0 == r;
        assert(names(s)[j] == r);
    }
}

proof fn lemma_contexts_to_map(ttr: TasksToResources, ttp: TasksToPriorities, m: Map<Seq<char>, u8>)
    requires
        ttr_wf(ttr),
        is_ceiling_map(name_contexts(ttr, ttp), m),
    ensures
        is_name_ceiling_map(ttr_view(ttr), ttp.map(), m),
{
    let ctx = name_contexts(ttr, ttp);
    let tr = ttr_view(ttr);
    ttr.lemma_keys();
    assert forall|r: Seq<char>| #[trigger] m.contains_key(r) <==>
        exists|t: Seq<char>| #[trigger] tr.contains_key(t) && tr[t].contains(r) by {
        if m.contains_key(r) {
            assert(used(ctx, r));
            let i = choose|i: int| 0 <= i < ctx.len() && #[trigger] mentions(ctx[i].1, r);
            let t = ttr.pairs()[i].0;
            lemma_entry_wf(ttr, i);
        lemma_names(ttr.pairs()[i].1, r);
            assert(tr.contains_key(t) && tr[t].contains(r));
        }
        if exists|t: Seq<char>| #[trigger] tr.contains_key(t) && tr[t].contains(r) {
            let t = choose|t: Seq<char>| #[trigger] tr.contains_key(t) && tr[t].contains(r);
            let i = choose|i: int| 0 <= i < ttr.pairs().len() && ttr.pairs()[i].0 == t;
            lemma_entry_wf(ttr, i);
        lemma_names(ttr.pairs()[i].1, r);
            assert(mentions(ctx[i].1, r));
        }
    }
    assert forall|t: Seq<char>, r: Seq<char>| #[trigger] tr.contains_key(t) && #[trigger] tr[t].contains(r)
        implies ttp.map()[t] <= m[r] by {
        let i = choose|i: int| 0 <= i < ttr.pairs().len() && ttr.pairs()[i].0 == t;
        lemma_entry_wf(ttr, i);
        lemma_names(ttr.pairs()[i].1, r);
        let j = choose|j: int| 0 <= j < names(ttr.pairs()[i].1).len() && #[trigger] names(ttr.pairs()[i].1)[j] == r;
        assert(ctx[i].1[j] == r);
    }
    assert forall|r: Seq<char>| #[trigger] m.contains_key(r) implies
        exists|t: Seq<char>| #[trigger] tr.contains_key(t) && tr[t].contains(r) && ttp.map()[t] == m[r] by {
        let i = choose|i: int| 0 <= i < ctx.len() && #[trigger] mentions(ctx[i].1, r) && ctx[i].0 == m[r];
        let t = ttr.pairs()[i].0;
        lemma_entry_wf(ttr, i);
        lemma_names(ttr.pairs()[i].1, r);
        assert(tr.contains_key(t) && tr[t].contains(r) && ttp.map()[t] == m[r]);
    }
}

/// The ceiling of every resource used in `ttr`: the highest priority, as
/// given by `ttp`, of the tasks that use it.
pub fn cielings(ttr: &TasksToResources, ttp: &TasksToPriorities) -> (rtp: ResourceToPriorities)
    requires
        ttr_wf(*ttr),
        ttp.wf(),
        forall|t: Seq<char>| #[trigger] ttr.map().contains_key(t) ==> ttp.map().contains_key(t),
    ensures
        rtp.wf(),
        is_name_ceiling_map(ttr_view(*ttr), ttp.map(), rtp.map()),
{
    let ghost ctx = name_contexts(*ttr, *ttp);
    let mut rtp = ResourceToPriorities::new();
    let n = ttr.len();
    proof {
        ttr.lemma_keys();
    }
    assert(ctx.take(0) =~= Seq::<(u8, Seq<Seq<char>>)>::empty());
    let mut i: usize = 0;
    while i < n
        invariant
            n == ttr.pairs().len(),
            ctx == name_contexts(*ttr, *ttp),
            ttr_wf(*ttr),
            ttp.wf(),
            forall|t: Seq<char>| #[trigger] ttr.map().contains_key(t) ==> ttp.map().contains_key(t),
            i <= n,
            rtp.wf(),
            is_ceiling_map(ctx.take(i as int), rtp.map()),
        decreases n - i,
    {
        proof {
            ttr.lemma_keys();
        }
        let (t, rs) = ttr.entry(i);
        let p: u8 = *ttp.get(t).unwrap();
        let ghost keys = names(*rs);
        let ghost m0 = rtp.map();
        let k = rs.len();
        let mut j: usize = 0;
        assert(raised_by(rtp.map(), rtp.map(), keys.take(0), p)) by {
            assert forall|x: Seq<char>| !mentions(keys.take(0), x) by {}
        }
        while j < k
            invariant
                k == rs.pairs().len(),
                keys == names(*rs),
                j <= k,
                rtp.wf(),
                raised_by(m0, rtp.map(), keys.take(j as int), p),
            decreases k - j,
        {
            let (r, _) = rs.entry(j);
            let ghost before = rtp.map();
            raise_one(&mut rtp, r, p);
            proof {
                lemma_raised_push(m0, before, rtp.map(), keys.take(j as int), r@, p);
                assert(keys.take(j as int).push(r@) =~= keys.take(j + 1));
            }
            j = j + 1;
        }
        proof {
            assert(keys.take(k as int) =~= keys);
            assert(ctx[i as int] == (p, keys));
            lemma_step(ctx.take(i as int), p, keys, m0, rtp.map());
            assert(ctx.take(i as int).push((p, keys)) =~= ctx.take(i + 1));
        }
        i = i + 1;
    }
    proof {
        assert(ctx.take(n as int) =~= ctx);
        lemma_contexts_to_map(*ttr, *ttp, rtp.map());
    }
    rtp
}

} // verus!
