//! Small association lists keyed by values with a view, used wherever the
//! framework maps names (tasks, resources) to data. Each key occurs at most
//! once, so a list denotes a finite map from key views to values.
use vstd::prelude::*;

verus! {

/// Keys of an association list: compared and copied by their view.
pub trait KeyEq: View + Sized {
    fn key_eq(&self, other: &Self) -> (b: bool)
        ensures
            b == (self@ == other@);

    fn key_clone(&self) -> (c: Self)
        ensures
            c@ == self@;
}

impl KeyEq for String {
    fn key_eq(&self, other: &Self) -> (b: bool) {
        *self == *other
    }

    fn key_clone(&self) -> (c: Self) {
        self.clone()
    }
}

/// The map denoted by a sequence of (key, value) pairs, later pairs
/// overriding earlier ones.
pub open spec fn pairs_to_map<K, V>(s: Seq<(K, V)>) -> Map<K, V>
    decreases s.len(),
{
    if s.len() == 0 {
        Map::empty()
    } else {
        pairs_to_map(s.drop_last()).insert(s.last().0, s.last().1)
    }
}

/// No key occurs twice.
pub open spec fn distinct_keys<K, V>(s: Seq<(K, V)>) -> bool {
    forall|i: int, j: int| 0 <= i < s.len() && 0 <= j < s.len() && i != j ==> s[i].0 != s[j].0
}

pub proof fn lemma_pairs_to_map_dom<K, V>(s: Seq<(K, V)>, k: K)
    ensures
        pairs_to_map(s).contains_key(k) <==> exists|i: int| 0 <= i < s.len() && s[i].0 == k,
    decreases s.len(),
{
    if s.len() > 0 {
        lemma_pairs_to_map_dom(s.drop_last(), k);
        if pairs_to_map(s).contains_key(k) && s.last().0 != k {
            let i = choose|i: int| 0 <= i < s.drop_last().len() && s.drop_last()[i].0 == k;
            assert(s[i].0 == k);
        }
        if exists|i: int| 0 <= i < s.len() && s[i].0 == k {
            let i = choose|i: int| 0 <= i < s.len() && s[i].0 == k;
            if i < s.len() - 1 {
                assert(s.drop_last()[i].0 == k);
            }
        }
    }
}

pub proof fn lemma_pairs_to_map_value<K, V>(s: Seq<(K, V)>, i: int)
    requires
        distinct_keys(s),
        0 <= i < s.len(),
    ensures
        pairs_to_map(s).contains_key(s[i].0),
        pairs_to_map(s)[s[i].0] == s[i].1,
    decreases s.len(),
{
    lemma_pairs_to_map_dom(s, s[i].0);
    if i < s.len() - 1 {
        assert(s.drop_last()[i] == s[i]);
        lemma_pairs_to_map_value(s.drop_last(), i);
    }
}

pub proof fn lemma_pairs_to_map_update<K, V>(s: Seq<(K, V)>, i: int, v: V)
    requires
        distinct_keys(s),
        0 <= i < s.len(),
    ensures
        distinct_keys(s.update(i, (s[i].0, v))),
        pairs_to_map(s.update(i, (s[i].0, v))) == pairs_to_map(s).insert(s[i].0, v),
{
    let t = s.update(i, (s[i].0, v));
    assert forall|k: K| #[trigger] pairs_to_map(t).contains_key(k) == pairs_to_map(s).insert(s[i].0, v).contains_key(k) by {
        lemma_pairs_to_map_dom(t, k);
        lemma_pairs_to_map_dom(s, k);
        if exists|j: int| 0 <= j < s.len() && s[j].0 == k {
            let j = choose|j: int| 0 <= j < s.len() && s[j].0 == k;
            assert(t[j].0 == k);
        }
        if exists|j: int| 0 <= j < t.len() && t[j].0 == k {
            let j = choose|j: int| 0 <= j < t.len() && t[j].0 == k;
            assert(s[j].0 == k);
        }
    }
    assert forall|k: K| #[trigger] pairs_to_map(t).contains_key(k) implies pairs_to_map(t)[k] == pairs_to_map(s).insert(s[i].0, v)[k] by {
        lemma_pairs_to_map_dom(t, k);
        let j = choose|j: int| 0 <= j < t.len() && t[j].0 == k;
        lemma_pairs_to_map_value(t, j);
        if j != i {
            lemma_pairs_to_map_value(s, j);
        }
    }
    assert(pairs_to_map(t) =~= pairs_to_map(s).insert(s[i].0, v));
}

/// An association list from keys to values.
pub struct KeyedList<K, V> {
    entries: Vec<(K, V)>,
}

impl<K: KeyEq, V> KeyedList<K, V> {
    /// The pairs of the list, keys taken by their view, in insertion order.
    pub closed spec fn pairs(&self) -> Seq<(K::V, V)> {
        self.entries@.map_values(|e: (K, V)| (e.0@, e.1))
    }

    pub closed spec fn wf(&self) -> bool {
        distinct_keys(self.pairs())
    }

    /// The map that the list denotes.
    pub open spec fn map(&self) -> Map<K::V, V> {
        pairs_to_map(self.pairs())
    }

    pub fn new() -> (l: Self)
        ensures
            l.wf(),
            l.map() == Map::<K::V, V>::empty(),
            l.pairs().len() == 0,
    {
        let l = KeyedList { entries: Vec::new() };
        assert(l.pairs() =~= Seq::<(K::V, V)>::empty());
        l
    }

    pub fn len(&self) -> (n: usize)
        ensures
            n == self.pairs().len(),
    {
        self.entries.len()
    }

    /// The key and value at position `i`.
    pub fn entry(&self, i: usize) -> (e: (&K, &V))
        requires
            i < self.pairs().len(),
        ensures
            e.0@ == self.pairs()[i as int].0,
            *e.1 == self.pairs()[i as int].1,
            self.wf() ==> self.map().contains_key(e.0@) && self.map()[e.0@] == *e.1,
    {
        proof {
            if self.wf() {
                lemma_pairs_to_map_value(self.pairs(), i as int);
            }
        }
        let e = &self.entries[i];
        (&e.0, &e.1)
    }

    /// The position of `k`, if it is a key of the list.
    pub fn find(&self, k: &K) -> (r: Option<usize>)
        requires
            self.wf(),
        ensures
            match r {
                Some(i) => i < self.pairs().len() && self.pairs()[i as int].0 == k@,
                None => !self.map().contains_key(k@),
            },
    {
        let n = self.entries.len();
        let mut i: usize = 0;
        while i < n
            invariant
                n == self.entries@.len(),
                i <= n,
                forall|j: int| 0 <= j < i ==> self.pairs()[j].0 != k@,
            decreases n - i,
        {
            if self.entries[i].0.key_eq(k) {
                return Some(i);
            }
            i = i + 1;
        }
        proof {
            lemma_pairs_to_map_dom(self.pairs(), k@);
        }
        None
    }

    /// The value stored under `k`.
    pub fn get(&self, k: &K) -> (r: Option<&V>)
        requires
            self.wf(),
        ensures
            match r {
                Some(v) => self.map().contains_key(k@) && *v == self.map()[k@],
                None => !self.map().contains_key(k@),
            },
    {
        match self.find(k) {
            Some(i) => {
                proof {
                    lemma_pairs_to_map_value(self.pairs(), i as int);
                }
                Some(&self.entries[i].1)
            },
            None => None,
        }
    }

    /// Add a key that is not in the list yet.
    pub fn insert_new(&mut self, k: K, v: V)
        requires
            old(self).wf(),
            !old(self).map().contains_key(k@),
        ensures
            final(self).wf(),
            final(self).map() == old(self).map().insert(k@, v),
            final(self).pairs() == old(self).pairs().push((k@, v)),
    {
        proof {
            lemma_pairs_to_map_dom(self.pairs(), k@);
        }
        let ghost kv = k@;
        self.entries.push((k, v));
        assert(self.pairs() =~= old(self).pairs().push((kv, v)));
        assert(self.pairs().drop_last() =~= old(self).pairs());
    }

    /// Replace the value at position `i`.
    pub fn set_value(&mut self, i: usize, v: V)
        requires
            old(self).wf(),
            i < old(self).pairs().len(),
        ensures
            final(self).wf(),
            final(self).map() == old(self).map().insert(old(self).pairs()[i as int].0, v),
            final(self).pairs() == old(self).pairs().update(i as int, (old(self).pairs()[i as int].0, v)),
    {
        proof {
            lemma_pairs_to_map_update(self.pairs(), i as int, v);
        }
        self.entries[i].1 = v;
        assert(self.pairs() =~= old(self).pairs().update(i as int, (old(self).pairs()[i as int].0, v)));
    }
}

impl<K: KeyEq, V> KeyedList<K, V> {
    /// Replace the value at position `i`, returning the value it held.
    pub fn replace_value(&mut self, i: usize, v: V) -> (prev: V)
        requires
            old(self).wf(),
            i < old(self).pairs().len(),
        ensures
            prev == old(self).pairs()[i as int].1,
            final(self).wf(),
            final(self).map() == old(self).map().insert(old(self).pairs()[i as int].0, v),
            final(self).pairs() == old(self).pairs().update(i as int, (old(self).pairs()[i as int].0, v)),
    {
        proof {
            lemma_pairs_to_map_update(self.pairs(), i as int, v);
        }
        let mut tmp = v;
        std::mem::swap(&mut self.entries[i].1, &mut tmp);
        assert(self.pairs() =~= old(self).pairs().update(i as int, (old(self).pairs()[i as int].0, v)));
        tmp
    }

    /// Store `v` under `k`, replacing any value already stored there.
    pub fn insert(&mut self, k: K, v: V)
        requires
            old(self).wf(),
        ensures
            final(self).wf(),
            final(self).map() == old(self).map().insert(k@, v),
    {
        match self.find(&k) {
            Some(i) => self.set_value(i, v),
            None => self.insert_new(k, v),
        }
    }

    /// Whether `k` is a key of the list.
    pub fn contains_key(&self, k: &K) -> (b: bool)
        requires
            self.wf(),
        ensures
            b == self.map().contains_key(k@),
    {
        match self.find(k) {
            Some(i) => {
                proof {
                    lemma_pairs_to_map_dom(self.pairs(), k@);
                }
                true
            },
            None => false,
        }
    }

    /// The keys of the list cover exactly the keys of its map, each once.
    pub proof fn lemma_keys(&self)
        requires
            self.wf(),
        ensures
            forall|k: K::V| #[trigger] self.map().contains_key(k) <==>
                exists|i: int| 0 <= i < self.pairs().len() && self.pairs()[i].0 == k,
            forall|i: int| 0 <= i < self.pairs().len() ==>
                #[trigger] self.map()[self.pairs()[i].0] == self.pairs()[i].1,
            forall|i: int, j: int| 0 <= i < self.pairs().len() && 0 <= j < self.pairs().len() && i != j
                ==> self.pairs()[i].0 != self.pairs()[j].0,
    {
        assert forall|k: K::V| #[trigger] self.map().contains_key(k) <==>
            exists|i: int| 0 <= i < self.pairs().len() && self.pairs()[i].0 == k by {
            lemma_pairs_to_map_dom(self.pairs(), k);
        }
        assert forall|i: int| 0 <= i < self.pairs().len() implies
            #[trigger] self.map()[self.pairs()[i].0] == self.pairs()[i].1 by {
            lemma_pairs_to_map_value(self.pairs(), i);
        }
    }
}

} // verus!
