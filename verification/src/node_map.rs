//! Small verified maps and sets keyed by graph nodes.

use vstd::prelude::*;

use crate::graph::Node;

verus! {

/// The association listed by `s`, later entries overriding earlier ones.
pub open spec fn map_of<V>(s: Seq<(Node, V)>) -> Map<Node, V>
    decreases s.len(),
{
    if s.len() == 0 {
        Map::empty()
    } else {
        map_of(s.drop_last()).insert(s.last().0, s.last().1)
    }
}

proof fn lemma_map_of_contains<V>(s: Seq<(Node, V)>, k: Node)
    ensures
        map_of(s).contains_key(k) <==> exists|i: int| 0 <= i < s.len() && s[i].0 == k,
    decreases s.len(),
{
    if s.len() == 0 {
    } else {
        lemma_map_of_contains(s.drop_last(), k);
        if map_of(s).contains_key(k) {
            if s.last().0 == k {
                assert(s[s.len() - 1].0 == k);
            } else {
                let i = choose|i: int| 0 <= i < s.len() - 1 && s.drop_last()[i].0 == k;
                assert(s[i].0 == k);
            }
        }
        if exists|i: int| 0 <= i < s.len() && s[i].0 == k {
            let i = choose|i: int| 0 <= i < s.len() && s[i].0 == k;
            if i < s.len() - 1 {
                assert(s.drop_last()[i].0 == k);
            }
        }
    }
}

proof fn lemma_map_of_get<V>(s: Seq<(Node, V)>, k: Node, i: int)
    requires
        0 <= i < s.len(),
        s[i].0 == k,
        forall|j: int| i < j < s.len() ==> (#[trigger] s[j]).0 != k,
    ensures
        map_of(s).contains_key(k),
        map_of(s)[k] == s[i].1,
    decreases s.len(),
{
    if i == s.len() - 1 {
    } else {
        lemma_map_of_get(s.drop_last(), k, i);
    }
}

proof fn lemma_map_of_update<V>(s: Seq<(Node, V)>, i: int, v: V)
    requires
        0 <= i < s.len(),
        forall|p: int, q: int| 0 <= p < q < s.len() ==> (#[trigger] s[p]).0 != (#[trigger] s[q]).0,
    ensures
        map_of(s.update(i, (s[i].0, v))) =~= map_of(s).insert(s[i].0, v),
    decreases s.len(),
{
    let k = s[i].0;
    if i == s.len() - 1 {
        assert(s.update(i, (k, v)).drop_last() =~= s.drop_last());
    } else {
        lemma_map_of_update(s.drop_last(), i, v);
        assert(s.update(i, (k, v)).drop_last() =~= s.drop_last().update(i, (k, v)));
        assert(s.last().0 != k);
    }
}

/// A map from nodes to values, backed by a vector with unique keys.
pub struct NodeMap<V> {
    entries: Vec<(Node, V)>,
}

impl<V> NodeMap<V> {
    /// Keys occur at most once.
    pub closed spec fn wf(self) -> bool {
        forall|p: int, q: int|
            0 <= p < q < self.entries@.len() ==> (#[trigger] self.entries@[p]).0 != (
            #[trigger] self.entries@[q]).0
    }

    pub closed spec fn view_map(self) -> Map<Node, V> {
        map_of(self.entries@)
    }

    pub fn new() -> (r: Self)
        ensures
            r.wf(),
            r.view_map() == Map::<Node, V>::empty(),
    {
        NodeMap { entries: Vec::new() }
    }

    /// The value stored under `k`, if any.
    pub fn get(&self, k: &Node) -> (r: Option<&V>)
        requires
            self.wf(),
        ensures
            match r {
                Some(v) => self.view_map().contains_key(*k) && *v == self.view_map()[*k],
                None => !self.view_map().contains_key(*k),
            },
    {
        let n = self.entries.len();
        for i in 0..n
            invariant
                n == self.entries@.len(),
                self.wf(),
                forall|j: int| 0 <= j < i ==> (#[trigger] self.entries@[j]).0 != *k,
        {
            if self.entries[i].0 == *k {
                proof {
                    lemma_map_of_get(self.entries@, *k, i as int);
                }
                return Some(&self.entries[i].1);
            }
        }
        proof {
            lemma_map_of_contains(self.entries@, *k);
        }
        None
    }

    /// True when `k` has an entry.
    pub fn contains_key(&self, k: &Node) -> (r: bool)
        requires
            self.wf(),
        ensures
            r == self.view_map().contains_key(*k),
    {
        match self.get(k) {
            Some(_) => true,
            None => false,
        }
    }

    /// Stores `v` under `k`, replacing any earlier entry.
    pub fn insert(&mut self, k: Node, v: V)
        requires
            old(self).wf(),
        ensures
            final(self).wf(),
            final(self).view_map() == old(self).view_map().insert(k, v),
    {
        let n = self.entries.len();
        for i in 0..n
            invariant
                n == self.entries@.len(),
                self.wf(),
                self.entries@ == old(self).entries@,
                forall|j: int| 0 <= j < i ==> (#[trigger] self.entries@[j]).0 != k,
        {
            if self.entries[i].0 == k {
                proof {
                    lemma_map_of_update(self.entries@, i as int, v);
                }
                self.entries.set(i, (k, v));
                return ;
            }
        }
        proof {
            lemma_map_of_contains(self.entries@, k);
            assert(self.entries@.push((k, v)).drop_last() =~= self.entries@);
        }
        self.entries.push((k, v));
    }
}

/// The set listed by `s`.
pub open spec fn set_of(s: Seq<Node>) -> Set<Node>
    decreases s.len(),
{
    if s.len() == 0 {
        Set::empty()
    } else {
        set_of(s.drop_last()).insert(s.last())
    }
}

proof fn lemma_set_of_contains(s: Seq<Node>, k: Node)
    ensures
        set_of(s).contains(k) <==> exists|i: int| 0 <= i < s.len() && s[i] == k,
    decreases s.len(),
{
    if s.len() == 0 {
    } else {
        lemma_set_of_contains(s.drop_last(), k);
        if set_of(s).contains(k) && s.last() != k {
            let i = choose|i: int| 0 <= i < s.len() - 1 && s.drop_last()[i] == k;
            assert(s[i] == k);
        }
        if exists|i: int| 0 <= i < s.len() && s[i] == k {
            let i = choose|i: int| 0 <= i < s.len() && s[i] == k;
            if i < s.len() - 1 {
                assert(s.drop_last()[i] == k);
            }
        }
    }
}

/// A set of nodes, backed by a vector.
pub struct NodeSet {
    items: Vec<Node>,
}

impl NodeSet {
    pub closed spec fn view_set(self) -> Set<Node> {
        set_of(self.items@)
    }

    pub fn new() -> (r: Self)
        ensures
            r.view_set() == Set::<Node>::empty(),
    {
        NodeSet { items: Vec::new() }
    }

    /// True when `k` is a member.
    pub fn contains(&self, k: &Node) -> (r: bool)
        ensures
            r == self.view_set().contains(*k),
    {
        let n = self.items.len();
        for i in 0..n
            invariant
                n == self.items@.len(),
                forall|j: int| 0 <= j < i ==> self.items@[j] != *k,
        {
            if self.items[i] == *k {
                proof {
                    lemma_set_of_contains(self.items@, *k);
                }
                return true;
            }
        }
        proof {
            lemma_set_of_contains(self.items@, *k);
        }
        false
    }

    /// Adds `k` to the set.
    pub fn insert(&mut self, k: Node)
        ensures
            final(self).view_set() == old(self).view_set().insert(k),
    {
        proof {
            assert(self.items@.push(k).drop_last() =~= self.items@);
        }
        self.items.push(k);
    }
}

} // verus!
