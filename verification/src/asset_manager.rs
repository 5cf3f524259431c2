//! A keyed store of loaded assets.

use vstd::prelude::*;

verus! {

/// The association listed by `s`, keyed by the strings' contents, later
/// entries overriding earlier ones.
pub open spec fn smap_of<V>(s: Seq<(String, V)>) -> Map<Seq<char>, V>
    decreases s.len(),
{
    if s.len() == 0 {
        Map::empty()
    } else {
        smap_of(s.drop_last()).insert(s.last().0@, s.last().1)
    }
}

pub proof fn lemma_smap_of_contains<V>(s: Seq<(String, V)>, k: Seq<char>)
    ensures
        smap_of(s).contains_key(k) <==> exists|i: int| 0 <= i < s.len() && (#[trigger] s[i]).0@ == k,
    decreases s.len(),
{
    if s.len() == 0 {
    } else {
        lemma_smap_of_contains(s.drop_last(), k);
        if smap_of(s).contains_key(k) {
            if s.last().0@ == k {
                assert(s[s.len() - 1].0@ == k);
            } else {
                let i = choose|i: int| 0 <= i < s.len() - 1 && (#[trigger] s.drop_last()[i]).0@ == k;
                assert(s[i].0@ == k);
            }
        }
        if exists|i: int| 0 <= i < s.len() && (#[trigger] s[i]).0@ == k {
            let i = choose|i: int| 0 <= i < s.len() && (#[trigger] s[i]).0@ == k;
            if i < s.len() - 1 {
                assert(s.drop_last()[i].0@ == k);
            }
        }
    }
}

pub proof fn lemma_smap_of_get<V>(s: Seq<(String, V)>, k: Seq<char>, i: int)
    requires
        0 <= i < s.len(),
        s[i].0@ == k,
        forall|j: int| i < j < s.len() ==> (#[trigger] s[j]).0@ != k,
    ensures
        smap_of(s).contains_key(k),
        smap_of(s)[k] == s[i].1,
    decreases s.len(),
{
    if i == s.len() - 1 {
    } else {
        lemma_smap_of_get(s.drop_last(), k, i);
    }
}

pub proof fn lemma_smap_of_update<V>(s: Seq<(String, V)>, i: int, kv: (String, V))
    requires
        0 <= i < s.len(),
        kv.0@ == s[i].0@,
        forall|p: int, q: int| 0 <= p < q < s.len() ==> (#[trigger] s[p]).0@ != (#[trigger] s[q]).0@,
    ensures
        smap_of(s.update(i, kv)) =~= smap_of(s).insert(kv.0@, kv.1),
    decreases s.len(),
{
    if i == s.len() - 1 {
        assert(s.update(i, kv).drop_last() =~= s.drop_last());
    } else {
        lemma_smap_of_update(s.drop_last(), i, kv);
        assert(s.update(i, kv).drop_last() =~= s.drop_last().update(i, kv));
        assert(s.last().0@ != kv.0@);
    }
}

/// A keyed store of assets of one kind.
pub struct AssetManager<T> {
    data: Vec<(String, T)>,
}

impl<T> AssetManager<T> {
    /// Key contents occur at most once.
    pub closed spec fn wf(self) -> bool {
        forall|p: int, q: int|
            0 <= p < q < self.data@.len() ==> (#[trigger] self.data@[p]).0@ != (
            #[trigger] self.data@[q]).0@
    }

    pub closed spec fn view_map(self) -> Map<Seq<char>, T> {
        smap_of(self.data@)
    }

    /// The index holding `key`, if any.
    fn find(&self, key: &str) -> (r: Option<usize>)
        requires
            self.wf(),
        ensures
            match r {
                Some(i) => i < self.data@.len() && self.data@[i as int].0@ == key@
                    && self.view_map().contains_key(key@) && self.view_map()[key@]
                    == self.data@[i as int].1,
                None => !self.view_map().contains_key(key@),
            },
    {
        let k: String = key.to_owned();
        let n = self.data.len();
        for i in 0..n
            invariant
                n == self.data@.len(),
                self.wf(),
                k@ == key@,
                forall|j: int| 0 <= j < i ==> (#[trigger] self.data@[j]).0@ != key@,
        {
            if self.data[i].0 == k {
                proof {
                    lemma_smap_of_get(self.data@, key@, i as int);
                }
                return Some(i);
            }
        }
        proof {
            lemma_smap_of_contains(self.data@, key@);
        }
        None
    }

    /// Returns the stored asset for `key`, or stores `data` under `key` and
    /// returns it; an asset already present is never replaced.
    pub fn get_or_create(&mut self, key: &str, data: T) -> (r: &T)
        requires
            old(self).wf(),
        ensures
            final(self).wf(),
            final(self).view_map() == (if old(self).view_map().contains_key(key@) {
                old(self).view_map()
            } else {
                old(self).view_map().insert(key@, data)
            }),
            final(self).view_map().contains_key(key@),
            *r == final(self).view_map()[key@],
    {
        match self.find(key) {
            Some(i) => &self.data[i].1,
            None => {
                proof {
                    lemma_smap_of_contains(self.data@, key@);
                }
                let ghost d0 = self.data@;
                let n = self.data.len();
                self.data.push((key.to_owned(), data));
                proof {
                    assert(self.data@.drop_last() =~= d0);
                    lemma_smap_of_get(self.data@, key@, n as int);
                }
                &self.data[n].1
            },
        }
    }

    /// Sets the asset at `key`, overwriting any asset already present.
    pub fn overwrite(&mut self, key: &str, data: T) -> (r: &T)
        requires
            old(self).wf(),
        ensures
            final(self).wf(),
            final(self).view_map() == old(self).view_map().insert(key@, data),
            *r == final(self).view_map()[key@],
    {
        match self.find(key) {
            Some(i) => {
                let pair = (key.to_owned(), data);
                proof {
                    lemma_smap_of_update(self.data@, i as int, pair);
                }
                self.data.set(i, pair);
                proof {
                    lemma_smap_of_get(self.data@, key@, i as int);
                }
                &self.data[i].1
            },
            None => {
                proof {
                    lemma_smap_of_contains(self.data@, key@);
                }
                let ghost d0 = self.data@;
                let n = self.data.len();
                self.data.push((key.to_owned(), data));
                proof {
                    assert(self.data@.drop_last() =~= d0);
                    lemma_smap_of_get(self.data@, key@, n as int);
                }
                &self.data[n].1
            },
        }
    }

    /// The asset stored under `key`, if any.
    pub fn get(&self, key: &str) -> (r: Option<&T>)
        requires
            self.wf(),
        ensures
            match r {
                Some(v) => self.view_map().contains_key(key@) && *v == self.view_map()[key@],
                None => !self.view_map().contains_key(key@),
            },
    {
        match self.find(key) {
            Some(i) => Some(&self.data[i].1),
            None => None,
        }
    }

    /// True when an asset is stored under `key`.
    pub fn contains(&self, key: &str) -> (r: bool)
        requires
            self.wf(),
        ensures
            r == self.view_map().contains_key(key@),
    {
        self.find(key).is_some()
    }
}

impl<T> Default for AssetManager<T> {
    /// The empty store.
    fn default() -> (r: Self)
        ensures
            r.wf(),
            r.view_map() == Map::<Seq<char>, T>::empty(),
    {
        AssetManager { data: Vec::new() }
    }
}

} // verus!
