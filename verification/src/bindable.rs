//! A keyed set of resources of which one can be bound at a time.

use vstd::prelude::*;

use crate::asset_manager::{
    lemma_smap_of_contains, lemma_smap_of_get, lemma_smap_of_update, smap_of,
};

verus! {

/// Used to toggle between bindable resources.
pub struct Bindable<T> {
    data: Vec<(String, T)>,
    currently_bound: Option<String>,
}

impl<T> Bindable<T> {
    /// Key contents occur at most once, and a bound key is present.
    pub closed spec fn wf(self) -> bool {
        &&& forall|p: int, q: int|
            0 <= p < q < self.data@.len() ==> (#[trigger] self.data@[p]).0@ != (
            #[trigger] self.data@[q]).0@
        &&& match self.currently_bound {
            Some(k) => smap_of(self.data@).contains_key(k@),
            None => true,
        }
    }

    pub closed spec fn view_map(self) -> Map<Seq<char>, T> {
        smap_of(self.data@)
    }

    /// The contents of the currently bound key, if one is bound.
    pub closed spec fn spec_bound(self) -> Option<Seq<char>> {
        match self.currently_bound {
            Some(k) => Some(k@),
            None => None,
        }
    }

    /// The index holding `key`, if any.
    fn find(&self, key: &str) -> (r: Option<usize>)
        requires
            self.wf(),
        ensures
            match r {
                Some(i) => i < self.data@.len() && self.data@[i as int].0@ == key@
                    && self.view_map().contains_key(key@) && self.view_map()[key@]
                    == self.data@[i as int].1,
                None => !self.view_map().contains_key(key@),
            },
    {
        let k: String = key.to_owned();
        let n = self.data.len();
        for i in 0..n
            invariant
                n == self.data@.len(),
                self.wf(),
                k@ == key@,
                forall|j: int| 0 <= j < i ==> (#[trigger] self.data@[j]).0@ != key@,
        {
            if self.data[i].0 == k {
                proof {
                    lemma_smap_of_get(self.data@, key@, i as int);
                }
                return Some(i);
            }
        }
        proof {
            lemma_smap_of_contains(self.data@, key@);
        }
        None
    }

    /// Stores `data` under `key`, replacing any earlier entry.
    pub fn insert(&mut self, key: &str, data: T)
        requires
            old(self).wf(),
        ensures
            final(self).wf(),
            final(self).view_map() == old(self).view_map().insert(key@, data),
            final(self).spec_bound() == old(self).spec_bound(),
    {
        match self.find(key) {
            Some(i) => {
                let pair = (key.to_owned(), data);
                proof {
                    lemma_smap_of_update(self.data@, i as int, pair);
                }
                self.data.set(i, pair);
            },
            None => {
                proof {
                    lemma_smap_of_contains(self.data@, key@);
                }
                let ghost d0 = self.data@;
                self.data.push((key.to_owned(), data));
                proof {
                    assert(self.data@.drop_last() =~= d0);
                }
            },
        }
        proof {
            match &self.currently_bound {
                Some(k) => {
                    lemma_smap_of_contains(old(self).data@, k@);
                    lemma_smap_of_contains(self.data@, k@);
                },
                None => {},
            }
        }
    }

    /// Binds the key; the key must already be present.
    pub fn bind(&mut self, key: &str)
        requires
            old(self).wf(),
            old(self).view_map().contains_key(key@),
        ensures
            final(self).wf(),
            final(self).view_map() == old(self).view_map(),
            final(self).spec_bound() == Some(key@),
    {
        self.currently_bound = Some(key.to_owned());
    }

    /// Gets the currently bound resource; a key must have been bound.
    pub fn get_bind(&self) -> (r: &T)
        requires
            self.wf(),
            self.spec_bound() is Some,
        ensures
            *r == self.view_map()[self.spec_bound().unwrap()],
    {
        let key: &String = match &self.currently_bound {
            Some(k) => k,
            None => {
                proof {
                    assert(false);
                }
                unreached()
            },
        };
        match self.find(key.as_str()) {
            Some(i) => &self.data[i].1,
            None => {
                proof {
                    assert(false);
                }
                unreached()
            },
        }
    }

    /// The resource stored under `key`; the key must be present.
    pub fn index(&self, key: &str) -> (r: &T)
        requires
            self.wf(),
            self.view_map().contains_key(key@),
        ensures
            *r == self.view_map()[key@],
    {
        match self.find(key) {
            Some(i) => &self.data[i].1,
            None => {
                proof {
                    assert(false);
                }
                unreached()
            },
        }
    }
}

impl<T> Default for Bindable<T> {
    /// The empty set, with nothing bound.
    fn default() -> (r: Self)
        ensures
            r.wf(),
            r.view_map() == Map::<Seq<char>, T>::empty(),
            r.spec_bound() is None,
    {
        Bindable { data: Vec::new(), currently_bound: None }
    }
}

} // verus!
