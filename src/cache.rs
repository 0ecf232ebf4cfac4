use vstd::prelude::*;
use crate::stats::{lemma_named_dom, lemma_named_push, lemma_named_set, lemma_named_value, named_map, unique_names, Stats};

verus! {

pub open spec fn stats_view() -> spec_fn(Stats) -> Map<Seq<char>, u128> {
    |st: Stats| st@
}

/// The map that a list of `(path, stats)` entries stands for.
pub open spec fn cache_map(s: Seq<(String, Stats)>) -> Map<Seq<char>, Map<Seq<char>, u128>> {
    named_map(s, stats_view())
}

/// Stats already computed for dependency paths, kept for a whole run.
pub struct DependencyCache {
    entries: Vec<(String, Stats)>,
}

impl View for DependencyCache {
    type V = Map<Seq<char>, Map<Seq<char>, u128>>;

    closed spec fn view(&self) -> Map<Seq<char>, Map<Seq<char>, u128>> {
        cache_map(self.entries@)
    }
}

impl DependencyCache {
    /// Paths are unique and every stored accumulator is well formed.
    pub closed spec fn wf(&self) -> bool {
        &&& unique_names(self.entries@)
        &&& forall|i: int| 0 <= i < self.entries@.len() ==> (#[trigger] self.entries@[i]).1.wf()
    }

    /// The empty cache.
    pub fn new() -> (r: DependencyCache)
        ensures
            r.wf(),
            r@ == Map::<Seq<char>, Map<Seq<char>, u128>>::empty(),
    {
        DependencyCache { entries: Vec::new() }
    }

    fn find(&self, path: &String) -> (r: Option<usize>)
        requires
            self.wf(),
        ensures
            match r {
                Some(i) => i < self.entries@.len() && self.entries@[i as int].0@ == path@,
                None => !self@.contains_key(path@),
            },
    {
        let mut i: usize = 0;
        while i < self.entries.len()
            invariant
                i <= self.entries@.len(),
                forall|j: int| 0 <= j < i ==> #[trigger] self.entries@[j].0@ != path@,
            decreases self.entries@.len() - i,
        {
            if self.entries[i].0 == *path {
                return Some(i);
            }
            i += 1;
        }
        proof {
            lemma_named_dom(self.entries@, stats_view(), path@);
        }
        None
    }

    /// The stats stored for `path`, if any.
    pub fn get(&self, path: &String) -> (r: Option<&Stats>)
        requires
            self.wf(),
        ensures
            match r {
                Some(s) => self@.contains_key(path@) && s@ == self@[path@] && s.wf(),
                None => !self@.contains_key(path@),
            },
    {
        match self.find(path) {
            Some(i) => {
                proof {
                    lemma_named_value(self.entries@, stats_view(), i as int);
                }
                Some(&self.entries[i].1)
            },
            None => None,
        }
    }

    /// Stores `stats` for `path`, replacing what was there.
    pub fn insert(&mut self, path: String, stats: Stats)
        requires
            old(self).wf(),
            stats.wf(),
        ensures
            final(self).wf(),
            final(self)@ == old(self)@.insert(path@, stats@),
    {
        let ghost s0 = self.entries@;
        match self.find(&path) {
            Some(i) => {
                self.entries.set(i, (path, stats));
                proof {
                    lemma_named_set(s0, stats_view(), i as int, (path, stats));
                }
            },
            None => {
                self.entries.push((path, stats));
                proof {
                    lemma_named_push(s0, stats_view(), (path, stats));
                }
            },
        }
        proof {
            assert forall|i: int| 0 <= i < self.entries@.len() implies (#[trigger] self.entries@[i]).1.wf() by {
                if self.entries@[i] != (path, stats) {
                    assert(self.entries@[i] == s0[i]);
                }
            }
        }
    }
}

} // verus!
