use vstd::prelude::*;

verus! {

/// Addition that stops at `u128::MAX` instead of wrapping.
pub open spec fn sat_add(a: u128, b: u128) -> u128 {
    if a + b > u128::MAX {
        u128::MAX
    } else {
        (a + b) as u128
    }
}

/// The value a map holds for `k`, or zero where it holds none.
pub open spec fn value_or_zero(m: Map<Seq<char>, u128>, k: Seq<char>) -> u128 {
    if m.dom().contains(k) {
        m[k]
    } else {
        0
    }
}

/// Per-key sum of two metric maps: the keys of both, each with the two values added.
pub open spec fn combine_maps(a: Map<Seq<char>, u128>, b: Map<Seq<char>, u128>) -> Map<
    Seq<char>,
    u128,
> {
    Map::new(
        |k: Seq<char>| a.dom().contains(k) || b.dom().contains(k),
        |k: Seq<char>| sat_add(value_or_zero(a, k), value_or_zero(b, k)),
    )
}

/// The map that a list of named entries stands for, each value seen through `f`.
pub open spec fn named_map<V, W>(s: Seq<(String, V)>, f: spec_fn(V) -> W) -> Map<Seq<char>, W>
    decreases s.len(),
{
    if s.len() == 0 {
        Map::empty()
    } else {
        named_map(s.drop_last(), f).insert(s.last().0@, f(s.last().1))
    }
}

/// No two entries carry the same name.
pub open spec fn unique_names<V>(s: Seq<(String, V)>) -> bool {
    forall|i: int, j: int|
        0 <= i < s.len() && 0 <= j < s.len() && i != j ==> #[trigger] s[i].0@ != #[trigger] s[j].0@
}

pub open spec fn plain() -> spec_fn(u128) -> u128 {
    |v: u128| v
}

/// The map that a list of `(name, value)` entries stands for.
pub open spec fn map_of(s: Seq<(String, u128)>) -> Map<Seq<char>, u128> {
    named_map(s, plain())
}

proof fn lemma_named_dom_plain(s: Seq<(String, u128)>, k: Seq<char>)
    ensures
        map_of(s).dom().contains(k) <==> exists|i: int| 0 <= i < s.len() && #[trigger] s[i].0@ == k,
{
    lemma_named_dom(s, plain(), k);
}

proof fn lemma_named_value_plain(s: Seq<(String, u128)>, i: int)
    requires
        unique_names(s),
        0 <= i < s.len(),
    ensures
        map_of(s).dom().contains(s[i].0@),
        map_of(s)[s[i].0@] == s[i].1,
{
    lemma_named_value(s, plain(), i);
}

pub proof fn lemma_unique_drop_last<V>(s: Seq<(String, V)>)
    requires
        unique_names(s),
        s.len() > 0,
    ensures
        unique_names(s.drop_last()),
{
    let t = s.drop_last();
    assert forall|a: int, b: int|
        0 <= a < t.len() && 0 <= b < t.len() && a != b implies #[trigger] t[a].0@ != #[trigger] t[b].0@ by {
        assert(t[a] == s[a] && t[b] == s[b]);
    }
}

pub proof fn lemma_named_dom<V, W>(s: Seq<(String, V)>, f: spec_fn(V) -> W, k: Seq<char>)
    ensures
        named_map(s, f).dom().contains(k) <==> exists|i: int| 0 <= i < s.len() && #[trigger] s[i].0@ == k,
    decreases s.len(),
{
    if s.len() > 0 {
        lemma_named_dom(s.drop_last(), f, k);
        if named_map(s, f).dom().contains(k) && s.last().0@ != k {
            let i = choose|i: int| 0 <= i < s.drop_last().len() && #[trigger] s.drop_last()[i].0@ == k;
            assert(s[i].0@ == k);
        }
        if exists|i: int| 0 <= i < s.len() && #[trigger] s[i].0@ == k {
            let i = choose|i: int| 0 <= i < s.len() && #[trigger] s[i].0@ == k;
            if i < s.len() - 1 {
                assert(s.drop_last()[i].0@ == k);
            }
        }
    }
}

pub proof fn lemma_named_value<V, W>(s: Seq<(String, V)>, f: spec_fn(V) -> W, i: int)
    requires
        unique_names(s),
        0 <= i < s.len(),
    ensures
        named_map(s, f).dom().contains(s[i].0@),
        named_map(s, f)[s[i].0@] == f(s[i].1),
    decreases s.len(),
{
    if i < s.len() - 1 {
        lemma_unique_drop_last(s);
        lemma_named_value(s.drop_last(), f, i);
        assert(s[i].0@ != s.last().0@);
    }
}

/// Replacing the entry of a name replaces that name's value.
pub proof fn lemma_named_set<V, W>(s0: Seq<(String, V)>, f: spec_fn(V) -> W, i: int, e: (String, V))
    requires
        unique_names(s0),
        0 <= i < s0.len(),
        e.0@ == s0[i].0@,
    ensures
        unique_names(s0.update(i, e)),
        named_map(s0.update(i, e), f) == named_map(s0, f).insert(e.0@, f(e.1)),
{
    let s1 = s0.update(i, e);
    assert forall|a: int, b: int|
        0 <= a < s1.len() && 0 <= b < s1.len() && a != b implies #[trigger] s1[a].0@ != #[trigger] s1[b].0@ by {
        assert(s0[a].0@ != s0[b].0@);
    }
    assert forall|k: Seq<char>| #[trigger] named_map(s1, f).dom().contains(k) <==> named_map(s0, f).insert(
        e.0@,
        f(e.1),
    ).dom().contains(k) by {
        lemma_named_dom(s0, f, k);
        lemma_named_dom(s1, f, k);
        if exists|j: int| 0 <= j < s0.len() && #[trigger] s0[j].0@ == k {
            let j = choose|j: int| 0 <= j < s0.len() && #[trigger] s0[j].0@ == k;
            assert(s1[j].0@ == k);
        }
        if exists|j: int| 0 <= j < s1.len() && #[trigger] s1[j].0@ == k {
            let j = choose|j: int| 0 <= j < s1.len() && #[trigger] s1[j].0@ == k;
            assert(s0[j].0@ == k);
        }
    }
    assert forall|k: Seq<char>| #[trigger] named_map(s1, f).dom().contains(k) implies named_map(s1, f)[k]
        == named_map(s0, f).insert(e.0@, f(e.1))[k] by {
        lemma_named_dom(s1, f, k);
        let j = choose|j: int| 0 <= j < s1.len() && #[trigger] s1[j].0@ == k;
        lemma_named_value(s1, f, j);
        if j != i {
            lemma_named_value(s0, f, j);
        }
    }
    assert(named_map(s1, f) =~= named_map(s0, f).insert(e.0@, f(e.1)));
}

/// Appending an entry for a new name keeps the names unique.
pub proof fn lemma_named_push<V, W>(s0: Seq<(String, V)>, f: spec_fn(V) -> W, e: (String, V))
    requires
        unique_names(s0),
        !named_map(s0, f).dom().contains(e.0@),
    ensures
        unique_names(s0.push(e)),
        named_map(s0.push(e), f) == named_map(s0, f).insert(e.0@, f(e.1)),
{
    let s1 = s0.push(e);
    assert(s1.drop_last() =~= s0);
    lemma_named_dom(s0, f, e.0@);
    assert forall|a: int, b: int|
        0 <= a < s1.len() && 0 <= b < s1.len() && a != b implies #[trigger] s1[a].0@ != #[trigger] s1[b].0@ by {
        if a < s0.len() && b < s0.len() {
            assert(s0[a].0@ != s0[b].0@);
        } else if a < s0.len() {
            assert(s0[a].0@ == s1[a].0@);
        } else {
            assert(s0[b].0@ == s1[b].0@);
        }
    }
}

/// An accumulator from metric name to value. Values are fixed-point numbers in
/// millionths; adding saturates at `u128::MAX`.
pub struct Stats {
    entries: Vec<(String, u128)>,
}

impl View for Stats {
    type V = Map<Seq<char>, u128>;

    closed spec fn view(&self) -> Map<Seq<char>, u128> {
        map_of(self.entries@)
    }
}

impl Stats {
    /// The entries hold each name at most once.
    pub closed spec fn wf(&self) -> bool {
        unique_names(self.entries@)
    }

    /// The empty accumulator.
    pub fn new() -> (r: Stats)
        ensures
            r.wf(),
            r@ == Map::<Seq<char>, u128>::empty(),
    {
        Stats { entries: Vec::new() }
    }

    fn find(&self, name: &String) -> (r: Option<usize>)
        requires
            self.wf(),
        ensures
            match r {
                Some(i) => i < self.entries@.len() && self.entries@[i as int].0@ == name@,
                None => !self@.dom().contains(name@),
            },
    {
        let mut i: usize = 0;
        while i < self.entries.len()
            invariant
                i <= self.entries@.len(),
                forall|j: int| 0 <= j < i ==> #[trigger] self.entries@[j].0@ != name@,
            decreases self.entries@.len() - i,
        {
            if self.entries[i].0 == *name {
                return Some(i);
            }
            i += 1;
        }
        proof {
            lemma_named_dom_plain(self.entries@, name@);
        }
        None
    }

    /// The value held for `name`, if any.
    pub fn get(&self, name: &String) -> (r: Option<u128>)
        requires
            self.wf(),
        ensures
            r == (if self@.dom().contains(name@) {
                Some(self@[name@])
            } else {
                None::<u128>
            }),
    {
        match self.find(name) {
            Some(i) => {
                proof {
                    lemma_named_value_plain(self.entries@, i as int);
                }
                Some(self.entries[i].1)
            },
            None => None,
        }
    }

    /// Number of distinct names held.
    pub fn len(&self) -> (r: usize)
        requires
            self.wf(),
        ensures
            r == self@.dom().len(),
    {
        proof {
            self.lemma_dom_len();
        }
        self.entries.len()
    }

    proof fn lemma_dom_len(&self)
        requires
            self.wf(),
        ensures
            self@.dom().len() == self.entries@.len(),
            self@.dom().finite(),
        decreases self.entries@.len(),
    {
        lemma_dom_len_of(self.entries@);
    }

    /// The names held, in the order in which they first came.
    pub fn names(&self) -> (r: Vec<String>)
        requires
            self.wf(),
        ensures
            r@.len() == self@.dom().len(),
            forall|k: Seq<char>| self@.dom().contains(k) <==> exists|i: int| 0 <= i < r@.len() && #[trigger] r@[i]@ == k,
    {
        let mut r: Vec<String> = Vec::new();
        let mut i: usize = 0;
        while i < self.entries.len()
            invariant
                i <= self.entries@.len(),
                r@.len() == i,
                forall|j: int| 0 <= j < i ==> #[trigger] r@[j]@ == self.entries@[j].0@,
            decreases self.entries@.len() - i,
        {
            r.push(self.entries[i].0.clone());
            i += 1;
        }
        proof {
            self.lemma_dom_len();
            assert forall|k: Seq<char>| self@.dom().contains(k) <==> exists|i: int| 0 <= i < r@.len() && #[trigger] r@[i]@ == k by {
                lemma_named_dom_plain(self.entries@, k);
                if self@.dom().contains(k) {
                    let j = choose|j: int| 0 <= j < self.entries@.len() && #[trigger] self.entries@[j].0@ == k;
                    assert(r@[j]@ == k);
                }
                if exists|i: int| 0 <= i < r@.len() && #[trigger] r@[i]@ == k {
                    let j = choose|j: int| 0 <= j < r@.len() && #[trigger] r@[j]@ == k;
                    assert(self.entries@[j].0@ == k);
                }
            }
        }
        r
    }

    /// Adds `value` to the entry for `name`, or makes one holding `value`.
    pub fn add_or_insert(&mut self, name: String, value: u128)
        requires
            old(self).wf(),
        ensures
            final(self).wf(),
            final(self)@ == old(self)@.insert(
                name@,
                sat_add(value_or_zero(old(self)@, name@), value),
            ),
    {
        match self.find(&name) {
            Some(i) => {
                let ghost s0 = self.entries@;
                proof {
                    lemma_named_value(s0, plain(), i as int);
                }
                let cur = self.entries[i].1;
                let sum = cur.saturating_add(value);
                self.entries.set(i, (name, sum));
                proof {
                    lemma_named_set(s0, plain(), i as int, (name, sum));
                }
            },
            None => {
                let ghost s0 = self.entries@;
                self.entries.push((name, value));
                proof {
                    lemma_named_push(s0, plain(), (name, value));
                }
            },
        }
    }

    /// Adds every entry of `other` into `self` (the `+=` of two accumulators).
    pub fn combine(&mut self, other: &Stats)
        requires
            old(self).wf(),
            other.wf(),
        ensures
            final(self).wf(),
            final(self)@ == combine_maps(old(self)@, other@),
    {
        let ghost start = self@;
        let mut i: usize = 0;
        while i < other.entries.len()
            invariant
                0 <= i <= other.entries@.len(),
                other.wf(),
                self.wf(),
                self@ == combine_maps(start, map_of(other.entries@.take(i as int))),
            decreases other.entries@.len() - i,
        {
            let ghost before = self@;
            let name = other.entries[i].0.clone();
            let value = other.entries[i].1;
            self.add_or_insert(name, value);
            proof {
                let t = other.entries@.take(i as int);
                let t1 = other.entries@.take(i + 1);
                assert(t1.drop_last() =~= t);
                let k0 = other.entries@[i as int].0@;
                assert(!map_of(t).dom().contains(k0)) by {
                    lemma_named_dom_plain(t, k0);
                    if exists|j: int| 0 <= j < t.len() && #[trigger] t[j].0@ == k0 {
                        let j = choose|j: int| 0 <= j < t.len() && #[trigger] t[j].0@ == k0;
                        assert(other.entries@[j].0@ == k0);
                    }
                }
                assert(self@ =~= combine_maps(start, map_of(t1)));
            }
            i += 1;
        }
        assert(other.entries@.take(other.entries@.len() as int) =~= other.entries@);
    }

    /// A copy holding the same entries.
    pub fn duplicate(&self) -> (r: Stats)
        requires
            self.wf(),
        ensures
            r.wf(),
            r@ == self@,
    {
        let mut entries: Vec<(String, u128)> = Vec::new();
        let mut i: usize = 0;
        while i < self.entries.len()
            invariant
                i <= self.entries@.len(),
                entries@ == self.entries@.take(i as int),
            decreases self.entries@.len() - i,
        {
            let name = self.entries[i].0.clone();
            entries.push((name, self.entries[i].1));
            assert(entries@ =~= self.entries@.take(i + 1));
            i += 1;
        }
        assert(entries@ =~= self.entries@);
        Stats { entries }
    }
}

proof fn lemma_dom_len_of(s: Seq<(String, u128)>)
    requires
        unique_names(s),
    ensures
        map_of(s).dom().len() == s.len(),
        map_of(s).dom().finite(),
    decreases s.len(),
{
    if s.len() > 0 {
        let t = s.drop_last();
        lemma_unique_drop_last(s);
        lemma_dom_len_of(t);
        lemma_named_dom_plain(t, s.last().0@);
        if map_of(t).dom().contains(s.last().0@) {
            let j = choose|j: int| 0 <= j < t.len() && #[trigger] t[j].0@ == s.last().0@;
            assert(s[j].0@ == s[s.len() - 1].0@);
        }
    }
}

/// Merging metric maps is associative and commutative, with the empty map as
/// identity: the order in which sub-results are merged does not change the total.
pub proof fn combine_is_associative_and_commutative(
    a: Map<Seq<char>, u128>,
    b: Map<Seq<char>, u128>,
    c: Map<Seq<char>, u128>,
)
    ensures
        combine_maps(combine_maps(a, b), c) == combine_maps(a, combine_maps(b, c)),
        combine_maps(a, b) == combine_maps(b, a),
        combine_maps(a, Map::empty()) == a,
{
    assert(combine_maps(combine_maps(a, b), c) =~= combine_maps(a, combine_maps(b, c)));
    assert(combine_maps(a, b) =~= combine_maps(b, a));
    assert(combine_maps(a, Map::empty()) =~= a);
}

} // verus!
