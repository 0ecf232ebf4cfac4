use vstd::prelude::*;
use vstd::string::StringSliceAdditionalSpecFns;
use crate::cache::DependencyCache;
use crate::concurrency::keyword;
use crate::operators::{analyze_source, fold_metrics, Operator};
use crate::parser::{has_wf_tree, rust_tree_of};
use crate::stats::{combine_is_associative_and_commutative, combine_maps, Stats};
use crate::tree::SyntaxTree;

verus! {

/// Work still to do in a frame of the walk.
pub enum Task {
    Dir(String),
    Source(String),
    Lock(String),
    Dependency(String),
}

/// One entry of a directory listing: its path, its file name as bytes, and
/// whether it is a directory or a regular file.
pub struct DirEntry {
    pub path: String,
    pub name: Vec<u8>,
    pub is_dir: bool,
    pub is_file: bool,
}

/// A dependency named by a lock file, resolved to its path under the
/// dependency root, with whether that path exists.
pub struct LockedDependency {
    pub path: String,
    pub exists: bool,
}

/// What the walk needs next from the outside.
pub enum Action {
    ListDir(String),
    ReadSource(String),
    ReadLock(String),
    Finished(Stats),
}

/// A directory level of the walk: what it has gathered, what it still has
/// to do, and the dependency path it stands for, if any.
pub struct Frame {
    pub stats: Stats,
    pub tasks: Vec<Task>,
    pub dependency: Option<String>,
}

/// The walk of one benchmark.
pub struct Walker {
    pub frames: Vec<Frame>,
    pub visited: Vec<String>,
}

pub open spec fn ends_with(s: Seq<u8>, suffix: Seq<u8>) -> bool {
    suffix.len() <= s.len() && s.subrange(s.len() - suffix.len(), s.len() as int) == suffix
}

/// The task a directory entry gives: a directory to walk, a Rust source, a
/// lock file, or nothing.
pub open spec fn entry_task(e: DirEntry) -> Option<Task> {
    if e.is_dir {
        Some(Task::Dir(e.path))
    } else if e.is_file && ends_with(e.name@, ".rs".spec_bytes()) {
        Some(Task::Source(e.path))
    } else if e.is_file && e.name@ == "Cargo.lock".spec_bytes() {
        Some(Task::Lock(e.path))
    } else {
        None
    }
}

pub open spec fn opt_seq<T>(o: Option<T>) -> Seq<T> {
    match o {
        Some(t) => seq![t],
        None => Seq::empty(),
    }
}

/// The tasks a listing adds, last entry first, so that the first entry is
/// taken up first.
pub open spec fn listing_tasks(es: Seq<DirEntry>) -> Seq<Task>
    decreases es.len(),
{
    if es.len() == 0 {
        Seq::empty()
    } else {
        opt_seq(entry_task(es.last())) + listing_tasks(es.drop_last())
    }
}

pub open spec fn dependency_task(d: LockedDependency) -> Option<Task> {
    if d.exists {
        Some(Task::Dependency(d.path))
    } else {
        None
    }
}

/// The tasks a lock file adds: its existing dependencies, last first.
pub open spec fn lock_tasks(ds: Seq<LockedDependency>) -> Seq<Task>
    decreases ds.len(),
{
    if ds.len() == 0 {
        Seq::empty()
    } else {
        opt_seq(dependency_task(ds.last())) + lock_tasks(ds.drop_last())
    }
}

fn ends_with_bytes(s: &Vec<u8>, suffix: &Vec<u8>) -> (r: bool)
    ensures
        r == ends_with(s@, suffix@),
{
    let n = s.len();
    let m = suffix.len();
    if m > n {
        return false;
    }
    let mut k: usize = 0;
    while k < m
        invariant
            n == s@.len(),
            m == suffix@.len(),
            m <= n,
            k <= m,
            forall|x: int| 0 <= x < k ==> s@[n - m + x] == suffix@[x],
        decreases m - k,
    {
        if s[n - m + k] != suffix[k] {
            assert(s@.subrange(n - m, n as int)[k as int] != suffix@[k as int]);
            return false;
        }
        k += 1;
    }
    assert(s@.subrange(n - m, n as int) =~= suffix@);
    true
}

/// The task a directory entry gives.
pub fn classify(e: DirEntry) -> (r: Option<Task>)
    ensures
        r == entry_task(e),
{
    if e.is_dir {
        return Some(Task::Dir(e.path));
    }
    if e.is_file {
        let rs = keyword(".rs");
        if ends_with_bytes(&e.name, &rs) {
            return Some(Task::Source(e.path));
        }
        let lock = keyword("Cargo.lock");
        assert(e.name@.subrange(0, e.name@.len() as int) =~= e.name@);
        if e.name.len() == lock.len() && ends_with_bytes(&e.name, &lock) {
            return Some(Task::Lock(e.path));
        }
    }
    None
}

/// Everything the open frames have gathered, merged.
pub open spec fn frames_total(fs: Seq<Frame>) -> Map<Seq<char>, u128>
    decreases fs.len(),
{
    if fs.len() == 0 {
        Map::empty()
    } else {
        combine_maps(frames_total(fs.drop_last()), fs.last().stats@)
    }
}

/// The frames' total after one step that does not finish the walk: it
/// grows only by the cached stats of a dependency entered from the cache.
pub open spec fn step_total(w: Walker, cache: Map<Seq<char>, Map<Seq<char>, u128>>) -> Map<Seq<char>, u128> {
    if w.frames@.len() > 0 && w.top().tasks@.len() > 0 {
        match w.top().tasks@.last() {
            Task::Dependency(p) => if !w.has_visited(p@) && cache.contains_key(p@) {
                combine_maps(frames_total(w.frames@), cache[p@])
            } else {
                frames_total(w.frames@)
            },
            _ => frames_total(w.frames@),
        }
    } else {
        frames_total(w.frames@)
    }
}

/// A walk whose frames keep their dependency paths, and whose entered paths
/// only grow, stays consistent with the cache.
proof fn lemma_same_dependencies(a: Walker, b: Walker, m: Map<Seq<char>, Map<Seq<char>, u128>>)
    requires
        a.consistent_with(m),
        a.frames@.len() == b.frames@.len(),
        forall|i: int| 0 <= i < a.frames@.len() ==> #[trigger] b.frames@[i].dependency == a.frames@[i].dependency,
        a.visited@.len() <= b.visited@.len(),
        forall|j: int| 0 <= j < a.visited@.len() ==> #[trigger] b.visited@[j] == a.visited@[j],
    ensures
        b.consistent_with(m),
{
    assert forall|p: Seq<char>| a.has_visited(p) implies b.has_visited(p) by {
        let j = choose|j: int| 0 <= j < a.visited@.len() && #[trigger] a.visited@[j]@ == p;
        assert(b.visited@[j] == a.visited@[j]);
    }
    assert forall|i: int| 0 <= i < b.frames@.len() && (#[trigger] b.frames@[i]).dependency is Some implies {
        &&& b.has_visited(b.frames@[i].dependency->0@)
        &&& !m.contains_key(b.frames@[i].dependency->0@)
    } by {
        assert(b.frames@[i].dependency == a.frames@[i].dependency);
        assert(a.frames@[i].dependency is Some);
    }
    assert forall|i: int, j: int|
        0 <= i < j < b.frames@.len() && (#[trigger] b.frames@[i]).dependency is Some && (
        #[trigger] b.frames@[j]).dependency is Some implies b.frames@[i].dependency->0@
        != b.frames@[j].dependency->0@ by {
        assert(b.frames@[i].dependency == a.frames@[i].dependency);
        assert(b.frames@[j].dependency == a.frames@[j].dependency);
        assert(a.frames@[i].dependency is Some && a.frames@[j].dependency is Some);
    }
}

proof fn lemma_visited_push(a: Walker, b: Walker, path: String)
    requires
        b.visited@ == a.visited@.push(path),
    ensures
        forall|p: Seq<char>| a.has_visited(p) ==> b.has_visited(p),
        b.has_visited(path@),
{
    assert forall|p: Seq<char>| a.has_visited(p) implies b.has_visited(p) by {
        let j = choose|j: int| 0 <= j < a.visited@.len() && #[trigger] a.visited@[j]@ == p;
        assert(b.visited@[j] == a.visited@[j]);
    }
    assert(b.visited@[a.visited@.len() as int] == path);
}

impl Walker {
    /// Every frame's accumulator is well formed.
    pub open spec fn wf(&self) -> bool {
        forall|i: int| 0 <= i < self.frames@.len() ==> (#[trigger] self.frames@[i]).stats.wf()
    }

    /// `p` has been entered as a dependency in this walk.
    pub open spec fn has_visited(&self, p: Seq<char>) -> bool {
        exists|i: int| 0 <= i < self.visited@.len() && #[trigger] self.visited@[i]@ == p
    }

    /// Every open dependency frame stands for a path that this walk has
    /// entered, that the cache does not hold yet, and that no other open
    /// frame stands for: the cache gets each path's stats at most once.
    pub open spec fn consistent_with(&self, cache: Map<Seq<char>, Map<Seq<char>, u128>>) -> bool {
        &&& forall|i: int|
            0 <= i < self.frames@.len() && (#[trigger] self.frames@[i]).dependency is Some ==> {
                &&& self.has_visited(self.frames@[i].dependency->0@)
                &&& !cache.contains_key(self.frames@[i].dependency->0@)
            }
        &&& forall|i: int, j: int|
            0 <= i < j < self.frames@.len() && (#[trigger] self.frames@[i]).dependency is Some && (
            #[trigger] self.frames@[j]).dependency is Some ==> self.frames@[i].dependency->0@
                != self.frames@[j].dependency->0@
    }

    pub open spec fn top(&self) -> Frame {
        self.frames@.last()
    }

    /// A walk that starts at directory `root`, with nothing visited yet.
    pub fn new(root: String) -> (r: Walker)
        ensures
            r.wf(),
            r.frames@.len() == 1,
            r.top().stats@ == Map::<Seq<char>, u128>::empty(),
            r.top().tasks@ == seq![Task::Dir(root)],
            r.top().dependency.is_none(),
            r.visited@.len() == 0,
            forall|m: Map<Seq<char>, Map<Seq<char>, u128>>| r.consistent_with(m),
    {
        let stats = Stats::new();
        let tasks = vec![Task::Dir(root)];
        let frames = vec![Frame { stats, tasks, dependency: None }];
        Walker { frames, visited: Vec::new() }
    }

    fn visited_contains(&self, path: &String) -> (r: bool)
        ensures
            r == self.has_visited(path@),
    {
        let mut i: usize = 0;
        while i < self.visited.len()
            invariant
                i <= self.visited@.len(),
                forall|j: int| 0 <= j < i ==> #[trigger] self.visited@[j]@ != path@,
            decreases self.visited@.len() - i,
        {
            if self.visited[i] == *path {
                return true;
            }
            i += 1;
        }
        false
    }

    /// Takes up a dependency at `path`. One already entered in this walk is
    /// skipped. Otherwise it is marked as entered; stats cached for it by any
    /// walk of the run are added to the current frame, and no walk of it
    /// starts; where none are cached, a frame for it is opened and its
    /// directory is to be listed (the path is returned).
    pub fn enter_dependency(&mut self, path: String, cache: &DependencyCache) -> (r: Option<String>)
        requires
            old(self).wf(),
            old(self).frames@.len() > 0,
            cache.wf(),
            old(self).consistent_with(cache@),
        ensures
            final(self).wf(),
            final(self).consistent_with(cache@),
            old(self).has_visited(path@) ==> *final(self) == *old(self) && r.is_none(),
            !old(self).has_visited(path@) ==> final(self).visited@ == old(self).visited@.push(path),
            !old(self).has_visited(path@) && cache@.contains_key(path@) ==> {
                &&& r.is_none()
                &&& final(self).frames@.len() == old(self).frames@.len()
                &&& final(self).frames@.drop_last() == old(self).frames@.drop_last()
                &&& final(self).top().stats@ == combine_maps(old(self).top().stats@, cache@[path@])
                &&& final(self).top().tasks == old(self).top().tasks
                &&& final(self).top().dependency == old(self).top().dependency
            },
            !old(self).has_visited(path@) && !cache@.contains_key(path@) ==> {
                &&& r == Some(path)
                &&& final(self).frames@.len() == old(self).frames@.len() + 1
                &&& final(self).frames@.drop_last() == old(self).frames@
                &&& final(self).top().stats@ == Map::<Seq<char>, u128>::empty()
                &&& final(self).top().tasks@.len() == 0
                &&& final(self).top().dependency == Some(path)
            },
    {
        if self.visited_contains(&path) {
            return None;
        }
        let ghost o = *self;
        self.visited.push(path.clone());
        proof {
            lemma_visited_push(o, *self, path);
        }
        match cache.get(&path) {
            Some(cached) => {
                let ghost old_frames = self.frames@;
                let mut top = self.frames.pop().unwrap();
                top.stats.combine(cached);
                self.frames.push(top);
                assert(self.frames@.drop_last() =~= old_frames.drop_last());
                proof {
                    assert forall|i: int| 0 <= i < o.frames@.len() implies #[trigger] self.frames@[i].dependency
                        == o.frames@[i].dependency by {
                        if i < o.frames@.len() - 1 {
                            assert(self.frames@[i] == o.frames@[i]);
                        }
                    }
                    lemma_same_dependencies(o, *self, cache@);
                }
                None
            },
            None => {
                let name = path.clone();
                let frame = Frame { stats: Stats::new(), tasks: Vec::new(), dependency: Some(path) };
                self.frames.push(frame);
                proof {
                    let n = o.frames@.len();
                    assert forall|i: int| 0 <= i < self.frames@.len() && (#[trigger] self.frames@[i]).dependency is Some implies {
                        &&& self.has_visited(self.frames@[i].dependency->0@)
                        &&& !cache@.contains_key(self.frames@[i].dependency->0@)
                    } by {
                        if i < n {
                            assert(self.frames@[i] == o.frames@[i]);
                        }
                    }
                    assert forall|i: int, j: int|
                        0 <= i < j < self.frames@.len() && (#[trigger] self.frames@[i]).dependency is Some && (
                        #[trigger] self.frames@[j]).dependency is Some implies self.frames@[i].dependency->0@
                        != self.frames@[j].dependency->0@ by {
                        assert(self.frames@[i] == o.frames@[i]);
                        if j < n {
                            assert(self.frames@[j] == o.frames@[j]);
                        } else {
                            assert(o.has_visited(o.frames@[i].dependency->0@));
                        }
                    }
                }
                Some(name)
            },
        }
    }

    /// Closes the top frame. A frame that stands for a dependency leaves its
    /// stats in the cache; the stats go into the frame below, or are the
    /// walk's result where no frame is left.
    pub fn finish_frame(&mut self, cache: &mut DependencyCache) -> (r: Option<Stats>)
        requires
            old(self).wf(),
            old(self).frames@.len() > 0,
            old(cache).wf(),
            old(self).consistent_with(old(cache)@),
        ensures
            final(self).wf(),
            final(cache).wf(),
            final(self).consistent_with(final(cache)@),
            old(self).top().dependency matches Some(p) ==> !old(cache)@.contains_key(p@),
            final(self).visited == old(self).visited,
            final(self).frames@.len() == old(self).frames@.len() - 1,
            match old(self).top().dependency {
                Some(p) => final(cache)@ == old(cache)@.insert(p@, old(self).top().stats@),
                None => final(cache)@ == old(cache)@,
            },
            old(self).frames@.len() == 1 ==> (r matches Some(s) && s.wf() && s@ == old(self).top().stats@),
            old(self).frames@.len() > 1 ==> {
                &&& r.is_none()
                &&& final(self).frames@.drop_last() == old(self).frames@.drop_last().drop_last()
                &&& final(self).top().stats@ == combine_maps(
                    old(self).frames@[old(self).frames@.len() - 2].stats@,
                    old(self).top().stats@,
                )
                &&& final(self).top().tasks == old(self).frames@[old(self).frames@.len() - 2].tasks
                &&& final(self).top().dependency == old(self).frames@[old(self).frames@.len()
                    - 2].dependency
            },
    {
        let ghost old_frames = self.frames@;
        let ghost o = *self;
        let ghost old_cache = cache@;
        let frame = self.frames.pop().unwrap();
        proof {
            let n = old_frames.len();
            assert(old_frames[n - 1] == frame);
            assert(self.visited == o.visited);
            assert forall|i: int| 0 <= i < self.frames@.len() && (#[trigger] self.frames@[i]).dependency is Some implies {
                &&& self.has_visited(self.frames@[i].dependency->0@)
                &&& (frame.dependency is Some ==> self.frames@[i].dependency->0@ != frame.dependency->0@)
                &&& !old_cache.contains_key(self.frames@[i].dependency->0@)
            } by {
                assert(self.frames@[i] == old_frames[i]);
                assert(o.frames@[i].dependency is Some);
                assert(o.has_visited(o.frames@[i].dependency->0@));
                if frame.dependency is Some {
                    assert(o.frames@[n - 1].dependency is Some);
                    assert(o.frames@[i].dependency->0@ != o.frames@[n - 1].dependency->0@);
                }
            }
        }
        match frame.dependency {
            Some(p) => {
                let copy = frame.stats.duplicate();
                cache.insert(p, copy);
            },
            None => {},
        }
        if self.frames.len() == 0 {
            return Some(frame.stats);
        }
        let ghost mid = *self;
        proof {
            assert forall|i: int| 0 <= i < mid.frames@.len() && (#[trigger] mid.frames@[i]).dependency is Some implies {
                &&& mid.has_visited(mid.frames@[i].dependency->0@)
                &&& !cache@.contains_key(mid.frames@[i].dependency->0@)
            } by {}
            assert forall|i: int, j: int|
                0 <= i < j < mid.frames@.len() && (#[trigger] mid.frames@[i]).dependency is Some && (
                #[trigger] mid.frames@[j]).dependency is Some implies mid.frames@[i].dependency->0@
                != mid.frames@[j].dependency->0@ by {
                assert(mid.frames@[i] == o.frames@[i]);
                assert(mid.frames@[j] == o.frames@[j]);
            }
        }
        let mut parent = self.frames.pop().unwrap();
        assert(old_frames[old_frames.len() - 2] == parent);
        parent.stats.combine(&frame.stats);
        self.frames.push(parent);
        assert(self.frames@.drop_last() =~= old_frames.drop_last().drop_last());
        proof {
            assert forall|i: int| 0 <= i < mid.frames@.len() implies #[trigger] self.frames@[i].dependency
                == mid.frames@[i].dependency by {
                if i < mid.frames@.len() - 1 {
                    assert(self.frames@[i] == mid.frames@[i]);
                }
            }
            lemma_same_dependencies(mid, *self, cache@);
        }
        None
    }

    /// One step of the walk. With no frame left it gives empty stats. A top
    /// frame with no task left is closed (see `finish_frame`). Otherwise the
    /// top frame's last task is taken: a directory, source or lock file is
    /// asked for; a dependency is entered (see `enter_dependency`), and its
    /// directory asked for where a walk of it starts.
    pub fn step(&mut self, cache: &mut DependencyCache) -> (r: Option<Action>)
        requires
            old(self).wf(),
            old(cache).wf(),
            old(self).consistent_with(old(cache)@),
        ensures
            final(self).wf(),
            final(cache).wf(),
            final(self).consistent_with(final(cache)@),
            r matches Some(Action::Finished(s)) ==> s.wf() && final(self).frames@.len() == 0,
            (r is Some && !(r->0 is Finished)) ==> final(self).frames@.len() > 0,
            old(self).frames@.len() > 0 ==> (r matches Some(Action::Finished(s)) ==> s@
                == frames_total(old(self).frames@)),
            !(r matches Some(Action::Finished(_))) ==> frames_total(final(self).frames@) == step_total(
                *old(self),
                old(cache)@,
            ),
            old(self).frames@.len() == 0 ==> (r matches Some(Action::Finished(s)) && s@ == Map::<
                Seq<char>,
                u128,
            >::empty()) && *final(self) == *old(self) && final(cache)@ == old(cache)@,
            old(self).frames@.len() > 0 && old(self).top().tasks@.len() == 0 ==> {
                &&& final(self).visited == old(self).visited
                &&& final(self).frames@.len() == old(self).frames@.len() - 1
                &&& match old(self).top().dependency {
                    Some(p) => final(cache)@ == old(cache)@.insert(p@, old(self).top().stats@),
                    None => final(cache)@ == old(cache)@,
                }
                &&& old(self).frames@.len() == 1 ==> (r matches Some(Action::Finished(s)) && s@
                    == old(self).top().stats@)
                &&& old(self).frames@.len() > 1 ==> {
                    &&& r.is_none()
                    &&& final(self).frames@.drop_last() == old(self).frames@.drop_last().drop_last()
                    &&& final(self).top().stats@ == combine_maps(
                        old(self).frames@[old(self).frames@.len() - 2].stats@,
                        old(self).top().stats@,
                    )
                    &&& final(self).top().tasks == old(self).frames@[old(self).frames@.len()
                        - 2].tasks
                    &&& final(self).top().dependency == old(self).frames@[old(self).frames@.len()
                        - 2].dependency
                }
            },
            old(self).frames@.len() > 0 && old(self).top().tasks@.len() > 0 ==> {
                let task = old(self).top().tasks@.last();
                &&& final(cache)@ == old(cache)@
                &&& !(task is Dependency) ==> {
                    &&& final(self).visited == old(self).visited
                    &&& final(self).frames@.len() == old(self).frames@.len()
                    &&& final(self).frames@.drop_last() == old(self).frames@.drop_last()
                    &&& final(self).top().stats == old(self).top().stats
                    &&& final(self).top().dependency == old(self).top().dependency
                    &&& final(self).top().tasks@ == old(self).top().tasks@.drop_last()
                    &&& match task {
                        Task::Dir(p) => r == Some(Action::ListDir(p)),
                        Task::Source(p) => r == Some(Action::ReadSource(p)),
                        Task::Lock(p) => r == Some(Action::ReadLock(p)),
                        Task::Dependency(_) => true,
                    }
                }
                &&& task matches Task::Dependency(p) ==> {
                    &&& old(self).has_visited(p@) ==> {
                        &&& r.is_none()
                        &&& final(self).visited == old(self).visited
                        &&& final(self).frames@.len() == old(self).frames@.len()
                        &&& final(self).frames@.drop_last() == old(self).frames@.drop_last()
                        &&& final(self).top().stats == old(self).top().stats
                        &&& final(self).top().tasks@ == old(self).top().tasks@.drop_last()
                    }
                    &&& !old(self).has_visited(p@) ==> final(self).visited@ == old(self).visited@.push(p)
                    &&& !old(self).has_visited(p@) && old(cache)@.contains_key(p@) ==> {
                        &&& r.is_none()
                        &&& final(self).frames@.len() == old(self).frames@.len()
                        &&& final(self).frames@.drop_last() == old(self).frames@.drop_last()
                        &&& final(self).top().stats@ == combine_maps(
                            old(self).top().stats@,
                            old(cache)@[p@],
                        )
                        &&& final(self).top().tasks@ == old(self).top().tasks@.drop_last()
                    }
                    &&& !old(self).has_visited(p@) && !old(cache)@.contains_key(p@) ==> {
                        &&& r == Some(Action::ListDir(p))
                        &&& final(self).frames@.len() == old(self).frames@.len() + 1
                        &&& final(self).frames@.drop_last().drop_last() == old(self).frames@.drop_last()
                        &&& final(self).frames@[old(self).frames@.len() - 1].stats == old(self).top().stats
                        &&& final(self).frames@[old(self).frames@.len() - 1].tasks@ == old(self).top().tasks@.drop_last()
                        &&& final(self).top().stats@ == Map::<Seq<char>, u128>::empty()
                        &&& final(self).top().tasks@.len() == 0
                        &&& final(self).top().dependency == Some(p)
                    }
                }
            },
    {
        if self.frames.len() == 0 {
            return Some(Action::Finished(Stats::new()));
        }
        let ghost before = *self;
        let mut top = self.frames.pop().unwrap();
        if top.tasks.len() == 0 {
            self.frames.push(top);
            assert(self.frames@ =~= before.frames@);
            proof {
                lemma_same_dependencies(before, *self, cache@);
            }
            let res = self.finish_frame(cache);
            proof {
                let fs = before.frames@;
                let n = fs.len();
                if n == 1 {
                    assert(fs.drop_last() =~= Seq::<Frame>::empty());
                    assert(frames_total(fs.drop_last()) == Map::<Seq<char>, u128>::empty());
                    combine_is_associative_and_commutative(fs[0].stats@, Map::empty(), Map::empty());
                } else {
                    let dl = fs.drop_last();
                    assert(dl.last() == fs[n - 2]);
                    assert(self.frames@.drop_last() == dl.drop_last());
                    assert(frames_total(self.frames@) == combine_maps(
                        frames_total(dl.drop_last()),
                        self.frames@.last().stats@,
                    ));
                    assert(frames_total(fs) == combine_maps(frames_total(dl), fs[n - 1].stats@));
                    assert(frames_total(dl) == combine_maps(frames_total(dl.drop_last()), fs[n - 2].stats@));
                    combine_is_associative_and_commutative(
                        frames_total(dl.drop_last()),
                        fs[n - 2].stats@,
                        fs[n - 1].stats@,
                    );
                }
            }
            return match res {
                Some(s) => Some(Action::Finished(s)),
                None => None,
            };
        }
        let task = top.tasks.pop().unwrap();
        self.frames.push(top);
        assert(self.frames@.drop_last() =~= before.frames@.drop_last());
        assert forall|i: int| 0 <= i < self.frames@.len() implies (#[trigger] self.frames@[i]).stats.wf() by {
            if i < self.frames@.len() - 1 {
                assert(self.frames@[i] == before.frames@[i]);
            }
        }
        assert(frames_total(self.frames@) == frames_total(before.frames@));
        match task {
            Task::Dir(p) => Some(Action::ListDir(p)),
            Task::Source(p) => Some(Action::ReadSource(p)),
            Task::Lock(p) => Some(Action::ReadLock(p)),
            Task::Dependency(p) => {
                let ghost mid = *self;
                let ghost pv = p@;
                assert(mid.visited == before.visited);
                assert(mid.has_visited(pv) == before.has_visited(pv));
                let started = self.enter_dependency(p, cache);
                proof {
                    if !mid.has_visited(pv) && !cache@.contains_key(pv) {
                        assert(self.frames@.drop_last() == mid.frames@);
                        assert(self.frames@.drop_last().drop_last() =~= mid.frames@.drop_last());
                        combine_is_associative_and_commutative(
                            frames_total(mid.frames@),
                            Map::empty(),
                            Map::empty(),
                        );
                    } else if !mid.has_visited(pv) {
                        combine_is_associative_and_commutative(
                            frames_total(mid.frames@.drop_last()),
                            mid.top().stats@,
                            cache@[pv],
                        );
                    }
                }
                match started {
                    Some(q) => Some(Action::ListDir(q)),
                    None => None,
                }
            },
        }
    }

    /// Runs the walk until it needs something from the outside: a listing, a
    /// source file or a lock file. Where nothing is left it gives the stats
    /// of the whole walk.
    pub fn next_action(&mut self, cache: &mut DependencyCache) -> (r: Action)
        requires
            old(self).wf(),
            old(cache).wf(),
            old(self).consistent_with(old(cache)@),
        ensures
            final(self).wf(),
            final(cache).wf(),
            final(self).consistent_with(final(cache)@),
            forall|p: Seq<char>| old(self).has_visited(p) ==> final(self).has_visited(p),
            old(self).frames@.len() == 0 ==> (r matches Action::Finished(s) && s@ == Map::<
                Seq<char>,
                u128,
            >::empty()),
            r matches Action::Finished(s) ==> s.wf() && final(self).frames@.len() == 0,
            !(r is Finished) ==> final(self).frames@.len() > 0,
    {
        loop
            invariant
                self.wf(),
                cache.wf(),
                self.consistent_with(cache@),
                forall|p: Seq<char>| old(self).has_visited(p) ==> self.has_visited(p),
                old(self).frames@.len() == 0 ==> self.frames@.len() == 0,
            decreases self.frames@.len(), self.top().tasks@.len(),
        {
            let ghost before = *self;
            let r = self.step(cache);
            proof {
                assert forall|x: Seq<char>| before.has_visited(x) implies self.has_visited(x) by {
                    let j = choose|j: int| 0 <= j < before.visited@.len() && #[trigger] before.visited@[j]@ == x;
                    assert(self.visited@[j] == before.visited@[j]);
                }
            }
            match r {
                Some(a) => {
                    return a;
                },
                None => {},
            }
        }
    }

    /// Adds the tasks of a directory listing to the top frame.
    pub fn on_listing(&mut self, entries: Vec<DirEntry>)
        requires
            old(self).wf(),
        ensures
            final(self).wf(),
            forall|m: Map<Seq<char>, Map<Seq<char>, u128>>| old(self).consistent_with(m) ==> final(self).consistent_with(m),
            final(self).visited == old(self).visited,
            final(self).frames@.len() == old(self).frames@.len(),
            old(self).frames@.len() > 0 ==> {
                &&& final(self).frames@.drop_last() == old(self).frames@.drop_last()
                &&& final(self).top().stats == old(self).top().stats
                &&& final(self).top().dependency == old(self).top().dependency
                &&& final(self).top().tasks@ == old(self).top().tasks@ + listing_tasks(entries@)
            },
    {
        if self.frames.len() == 0 {
            return;
        }
        let ghost o = *self;
        let ghost old_frames = self.frames@;
        let ghost all = entries@;
        let mut top = self.frames.pop().unwrap();
        let ghost start = top.tasks@;
        let mut rest = entries;
        while rest.len() > 0
            invariant
                start + listing_tasks(all) == top.tasks@ + listing_tasks(rest@),
                self.frames@ == old_frames.drop_last(),
                old_frames.len() > 0,
                top.stats == old_frames.last().stats,
                top.dependency == old_frames.last().dependency,
                forall|i: int| 0 <= i < old_frames.len() ==> (#[trigger] old_frames[i]).stats.wf(),
            decreases rest@.len(),
        {
            let ghost r0 = rest@;
            let e = rest.pop().unwrap();
            assert(rest@ == r0.drop_last());
            let ghost t0 = top.tasks@;
            match classify(e) {
                Some(t) => {
                    top.tasks.push(t);
                },
                None => {},
            }
            assert(top.tasks@ =~= t0 + opt_seq(entry_task(r0.last())));
            assert(t0 + listing_tasks(r0) =~= top.tasks@ + listing_tasks(rest@));
        }
        assert(listing_tasks(rest@) =~= Seq::<Task>::empty());
        assert(top.tasks@ =~= start + listing_tasks(all));
        self.frames.push(top);
        assert(self.frames@.drop_last() =~= old_frames.drop_last());
        proof {
            assert forall|m: Map<Seq<char>, Map<Seq<char>, u128>>| o.consistent_with(m) implies self.consistent_with(m) by {
                assert forall|i: int| 0 <= i < o.frames@.len() implies #[trigger] self.frames@[i].dependency
                    == o.frames@[i].dependency by {
                    if i < o.frames@.len() - 1 {
                        assert(self.frames@[i] == old_frames[i]);
                    }
                }
                lemma_same_dependencies(o, *self, m);
            }
        }
        assert forall|i: int| 0 <= i < self.frames@.len() implies (#[trigger] self.frames@[i]).stats.wf() by {
            if i < self.frames@.len() - 1 {
                assert(self.frames@[i] == old_frames[i]);
            }
        }
    }

    /// Adds the existing dependencies of a lock file to the top frame.
    pub fn on_lock(&mut self, deps: Vec<LockedDependency>)
        requires
            old(self).wf(),
        ensures
            final(self).wf(),
            forall|m: Map<Seq<char>, Map<Seq<char>, u128>>| old(self).consistent_with(m) ==> final(self).consistent_with(m),
            final(self).visited == old(self).visited,
            final(self).frames@.len() == old(self).frames@.len(),
            old(self).frames@.len() > 0 ==> {
                &&& final(self).frames@.drop_last() == old(self).frames@.drop_last()
                &&& final(self).top().stats == old(self).top().stats
                &&& final(self).top().dependency == old(self).top().dependency
                &&& final(self).top().tasks@ == old(self).top().tasks@ + lock_tasks(deps@)
            },
    {
        if self.frames.len() == 0 {
            return;
        }
        let ghost o = *self;
        let ghost old_frames = self.frames@;
        let ghost all = deps@;
        let mut top = self.frames.pop().unwrap();
        let ghost start = top.tasks@;
        let mut rest = deps;
        while rest.len() > 0
            invariant
                start + lock_tasks(all) == top.tasks@ + lock_tasks(rest@),
                self.frames@ == old_frames.drop_last(),
                old_frames.len() > 0,
                top.stats == old_frames.last().stats,
                top.dependency == old_frames.last().dependency,
                forall|i: int| 0 <= i < old_frames.len() ==> (#[trigger] old_frames[i]).stats.wf(),
            decreases rest@.len(),
        {
            let ghost r0 = rest@;
            let d = rest.pop().unwrap();
            assert(rest@ == r0.drop_last());
            let ghost t0 = top.tasks@;
            if d.exists {
                top.tasks.push(Task::Dependency(d.path));
            }
            assert(top.tasks@ =~= t0 + opt_seq(dependency_task(r0.last())));
            assert(t0 + lock_tasks(r0) =~= top.tasks@ + lock_tasks(rest@));
        }
        assert(lock_tasks(rest@) =~= Seq::<Task>::empty());
        assert(top.tasks@ =~= start + lock_tasks(all));
        self.frames.push(top);
        assert(self.frames@.drop_last() =~= old_frames.drop_last());
        proof {
            assert forall|m: Map<Seq<char>, Map<Seq<char>, u128>>| o.consistent_with(m) implies self.consistent_with(m) by {
                assert forall|i: int| 0 <= i < o.frames@.len() implies #[trigger] self.frames@[i].dependency
                    == o.frames@[i].dependency by {
                    if i < o.frames@.len() - 1 {
                        assert(self.frames@[i] == old_frames[i]);
                    }
                }
                lemma_same_dependencies(o, *self, m);
            }
        }
        assert forall|i: int| 0 <= i < self.frames@.len() implies (#[trigger] self.frames@[i]).stats.wf() by {
            if i < self.frames@.len() - 1 {
                assert(self.frames@[i] == old_frames[i]);
            }
        }
    }

    /// Measures a source file's bytes into the top frame; `None` (a file
    /// that could not be read) adds nothing.
    pub fn on_source(&mut self, src: Option<Vec<u8>>, ops: &Vec<Operator>)
        requires
            old(self).wf(),
        ensures
            final(self).wf(),
            forall|m: Map<Seq<char>, Map<Seq<char>, u128>>| old(self).consistent_with(m) ==> final(self).consistent_with(m),
            final(self).visited == old(self).visited,
            final(self).frames@.len() == old(self).frames@.len(),
            old(self).frames@.len() > 0 ==> {
                &&& final(self).frames@.drop_last() == old(self).frames@.drop_last()
                &&& final(self).top().tasks == old(self).top().tasks
                &&& final(self).top().dependency == old(self).top().dependency
                &&& src is None ==> final(self).top().stats == old(self).top().stats
                &&& src is Some && !has_wf_tree(rust_tree_of(src->0@)) ==> final(self).top().stats@ == old(self).top().stats@
                &&& src is Some && has_wf_tree(rust_tree_of(src->0@)) ==> exists|t: SyntaxTree|
                    t.wf() && #[trigger] t.view_nodes() == rust_tree_of(src->0@) && final(self).top().stats@ == fold_metrics(old(self).top().stats@, ops@, t, src->0@)
            },
    {
        if self.frames.len() == 0 {
            return;
        }
        let ghost o = *self;
        let ghost old_frames = self.frames@;
        let mut top = self.frames.pop().unwrap();
        match src {
            Some(bytes) => {
                analyze_source(bytes.as_slice(), ops, &mut top.stats);
            },
            None => {},
        }
        self.frames.push(top);
        assert(self.frames@.drop_last() =~= old_frames.drop_last());
        proof {
            assert forall|m: Map<Seq<char>, Map<Seq<char>, u128>>| o.consistent_with(m) implies self.consistent_with(m) by {
                assert forall|i: int| 0 <= i < o.frames@.len() implies #[trigger] self.frames@[i].dependency
                    == o.frames@[i].dependency by {
                    if i < o.frames@.len() - 1 {
                        assert(self.frames@[i] == old_frames[i]);
                    }
                }
                lemma_same_dependencies(o, *self, m);
            }
        }
        assert forall|i: int| 0 <= i < self.frames@.len() implies (#[trigger] self.frames@[i]).stats.wf() by {
            if i < self.frames@.len() - 1 {
                assert(self.frames@[i] == old_frames[i]);
            }
        }
    }
}

} // verus!
