use std::collections::HashMap;

use code_metrics::cache::DependencyCache;
use code_metrics::operators::{analyze_source, ast_ops};
use code_metrics::stats::Stats;
use code_metrics::walk::{Action, DirEntry, LockedDependency, Walker};

/// An in-memory tree of files: directories map to their entries, files to
/// their contents, lock files to the dependency paths they name.
struct Disk {
    dirs: HashMap<String, Vec<(String, bool)>>,
    files: HashMap<String, String>,
    locks: HashMap<String, Vec<String>>,
    reads: Vec<String>,
}

impl Disk {
    fn new() -> Disk {
        Disk { dirs: HashMap::new(), files: HashMap::new(), locks: HashMap::new(), reads: vec![] }
    }

    fn dir(&mut self, path: &str, entries: &[(&str, bool)]) {
        self.dirs.insert(
            path.to_string(),
            entries.iter().map(|(n, d)| (n.to_string(), *d)).collect(),
        );
    }

    fn file(&mut self, path: &str, text: &str) {
        self.files.insert(path.to_string(), text.to_string());
    }

    fn lock(&mut self, path: &str, deps: &[&str]) {
        self.locks.insert(path.to_string(), deps.iter().map(|d| d.to_string()).collect());
    }

    fn walk(&mut self, root: &str, cache: &mut DependencyCache) -> Stats {
        let ops = ast_ops();
        let mut w = Walker::new(root.to_string());
        loop {
            match w.next_action(cache) {
                Action::ListDir(p) => {
                    let entries = self.dirs[&p]
                        .iter()
                        .map(|(n, is_dir)| DirEntry {
                            path: format!("{p}/{n}"),
                            name: n.as_bytes().to_vec(),
                            is_dir: *is_dir,
                            is_file: !*is_dir,
                        })
                        .collect();
                    w.on_listing(entries);
                }
                Action::ReadSource(p) => {
                    self.reads.push(p.clone());
                    let bytes = self.files.get(&p).map(|s| s.as_bytes().to_vec());
                    w.on_source(bytes, &ops);
                }
                Action::ReadLock(p) => {
                    let deps = self.locks[&p]
                        .iter()
                        .map(|d| LockedDependency { path: d.clone(), exists: self.dirs.contains_key(d) })
                        .collect();
                    w.on_lock(deps);
                }
                Action::Finished(s) => return s,
            }
        }
    }
}

fn value(s: &Stats, k: &str) -> Option<u128> {
    s.get(&k.to_string())
}

#[test]
fn single_file_benchmark_gives_exactly_the_operator_keys() {
    let mut disk = Disk::new();
    disk.dir("bench", &[("main.rs", false), ("README.md", false)]);
    disk.file("bench/main.rs", "fn f() {}");
    let mut cache = DependencyCache::new();
    let s = disk.walk("bench", &mut cache);

    let mut names = s.names();
    names.sort();
    assert_eq!(
        names,
        vec![
            "Node count", "avg_args", "fields", "file_number", "fn_avg_depth", "macro",
            "parallel_calls", "struct_methods",
        ]
    );
    assert_eq!(value(&s, "file_number"), Some(1_000_000));
    assert_eq!(value(&s, "Node count"), Some(10_000_000));
    assert_eq!(value(&s, "fn_avg_depth"), Some(21 * 1_000_000 / 9));
    assert_eq!(value(&s, "avg_args"), Some(0));
    assert_eq!(value(&s, "macro"), Some(0));
    assert_eq!(value(&s, "fields"), Some(0));
    assert_eq!(value(&s, "struct_methods"), Some(0));
    assert_eq!(value(&s, "parallel_calls"), Some(0));
    assert_eq!(disk.reads, vec!["bench/main.rs".to_string()]);
}

#[test]
fn walk_matches_direct_analysis() {
    let src = "struct A { x: u8 } impl A { fn get(&self) -> u8 { self.x } }";
    let mut disk = Disk::new();
    disk.dir("b", &[("lib.rs", false)]);
    disk.file("b/lib.rs", src);
    let s = disk.walk("b", &mut DependencyCache::new());
    let mut direct = Stats::new();
    analyze_source(src.as_bytes(), &ast_ops(), &mut direct);
    for k in direct.names() {
        assert_eq!(value(&s, &k), value(&direct, &k));
    }
    assert_eq!(value(&s, "struct_methods"), Some(1_000_000));
}

#[test]
fn subdirectories_are_summed() {
    let mut disk = Disk::new();
    disk.dir("b", &[("src", true), ("main.rs", false)]);
    disk.dir("b/src", &[("a.rs", false), ("b.rs", false)]);
    disk.file("b/main.rs", "");
    disk.file("b/src/a.rs", "");
    disk.file("b/src/b.rs", "");
    let s = disk.walk("b", &mut DependencyCache::new());
    assert_eq!(value(&s, "file_number"), Some(3_000_000));
    assert_eq!(value(&s, "Node count"), Some(3_000_000));
}

#[test]
fn shared_dependency_is_walked_once_per_run() {
    let mut disk = Disk::new();
    disk.dir("a", &[("Cargo.lock", false), ("main.rs", false)]);
    disk.dir("b", &[("Cargo.lock", false), ("main.rs", false)]);
    disk.dir("deps/d-1.0", &[("lib.rs", false)]);
    disk.file("a/main.rs", "fn main() {}");
    disk.file("b/main.rs", "fn main() {}");
    disk.file("deps/d-1.0/lib.rs", "pub fn d(x: u8) {} struct S { a: u8 }");
    disk.lock("a/Cargo.lock", &["deps/d-1.0"]);
    disk.lock("b/Cargo.lock", &["deps/d-1.0", "deps/missing-0.1"]);

    let mut cache = DependencyCache::new();
    let sa = disk.walk("a", &mut cache);
    let sb = disk.walk("b", &mut cache);

    let dep_reads = disk.reads.iter().filter(|p| p.starts_with("deps/")).count();
    assert_eq!(dep_reads, 1);
    for k in sa.names() {
        assert_eq!(value(&sa, &k), value(&sb, &k));
    }
    assert_eq!(value(&sb, "file_number"), Some(2_000_000));
    let cached = cache.get(&"deps/d-1.0".to_string()).expect("dependency cached");
    assert_eq!(value(cached, "file_number"), Some(1_000_000));
    assert_eq!(value(cached, "fields"), Some(1_000_000));
}

#[test]
fn diamond_dependency_counts_once() {
    let mut disk = Disk::new();
    disk.dir("top", &[("Cargo.lock", false), ("main.rs", false)]);
    disk.dir("x", &[("Cargo.lock", false), ("x.rs", false)]);
    disk.dir("y", &[("Cargo.lock", false), ("y.rs", false)]);
    disk.dir("d", &[("d.rs", false)]);
    disk.file("top/main.rs", "");
    disk.file("x/x.rs", "");
    disk.file("y/y.rs", "");
    disk.file("d/d.rs", "");
    disk.lock("top/Cargo.lock", &["x", "y"]);
    disk.lock("x/Cargo.lock", &["d"]);
    disk.lock("y/Cargo.lock", &["d"]);

    let s = disk.walk("top", &mut DependencyCache::new());
    assert_eq!(value(&s, "file_number"), Some(4_000_000));
    assert_eq!(disk.reads.iter().filter(|p| p.as_str() == "d/d.rs").count(), 1);
}

#[test]
fn unreadable_source_adds_nothing() {
    let mut disk = Disk::new();
    disk.dir("b", &[("gone.rs", false)]);
    let s = disk.walk("b", &mut DependencyCache::new());
    assert_eq!(s.len(), 0);
}
