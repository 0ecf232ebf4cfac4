use code_metrics::stats::Stats;

fn stats_of(entries: &[(&str, u128)]) -> Stats {
    let mut s = Stats::new();
    for (k, v) in entries {
        s.add_or_insert(k.to_string(), *v);
    }
    s
}

fn value(s: &Stats, k: &str) -> Option<u128> {
    s.get(&k.to_string())
}

#[test]
fn add_or_insert_sums_existing_keys() {
    let mut s = Stats::new();
    s.add_or_insert("a".to_string(), 3);
    s.add_or_insert("b".to_string(), 4);
    s.add_or_insert("a".to_string(), 5);
    assert_eq!(value(&s, "a"), Some(8));
    assert_eq!(value(&s, "b"), Some(4));
    assert_eq!(value(&s, "c"), None);
    assert_eq!(s.len(), 2);
}

#[test]
fn add_saturates() {
    let mut s = Stats::new();
    s.add_or_insert("a".to_string(), u128::MAX - 1);
    s.add_or_insert("a".to_string(), 5);
    assert_eq!(value(&s, "a"), Some(u128::MAX));
}

#[test]
fn combine_is_order_independent() {
    let a = stats_of(&[("x", 1), ("y", 2)]);
    let b = stats_of(&[("y", 10), ("z", 20)]);
    let c = stats_of(&[("x", 100)]);

    let mut ab = a.duplicate();
    ab.combine(&b);
    let mut ba = b.duplicate();
    ba.combine(&a);
    for k in ["x", "y", "z"] {
        assert_eq!(value(&ab, k), value(&ba, k));
    }

    let mut ab_c = ab.duplicate();
    ab_c.combine(&c);
    let mut bc = b.duplicate();
    bc.combine(&c);
    let mut a_bc = a.duplicate();
    a_bc.combine(&bc);
    for k in ["x", "y", "z"] {
        assert_eq!(value(&ab_c, k), value(&a_bc, k));
    }
    assert_eq!(value(&a_bc, "x"), Some(101));
    assert_eq!(value(&a_bc, "y"), Some(12));
    assert_eq!(value(&a_bc, "z"), Some(20));
}

#[test]
fn names_lists_each_key_once() {
    let s = stats_of(&[("x", 1), ("y", 2), ("x", 3)]);
    assert_eq!(s.names(), vec!["x".to_string(), "y".to_string()]);
}
