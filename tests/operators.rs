use code_metrics::concurrency::{is_concurrency_related, parallel_calls};
use code_metrics::metrics::{
    avg_args, count_nodes, field_count, file_number, fn_avg_depth, macro_count, node_type,
    struct_methods,
};
use code_metrics::parser::parse_rust;
use code_metrics::tree::SyntaxTree;

fn parse(src: &str) -> SyntaxTree {
    parse_rust(src.as_bytes()).expect("Error loading Rust grammar")
}

fn as_number(v: u128) -> f64 {
    v as f64 / 1_000_000.0
}

#[test]
fn parallel_calls_test_struct_methods() {
    let source_code = r#"
            use std::thread;
        
            fn main() {
                thread::spawn(|| {
                    println!("Hello from a thread!");
                });
        
                tokio::spawn(async {
                    println!("Hello from a tokio task!");
                });
        
                async {
                    println!("Hello from an async block!");
                };
            }
            "#;
    let tree = parse(source_code);
    let (_, parallel_calls) = parallel_calls(&tree, source_code.as_bytes());
    assert_eq!(as_number(parallel_calls), 4.);
}

#[test]
fn struct_methods_test_struct_methods() {
    let source_code = r#"
    struct Point {
        x: f64,
        y: f64,
    }

    impl Point {
        fn new(x: f64, y: f64) -> Point {
            Point { x, y }
        }

        fn distance(&self, other: &Point) -> f64 {
            ((self.x - other.x).powi(2) + (self.y - other.y).powi(2)).sqrt()
        }
    }

    struct Circle {
        radius: f64,
    }

    impl Circle {
        fn area(&self) -> f64 {
            3.14 * self.radius * self.radius
        }
    }
    "#;
    let tree = parse(source_code);
    let (_, struct_methods) = struct_methods(&tree, source_code.as_bytes());
    assert_eq!(as_number(struct_methods), 1.5);
}

#[test]
fn empty_file_has_only_the_root() {
    let tree = parse("");
    let (name, v) = count_nodes(&tree, b"");
    assert_eq!(name, "Node count");
    assert_eq!(as_number(v), 1.0);
    let (name, v) = node_type(&tree, b"");
    assert_eq!(name, "node_count");
    assert_eq!(as_number(v), 1.0);
}

#[test]
fn small_function_counts_ten_nodes() {
    let src = "fn f() {}";
    let tree = parse(src);
    assert_eq!(count_nodes(&tree, src.as_bytes()).1, 10_000_000);
}

#[test]
fn no_functions_gives_zero_depth_and_args() {
    let src = "struct S;";
    let tree = parse(src);
    assert_eq!(fn_avg_depth(&tree, src.as_bytes()), ("fn_avg_depth".to_string(), 0));
    assert_eq!(avg_args(&tree, src.as_bytes()), ("avg_args".to_string(), 0));
}

#[test]
fn fn_avg_depth_of_one_function() {
    // function_item at 1; fn, name, parameters, block at 2; four brackets at 3.
    let src = "fn f() {}";
    let tree = parse(src);
    assert_eq!(fn_avg_depth(&tree, src.as_bytes()).1, 21 * 1_000_000 / 9);
}

#[test]
fn avg_args_counts_named_parameters() {
    let src = "fn a(x: u8, y: u8) {} fn b() {} fn c(z: u8) {}";
    let tree = parse(src);
    assert_eq!(as_number(avg_args(&tree, src.as_bytes()).1), 1.0);
}

#[test]
fn macro_count_without_macros_is_zero() {
    let src = "fn f() {}";
    let tree = parse(src);
    assert_eq!(macro_count(&tree, src.as_bytes()), ("macro".to_string(), 0));
}

#[test]
fn macro_count_three_calls_one_definition() {
    let src = "macro_rules! m { () => {} } fn f() { m!(); m!(); m!(); }";
    let tree = parse(src);
    assert_eq!(as_number(macro_count(&tree, src.as_bytes()).1), 2.0);
}

#[test]
fn macro_count_calls_without_definitions() {
    let src = "fn f() { m!(); }";
    let tree = parse(src);
    assert_eq!(as_number(macro_count(&tree, src.as_bytes()).1), 2.0);
}

#[test]
fn struct_methods_one_impl_two_structs() {
    let src = "struct A {} struct B {} impl B { fn x() {} fn y() {} fn z() {} }";
    let tree = parse(src);
    assert_eq!(as_number(struct_methods(&tree, src.as_bytes()).1), 1.5);
}

#[test]
fn struct_methods_without_structs_is_zero() {
    let src = "impl B { fn x() {} }";
    let tree = parse(src);
    assert_eq!(struct_methods(&tree, src.as_bytes()).1, 0);
}

#[test]
fn field_count_averages_fields_and_variants() {
    let src = "struct P { x: u8, y: u8, z: u8 } enum E { A, B, C, D, E }";
    let tree = parse(src);
    let (name, v) = field_count(&tree, src.as_bytes());
    assert_eq!(name, "fields");
    assert_eq!(as_number(v), 4.0);
}

#[test]
fn field_count_without_types_is_zero() {
    let src = "fn f() {}";
    let tree = parse(src);
    assert_eq!(field_count(&tree, src.as_bytes()).1, 0);
}

#[test]
fn file_number_is_one() {
    let tree = parse("fn f() {}");
    assert_eq!(file_number(&tree, b""), ("file_number".to_string(), 1_000_000));
}

#[test]
fn parallel_calls_tracks_aliased_import() {
    let src = "use rayon::join; fn f() { join(a, b); }";
    let tree = parse(src);
    assert_eq!(as_number(parallel_calls(&tree, src.as_bytes()).1), 1.0);
}

#[test]
fn parallel_calls_plain_code_is_zero() {
    let src = "fn f() { g(1); }";
    let tree = parse(src);
    assert_eq!(parallel_calls(&tree, src.as_bytes()).1, 0);
}

#[test]
fn concurrency_keywords_by_substring() {
    let pool = vec![b"tokio".to_vec(), b"thread".to_vec()];
    assert!(is_concurrency_related(b"tokio::spawn", &pool));
    assert!(is_concurrency_related(b"std::thread::spawn", &pool));
    assert!(!is_concurrency_related(b"toki", &pool));
    assert!(!is_concurrency_related(b"", &pool));
    assert!(is_concurrency_related(b"x", &vec![Vec::new()]));
}

#[test]
fn parsed_trees_are_well_formed() {
    for src in ["", "fn f() {}", "struct A { x: u8 } impl A { fn g(&self) { m!(1); } }"] {
        let tree = parse(src);
        assert!(tree.check_wf());
        assert_eq!(tree.nodes[0].depth, 0);
        assert_eq!(tree.nodes[0].kind, "source_file");
    }
}
