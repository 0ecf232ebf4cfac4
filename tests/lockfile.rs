use code_metrics::dependency::DependencyRecord;
use code_metrics::lockfile::parse_lock;

fn pairs(text: &str) -> Vec<(String, String)> {
    parse_lock(text.as_bytes())
        .into_iter()
        .map(|e| (String::from_utf8(e.name).unwrap(), String::from_utf8(e.version).unwrap()))
        .collect()
}

#[test]
fn lock_records_in_order() {
    let text = "# This file is automatically @generated by Cargo.\nversion = 3\n\n[[package]]\nname = \"anyhow\"\nversion = \"1.0.86\"\nsource = \"registry+https://github.com/rust-lang/crates.io-index\"\n\n[[package]]\nname = \"memchr\"\nversion = \"2.7.4\"\n";
    assert_eq!(
        pairs(text),
        vec![
            ("anyhow".to_string(), "1.0.86".to_string()),
            ("memchr".to_string(), "2.7.4".to_string()),
        ]
    );
}

#[test]
fn lock_without_trailing_newline() {
    assert_eq!(pairs("[[package]]\nname = \"a\"\nversion = \"0.1.0\""), vec![("a".to_string(), "0.1.0".to_string())]);
}

#[test]
fn lock_header_drops_a_name_without_version() {
    let text = "[[package]]\nname = \"lonely\"\n[[package]]\nversion = \"9.9.9\"\n";
    assert!(pairs(text).is_empty());
}

#[test]
fn lock_empty_text_has_no_records() {
    assert!(pairs("").is_empty());
}

#[test]
fn dependency_path_under_root() {
    let d = DependencyRecord { name: "serde".to_string(), version: "1.0.0".to_string() };
    assert_eq!(d.path(&"/deps".to_string()), "/deps/serde-1.0.0");
    assert_eq!(d.describe(), "serde 1.0.0");
}

#[test]
fn lock_with_crlf_line_endings() {
    let text = "[[package]]\r\nname = \"a\"\r\nversion = \"0.1.0\"\r\n";
    assert_eq!(pairs(text), vec![("a".to_string(), "0.1.0".to_string())]);
}
