use std::cmp::Ordering;

use dependency_graph::manifest::{dependencies_in, extract_depdendency, starts_with};
use dependency_graph::order::compare_names;
use dependency_graph::projects::{is_excluded, tranverse_subdirs};

fn strings(v: &[&str]) -> Vec<String> {
    v.iter().map(|s| s.to_string()).collect()
}

#[test]
fn compare_in_byte_order() {
    assert_eq!(compare_names("a", "b"), Ordering::Less);
    assert_eq!(compare_names("b", "a"), Ordering::Greater);
    assert_eq!(compare_names("ab", "ab"), Ordering::Equal);
    assert_eq!(compare_names("ab", "abc"), Ordering::Less);
    assert_eq!(compare_names("", "a"), Ordering::Less);
    assert_eq!(compare_names("Z", "a"), Ordering::Less);
    assert_eq!(compare_names("z", "é"), Ordering::Less);
}

#[test]
fn prefix_test() {
    assert!(starts_with("rustc_span", "rustc"));
    assert!(starts_with("rustc", "rustc"));
    assert!(starts_with("anything", ""));
    assert!(!starts_with("rust", "rustc"));
    assert!(!starts_with("serde", "rustc"));
}

#[test]
fn dependencies_filtered_by_prefix() {
    let text = "[package]\nname = \"x\"\n\n[dependencies]\nrustc_span = { path = \"../rustc_span\" }\nserde = \"1\"\nrustc_ast = { path = \"../rustc_ast\" }\n";
    let deps = extract_depdendency(text, "rustc").ok().unwrap();
    assert_eq!(deps, strings(&["rustc_ast", "rustc_span"]));
}

#[test]
fn no_dependencies_section() {
    let deps = extract_depdendency("[package]\nname = \"x\"\n", "rustc").ok().unwrap();
    assert!(deps.is_empty());
    let deps = extract_depdendency("", "rustc").ok().unwrap();
    assert!(deps.is_empty());
}

#[test]
fn dependencies_not_a_table() {
    let deps = extract_depdendency("dependencies = 3\n", "rustc").ok().unwrap();
    assert!(deps.is_empty());
}

#[test]
fn unparsable_manifest_is_an_error() {
    let r = extract_depdendency("[dependencies\nrustc_a = 1", "rustc");
    match r {
        Err(e) => assert!(!e.message.is_empty()),
        Ok(_) => panic!("expected a parse error"),
    }
}

#[test]
fn dependencies_from_a_parsed_document() {
    let doc = vec![
        ("package".to_string(), Some(strings(&["name"]))),
        ("dependencies".to_string(), Some(strings(&["rustc_b", "libc", "rustc_a"]))),
        ("dependencies".to_string(), Some(strings(&["rustc_z"]))),
    ];
    assert_eq!(dependencies_in(&doc, "rustc"), strings(&["rustc_b", "rustc_a"]));
    let doc = vec![("dependencies".to_string(), None)];
    assert!(dependencies_in(&doc, "rustc").is_empty());
}

#[test]
fn excluded_names() {
    let ex = strings(&["rustc", "rustc_log"]);
    assert!(is_excluded(&"rustc_log".to_string(), &ex));
    assert!(!is_excluded(&"rustc_lo".to_string(), &ex));
    assert!(!is_excluded(&"rustc".to_string(), &Vec::new()));
}

#[test]
fn collect_skips_excluded_and_overwrites() {
    let projects = vec![
        ("rustc_a".to_string(), "[dependencies]\nrustc_b = 1\nrustc_log = 1\n".to_string()),
        ("rustc_log".to_string(), "not toml [".to_string()),
        ("rustc_b".to_string(), "[dependencies]\nrustc_c = 1\n".to_string()),
        ("rustc_a".to_string(), "[dependencies]\nrustc_c = 1\n".to_string()),
    ];
    let m = tranverse_subdirs(&projects, &strings(&["rustc_log"]), "rustc").ok().unwrap();
    assert_eq!(m.len(), 2);
    assert_eq!(m.get(&"rustc_a".to_string()), Some(&strings(&["rustc_c"])));
    assert_eq!(m.get(&"rustc_b".to_string()), Some(&strings(&["rustc_c"])));
    assert_eq!(m.get(&"rustc_log".to_string()), None);
}

#[test]
fn collect_fails_on_bad_manifest() {
    let projects = vec![
        ("rustc_a".to_string(), "[dependencies]\n".to_string()),
        ("rustc_b".to_string(), "= =".to_string()),
    ];
    assert!(tranverse_subdirs(&projects, &Vec::new(), "rustc").is_err());
}

#[test]
fn collect_nothing() {
    let m = tranverse_subdirs(&Vec::new(), &Vec::new(), "rustc").ok().unwrap();
    assert_eq!(m.len(), 0);
}
