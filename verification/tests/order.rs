use koyashi::commands::sort_findings;
use koyashi::model::{Classification, Finding, Summary};
use koyashi::order::{compare_paths, compare_text};

fn finding(file: &str, line: u32, field: &str) -> Finding {
    classified(file, line, field, Classification::Unused)
}

fn classified(file: &str, line: u32, field: &str, classification: Classification) -> Finding {
    Finding {
        classification,
        field: field.to_string(),
        file: file.to_string(),
        line,
        initializers: 0,
        reads: 0,
        writes: 0,
        write_lines: vec![],
        message: "no references found".to_string(),
        references: vec![],
    }
}

#[test]
fn paths_compare_by_components() {
    assert_eq!(compare_paths("x//a.rs", "x/a.rs"), 0);
    assert_eq!(compare_paths("x/a.rs/", "x/a.rs"), 0);
    assert_eq!(compare_paths("x/./a.rs", "x/a.rs"), 0);
    assert_eq!(compare_paths("/ws/src/a/mod.rs", "/ws/src/a-b.rs"), -1);
    assert_eq!(compare_paths("/ws/src/a-b.rs", "/ws/src/a/mod.rs"), 1);
    assert_eq!(compare_paths("/ws/b.rs", "ws/a.rs"), -1);
    assert_eq!(compare_paths("./a.rs", "a.rs"), -1);
    assert_eq!(compare_paths("../a.rs", "a.rs"), -1);
    assert_eq!(compare_paths("src/a.rs", "src/a.rs/b"), -1);
}

#[test]
fn text_compares_by_bytes() {
    assert_eq!(compare_text("a/b", "a-b"), 1);
    assert_eq!(compare_text("abc", "abd"), -1);
    assert_eq!(compare_text("é", "z"), 1);
    assert_eq!(compare_text("same", "same"), 0);
}

#[test]
fn findings_follow_path_components() {
    let sorted = sort_findings(vec![
        finding("/ws/src/a-b.rs", 1, "B::x"),
        finding("/ws/src/a/mod.rs", 9, "A::y"),
        finding("/ws/src/a/mod.rs", 3, "A::z"),
        finding("/ws/src/a/mod.rs", 3, "A::w"),
    ]);
    let order: Vec<(&str, u32, &str)> = sorted
        .iter()
        .map(|f| (f.file.as_str(), f.line, f.field.as_str()))
        .collect();
    assert_eq!(
        order,
        vec![
            ("/ws/src/a/mod.rs", 3, "A::w"),
            ("/ws/src/a/mod.rs", 3, "A::z"),
            ("/ws/src/a/mod.rs", 9, "A::y"),
            ("/ws/src/a-b.rs", 1, "B::x"),
        ]
    );
}

#[test]
fn summary_counts_ignore_the_order_of_findings() {
    let make = || {
        vec![
            classified("a.rs", 1, "A::a", Classification::Unused),
            classified("a.rs", 2, "A::b", Classification::WriteOnly),
            classified("b.rs", 3, "B::c", Classification::WriteOnly),
            classified("b.rs", 4, "B::d", Classification::DeriveOnly),
        ]
    };
    let forward = make();
    let mut backward = make();
    backward.reverse();
    let a = Summary::from_findings(&forward);
    let b = Summary::from_findings(&backward);
    assert_eq!((a.unused, a.write_only, a.read_only, a.derive_only), (1, 2, 0, 1));
    assert_eq!(
        (a.unused, a.write_only, a.read_only, a.derive_only),
        (b.unused, b.write_only, b.read_only, b.derive_only)
    );
    assert_eq!(a.unused + a.write_only + a.read_only + a.derive_only, 4);
}
