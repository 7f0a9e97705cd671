use koyashi::model::{
    Classification, FieldDef, Finding, Location, ReferenceEntry, ReferenceKind, ReferenceSite,
    Report,
};
use koyashi::report::{counts_line, label, render_explanation, render_finding, render_text};

fn sample_report() -> Report {
    Report::new(
        "/ws".to_string(),
        vec![
            Finding {
                classification: Classification::WriteOnly,
                field: "Repo::last_sync_at".to_string(),
                file: "src/repo.rs".to_string(),
                line: 22,
                initializers: 0,
                reads: 0,
                writes: 3,
                write_lines: vec![41, 58, 73],
                message: "field is written but its value is never observed".to_string(),
                references: vec![],
            },
            Finding {
                classification: Classification::Unused,
                field: "State::pending".to_string(),
                file: "src/state.rs".to_string(),
                line: 5,
                initializers: 0,
                reads: 0,
                writes: 0,
                write_lines: vec![],
                message: "no references found".to_string(),
                references: vec![],
            },
        ],
    )
}

#[test]
fn text_output_includes_counts_and_message() {
    let text = render_text(&sample_report(), false);
    assert!(text.contains("write-only"));
    assert!(text.contains("0 reads, 3 writes (lines 41, 58, 73)"));
    assert!(!text.contains("0 initializers"));
}

#[test]
fn empty_report_renders_placeholder() {
    let report = Report::new("/ws".to_string(), vec![]);
    assert_eq!(render_text(&report, false), "no koyashi fields found");
}

#[test]
fn explanation_lists_reference_sites_in_order() {
    let field = FieldDef {
        struct_name: "User".to_string(),
        field_name: "id".to_string(),
        location: Location {
            file: "src/user.rs".to_string(),
            line: 3,
            character: 4,
        },
        used_by_derive: false,
    };
    let site = |line: u32, kind: ReferenceKind| ReferenceSite {
        location: Location {
            file: "src/user.rs".to_string(),
            line,
            character: 0,
        },
        kind,
    };
    let sites = vec![
        site(20, ReferenceKind::Read),
        site(10, ReferenceKind::Initializer),
    ];

    let text = render_explanation(&field, &sites, Some(Classification::ReadOnly));
    assert!(text.contains("User::id"));
    assert!(text.contains("read-only"));
    assert!(text.contains("2 reference(s):"));
    // Sites are ordered by line: the initializer (10) before the read (20).
    let initializer = text.find("src/user.rs:10").unwrap();
    let read = text.find("src/user.rs:20").unwrap();
    assert!(initializer < read);
}

#[test]
fn whole_text_of_a_report() {
    let text = render_text(&sample_report(), false);
    let detail = " ".repeat(13) + "↳ ";
    let expected = [
        format!("{:<12} {:<32} {}", "write-only", "src/repo.rs:22", "Repo::last_sync_at"),
        format!("{detail}0 reads, 3 writes (lines 41, 58, 73)"),
        format!("{detail}field is written but its value is never observed"),
        String::new(),
        format!("{:<12} {:<32} {}", "unused", "src/state.rs:5", "State::pending"),
        format!("{detail}no references found"),
    ]
    .join("\n");
    assert_eq!(text, expected);
}

#[test]
fn summary_counts_the_findings() {
    let report = sample_report();
    assert_eq!(report.summary.write_only, 1);
    assert_eq!(report.summary.unused, 1);
    assert_eq!(report.summary.read_only, 0);
    assert_eq!(report.summary.derive_only, 0);
    assert_eq!(report.findings.len(), 2);
}

#[test]
fn counts_line_names_initializers() {
    let mut finding = sample_report().findings.remove(0);
    finding.classification = Classification::ReadOnly;
    finding.initializers = 1;
    finding.reads = 7;
    finding.writes = 0;
    assert_eq!(
        counts_line(&finding).unwrap(),
        "1 initializer, 7 reads, 0 writes"
    );
    finding.initializers = 2;
    assert_eq!(
        counts_line(&finding).unwrap(),
        "2 initializers, 7 reads, 0 writes"
    );
    finding.classification = Classification::Unused;
    assert!(counts_line(&finding).is_none());
    finding.classification = Classification::WriteOnly;
    finding.write_lines = vec![];
    assert_eq!(counts_line(&finding).unwrap(), "7 reads, 0 writes");
}

#[test]
fn finding_lists_reference_sites_when_explained() {
    let mut finding = sample_report().findings.remove(0);
    finding.references = vec![
        ReferenceEntry {
            kind: "initializer",
            file: "src/repo.rs".to_string(),
            line: 30,
        },
        ReferenceEntry {
            kind: "write",
            file: "src/repo.rs".to_string(),
            line: 41,
        },
    ];
    let text = render_finding(&finding, false);
    assert!(text.contains("↳ 2 reference site(s):"));
    assert!(text.contains("initializer  src/repo.rs:30"));
    assert!(text.ends_with("write        src/repo.rs:41"));
}

#[test]
fn labels_are_padded_and_plain_without_color() {
    assert_eq!(label(Classification::Unused, false), "unused      ");
    assert_eq!(label(Classification::DeriveOnly, false), "derive-only ");
    let colored = label(Classification::ReadOnly, true);
    assert!(colored == "read-only   " || colored == "\x1b[33mread-only   \x1b[0m");
    let red = label(Classification::WriteOnly, true);
    assert!(red == "write-only  " || red == "\x1b[31mwrite-only  \x1b[0m");
}

#[test]
fn healthy_explanation_without_references() {
    let field = FieldDef {
        struct_name: "Orphan".to_string(),
        field_name: "forgotten".to_string(),
        location: Location {
            file: "src/main.rs".to_string(),
            line: 18,
            character: 4,
        },
        used_by_derive: false,
    };
    let text = render_explanation(&field, &[], Some(Classification::Unused));
    assert_eq!(
        text,
        "Orphan::forgotten\n  defined  src/main.rs:18\n  result   unused — no references found\n\n  no references"
    );
    let healthy = render_explanation(&field, &[], None);
    assert!(healthy.contains("  result   healthy — the field is both read and written"));
}

#[test]
fn labels_are_painted_when_color_is_on() {
    colored::control::set_override(true);
    assert_eq!(label(Classification::Unused, true), "\x1b[31munused      \x1b[0m");
    assert_eq!(label(Classification::WriteOnly, true), "\x1b[31mwrite-only  \x1b[0m");
    assert_eq!(label(Classification::ReadOnly, true), "\x1b[33mread-only   \x1b[0m");
    assert_eq!(label(Classification::DeriveOnly, true), "\x1b[34mderive-only \x1b[0m");
    // Plain labels stay plain whatever the override.
    assert_eq!(label(Classification::ReadOnly, false), "read-only   ");
}

#[test]
fn explanation_lines_in_order() {
    let field = FieldDef {
        struct_name: "Repo".to_string(),
        field_name: "cache".to_string(),
        location: Location {
            file: "src/repo.rs".to_string(),
            line: 7,
            character: 4,
        },
        used_by_derive: false,
    };
    let site = |file: &str, line: u32, kind: ReferenceKind| ReferenceSite {
        location: Location {
            file: file.to_string(),
            line,
            character: 0,
        },
        kind,
    };
    let sites = vec![
        site("src/sync.rs", 4, ReferenceKind::Write),
        site("src/repo.rs", 30, ReferenceKind::MutBorrow),
        site("src/repo.rs", 12, ReferenceKind::Initializer),
    ];
    let text = render_explanation(&field, &sites, None);
    let lines: Vec<&str> = text.split('\n').collect();
    assert_eq!(
        lines,
        vec![
            "Repo::cache",
            "  defined  src/repo.rs:7",
            "  result   healthy — the field is both read and written",
            "",
            "  3 reference(s):",
            "    initializer  src/repo.rs:12",
            "    mut-borrow   src/repo.rs:30",
            "    write        src/sync.rs:4",
        ]
    );
    let none = render_explanation(&field, &[], Some(Classification::Unused));
    let lines: Vec<&str> = none.split('\n').collect();
    assert_eq!(
        lines,
        vec![
            "Repo::cache",
            "  defined  src/repo.rs:7",
            "  result   unused — no references found",
            "",
            "  no references",
        ]
    );
}
