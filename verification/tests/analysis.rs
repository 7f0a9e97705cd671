use koyashi::analysis::{aggregate, classify, message_for};
use koyashi::model::{Classification, FieldStats, Location, ReferenceKind, ReferenceSite};

fn stats(initializers: u32, reads: u32, writes: u32) -> FieldStats {
    FieldStats {
        initializers,
        reads,
        writes,
        write_lines: (0..writes).map(|i| i + 1).collect(),
    }
}

fn site(line: u32, kind: ReferenceKind) -> ReferenceSite {
    ReferenceSite {
        location: Location {
            file: "src/main.rs".to_string(),
            line,
            character: 4,
        },
        kind,
    }
}

#[test]
fn no_reference_is_unused() {
    assert_eq!(
        classify(&stats(0, 0, 0), false),
        Some(Classification::Unused)
    );
    // A derive on a never-constructed struct does not rescue the field.
    assert_eq!(
        classify(&stats(0, 0, 0), true),
        Some(Classification::Unused)
    );
}

#[test]
fn value_placed_but_never_read_is_write_only() {
    assert_eq!(
        classify(&stats(0, 0, 3), false),
        Some(Classification::WriteOnly)
    );
    assert_eq!(
        classify(&stats(1, 0, 2), false),
        Some(Classification::WriteOnly)
    );
    // Initialized once and never read counts as write-only.
    assert_eq!(
        classify(&stats(1, 0, 0), false),
        Some(Classification::WriteOnly)
    );
}

#[test]
fn placed_and_read_only_by_a_derive_is_derive_only() {
    assert_eq!(
        classify(&stats(1, 0, 0), true),
        Some(Classification::DeriveOnly)
    );
    assert_eq!(
        classify(&stats(0, 0, 2), true),
        Some(Classification::DeriveOnly)
    );
}

#[test]
fn read_without_write_is_read_only() {
    assert_eq!(
        classify(&stats(1, 7, 0), false),
        Some(Classification::ReadOnly)
    );
    // An explicit read takes precedence over derive usage.
    assert_eq!(
        classify(&stats(0, 2, 0), true),
        Some(Classification::ReadOnly)
    );
}

#[test]
fn read_and_write_is_healthy() {
    assert_eq!(classify(&stats(1, 4, 2), false), None);
}

#[test]
fn aggregate_counts_each_kind_and_sorts_write_lines() {
    let sites = vec![
        site(30, ReferenceKind::Write),
        site(5, ReferenceKind::Initializer),
        site(12, ReferenceKind::Read),
        site(20, ReferenceKind::Write),
    ];
    let stats = aggregate(&sites);
    assert_eq!(stats.initializers, 1);
    assert_eq!(stats.reads, 1);
    assert_eq!(stats.writes, 2);
    assert_eq!(stats.write_lines, vec![20, 30]);
}

#[test]
fn mutable_borrow_counts_as_a_read_and_a_write() {
    let sites = vec![
        site(3, ReferenceKind::Initializer),
        site(9, ReferenceKind::MutBorrow),
    ];
    let stats = aggregate(&sites);
    assert_eq!(stats.initializers, 1);
    assert_eq!(stats.reads, 1);
    assert_eq!(stats.writes, 1);
    assert_eq!(stats.write_lines, vec![9]);
    // Reached only by a mutable borrow: healthy.
    assert_eq!(classify(&stats, false), None);
}

#[test]
fn aggregate_of_no_sites_is_unused() {
    let stats = aggregate(&[]);
    assert_eq!(stats.initializers + stats.reads + stats.writes, 0);
    assert!(stats.write_lines.is_empty());
    assert_eq!(classify(&stats, true), Some(Classification::Unused));
}

#[test]
fn messages_explain_each_classification() {
    assert_eq!(message_for(Classification::Unused), "no references found");
    assert_eq!(
        message_for(Classification::WriteOnly),
        "field is written but its value is never observed"
    );
    assert_eq!(
        message_for(Classification::ReadOnly),
        "field is set once at construction and never mutated"
    );
    assert_eq!(
        message_for(Classification::DeriveOnly),
        "field is read only through a derive macro"
    );
}

#[test]
fn labels_of_classifications_and_kinds() {
    assert_eq!(Classification::Unused.label(), "unused");
    assert_eq!(Classification::WriteOnly.label(), "write-only");
    assert_eq!(Classification::ReadOnly.label(), "read-only");
    assert_eq!(Classification::DeriveOnly.label(), "derive-only");
    assert_eq!(ReferenceKind::Initializer.label(), "initializer");
    assert_eq!(ReferenceKind::Read.label(), "read");
    assert_eq!(ReferenceKind::Write.label(), "write");
    assert_eq!(ReferenceKind::MutBorrow.label(), "mut-borrow");
}

#[test]
fn aggregate_ignores_the_order_of_sites() {
    let forward = vec![
        site(3, ReferenceKind::Initializer),
        site(9, ReferenceKind::Write),
        site(5, ReferenceKind::Read),
        site(7, ReferenceKind::MutBorrow),
        site(2, ReferenceKind::Write),
    ];
    let backward = vec![
        site(2, ReferenceKind::Write),
        site(7, ReferenceKind::MutBorrow),
        site(5, ReferenceKind::Read),
        site(9, ReferenceKind::Write),
        site(3, ReferenceKind::Initializer),
    ];
    let a = aggregate(&forward);
    let b = aggregate(&backward);
    assert_eq!(a.initializers, b.initializers);
    assert_eq!(a.reads, b.reads);
    assert_eq!(a.writes, b.writes);
    assert_eq!(a.write_lines, b.write_lines);
    assert_eq!(a.write_lines, vec![2, 7, 9]);
}
