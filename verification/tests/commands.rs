use koyashi::cli::{CheckArgs, ClassFilter, OutputFormat, Severity};
use koyashi::commands::{
    check_report, classification_of, exit_code, explain_fields, fields_named, include_allows,
    site_at, site_for,
};
use koyashi::config::KoyashiConfig;
use koyashi::model::{Classification, FieldDef, Location, ReferenceKind, ReferenceSite, Summary};
use koyashi::source::ReferenceKindMap;

fn summary(unused: u32, write_only: u32, read_only: u32) -> Summary {
    Summary {
        unused,
        write_only,
        read_only,
        ..Summary::default()
    }
}

fn field(struct_name: &str, field_name: &str, file: &str, line: u32, derive: bool) -> FieldDef {
    FieldDef {
        struct_name: struct_name.to_string(),
        field_name: field_name.to_string(),
        location: Location {
            file: file.to_string(),
            line,
            character: 4,
        },
        used_by_derive: derive,
    }
}

fn site(file: &str, line: u32, kind: ReferenceKind) -> ReferenceSite {
    ReferenceSite {
        location: Location {
            file: file.to_string(),
            line,
            character: 8,
        },
        kind,
    }
}

fn args(included: Vec<ClassFilter>, explain: bool) -> CheckArgs {
    CheckArgs {
        workspace: ".".to_string(),
        included,
        exclude_tests: true,
        struct_name: None,
        format: OutputFormat::Text,
        severity: Severity::Warn,
        explain,
    }
}

#[test]
fn write_only_gates_at_warn_and_error() {
    assert_eq!(exit_code(Severity::Warn, &summary(0, 1, 0)), 1);
    assert_eq!(exit_code(Severity::Error, &summary(0, 1, 0)), 1);
    assert_eq!(exit_code(Severity::Warn, &summary(0, 0, 0)), 0);
}

#[test]
fn read_only_only_gates_at_info() {
    assert_eq!(exit_code(Severity::Warn, &summary(0, 0, 3)), 0);
    assert_eq!(exit_code(Severity::Info, &summary(0, 0, 3)), 1);
}

#[test]
fn derive_only_only_gates_at_info() {
    let derive_only = Summary {
        derive_only: 2,
        ..Summary::default()
    };
    assert_eq!(exit_code(Severity::Warn, &derive_only), 0);
    assert_eq!(exit_code(Severity::Info, &derive_only), 1);
}

#[test]
fn empty_include_allows_every_classification() {
    assert!(include_allows(&[], Classification::Unused));
    assert!(include_allows(&[ClassFilter::Unused], Classification::Unused));
    assert!(!include_allows(&[ClassFilter::Unused], Classification::ReadOnly));
}

#[test]
fn filters_select_their_classification() {
    assert_eq!(classification_of(ClassFilter::Unused), Classification::Unused);
    assert_eq!(classification_of(ClassFilter::WriteOnly), Classification::WriteOnly);
    assert_eq!(classification_of(ClassFilter::ReadOnly), Classification::ReadOnly);
    assert_eq!(classification_of(ClassFilter::DeriveOnly), Classification::DeriveOnly);
    assert!(include_allows(
        &[ClassFilter::ReadOnly, ClassFilter::DeriveOnly],
        Classification::DeriveOnly
    ));
}

#[test]
fn unused_gates_at_every_threshold() {
    assert_eq!(exit_code(Severity::Error, &summary(2, 0, 0)), 1);
    assert_eq!(exit_code(Severity::Warn, &summary(2, 0, 0)), 1);
    assert_eq!(exit_code(Severity::Info, &summary(2, 0, 0)), 1);
    assert_eq!(exit_code(Severity::Info, &summary(0, 0, 0)), 0);
}

fn freeloaders() -> (Vec<FieldDef>, Vec<Vec<ReferenceSite>>) {
    let f = "src/main.rs";
    let fields = vec![
        field("Settings", "label", f, 8, false),
        field("Settings", "counter", f, 10, false),
        field("Settings", "last_message", f, 12, false),
        field("Orphan", "forgotten", f, 18, false),
        field("Telemetry", "trace_id", f, 25, true),
        field("Budget", "remaining", f, 31, false),
    ];
    let sites = vec![
        vec![site(f, 40, ReferenceKind::Initializer), site(f, 45, ReferenceKind::Read)],
        vec![
            site(f, 41, ReferenceKind::Initializer),
            site(f, 47, ReferenceKind::Write),
            site(f, 48, ReferenceKind::Read),
        ],
        vec![site(f, 42, ReferenceKind::Initializer), site(f, 49, ReferenceKind::Write)],
        vec![],
        vec![site(f, 53, ReferenceKind::Initializer)],
        vec![site(f, 57, ReferenceKind::Initializer), site(f, 58, ReferenceKind::MutBorrow)],
    ];
    (fields, sites)
}

#[test]
fn check_report_classifies_and_orders_findings() {
    let (fields, sites) = freeloaders();
    let report = check_report(
        "/ws".to_string(),
        &fields,
        &sites,
        &args(vec![], false),
        &KoyashiConfig::new(),
    );
    let names: Vec<&str> = report.findings.iter().map(|f| f.field.as_str()).collect();
    assert_eq!(
        names,
        [
            "Settings::label",
            "Settings::last_message",
            "Orphan::forgotten",
            "Telemetry::trace_id"
        ]
    );
    let classes: Vec<Classification> =
        report.findings.iter().map(|f| f.classification).collect();
    assert_eq!(
        classes,
        [
            Classification::ReadOnly,
            Classification::WriteOnly,
            Classification::Unused,
            Classification::DeriveOnly
        ]
    );
    assert_eq!(report.findings[1].write_lines, vec![49]);
    assert_eq!(report.findings[1].reads, 0);
    assert_eq!(report.findings[1].writes, 1);
    assert_eq!(report.summary.unused, 1);
    assert_eq!(report.summary.write_only, 1);
    assert_eq!(report.summary.read_only, 1);
    assert_eq!(report.summary.derive_only, 1);
    assert_eq!(report.schema_version, "0.1");
    assert!(report.findings.iter().all(|f| f.references.is_empty()));
    assert_eq!(exit_code(Severity::Warn, &report.summary), 1);
}

#[test]
fn check_report_applies_filters_and_suppressions() {
    let (fields, sites) = freeloaders();
    let mut config = KoyashiConfig::new();
    config.insert(
        "Settings::last_message".to_string(),
        vec![Classification::WriteOnly],
    );
    let report = check_report(
        "/ws".to_string(),
        &fields,
        &sites,
        &args(vec![ClassFilter::WriteOnly, ClassFilter::Unused], true),
        &config,
    );
    let names: Vec<&str> = report.findings.iter().map(|f| f.field.as_str()).collect();
    assert_eq!(names, ["Orphan::forgotten"]);
    assert_eq!(report.summary.write_only, 0);
    assert_eq!(exit_code(Severity::Error, &report.summary), 1);
}

#[test]
fn explain_lists_every_reference_of_a_finding() {
    let (fields, sites) = freeloaders();
    let report = check_report(
        "/ws".to_string(),
        &fields,
        &sites,
        &args(vec![ClassFilter::WriteOnly], true),
        &KoyashiConfig::new(),
    );
    assert_eq!(report.findings.len(), 1);
    let refs = &report.findings[0].references;
    assert_eq!(refs.len(), 2);
    assert_eq!(refs[0].kind, "initializer");
    assert_eq!(refs[0].line, 42);
    assert_eq!(refs[1].kind, "write");
    assert_eq!(refs[1].line, 49);
}

#[test]
fn fields_are_selected_by_display_name() {
    let (fields, sites) = freeloaders();
    let matched = fields_named(&fields, "Settings::counter");
    assert_eq!(matched.len(), 1);
    assert_eq!(matched[0].field_name, "counter");
    assert!(fields_named(&fields, "Settings").is_empty());

    let text = explain_fields(&matched, &vec![sites[1].clone()]);
    assert!(text.starts_with("Settings::counter\n  defined  src/main.rs:10\n"));
    assert!(text.contains("healthy — the field is both read and written"));
    assert!(text.contains("3 reference(s):"));
}

#[test]
fn reference_kind_defaults_to_read() {
    let mut kinds = ReferenceKindMap::new();
    kinds.insert(7, 12, ReferenceKind::Write);
    let at = |line: u32, character: u32| Location {
        file: "src/lib.rs".to_string(),
        line,
        character,
    };
    assert_eq!(site_for(at(7, 12), &kinds).kind, ReferenceKind::Write);
    assert_eq!(site_for(at(7, 13), &kinds).kind, ReferenceKind::Read);
    assert_eq!(site_for(at(7, 13), &kinds).location.character, 13);
}

#[test]
fn server_columns_become_character_columns() {
    let mut kinds = ReferenceKindMap::new();
    // `😀` takes two UTF-16 units but is one character.
    let line = "var s = \u{1F600}; s.count += 1;";
    let character = line.chars().position(|c| c == 'c').unwrap() as u32;
    kinds.insert(3, character, ReferenceKind::Write);
    let units = line.encode_utf16().position(|u| u == u16::from(b'c')).unwrap() as u32;
    assert_eq!(units, character + 1);
    let site = site_at(
        Location { file: "src/a.rs".to_string(), line: 3, character: units },
        line,
        &kinds,
    )
    .unwrap();
    assert_eq!(site.location.file, "src/a.rs");
    assert_eq!(site.location.line, 3);
    assert_eq!(site.location.character, character);
    assert_eq!(site.kind, ReferenceKind::Write);
    // Past the end of the line, one character per unit.
    let past = site_at(Location { file: "src/a.rs".to_string(), line: 3, character: 40 }, line, &kinds)
        .unwrap();
    assert_eq!(past.location.character, 40 - 1);
    assert_eq!(past.kind, ReferenceKind::Read);
    assert!(site_at(Location { file: "x.rs".to_string(), line: 1, character: u32::MAX }, "ab", &kinds)
        .is_none());
}
