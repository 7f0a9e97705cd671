use koyashi::model::ReferenceKind;
use koyashi::source::{
    collect_field_defs, parse_source, reference_kinds, reference_kinds_of_text, source_file,
    visit_items, BinaryOp, FieldValue, NamedField, Position, SourceAttribute, SourceExpr,
    SourceFile, SourceItem,
};

fn pos(line: u32, column: u32) -> Position {
    Position { line, column }
}

fn named(name: &str, line: u32, column: u32) -> NamedField {
    NamedField {
        name: name.to_string(),
        position: pos(line, column),
    }
}

fn list_attr(ident: &str, paths: &[&str]) -> SourceAttribute {
    SourceAttribute {
        list_ident: Some(ident.to_string()),
        args: vec![],
        paths: paths.iter().map(|p| p.to_string()).collect(),
    }
}

fn field_names(src: &str, exclude_tests: bool) -> Vec<String> {
    let file = source_file("test.rs", src).expect("valid source");
    let mut defs = Vec::new();
    visit_items(&file.items, "test.rs", None, exclude_tests, &mut defs);
    defs.into_iter().map(|d| d.display_name()).collect()
}

/// The roles recorded in a one-line source, in the order of their columns.
fn kinds(src: &str) -> Vec<ReferenceKind> {
    let map = reference_kinds_of_text(src).expect("valid source");
    let found: Vec<ReferenceKind> = (0..=src.chars().count() as u32)
        .filter_map(|column| map.get(1, column))
        .collect();
    assert_eq!(found.len(), map.len());
    found
}

fn path_expr() -> SourceExpr {
    SourceExpr::Other { children: vec![] }
}

fn field_expr(base: SourceExpr, line: u32, column: u32) -> SourceExpr {
    SourceExpr::Field {
        base: Box::new(base),
        member: Some(pos(line, column)),
    }
}

fn lit() -> SourceExpr {
    SourceExpr::Other { children: vec![] }
}

#[test]
fn collects_named_struct_fields() {
    let src = "struct User { id: u32, name: String }";
    assert_eq!(field_names(src, true), ["User::id", "User::name"]);
}

#[test]
fn descends_into_modules() {
    let src = "mod inner { struct Inner { value: u8 } }";
    assert_eq!(field_names(src, true), ["Inner::value"]);
}

#[test]
fn skips_cfg_test_modules_when_excluding() {
    let src = "#[cfg(test)] mod tests { struct Fixture { x: u8 } }";
    assert!(field_names(src, true).is_empty());
    assert_eq!(field_names(src, false), ["Fixture::x"]);
}

#[test]
fn keeps_modules_whose_cfg_is_not_test() {
    // A module is skipped only where its `cfg` holds just when compiling tests.
    let src = "#[cfg(not(test))] mod real { struct S { a: u8 } }";
    assert_eq!(field_names(src, true), ["S::a"]);
    let src = "#[cfg(feature = \"testing\")] mod extra { struct T { b: u8 } }";
    assert_eq!(field_names(src, true), ["T::b"]);
}

#[test]
fn ignores_tuple_structs() {
    let src = "struct Point(u32, u32);";
    assert!(field_names(src, true).is_empty());
}

#[test]
fn assignment_target_is_a_write() {
    let src = "fn f(mut x: T) { x.field = 1; }";
    assert_eq!(kinds(src), [ReferenceKind::Write]);
}

#[test]
fn compound_assignment_target_is_a_write() {
    let src = "fn f(mut x: T) { x.field += 1; }";
    assert_eq!(kinds(src), [ReferenceKind::Write]);
}

/// A mutable borrow is recorded as such, and counted as both a read and a
/// write: the value may be read or written through it. This follows the
/// documentation of `ReferenceKind::MutBorrow` and the end-to-end fixture in
/// which a field reached only by `&mut` is healthy, where recording a plain
/// write would report that field as write-only.
#[test]
fn mutable_borrow_is_recorded_and_plain_borrow_is_a_read() {
    assert_eq!(
        kinds("fn f(x: T) { let _ = &mut x.field; }"),
        [ReferenceKind::MutBorrow]
    );
    assert_eq!(
        kinds("fn f(x: T) { let _ = &x.field; }"),
        [ReferenceKind::Read]
    );
}

#[test]
fn struct_literal_member_is_an_initializer() {
    let src = "fn f() -> T { T { field: 1 } }";
    assert_eq!(kinds(src), [ReferenceKind::Initializer]);
}

#[test]
fn assignment_base_is_a_read() {
    // Writing `x.inner.field` writes `field` but reads `inner`.
    let src = "fn f(mut x: T) { x.inner.field = 1; }";
    let mut roles = kinds(src);
    roles.sort_by_key(|kind| format!("{kind:?}"));
    assert_eq!(roles, [ReferenceKind::Read, ReferenceKind::Write]);
}

#[test]
fn parse_positions_and_failures() {
    let (items, exprs) = parse_source("struct A {\n    x: u8,\n}\nfn f(a: A) { a.x; }").unwrap();
    match &items[0] {
        SourceItem::Struct { fields: Some(fields), .. } => {
            assert_eq!(fields[0].position, pos(2, 4));
        }
        other => panic!("unexpected {other:?}"),
    }
    assert_eq!(exprs.len(), 1);
    assert!(parse_source("struct {").is_none());
    assert!(source_file("x.rs", "fn (").is_none());
    assert!(reference_kinds_of_text("fn (").is_none());
}

#[test]
fn nested_expressions_are_visited_in_order() {
    // { a.x + b.y; c.z -= 1; S { w: d.v, ..e.u } }
    let exprs = vec![SourceExpr::Other {
        children: vec![
            SourceExpr::Binary {
                op: BinaryOp::Add,
                prefix: vec![],
                left: Box::new(field_expr(path_expr(), 2, 4)),
                right: Box::new(field_expr(path_expr(), 2, 10)),
            },
            SourceExpr::Binary {
                op: BinaryOp::SubAssign,
                prefix: vec![],
                left: Box::new(field_expr(path_expr(), 3, 4)),
                right: Box::new(lit()),
            },
            SourceExpr::Struct {
                prefix: vec![],
                fields: vec![FieldValue {
                    member: Some(pos(4, 8)),
                    expr: field_expr(path_expr(), 4, 13),
                }],
                rest: Some(Box::new(field_expr(path_expr(), 4, 21))),
            },
        ],
    }];
    let kinds = reference_kinds(&exprs);
    assert_eq!(kinds.len(), 6);
    assert_eq!(kinds.get(2, 4), Some(ReferenceKind::Read));
    assert_eq!(kinds.get(2, 10), Some(ReferenceKind::Read));
    assert_eq!(kinds.get(3, 4), Some(ReferenceKind::Write));
    assert_eq!(kinds.get(4, 8), Some(ReferenceKind::Initializer));
    assert_eq!(kinds.get(4, 13), Some(ReferenceKind::Read));
    assert_eq!(kinds.get(4, 21), Some(ReferenceKind::Read));
    assert_eq!(kinds.get(5, 0), None);
}

#[test]
fn derives_that_read_fields_mark_their_struct() {
    let items = vec![
        SourceItem::Struct {
            name: "Telemetry".to_string(),
            attrs: vec![list_attr("derive", &["Debug"])],
            fields: Some(vec![named("trace_id", 3, 4)]),
        },
        SourceItem::Struct {
            name: "Config".to_string(),
            attrs: vec![list_attr("derive", &["Default", "Deserialize"])],
            fields: Some(vec![named("path", 8, 4)]),
        },
    ];
    let mut defs = Vec::new();
    visit_items(&items, "src/main.rs", None, true, &mut defs);
    assert!(defs[0].used_by_derive);
    assert!(!defs[1].used_by_derive);
}

#[test]
fn field_defs_are_filtered_and_ordered() {
    let files = vec![
        SourceFile {
            path: "/ws/src/main.rs".to_string(),
            items: vec![
                SourceItem::Struct {
                    name: "B".to_string(),
                    attrs: vec![],
                    fields: Some(vec![named("z", 9, 4), named("a", 9, 10)]),
                },
                SourceItem::Struct {
                    name: "A".to_string(),
                    attrs: vec![],
                    fields: Some(vec![named("x", 2, 4)]),
                },
                SourceItem::Other,
            ],
        },
        SourceFile {
            path: "/ws/src/a/mod.rs".to_string(),
            items: vec![SourceItem::Struct {
                name: "C".to_string(),
                attrs: vec![],
                fields: Some(vec![named("c", 1, 4)]),
            }],
        },
        SourceFile {
            path: "/ws/src/a-b.rs".to_string(),
            items: vec![SourceItem::Struct {
                name: "D".to_string(),
                attrs: vec![],
                fields: Some(vec![named("d", 1, 4)]),
            }],
        },
    ];
    let names: Vec<String> = collect_field_defs(&files, None, true)
        .iter()
        .map(|d| d.display_name())
        .collect();
    // By file (component by component), then line, then field name.
    assert_eq!(names, ["C::c", "D::d", "A::x", "B::a", "B::z"]);
    let only_b: Vec<String> = collect_field_defs(&files, Some("B"), true)
        .iter()
        .map(|d| d.display_name())
        .collect();
    assert_eq!(only_b, ["B::a", "B::z"]);
}

#[test]
fn skipping_test_modules_only_leaves_definitions_out() {
    let src = "struct A { x: u8 }\n#[cfg(test)]\nmod tests { struct T { t: u8 } }\nstruct B { y: u8 }";
    let files = vec![source_file("src/lib.rs", src).expect("valid source")];
    let names = |exclude_tests: bool| -> Vec<String> {
        collect_field_defs(&files, None, exclude_tests)
            .iter()
            .map(|d| d.display_name())
            .collect()
    };
    let skipped = names(true);
    let all = names(false);
    assert_eq!(skipped, ["A::x", "B::y"]);
    assert_eq!(all, ["A::x", "T::t", "B::y"]);
    assert!(skipped.iter().all(|name| all.contains(name)));
}

#[test]
fn skips_modules_whose_cfg_needs_test() {
    let src = "#[cfg(all(test, unix))] mod a { struct A { a: u8 } }\n\
               #[cfg(any(test, all(test, unix)))] mod b { struct B { b: u8 } }\n\
               #[cfg(any(test, unix))] mod c { struct C { c: u8 } }\n\
               #[cfg(not(test))] mod d { struct D { d: u8 } }\n\
               #[cfg(all(unix, feature = \"test\"))] mod e { struct E { e: u8 } }";
    assert_eq!(field_names(src, true), ["C::c", "D::d", "E::e"]);
    assert_eq!(field_names(src, false), ["A::a", "B::b", "C::c", "D::d", "E::e"]);
}

#[test]
fn field_accesses_in_attributes_and_struct_paths_are_read() {
    // An attribute on a binary expression, and a const generic argument of a
    // struct literal's path.
    let src = "fn f(a: A) { let _ = #[doc = a.x] (1 + 2); let _ = S::<{ a.y }> { z: 1 }; }";
    let map = reference_kinds_of_text(src).expect("valid source");
    assert_eq!(map.len(), 3);
    let x = src.find(".x").unwrap() as u32 + 1;
    let y = src.find(".y").unwrap() as u32 + 1;
    let z = src.find("z:").unwrap() as u32;
    assert_eq!(map.get(1, x), Some(ReferenceKind::Read));
    assert_eq!(map.get(1, y), Some(ReferenceKind::Read));
    assert_eq!(map.get(1, z), Some(ReferenceKind::Initializer));
}

#[test]
fn attribute_expressions_come_before_the_operands() {
    let exprs = vec![
        SourceExpr::Binary {
            op: BinaryOp::Add,
            prefix: vec![field_expr(path_expr(), 1, 5)],
            left: Box::new(lit()),
            right: Box::new(field_expr(path_expr(), 1, 9)),
        },
        SourceExpr::Reference {
            mutable: false,
            prefix: vec![field_expr(path_expr(), 2, 3)],
            expr: Box::new(field_expr(path_expr(), 2, 7)),
        },
        SourceExpr::Reference {
            mutable: true,
            prefix: vec![field_expr(path_expr(), 3, 3)],
            expr: Box::new(field_expr(path_expr(), 3, 7)),
        },
    ];
    let kinds = reference_kinds(&exprs);
    assert_eq!(kinds.get(1, 5), Some(ReferenceKind::Read));
    assert_eq!(kinds.get(1, 9), Some(ReferenceKind::Read));
    assert_eq!(kinds.get(2, 3), Some(ReferenceKind::Read));
    assert_eq!(kinds.get(2, 7), Some(ReferenceKind::Read));
    // Like the accesses of a written place, those of a mutable borrow's
    // attributes are not visited.
    assert_eq!(kinds.get(3, 3), None);
    assert_eq!(kinds.get(3, 7), Some(ReferenceKind::MutBorrow));
    assert_eq!(kinds.len(), 5);
}
