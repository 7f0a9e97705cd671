//! Source-level analysis of parsed Rust files.
//!
//! Two things are extracted from each file: the definitions of named struct
//! fields, and the syntactic role (read, write, initializer or mutable
//! borrow) of every field access. The role map lets the reference locations
//! returned by rust-analyzer be sorted into counts.
//!
//! A file arrives here as its syntax tree, reduced to what the analysis reads:
//! items with their attributes and named fields, and expressions with the
//! positions of the field names they access.

use std::collections::HashMap;

use vstd::prelude::*;
use vstd::string::*;

use crate::model::{FieldDef, Location, ReferenceKind};
use crate::order::{is_sorted, lemma_sort_filter, sort_spec, sort_stable, sorted_insert, Ordered};
use crate::text::same_text;
use syn::punctuated::Punctuated;
use syn::visit::Visit;
use syn::BinOp;

verus! {

/// A position in a file: one-based line, zero-based column.
#[derive(Debug, Clone, Copy, PartialEq, Eq, Structural)]
pub struct Position {
    pub line: u32,
    pub column: u32,
}

/// An attribute, as far as the analysis reads it.
#[derive(Debug)]
pub struct SourceAttribute {
    /// For a list attribute `#[name(...)]` whose path is one identifier,
    /// that identifier.
    pub list_ident: Option<String>,
    /// The list's comma-separated arguments, read as meta items (such as
    /// `test`, `all(test, unix)` or `feature = "x"`); empty where they are
    /// not meta items.
    pub args: Vec<MetaArg>,
    /// For a list of comma-separated paths, such as a derive's, the last
    /// segment of each path.
    pub paths: Vec<String>,
}

/// A meta item inside an attribute's list, as far as a `cfg` reads it.
#[derive(Debug)]
pub enum MetaArg {
    /// A bare path, such as `test`: its identifier, where it is one.
    Word { ident: Option<String> },
    /// A list, such as `all(test, unix)`: its identifier, where it is one,
    /// and its arguments.
    List { ident: Option<String>, args: Vec<MetaArg> },
    /// A `name = value` item.
    Other,
}

/// A named field of a struct.
#[derive(Debug)]
pub struct NamedField {
    pub name: String,
    /// The position of the field's name.
    pub position: Position,
}

/// An item of a file or module.
#[derive(Debug)]
pub enum SourceItem {
    /// A struct: its named fields, or `None` for a tuple or unit struct.
    Struct { name: String, attrs: Vec<SourceAttribute>, fields: Option<Vec<NamedField>> },
    /// A module: its items, or `None` when they are in another file.
    Mod { attrs: Vec<SourceAttribute>, content: Option<Vec<SourceItem>> },
    /// Any other item.
    Other,
}

/// A parsed file: its path and its items.
#[derive(Debug)]
pub struct SourceFile {
    pub path: String,
    pub items: Vec<SourceItem>,
}

/// Whether the attribute is a list whose path is the identifier `name`.
pub open spec fn is_list_named(a: SourceAttribute, name: Seq<char>) -> bool {
    a.list_ident matches Some(id) && id@ == name
}

/// Whether the identifier is `name`.
pub open spec fn ident_is(ident: Option<String>, name: Seq<char>) -> bool {
    ident matches Some(i) && i@ == name
}

/// Whether the `cfg` predicate `m` holds only when compiling tests: `test`
/// itself, an `all(..)` with such a predicate among its arguments, or an
/// `any(..)` whose arguments all are such predicates. `not(..)` never is.
pub open spec fn requires_test(m: MetaArg) -> bool
    decreases m, 0nat,
{
    match m {
        MetaArg::Word { ident } => ident_is(ident, "test"@),
        MetaArg::List { ident, args } => if ident_is(ident, "all"@) {
            some_require_test(args@)
        } else if ident_is(ident, "any"@) {
            args@.len() > 0 && all_require_test(args@)
        } else {
            false
        },
        MetaArg::Other => false,
    }
}

/// Whether one of the predicates holds only when compiling tests.
pub open spec fn some_require_test(ms: Seq<MetaArg>) -> bool
    decreases ms, 1nat,
{
    if ms.len() == 0 {
        false
    } else {
        some_require_test(ms.drop_last()) || requires_test(ms.last())
    }
}

/// Whether every one of the predicates holds only when compiling tests.
pub open spec fn all_require_test(ms: Seq<MetaArg>) -> bool
    decreases ms, 1nat,
{
    if ms.len() == 0 {
        true
    } else {
        all_require_test(ms.drop_last()) && requires_test(ms.last())
    }
}

/// Whether the attribute is a `cfg` whose predicate holds only when
/// compiling tests, such as `#[cfg(test)]` or `#[cfg(all(test, unix))]`.
pub open spec fn is_cfg_test(a: SourceAttribute) -> bool {
    is_list_named(a, "cfg"@) && a.args@.len() == 1 && requires_test(a.args@[0])
}

fn ident_equals(ident: &Option<String>, name: &str) -> (r: bool)
    ensures
        r == ident_is(*ident, name@),
{
    match ident {
        Some(i) => same_text(i.as_str(), name),
        None => false,
    }
}

fn meta_requires_test(m: &MetaArg) -> (r: bool)
    ensures
        r == requires_test(*m),
    decreases m, 0nat,
{
    match m {
        MetaArg::Word { ident } => ident_equals(ident, "test"),
        MetaArg::List { ident, args } => {
            if ident_equals(ident, "all") {
                metas_some_require_test(args)
            } else if ident_equals(ident, "any") {
                args.len() > 0 && metas_all_require_test(args)
            } else {
                false
            }
        },
        MetaArg::Other => false,
    }
}

fn metas_some_require_test(ms: &Vec<MetaArg>) -> (r: bool)
    ensures
        r == some_require_test(ms@),
    decreases ms@, 1nat,
{
    let n = ms.len();
    let mut i: usize = 0;
    let mut found = false;
    assert(ms@.take(0) =~= Seq::<MetaArg>::empty());
    while i < n
        invariant
            n == ms@.len(),
            i <= n,
            found == some_require_test(ms@.take(i as int)),
        decreases n - i,
    {
        assert(decreases_to!(ms@ => ms@[i as int]));
        let here = meta_requires_test(&ms[i]);
        assert(ms@.take(i + 1).drop_last() =~= ms@.take(i as int));
        found = found || here;
        i = i + 1;
    }
    assert(ms@.take(n as int) =~= ms@);
    found
}

fn metas_all_require_test(ms: &Vec<MetaArg>) -> (r: bool)
    ensures
        r == all_require_test(ms@),
    decreases ms@, 1nat,
{
    let n = ms.len();
    let mut i: usize = 0;
    let mut all = true;
    assert(ms@.take(0) =~= Seq::<MetaArg>::empty());
    while i < n
        invariant
            n == ms@.len(),
            i <= n,
            all == all_require_test(ms@.take(i as int)),
        decreases n - i,
    {
        assert(decreases_to!(ms@ => ms@[i as int]));
        let here = meta_requires_test(&ms[i]);
        assert(ms@.take(i + 1).drop_last() =~= ms@.take(i as int));
        all = all && here;
        i = i + 1;
    }
    assert(ms@.take(n as int) =~= ms@);
    all
}

fn cfg_test(a: &SourceAttribute) -> (r: bool)
    ensures
        r == is_cfg_test(*a),
{
    list_named(a, "cfg") && a.args.len() == 1 && meta_requires_test(&a.args[0])
}

/// Whether one of the attributes is `#[cfg(test)]`.
pub open spec fn has_cfg_test_spec(attrs: Seq<SourceAttribute>) -> bool {
    exists|i: int| 0 <= i < attrs.len() && is_cfg_test(#[trigger] attrs[i])
}

/// A module counts as a test module when any one of its attributes, at any
/// position, is a `cfg` that needs `test`, whatever other attributes (such as
/// doc comments or `#[allow(..)]`) stand before or after it; and only then.
pub proof fn lemma_test_attribute_anywhere(attrs: Seq<SourceAttribute>, i: int)
    ensures
        0 <= i < attrs.len() && is_cfg_test(attrs[i]) ==> has_cfg_test_spec(attrs),
        (forall|j: int| 0 <= j < attrs.len() ==> !is_cfg_test(#[trigger] attrs[j]))
            ==> !has_cfg_test_spec(attrs),
{
}

/// Attributes added before or after a module's attributes do not change
/// whether it is a test module, unless one of them is itself a `cfg` that
/// needs `test`.
pub proof fn lemma_test_attributes_concat(a: Seq<SourceAttribute>, b: Seq<SourceAttribute>)
    ensures
        has_cfg_test_spec(a + b) == (has_cfg_test_spec(a) || has_cfg_test_spec(b)),
{
    if has_cfg_test_spec(a) {
        let i = choose|i: int| 0 <= i < a.len() && is_cfg_test(#[trigger] a[i]);
        assert((a + b)[i] == a[i]);
    }
    if has_cfg_test_spec(b) {
        let i = choose|i: int| 0 <= i < b.len() && is_cfg_test(#[trigger] b[i]);
        assert((a + b)[a.len() + i] == b[i]);
    }
    if has_cfg_test_spec(a + b) {
        let i = choose|i: int| 0 <= i < (a + b).len() && is_cfg_test(#[trigger] (a + b)[i]);
        if i < a.len() {
            assert((a + b)[i] == a[i]);
        } else {
            assert((a + b)[i] == b[i - a.len()]);
        }
    }
}

/// `#[cfg(test)]` is a test attribute; an attribute that is not a `cfg`
/// list (a doc comment, `#[allow(..)]`, ...) is not; nor is a `cfg` whose
/// predicate is `not(..)` or a `name = value` item.
pub proof fn lemma_cfg_test_attribute(a: SourceAttribute)
    ensures
        is_list_named(a, "cfg"@) && a.args@.len() == 1 && (a.args@[0] matches MetaArg::Word {
            ident: Some(t),
        } && t@ == "test"@) ==> is_cfg_test(a),
        !is_list_named(a, "cfg"@) ==> !is_cfg_test(a),
        a.args@.len() == 1 && (a.args@[0] matches MetaArg::List { ident: Some(t), .. } && t@
            == "not"@) ==> !is_cfg_test(a),
        a.args@.len() == 1 && a.args@[0] is Other ==> !is_cfg_test(a),
{
    reveal_strlit("not");
    reveal_strlit("all");
    reveal_strlit("any");
    assert("not"@[0] != "all"@[0]);
    assert("not"@[0] != "any"@[0]);
    if a.args@.len() == 1 {
        let m = a.args@[0];
        if m matches MetaArg::List { ident: Some(t), .. } && t@ == "not"@ {
            assert(!ident_is(m->List_ident, "all"@));
            assert(!ident_is(m->List_ident, "any"@));
            assert(!requires_test(m));
        }
    }
}

/// The predicates that need `test`: `test` itself, never another word, an
/// `all(..)` exactly when some argument does, an `any(..)` exactly when it
/// has arguments and every one does, and never `not(..)`.
pub proof fn lemma_requires_test_cases(m: MetaArg)
    ensures
        m matches MetaArg::Word { ident: Some(t) } ==> (requires_test(m) <==> t@ == "test"@),
        m matches MetaArg::List { ident: Some(t), args } ==> (t@ == "all"@ ==> (requires_test(m)
            <==> some_require_test(args@))),
        m matches MetaArg::List { ident: Some(t), args } ==> (t@ == "any"@ ==> (requires_test(m)
            <==> (args@.len() > 0 && all_require_test(args@)))),
        m matches MetaArg::List { ident: Some(t), .. } && t@ == "not"@ ==> !requires_test(m),
        m is Other ==> !requires_test(m),
{
    reveal_strlit("not");
    reveal_strlit("all");
    reveal_strlit("any");
    assert("not"@[0] != "all"@[0]);
    assert("not"@[0] != "any"@[0]);
    assert("any"@[1] != "all"@[1]);
}

/// A `cfg(all(..))` needs `test` when one of its arguments does, at any
/// position; a `cfg(any(..))` when all of its arguments do.
pub proof fn lemma_requires_test_lists(ms: Seq<MetaArg>, i: int)
    ensures
        0 <= i < ms.len() && requires_test(ms[i]) ==> some_require_test(ms),
        (forall|j: int| 0 <= j < ms.len() ==> !requires_test(#[trigger] ms[j]))
            ==> !some_require_test(ms),
        all_require_test(ms) <==> (forall|j: int| 0 <= j < ms.len() ==> requires_test(
            #[trigger] ms[j],
        )),
    decreases ms.len(),
{
    if ms.len() > 0 {
        let d = ms.drop_last();
        lemma_requires_test_lists(d, i);
        if 0 <= i < d.len() {
            assert(d[i] == ms[i]);
        }
        assert forall|j: int| 0 <= j < d.len() implies d[j] == ms[j] by {}
        if forall|j: int| 0 <= j < d.len() ==> requires_test(#[trigger] d[j]) {
            if requires_test(ms.last()) {
                assert forall|j: int| 0 <= j < ms.len() implies requires_test(#[trigger] ms[j]) by {
                    if j < d.len() {
                        assert(d[j] == ms[j]);
                    }
                }
            }
        }
        if forall|j: int| 0 <= j < ms.len() ==> requires_test(#[trigger] ms[j]) {
            assert forall|j: int| 0 <= j < d.len() implies requires_test(#[trigger] d[j]) by {
                assert(d[j] == ms[j]);
            }
            assert(requires_test(ms[ms.len() - 1]));
        }
        if forall|j: int| 0 <= j < ms.len() ==> !requires_test(#[trigger] ms[j]) {
            assert forall|j: int| 0 <= j < d.len() implies !requires_test(#[trigger] d[j]) by {
                assert(d[j] == ms[j]);
            }
            assert(!requires_test(ms[ms.len() - 1]));
        }
    }
}

/// With tests excluded, a module with a test attribute at any position
/// yields no field definitions, whatever it holds.
pub proof fn lemma_test_module_skipped(
    item: SourceItem,
    i: int,
    file: Seq<char>,
    filter: Option<Seq<char>>,
)
    requires
        item matches SourceItem::Mod { attrs, .. } && 0 <= i < attrs@.len() && is_cfg_test(
            attrs@[i],
        ),
    ensures
        item_defs(item, file, filter, true) == Seq::<DefView>::empty(),
{
}

fn list_named(a: &SourceAttribute, name: &str) -> (r: bool)
    ensures
        r == is_list_named(*a, name@),
{
    match &a.list_ident {
        Some(id) => same_text(id.as_str(), name),
        None => false,
    }
}

/// Whether one of the attributes is `#[cfg(test)]`.
pub fn has_cfg_test(attrs: &Vec<SourceAttribute>) -> (r: bool)
    ensures
        r == has_cfg_test_spec(attrs@),
{
    let n = attrs.len();
    let mut i: usize = 0;
    while i < n
        invariant
            n == attrs@.len(),
            i <= n,
            forall|j: int| 0 <= j < i ==> !is_cfg_test(#[trigger] attrs@[j]),
        decreases n - i,
    {
        if cfg_test(&attrs[i]) {
            return true;
        }
        i = i + 1;
    }
    false
}

/// Whether a derive macro of this name reads every field of the struct.
pub open spec fn reads_every_field(name: Seq<char>) -> bool {
    name == "Debug"@ || name == "Clone"@ || name == "PartialEq"@ || name == "PartialOrd"@ || name
        == "Ord"@ || name == "Hash"@ || name == "Serialize"@
}

/// Whether one of the attributes derives a macro that reads every field.
pub open spec fn derives_reader(attrs: Seq<SourceAttribute>) -> bool {
    exists|i: int, j: int|
        0 <= i < attrs.len() && is_list_named(#[trigger] attrs[i], "derive"@) && 0 <= j
            < attrs[i].paths@.len() && reads_every_field(#[trigger] attrs[i].paths@[j]@)
}

fn reads_every_field_name(name: &str) -> (r: bool)
    ensures
        r == reads_every_field(name@),
{
    same_text(name, "Debug") || same_text(name, "Clone") || same_text(name, "PartialEq")
        || same_text(name, "PartialOrd") || same_text(name, "Ord") || same_text(name, "Hash")
        || same_text(name, "Serialize")
}

/// Whether one of the attributes derives a macro that reads every field.
pub fn derives_field_reader(attrs: &Vec<SourceAttribute>) -> (r: bool)
    ensures
        r == derives_reader(attrs@),
{
    let n = attrs.len();
    let mut i: usize = 0;
    while i < n
        invariant
            n == attrs@.len(),
            i <= n,
            forall|a: int, b: int|
                0 <= a < i && is_list_named(#[trigger] attrs@[a], "derive"@) && 0 <= b
                    < attrs@[a].paths@.len() ==> !reads_every_field(#[trigger] attrs@[a].paths@[b]@),
        decreases n - i,
    {
        if list_named(&attrs[i], "derive") {
            let paths = &attrs[i].paths;
            let m = paths.len();
            let mut k: usize = 0;
            while k < m
                invariant
                    n == attrs@.len(),
                    i < n,
                    is_list_named(attrs@[i as int], "derive"@),
                    m == paths@.len(),
                    paths@ == attrs@[i as int].paths@,
                    k <= m,
                    forall|b: int| 0 <= b < k ==> !reads_every_field(#[trigger] paths@[b]@),
                decreases m - k,
            {
                if reads_every_field_name(paths[k].as_str()) {
                    assert(reads_every_field(attrs@[i as int].paths@[k as int]@));
                    return true;
                }
                k = k + 1;
            }
        }
        i = i + 1;
    }
    false
}

/// A field definition, as plain values.
pub struct DefView {
    pub struct_name: Seq<char>,
    pub field_name: Seq<char>,
    pub file: Seq<char>,
    pub line: u32,
    pub character: u32,
    pub used_by_derive: bool,
}

impl FieldDef {
    pub open spec fn def_view(self) -> DefView {
        DefView {
            struct_name: self.struct_name@,
            field_name: self.field_name@,
            file: self.location.file@,
            line: self.location.line,
            character: self.location.character,
            used_by_derive: self.used_by_derive,
        }
    }
}

pub open spec fn def_views(defs: Seq<FieldDef>) -> Seq<DefView> {
    defs.map_values(|d: FieldDef| d.def_view())
}

/// Whether the struct `name` passes the filter.
pub open spec fn wanted(filter: Option<Seq<char>>, name: Seq<char>) -> bool {
    match filter {
        Some(w) => w == name,
        None => true,
    }
}

/// The definitions of the named fields of a struct.
pub open spec fn struct_defs(
    name: Seq<char>,
    attrs: Seq<SourceAttribute>,
    fields: Seq<NamedField>,
    file: Seq<char>,
) -> Seq<DefView> {
    fields.map_values(
        |f: NamedField|
            DefView {
                struct_name: name,
                field_name: f.name@,
                file: file,
                line: f.position.line,
                character: f.position.column,
                used_by_derive: derives_reader(attrs),
            },
    )
}

/// The field definitions of an item: a wanted struct's named fields, and the
/// fields of a module's items unless it is a `#[cfg(test)]` module that is
/// excluded.
pub open spec fn item_defs(
    item: SourceItem,
    file: Seq<char>,
    filter: Option<Seq<char>>,
    exclude_tests: bool,
) -> Seq<DefView>
    decreases item, 0nat,
{
    match item {
        SourceItem::Struct { name, attrs, fields } => if !wanted(filter, name@) {
            seq![]
        } else {
            match fields {
                Some(fs) => struct_defs(name@, attrs@, fs@, file),
                None => seq![],
            }
        },
        SourceItem::Mod { attrs, content } => if exclude_tests && has_cfg_test_spec(attrs@) {
            seq![]
        } else {
            match content {
                Some(inner) => items_defs(inner@, file, filter, exclude_tests),
                None => seq![],
            }
        },
        SourceItem::Other => seq![],
    }
}

/// The field definitions of a list of items, in order.
pub open spec fn items_defs(
    items: Seq<SourceItem>,
    file: Seq<char>,
    filter: Option<Seq<char>>,
    exclude_tests: bool,
) -> Seq<DefView>
    decreases items, 1nat,
{
    if items.len() == 0 {
        seq![]
    } else {
        items_defs(items.drop_last(), file, filter, exclude_tests) + item_defs(
            items.last(),
            file,
            filter,
            exclude_tests,
        )
    }
}

/// Whether every definition in `defs` is in `file` and belongs to a struct
/// that passes `filter`.
pub open spec fn defs_from(defs: Seq<DefView>, file: Seq<char>, filter: Option<Seq<char>>) -> bool {
    forall|i: int|
        0 <= i < defs.len() ==> (#[trigger] defs[i]).file == file && wanted(
            filter,
            defs[i].struct_name,
        )
}

proof fn lemma_item_defs_from(
    item: SourceItem,
    file: Seq<char>,
    filter: Option<Seq<char>>,
    exclude_tests: bool,
)
    ensures
        defs_from(item_defs(item, file, filter, exclude_tests), file, filter),
    decreases item, 0nat,
{
    match item {
        SourceItem::Mod { attrs, content } => {
            if !(exclude_tests && has_cfg_test_spec(attrs@)) {
                match content {
                    Some(inner) => lemma_items_defs_from(inner@, file, filter, exclude_tests),
                    None => {},
                }
            }
        },
        _ => {},
    }
}

/// The definitions found in items are all in the items' file, and each
/// belongs to the struct that the filter names, when it names one: so
/// `visit_items` only appends such definitions after those it was given.
pub proof fn lemma_items_defs_from(
    items: Seq<SourceItem>,
    file: Seq<char>,
    filter: Option<Seq<char>>,
    exclude_tests: bool,
)
    ensures
        defs_from(items_defs(items, file, filter, exclude_tests), file, filter),
    decreases items, 1nat,
{
    if items.len() > 0 {
        lemma_items_defs_from(items.drop_last(), file, filter, exclude_tests);
        lemma_item_defs_from(items.last(), file, filter, exclude_tests);
        let a = items_defs(items.drop_last(), file, filter, exclude_tests);
        let b = item_defs(items.last(), file, filter, exclude_tests);
        assert forall|i: int| 0 <= i < (a + b).len() implies (#[trigger] (a + b)[i]).file == file
            && wanted(filter, (a + b)[i].struct_name) by {
            if i >= a.len() {
                assert((a + b)[i] == b[i - a.len()]);
            } else {
                assert((a + b)[i] == a[i]);
            }
        }
    }
}

/// Whether a definition belongs to the struct `name`.
pub open spec fn of_struct(name: Seq<char>) -> spec_fn(DefView) -> bool {
    |d: DefView| d.struct_name == name
}

proof fn lemma_filter_keeps_all(x: Seq<DefView>, p: spec_fn(DefView) -> bool)
    requires
        forall|i: int| 0 <= i < x.len() ==> p(#[trigger] x[i]),
    ensures
        x.filter(p) == x,
    decreases x.len(),
{
    reveal(Seq::filter);
    if x.len() > 0 {
        lemma_filter_keeps_all(x.drop_last(), p);
        assert(x.drop_last().push(x.last()) =~= x);
    }
}

proof fn lemma_filter_keeps_none(x: Seq<DefView>, p: spec_fn(DefView) -> bool)
    requires
        forall|i: int| 0 <= i < x.len() ==> !p(#[trigger] x[i]),
    ensures
        x.filter(p) == Seq::<DefView>::empty(),
    decreases x.len(),
{
    reveal(Seq::filter);
    if x.len() > 0 {
        lemma_filter_keeps_none(x.drop_last(), p);
    } else {
        assert(x =~= Seq::<DefView>::empty());
    }
}

proof fn lemma_item_defs_filter(item: SourceItem, file: Seq<char>, name: Seq<char>, exclude_tests: bool)
    ensures
        item_defs(item, file, Some(name), exclude_tests) == item_defs(
            item,
            file,
            None,
            exclude_tests,
        ).filter(of_struct(name)),
    decreases item, 0nat,
{
    let all = item_defs(item, file, None, exclude_tests);
    lemma_item_defs_from(item, file, None, exclude_tests);
    match item {
        SourceItem::Struct { name: n, attrs, fields } => {
            if n@ == name {
                lemma_filter_keeps_all(all, of_struct(name));
            } else {
                lemma_filter_keeps_none(all, of_struct(name));
            }
        },
        SourceItem::Mod { attrs, content } => {
            if exclude_tests && has_cfg_test_spec(attrs@) {
                lemma_filter_keeps_none(all, of_struct(name));
            } else {
                match content {
                    Some(inner) => lemma_items_defs_filter(inner@, file, name, exclude_tests),
                    None => lemma_filter_keeps_none(all, of_struct(name)),
                }
            }
        },
        SourceItem::Other => lemma_filter_keeps_none(all, of_struct(name)),
    }
}

/// Restricting the search to one struct finds exactly the definitions of
/// that struct among those found without the restriction, in the same order.
pub proof fn lemma_items_defs_filter(
    items: Seq<SourceItem>,
    file: Seq<char>,
    name: Seq<char>,
    exclude_tests: bool,
)
    ensures
        items_defs(items, file, Some(name), exclude_tests) == items_defs(
            items,
            file,
            None,
            exclude_tests,
        ).filter(of_struct(name)),
    decreases items, 1nat,
{
    if items.len() == 0 {
        lemma_filter_keeps_none(Seq::<DefView>::empty(), of_struct(name));
    } else {
        lemma_items_defs_filter(items.drop_last(), file, name, exclude_tests);
        lemma_item_defs_filter(items.last(), file, name, exclude_tests);
        Seq::filter_distributes_over_add(
            items_defs(items.drop_last(), file, None, exclude_tests),
            item_defs(items.last(), file, None, exclude_tests),
            of_struct(name),
        );
    }
}

/// Restricting the search of several files to one struct finds exactly the
/// definitions of that struct among those found without the restriction.
pub proof fn lemma_files_defs_filter(files: Seq<SourceFile>, name: Seq<char>, exclude_tests: bool)
    ensures
        files_defs(files, Some(name), exclude_tests) == files_defs(files, None, exclude_tests).filter(
            of_struct(name),
        ),
    decreases files.len(),
{
    if files.len() == 0 {
        lemma_filter_keeps_none(Seq::<DefView>::empty(), of_struct(name));
    } else {
        lemma_files_defs_filter(files.drop_last(), name, exclude_tests);
        lemma_items_defs_filter(files.last().items@, files.last().path@, name, exclude_tests);
        Seq::filter_distributes_over_add(
            files_defs(files.drop_last(), None, exclude_tests),
            items_defs(files.last().items@, files.last().path@, None, exclude_tests),
            of_struct(name),
        );
    }
}

/// Whether every definition in `a` also occurs in `b`.
pub open spec fn defs_within(a: Seq<DefView>, b: Seq<DefView>) -> bool {
    forall|i: int| 0 <= i < a.len() ==> b.contains(#[trigger] a[i])
}

proof fn lemma_defs_within_concat(a1: Seq<DefView>, b1: Seq<DefView>, a2: Seq<DefView>, b2: Seq<DefView>)
    requires
        defs_within(a1, b1),
        defs_within(a2, b2),
    ensures
        defs_within(a1 + a2, b1 + b2),
{
    assert forall|i: int| 0 <= i < (a1 + a2).len() implies (b1 + b2).contains(
        #[trigger] (a1 + a2)[i],
    ) by {
        if i < a1.len() {
            assert((a1 + a2)[i] == a1[i]);
            let j = choose|j: int| 0 <= j < b1.len() && b1[j] == a1[i];
            assert((b1 + b2)[j] == b1[j]);
        } else {
            assert((a1 + a2)[i] == a2[i - a1.len()]);
            let j = choose|j: int| 0 <= j < b2.len() && b2[j] == a2[i - a1.len()];
            assert((b1 + b2)[b1.len() + j] == b2[j]);
        }
    }
}

proof fn lemma_item_defs_within(item: SourceItem, file: Seq<char>, filter: Option<Seq<char>>)
    ensures
        defs_within(item_defs(item, file, filter, true), item_defs(item, file, filter, false)),
    decreases item, 0nat,
{
    let a = item_defs(item, file, filter, true);
    let b = item_defs(item, file, filter, false);
    match item {
        SourceItem::Mod { attrs, content } => {
            if !has_cfg_test_spec(attrs@) {
                match content {
                    Some(inner) => lemma_items_defs_within(inner@, file, filter),
                    None => {},
                }
            }
        },
        _ => {
            assert forall|i: int| 0 <= i < a.len() implies b.contains(#[trigger] a[i]) by {
                assert(b[i] == a[i]);
            }
        },
    }
}

/// Skipping `#[cfg(test)]` modules only leaves definitions out: every
/// definition found with the modules skipped is also found without skipping.
pub proof fn lemma_items_defs_within(items: Seq<SourceItem>, file: Seq<char>, filter: Option<Seq<char>>)
    ensures
        defs_within(items_defs(items, file, filter, true), items_defs(items, file, filter, false)),
    decreases items, 1nat,
{
    if items.len() > 0 {
        lemma_items_defs_within(items.drop_last(), file, filter);
        lemma_item_defs_within(items.last(), file, filter);
        lemma_defs_within_concat(
            items_defs(items.drop_last(), file, filter, true),
            items_defs(items.drop_last(), file, filter, false),
            item_defs(items.last(), file, filter, true),
            item_defs(items.last(), file, filter, false),
        );
    }
}

/// Skipping `#[cfg(test)]` modules in several files only leaves definitions
/// out.
pub proof fn lemma_files_defs_within(files: Seq<SourceFile>, filter: Option<Seq<char>>)
    ensures
        defs_within(files_defs(files, filter, true), files_defs(files, filter, false)),
    decreases files.len(),
{
    if files.len() > 0 {
        lemma_files_defs_within(files.drop_last(), filter);
        lemma_items_defs_within(files.last().items@, files.last().path@, filter);
        lemma_defs_within_concat(
            files_defs(files.drop_last(), filter, true),
            files_defs(files.drop_last(), filter, false),
            items_defs(files.last().items@, files.last().path@, filter, true),
            items_defs(files.last().items@, files.last().path@, filter, false),
        );
    }
}

proof fn lemma_sorted_views_same(found: Seq<FieldDef>)
    ensures
        defs_within(def_views(sort_spec(found)), def_views(found)),
        defs_within(def_views(found), def_views(sort_spec(found))),
{
    broadcast use vstd::seq_lib::group_to_multiset_ensures;

    crate::order::lemma_sort_spec(found);
    let t = sort_spec(found);
    assert forall|i: int| 0 <= i < def_views(t).len() implies def_views(found).contains(
        #[trigger] def_views(t)[i],
    ) by {
        assert(t.to_multiset().count(t[i]) > 0);
        assert(found.contains(t[i]));
        let j = choose|j: int| 0 <= j < found.len() && found[j] == t[i];
        assert(def_views(found)[j] == def_views(t)[i]);
    }
    assert forall|i: int| 0 <= i < def_views(found).len() implies def_views(t).contains(
        #[trigger] def_views(found)[i],
    ) by {
        assert(found.to_multiset().count(found[i]) > 0);
        assert(t.contains(found[i]));
        let j = choose|j: int| 0 <= j < t.len() && t[j] == found[i];
        assert(def_views(t)[j] == def_views(found)[i]);
    }
}

/// Every definition that `collect_field_defs` returns with `#[cfg(test)]`
/// modules skipped it also returns without skipping them: `skipped` and
/// `all` stand for what it returns with and without skipping.
pub proof fn lemma_collect_within(
    files: Seq<SourceFile>,
    filter: Option<Seq<char>>,
    skipped: Seq<FieldDef>,
    all: Seq<FieldDef>,
)
    requires
        exists|found: Seq<FieldDef>|
            def_views(found) == files_defs(files, filter, true) && skipped == sort_spec(found),
        exists|found: Seq<FieldDef>|
            def_views(found) == files_defs(files, filter, false) && all == sort_spec(found),
    ensures
        defs_within(def_views(skipped), def_views(all)),
{
    let f1 = choose|found: Seq<FieldDef>|
        def_views(found) == files_defs(files, filter, true) && skipped == sort_spec(found);
    let f2 = choose|found: Seq<FieldDef>|
        def_views(found) == files_defs(files, filter, false) && all == sort_spec(found);
    lemma_files_defs_within(files, filter);
    lemma_sorted_views_same(f1);
    lemma_sorted_views_same(f2);
    let a = def_views(skipped);
    let b = def_views(all);
    assert forall|i: int| 0 <= i < a.len() implies b.contains(#[trigger] a[i]) by {
        let j = choose|j: int| 0 <= j < def_views(f1).len() && def_views(f1)[j] == a[i];
        let k = choose|k: int| 0 <= k < def_views(f2).len() && def_views(f2)[k] == def_views(f1)[j];
        let m = choose|m: int| 0 <= m < b.len() && b[m] == def_views(f2)[k];
    }
}

/// Whether a field definition belongs to the struct `name`.
pub open spec fn named(name: Seq<char>) -> spec_fn(FieldDef) -> bool {
    |d: FieldDef| d.struct_name@ == name
}

proof fn lemma_views_filter(s: Seq<FieldDef>, name: Seq<char>)
    ensures
        def_views(s.filter(named(name))) == def_views(s).filter(of_struct(name)),
    decreases s.len(),
{
    reveal(Seq::filter);
    if s.len() > 0 {
        let d = s.drop_last();
        lemma_views_filter(d, name);
        assert(def_views(s).drop_last() =~= def_views(d));
        assert(def_views(s).last() == s.last().def_view());
        if named(name)(s.last()) {
            assert(def_views(s.filter(named(name))) =~= def_views(d.filter(named(name))).push(
                s.last().def_view(),
            ));
        }
    } else {
        assert(def_views(s) =~= Seq::<DefView>::empty());
        assert(def_views(s.filter(named(name))) =~= Seq::<DefView>::empty());
    }
}

proof fn lemma_insert_views(t1: Seq<FieldDef>, t2: Seq<FieldDef>, x1: FieldDef, x2: FieldDef)
    requires
        def_views(t1) == def_views(t2),
        x1.def_view() == x2.def_view(),
    ensures
        def_views(sorted_insert(t1, x1)) == def_views(sorted_insert(t2, x2)),
    decreases t1.len(),
{
    assert(t1.len() == def_views(t1).len());
    assert(t2.len() == def_views(t2).len());
    if t1.len() == 0 {
        assert(def_views(seq![x1]) =~= seq![x1.def_view()]);
        assert(def_views(seq![x2]) =~= seq![x2.def_view()]);
    } else {
        let l1 = t1.last();
        let l2 = t2.last();
        assert(def_views(t1)[t1.len() - 1] == def_views(t2)[t2.len() - 1]);
        assert(l1.def_view() == l2.def_view());
        assert(l1.ord_le(x1) == l2.ord_le(x2));
        if l1.ord_le(x1) {
            assert(def_views(t1.push(x1)) =~= def_views(t1).push(x1.def_view()));
            assert(def_views(t2.push(x2)) =~= def_views(t2).push(x2.def_view()));
        } else {
            let d1 = t1.drop_last();
            let d2 = t2.drop_last();
            assert(def_views(d1) =~= def_views(t1).drop_last());
            assert(def_views(d2) =~= def_views(t2).drop_last());
            lemma_insert_views(d1, d2, x1, x2);
            let i1 = sorted_insert(d1, x1);
            let i2 = sorted_insert(d2, x2);
            assert(def_views(i1.push(l1)) =~= def_views(i1).push(l1.def_view()));
            assert(def_views(i2.push(l2)) =~= def_views(i2).push(l2.def_view()));
        }
    }
}

proof fn lemma_sort_views(s1: Seq<FieldDef>, s2: Seq<FieldDef>)
    requires
        def_views(s1) == def_views(s2),
    ensures
        def_views(sort_spec(s1)) == def_views(sort_spec(s2)),
    decreases s1.len(),
{
    assert(s1.len() == def_views(s1).len());
    assert(s2.len() == def_views(s2).len());
    if s1.len() > 0 {
        let d1 = s1.drop_last();
        let d2 = s2.drop_last();
        assert(def_views(d1) =~= def_views(s1).drop_last());
        assert(def_views(d2) =~= def_views(s2).drop_last());
        assert(def_views(s1)[s1.len() - 1] == def_views(s2)[s2.len() - 1]);
        lemma_sort_views(d1, d2);
        lemma_insert_views(sort_spec(d1), sort_spec(d2), s1.last(), s2.last());
    } else {
        assert(def_views(sort_spec(s1)) =~= Seq::<DefView>::empty());
        assert(def_views(sort_spec(s2)) =~= Seq::<DefView>::empty());
    }
}

/// Collecting the definitions of one struct gives, in the same order, the
/// definitions of that struct among those collected without the restriction:
/// `only` and `all` stand for what `collect_field_defs` returns with the
/// struct's name as filter and without one.
pub proof fn lemma_collect_filter(
    files: Seq<SourceFile>,
    name: Seq<char>,
    exclude_tests: bool,
    only: Seq<FieldDef>,
    all: Seq<FieldDef>,
)
    requires
        exists|found: Seq<FieldDef>|
            def_views(found) == files_defs(files, Some(name), exclude_tests) && only == sort_spec(
                found,
            ),
        exists|found: Seq<FieldDef>|
            def_views(found) == files_defs(files, None, exclude_tests) && all == sort_spec(found),
    ensures
        def_views(only) == def_views(all).filter(of_struct(name)),
{
    let f1 = choose|found: Seq<FieldDef>|
        def_views(found) == files_defs(files, Some(name), exclude_tests) && only == sort_spec(
            found,
        );
    let f2 = choose|found: Seq<FieldDef>|
        def_views(found) == files_defs(files, None, exclude_tests) && all == sort_spec(found);
    lemma_files_defs_filter(files, name, exclude_tests);
    lemma_views_filter(f2, name);
    lemma_sort_views(f1, f2.filter(named(name)));
    lemma_sort_filter(f2, named(name));
    lemma_views_filter(sort_spec(f2), name);
}

/// The view of an optional filter.
pub open spec fn filter_view(filter: Option<&str>) -> Option<Seq<char>> {
    match filter {
        Some(s) => Some(s@),
        None => None,
    }
}

fn push_struct_defs(
    name: &String,
    attrs: &Vec<SourceAttribute>,
    fields: &Vec<NamedField>,
    file: &str,
    defs: &mut Vec<FieldDef>,
)
    ensures
        def_views(final(defs)@) == def_views(old(defs)@) + struct_defs(name@, attrs@, fields@, file@),
{
    let used_by_derive = derives_field_reader(attrs);
    let ghost start = def_views(defs@);
    let n = fields.len();
    let mut i: usize = 0;
    while i < n
        invariant
            n == fields@.len(),
            i <= n,
            used_by_derive == derives_reader(attrs@),
            def_views(defs@) == start + struct_defs(name@, attrs@, fields@.take(i as int), file@),
        decreases n - i,
    {
        let field = &fields[i];
        let ghost before = defs@;
        defs.push(
            FieldDef {
                struct_name: name.clone(),
                field_name: field.name.clone(),
                location: Location {
                    file: String::from_str(file),
                    line: field.position.line,
                    character: field.position.column,
                },
                used_by_derive,
            },
        );
        assert(def_views(defs@) =~= def_views(before).push(defs@.last().def_view()));
        assert(struct_defs(name@, attrs@, fields@.take(i + 1), file@) =~= struct_defs(
            name@,
            attrs@,
            fields@.take(i as int),
            file@,
        ).push(defs@.last().def_view()));
        i = i + 1;
    }
    assert(fields@.take(n as int) =~= fields@);
}

fn visit_item(
    item: &SourceItem,
    file: &str,
    filter: Option<&str>,
    exclude_tests: bool,
    defs: &mut Vec<FieldDef>,
)
    ensures
        def_views(final(defs)@) == def_views(old(defs)@) + item_defs(
            *item,
            file@,
            filter_view(filter),
            exclude_tests,
        ),
    decreases item, 0nat,
{
    match item {
        SourceItem::Struct { name, attrs, fields } => {
            let skip = match filter {
                Some(w) => !same_text(w, name.as_str()),
                None => false,
            };
            if skip {
                assert(def_views(defs@) =~= def_views(defs@) + Seq::<DefView>::empty());
                return;
            }
            match fields {
                Some(fs) => push_struct_defs(name, attrs, fs, file, defs),
                None => {
                    assert(def_views(defs@) =~= def_views(defs@) + Seq::<DefView>::empty());
                },
            }
        },
        SourceItem::Mod { attrs, content } => {
            if exclude_tests && has_cfg_test(attrs) {
                assert(def_views(defs@) =~= def_views(defs@) + Seq::<DefView>::empty());
                return;
            }
            match content {
                Some(inner) => visit_items(inner, file, filter, exclude_tests, defs),
                None => {
                    assert(def_views(defs@) =~= def_views(defs@) + Seq::<DefView>::empty());
                },
            }
        },
        SourceItem::Other => {
            assert(def_views(defs@) =~= def_views(defs@) + Seq::<DefView>::empty());
        },
    }
}

/// Collect the named struct fields of `items`, descending into inline
/// modules, into `defs`.
///
/// `filter` restricts collection to a single struct name. When
/// `exclude_tests` is set, `#[cfg(test)]` modules are skipped.
pub fn visit_items(
    items: &Vec<SourceItem>,
    file: &str,
    filter: Option<&str>,
    exclude_tests: bool,
    defs: &mut Vec<FieldDef>,
)
    ensures
        def_views(final(defs)@) == def_views(old(defs)@) + items_defs(
            items@,
            file@,
            filter_view(filter),
            exclude_tests,
        ),
    decreases items@, 1nat,
{
    let ghost start = def_views(defs@);
    let n = items.len();
    let mut i: usize = 0;
    assert(items@.take(0) =~= Seq::<SourceItem>::empty());
    assert(start + Seq::<DefView>::empty() =~= start);
    while i < n
        invariant
            n == items@.len(),
            i <= n,
            def_views(defs@) == start + items_defs(
                items@.take(i as int),
                file@,
                filter_view(filter),
                exclude_tests,
            ),
        decreases n - i,
    {
        let ghost before = def_views(defs@);
        assert(decreases_to!(items@ => items@[i as int]));
        visit_item(&items[i], file, filter, exclude_tests, defs);
        assert(items@.take(i + 1).drop_last() =~= items@.take(i as int));
        assert(items@.take(i + 1).last() == items@[i as int]);
        assert(def_views(defs@) =~= start + items_defs(
            items@.take(i + 1),
            file@,
            filter_view(filter),
            exclude_tests,
        ));
        i = i + 1;
    }
    assert(items@.take(n as int) =~= items@);
}

/// The field definitions of a list of files, in order.
pub open spec fn files_defs(
    files: Seq<SourceFile>,
    filter: Option<Seq<char>>,
    exclude_tests: bool,
) -> Seq<DefView>
    decreases files.len(),
{
    if files.len() == 0 {
        seq![]
    } else {
        files_defs(files.drop_last(), filter, exclude_tests) + items_defs(
            files.last().items@,
            files.last().path@,
            filter,
            exclude_tests,
        )
    }
}

/// Collect every named struct field defined in `files`, ordered by file,
/// line and field name.
///
/// `struct_filter` restricts collection to a single struct name. When
/// `exclude_tests` is set, `#[cfg(test)]` modules are skipped.
pub fn collect_field_defs(
    files: &Vec<SourceFile>,
    struct_filter: Option<&str>,
    exclude_tests: bool,
) -> (r: Vec<FieldDef>)
    ensures
        exists|found: Seq<FieldDef>|
            def_views(found) == files_defs(files@, filter_view(struct_filter), exclude_tests)
                && r@ == sort_spec(found),
        is_sorted(r@),
        r@.len() == files_defs(files@, filter_view(struct_filter), exclude_tests).len(),
{
    let mut defs: Vec<FieldDef> = Vec::new();
    let n = files.len();
    let mut i: usize = 0;
    assert(def_views(defs@) =~= Seq::<DefView>::empty());
    while i < n
        invariant
            n == files@.len(),
            i <= n,
            def_views(defs@) == files_defs(
                files@.take(i as int),
                filter_view(struct_filter),
                exclude_tests,
            ),
        decreases n - i,
    {
        visit_items(&files[i].items, files[i].path.as_str(), struct_filter, exclude_tests, &mut defs);
        assert(files@.take(i + 1).drop_last() =~= files@.take(i as int));
        i = i + 1;
    }
    assert(files@.take(n as int) =~= files@);
    let ghost found = defs@;
    proof {
        crate::order::lemma_sort_spec(found);
        assert(def_views(found).len() == found.len());
    }
    sort_stable(defs)
}

/// Operators of binary expressions.
#[derive(Debug, Clone, Copy, PartialEq, Eq, Structural)]
pub enum BinaryOp {
    Add,
    Sub,
    Mul,
    Div,
    Rem,
    And,
    Or,
    BitXor,
    BitAnd,
    BitOr,
    Shl,
    Shr,
    Eq,
    Lt,
    Le,
    Ne,
    Ge,
    Gt,
    AddAssign,
    SubAssign,
    MulAssign,
    DivAssign,
    RemAssign,
    BitXorAssign,
    BitAndAssign,
    BitOrAssign,
    ShlAssign,
    ShrAssign,
    /// An operator that neither reads nor writes differently from `+`.
    Other,
}

/// Whether the operator assigns to its left operand (`+=` and the like).
pub open spec fn is_compound(op: BinaryOp) -> bool {
    match op {
        BinaryOp::AddAssign | BinaryOp::SubAssign | BinaryOp::MulAssign | BinaryOp::DivAssign
        | BinaryOp::RemAssign | BinaryOp::BitXorAssign | BinaryOp::BitAndAssign
        | BinaryOp::BitOrAssign | BinaryOp::ShlAssign | BinaryOp::ShrAssign => true,
        _ => false,
    }
}

/// Whether the operator assigns to its left operand (`+=` and the like).
pub fn is_compound_assignment(op: BinaryOp) -> (r: bool)
    ensures
        r == is_compound(op),
        r <==> (op == BinaryOp::AddAssign || op == BinaryOp::SubAssign || op
            == BinaryOp::MulAssign || op == BinaryOp::DivAssign || op == BinaryOp::RemAssign || op
            == BinaryOp::BitXorAssign || op == BinaryOp::BitAndAssign || op
            == BinaryOp::BitOrAssign || op == BinaryOp::ShlAssign || op == BinaryOp::ShrAssign),
{
    match op {
        BinaryOp::AddAssign | BinaryOp::SubAssign | BinaryOp::MulAssign | BinaryOp::DivAssign
        | BinaryOp::RemAssign | BinaryOp::BitXorAssign | BinaryOp::BitAndAssign
        | BinaryOp::BitOrAssign | BinaryOp::ShlAssign | BinaryOp::ShrAssign => true,
        _ => false,
    }
}

/// An expression, as far as the analysis reads it.
#[derive(Debug)]
pub enum SourceExpr {
    /// `base.member`; `member` is the position of a named member.
    Field { base: Box<SourceExpr>, member: Option<Position> },
    /// `left = right`.
    Assign { left: Box<SourceExpr>, right: Box<SourceExpr> },
    /// `left op right`; `prefix` holds the expressions inside its attributes.
    Binary {
        op: BinaryOp,
        prefix: Vec<SourceExpr>,
        left: Box<SourceExpr>,
        right: Box<SourceExpr>,
    },
    /// `&expr` or `&mut expr`; `prefix` holds the expressions inside its
    /// attributes.
    Reference { mutable: bool, prefix: Vec<SourceExpr>, expr: Box<SourceExpr> },
    /// A struct literal: the expressions inside its attributes and its path
    /// (such as const generic arguments), its field initializers, and its
    /// `..rest` base.
    Struct { prefix: Vec<SourceExpr>, fields: Vec<FieldValue>, rest: Option<Box<SourceExpr>> },
    /// Any other expression, with its subexpressions in source order.
    Other { children: Vec<SourceExpr> },
}

/// A field initializer `member: expr` of a struct literal.
#[derive(Debug)]
pub struct FieldValue {
    /// The position of a named member.
    pub member: Option<Position>,
    pub expr: SourceExpr,
}

/// One recorded role: the position of a field name and its kind.
pub type Role = (Position, ReferenceKind);

/// The roles that an expression records, in the order they are recorded.
pub open spec fn expr_roles(e: SourceExpr) -> Seq<Role>
    decreases e, 1nat,
{
    match e {
        SourceExpr::Field { base, member } => member_role(member, ReferenceKind::Read) + expr_roles(
            *base,
        ),
        SourceExpr::Assign { left, right } => place_roles(*left, ReferenceKind::Write)
            + expr_roles(*right),
        SourceExpr::Binary { op, prefix, left, right } => if is_compound(op) {
            place_roles(*left, ReferenceKind::Write) + expr_roles(*right)
        } else {
            exprs_roles(prefix@) + expr_roles(*left) + expr_roles(*right)
        },
        SourceExpr::Reference { mutable, prefix, expr } => if mutable {
            place_roles(*expr, ReferenceKind::MutBorrow)
        } else {
            exprs_roles(prefix@) + expr_roles(*expr)
        },
        SourceExpr::Struct { prefix, fields, rest } => exprs_roles(prefix@) + field_values_roles(
            fields@,
        ) + match rest {
            Some(r) => expr_roles(*r),
            None => seq![],
        },
        SourceExpr::Other { children } => exprs_roles(children@),
    }
}

/// The role of a named member, if the member is named.
pub open spec fn member_role(member: Option<Position>, kind: ReferenceKind) -> Seq<Role> {
    match member {
        Some(p) => seq![(p, kind)],
        None => seq![],
    }
}

/// The roles of an expression in a place that is written (or mutably
/// borrowed): its outermost field access is the field in that role, while its
/// base is an ordinary read.
pub open spec fn place_roles(e: SourceExpr, kind: ReferenceKind) -> Seq<Role>
    decreases e, 2nat,
{
    match e {
        SourceExpr::Field { base, member } => member_role(member, kind) + expr_roles(*base),
        _ => expr_roles(e),
    }
}

/// The roles of a list of expressions, in order.
pub open spec fn exprs_roles(es: Seq<SourceExpr>) -> Seq<Role>
    decreases es, 3nat,
{
    if es.len() == 0 {
        seq![]
    } else {
        exprs_roles(es.drop_last()) + expr_roles(es.last())
    }
}

/// The roles of a struct literal's initializers: each named member is an
/// initializer, followed by the roles of its value.
pub open spec fn field_values_roles(fs: Seq<FieldValue>) -> Seq<Role>
    decreases fs, 3nat,
{
    if fs.len() == 0 {
        seq![]
    } else {
        field_values_roles(fs.drop_last()) + member_role(
            fs.last().member,
            ReferenceKind::Initializer,
        ) + expr_roles(fs.last().expr)
    }
}

/// The map that recording `roles` in order builds from `m`: a later role at a
/// position replaces an earlier one.
pub open spec fn record_all(
    m: Map<(u32, u32), ReferenceKind>,
    roles: Seq<Role>,
) -> Map<(u32, u32), ReferenceKind>
    decreases roles.len(),
{
    if roles.len() == 0 {
        m
    } else {
        record_all(m, roles.drop_last()).insert(
            (roles.last().0.line, roles.last().0.column),
            roles.last().1,
        )
    }
}

/// The key of a role: its position.
pub open spec fn role_key(r: Role) -> (u32, u32) {
    (r.0.line, r.0.column)
}

/// Whether `i` is the last role recorded at `k`.
pub open spec fn last_role_at(roles: Seq<Role>, k: (u32, u32), i: int) -> bool {
    &&& 0 <= i < roles.len()
    &&& role_key(roles[i]) == k
    &&& forall|j: int| i < j < roles.len() ==> role_key(#[trigger] roles[j]) != k
}

/// The last role recorded at a position wins; a position without a role
/// keeps what the map held.
pub proof fn lemma_last_role_wins(
    m: Map<(u32, u32), ReferenceKind>,
    roles: Seq<Role>,
    k: (u32, u32),
    i: int,
)
    requires
        last_role_at(roles, k, i),
    ensures
        record_all(m, roles).contains_key(k),
        record_all(m, roles)[k] == roles[i].1,
    decreases roles.len(),
{
    if i < roles.len() - 1 {
        lemma_last_role_wins(m, roles.drop_last(), k, i);
        assert(role_key(roles[roles.len() - 1]) != k);
    }
}

/// A position at which no role is recorded keeps what the map held.
pub proof fn lemma_unrecorded_position(
    m: Map<(u32, u32), ReferenceKind>,
    roles: Seq<Role>,
    k: (u32, u32),
)
    requires
        forall|j: int| 0 <= j < roles.len() ==> role_key(#[trigger] roles[j]) != k,
    ensures
        record_all(m, roles).contains_key(k) == m.contains_key(k),
        m.contains_key(k) ==> record_all(m, roles)[k] == m[k],
    decreases roles.len(),
{
    if roles.len() > 0 {
        assert(role_key(roles[roles.len() - 1]) != k);
        lemma_unrecorded_position(m, roles.drop_last(), k);
    }
}

/// Whether no role in `roles` is at `p`.
pub open spec fn no_role_at(roles: Seq<Role>, p: Position) -> bool {
    forall|j: int| 0 <= j < roles.len() ==> role_key(#[trigger] roles[j]) != (p.line, p.column)
}

/// Each of the ten compound assignments (`+=`, `-=`, `*=`, `/=`, `%=`, `^=`,
/// `&=`, `|=`, `<<=`, `>>=`) writes its target: in `base.field op= right`,
/// the role recorded for `field` is a write, where nothing else in the
/// expression is at its position.
pub proof fn lemma_compound_assignment_writes(
    op: BinaryOp,
    prefix: Vec<SourceExpr>,
    base: SourceExpr,
    p: Position,
    right: SourceExpr,
)
    requires
        op == BinaryOp::AddAssign || op == BinaryOp::SubAssign || op == BinaryOp::MulAssign || op
            == BinaryOp::DivAssign || op == BinaryOp::RemAssign || op == BinaryOp::BitXorAssign
            || op == BinaryOp::BitAndAssign || op == BinaryOp::BitOrAssign || op
            == BinaryOp::ShlAssign || op == BinaryOp::ShrAssign,
        no_role_at(expr_roles(base) + expr_roles(right), p),
    ensures
        ({
            let e = SourceExpr::Binary {
                op,
                prefix,
                left: Box::new(SourceExpr::Field { base: Box::new(base), member: Some(p) }),
                right: Box::new(right),
            };
            let m = record_all(Map::empty(), expr_roles(e));
            m.contains_key((p.line, p.column)) && m[(p.line, p.column)] == ReferenceKind::Write
        }),
{
    let e = SourceExpr::Binary {
        op,
        prefix,
        left: Box::new(SourceExpr::Field { base: Box::new(base), member: Some(p) }),
        right: Box::new(right),
    };
    let rest = expr_roles(base) + expr_roles(right);
    let roles = expr_roles(e);
    let left = SourceExpr::Field { base: Box::new(base), member: Some(p) };
    assert(is_compound(op));
    assert(member_role(Some(p), ReferenceKind::Write) =~= seq![(p, ReferenceKind::Write)]);
    assert(place_roles(left, ReferenceKind::Write) == member_role(Some(p), ReferenceKind::Write)
        + expr_roles(base));
    assert(roles == place_roles(left, ReferenceKind::Write) + expr_roles(right));
    assert(roles =~= seq![(p, ReferenceKind::Write)] + rest);
    assert forall|j: int| 0 < j < roles.len() implies role_key(#[trigger] roles[j]) != (
    p.line, p.column) by {
        assert(roles[j] == rest[j - 1]);
    }
    lemma_last_role_wins(Map::empty(), roles, (p.line, p.column), 0);
}

/// Any other binary operator (`+`, `|`, `==`, ...) only reads: in
/// `base.field op right`, the role recorded for `field` is a read, where
/// nothing else in the expression is at its position.
pub proof fn lemma_plain_operator_reads(
    op: BinaryOp,
    prefix: Vec<SourceExpr>,
    base: SourceExpr,
    p: Position,
    right: SourceExpr,
)
    requires
        !(op == BinaryOp::AddAssign || op == BinaryOp::SubAssign || op == BinaryOp::MulAssign
            || op == BinaryOp::DivAssign || op == BinaryOp::RemAssign || op
            == BinaryOp::BitXorAssign || op == BinaryOp::BitAndAssign || op
            == BinaryOp::BitOrAssign || op == BinaryOp::ShlAssign || op == BinaryOp::ShrAssign),
        no_role_at(exprs_roles(prefix@), p),
        no_role_at(expr_roles(base) + expr_roles(right), p),
    ensures
        ({
            let e = SourceExpr::Binary {
                op,
                prefix,
                left: Box::new(SourceExpr::Field { base: Box::new(base), member: Some(p) }),
                right: Box::new(right),
            };
            let m = record_all(Map::empty(), expr_roles(e));
            m.contains_key((p.line, p.column)) && m[(p.line, p.column)] == ReferenceKind::Read
        }),
{
    let e = SourceExpr::Binary {
        op,
        prefix,
        left: Box::new(SourceExpr::Field { base: Box::new(base), member: Some(p) }),
        right: Box::new(right),
    };
    let pre = exprs_roles(prefix@);
    let rest = expr_roles(base) + expr_roles(right);
    let roles = expr_roles(e);
    let left = SourceExpr::Field { base: Box::new(base), member: Some(p) };
    assert(!is_compound(op));
    assert(member_role(Some(p), ReferenceKind::Read) =~= seq![(p, ReferenceKind::Read)]);
    assert(expr_roles(left) == member_role(Some(p), ReferenceKind::Read) + expr_roles(base));
    assert(roles == pre + expr_roles(left) + expr_roles(right));
    assert(roles =~= pre + seq![(p, ReferenceKind::Read)] + rest);
    let i = pre.len() as int;
    assert forall|j: int| i < j < roles.len() implies role_key(#[trigger] roles[j]) != (
    p.line, p.column) by {
        assert(roles[j] == rest[j - i - 1]);
    }
    lemma_last_role_wins(Map::empty(), roles, (p.line, p.column), i);
}

/// Recording two lists of roles in turn records their concatenation.
pub proof fn lemma_record_all_concat(
    m: Map<(u32, u32), ReferenceKind>,
    a: Seq<Role>,
    b: Seq<Role>,
)
    ensures
        record_all(m, a + b) == record_all(record_all(m, a), b),
    decreases b.len(),
{
    if b.len() == 0 {
        assert(a + b =~= a);
    } else {
        assert((a + b).drop_last() =~= a + b.drop_last());
        lemma_record_all_concat(m, a, b.drop_last());
    }
}

/// The hash-map key of the position `(line, column)`: the line in the high
/// half of a `u64`, the column in the low half.
pub open spec fn position_key(line: u32, column: u32) -> u64 {
    ((line as u64) << 32u64) | (column as u64)
}

/// The position of a hash-map key: its high half and its low half.
pub open spec fn key_position(key: u64) -> (u32, u32) {
    ((key >> 32u64) as u32, key as u32)
}

proof fn lemma_key_of_position(line: u32, column: u32)
    ensures
        key_position(position_key(line, column)) == (line, column),
{
    assert((((line as u64) << 32u64) | (column as u64)) >> 32u64 == line as u64) by (bit_vector);
    assert(((((line as u64) << 32u64) | (column as u64)) as u32) == column) by (bit_vector);
}

proof fn lemma_position_of_key(key: u64)
    ensures
        position_key(key_position(key).0, key_position(key).1) == key,
{
    assert((((key >> 32u64) as u32) as u64) << 32u64 | ((key as u32) as u64) == key) by (
    bit_vector);
}

/// Map from a source position to the role of the field access at that position.
#[derive(Debug)]
pub struct ReferenceKindMap {
    /// The roles, keyed by `position_key`.
    kinds: HashMap<u64, ReferenceKind>,
}

impl ReferenceKindMap {
    /// The map: a position `(line, column)`, and the role recorded there.
    pub closed spec fn view(self) -> Map<(u32, u32), ReferenceKind> {
        Map::new(
            |p: (u32, u32)| self.kinds@.contains_key(position_key(p.0, p.1)),
            |p: (u32, u32)| self.kinds@[position_key(p.0, p.1)],
        )
    }

    /// An empty map.
    pub fn new() -> (r: ReferenceKindMap)
        ensures
            r.view() == Map::<(u32, u32), ReferenceKind>::empty(),
    {
        let r = ReferenceKindMap { kinds: HashMap::new() };
        assert(r.view() =~= Map::<(u32, u32), ReferenceKind>::empty());
        r
    }

    /// Record `kind` at `(line, column)`, replacing what was recorded there.
    pub fn insert(&mut self, line: u32, column: u32, kind: ReferenceKind)
        ensures
            final(self).view() == old(self).view().insert((line, column), kind),
    {
        broadcast use vstd::std_specs::hash::group_hash_axioms;

        let key = ((line as u64) << 32u64) | (column as u64);
        self.kinds.insert(key, kind);
        proof {
            assert forall|p: (u32, u32)|
                position_key(p.0, p.1) == position_key(line, column) implies p == (
                line,
                column,
            ) by {
                lemma_key_of_position(p.0, p.1);
                lemma_key_of_position(line, column);
            }
        }
        assert(self.view() =~= old(self).view().insert((line, column), kind));
    }

    /// How many positions have a recorded role.
    pub fn len(&self) -> (r: usize)
        ensures
            self.view().dom().finite(),
            r == self.view().dom().len(),
    {
        broadcast use vstd::std_specs::hash::group_hash_axioms;

        proof {
            let keys = self.kinds@.dom();
            let f = |k: u64| key_position(k);
            assert(keys.finite());
            assert forall|a: u64, b: u64|
                keys.contains(a) && keys.contains(b) && #[trigger] f(a) == #[trigger] f(b) implies a
                == b by {
                lemma_position_of_key(a);
                lemma_position_of_key(b);
            }
            assert forall|p: (u32, u32)| #[trigger] keys.map(f).contains(p) <==> self.view().dom().contains(p) by {
                lemma_key_of_position(p.0, p.1);
                if keys.map(f).contains(p) {
                    let k = choose|k: u64| keys.contains(k) && f(k) == p;
                    lemma_position_of_key(k);
                }
                if self.view().dom().contains(p) {
                    assert(keys.contains(position_key(p.0, p.1)));
                    assert(f(position_key(p.0, p.1)) == p);
                }
            }
            assert(keys.map(f) =~= self.view().dom());
            vstd::set_lib::lemma_map_size(keys, self.view().dom(), f);
        }
        self.kinds.len()
    }

    /// The role recorded at `(line, column)`, if any.
    pub fn get(&self, line: u32, column: u32) -> (r: Option<ReferenceKind>)
        ensures
            r == (if self.view().contains_key((line, column)) {
                Some(self.view()[(line, column)])
            } else {
                None
            }),
    {
        broadcast use vstd::std_specs::hash::group_hash_axioms;

        let key = ((line as u64) << 32u64) | (column as u64);
        match self.kinds.get(&key) {
            Some(kind) => Some(*kind),
            None => None,
        }
    }
}

fn record_member(map: &mut ReferenceKindMap, member: Option<Position>, kind: ReferenceKind)
    ensures
        final(map).view() == record_all(old(map).view(), member_role(member, kind)),
{
    match member {
        Some(p) => {
            let ghost m0 = map.view();
            map.insert(p.line, p.column, kind);
            let ghost roles: Seq<Role> = seq![(p, kind)];
            assert(roles.drop_last() =~= Seq::<Role>::empty());
            assert(record_all(m0, roles.drop_last()) == m0);
            assert(roles.last() == (p, kind));
        },
        None => {},
    }
}

fn visit_expr(map: &mut ReferenceKindMap, e: &SourceExpr)
    ensures
        final(map).view() == record_all(old(map).view(), expr_roles(*e)),
    decreases e, 1nat,
{
    let ghost m0 = map.view();
    match e {
        SourceExpr::Field { base, member } => {
            record_member(map, *member, ReferenceKind::Read);
            visit_expr(map, &**base);
            proof {
                lemma_record_all_concat(m0, member_role(*member, ReferenceKind::Read), expr_roles(**base));
            }
        },
        SourceExpr::Assign { left, right } => {
            visit_place(map, &**left, ReferenceKind::Write);
            visit_expr(map, &**right);
            proof {
                lemma_record_all_concat(m0, place_roles(**left, ReferenceKind::Write), expr_roles(**right));
            }
        },
        SourceExpr::Binary { op, prefix, left, right } => {
            if is_compound_assignment(*op) {
                visit_place(map, &**left, ReferenceKind::Write);
                visit_expr(map, &**right);
                proof {
                    lemma_record_all_concat(m0, place_roles(**left, ReferenceKind::Write), expr_roles(**right));
                }
            } else {
                visit_exprs(map, prefix);
                visit_expr(map, &**left);
                visit_expr(map, &**right);
                proof {
                    lemma_record_all_concat(m0, exprs_roles(prefix@), expr_roles(**left));
                    lemma_record_all_concat(
                        m0,
                        exprs_roles(prefix@) + expr_roles(**left),
                        expr_roles(**right),
                    );
                }
            }
        },
        SourceExpr::Reference { mutable, prefix, expr } => {
            if *mutable {
                visit_place(map, &**expr, ReferenceKind::MutBorrow);
            } else {
                visit_exprs(map, prefix);
                visit_expr(map, &**expr);
                proof {
                    lemma_record_all_concat(m0, exprs_roles(prefix@), expr_roles(**expr));
                }
            }
        },
        SourceExpr::Struct { prefix, fields, rest } => {
            visit_exprs(map, prefix);
            visit_field_values(map, fields);
            let ghost head = exprs_roles(prefix@) + field_values_roles(fields@);
            proof {
                lemma_record_all_concat(m0, exprs_roles(prefix@), field_values_roles(fields@));
            }
            match rest {
                Some(r) => {
                    visit_expr(map, &**r);
                    proof {
                        lemma_record_all_concat(m0, head, expr_roles(**r));
                    }
                },
                None => {
                    assert(head + Seq::<Role>::empty() =~= head);
                },
            }
        },
        SourceExpr::Other { children } => {
            visit_exprs(map, children);
        },
    }
}

fn visit_place(map: &mut ReferenceKindMap, e: &SourceExpr, kind: ReferenceKind)
    ensures
        final(map).view() == record_all(old(map).view(), place_roles(*e, kind)),
    decreases e, 2nat,
{
    let ghost m0 = map.view();
    match e {
        SourceExpr::Field { base, member } => {
            record_member(map, *member, kind);
            visit_expr(map, &**base);
            proof {
                lemma_record_all_concat(m0, member_role(*member, kind), expr_roles(**base));
            }
        },
        _ => visit_expr(map, e),
    }
}

fn visit_exprs(map: &mut ReferenceKindMap, es: &Vec<SourceExpr>)
    ensures
        final(map).view() == record_all(old(map).view(), exprs_roles(es@)),
    decreases es@, 3nat,
{
    let ghost m0 = map.view();
    let n = es.len();
    let mut i: usize = 0;
    assert(es@.take(0) =~= Seq::<SourceExpr>::empty());
    while i < n
        invariant
            n == es@.len(),
            i <= n,
            map.view() == record_all(m0, exprs_roles(es@.take(i as int))),
        decreases n - i,
    {
        assert(decreases_to!(es@ => es@[i as int]));
        visit_expr(map, &es[i]);
        proof {
            assert(es@.take(i + 1).drop_last() =~= es@.take(i as int));
            lemma_record_all_concat(m0, exprs_roles(es@.take(i as int)), expr_roles(es@[i as int]));
        }
        i = i + 1;
    }
    assert(es@.take(n as int) =~= es@);
}

fn visit_field_values(map: &mut ReferenceKindMap, fs: &Vec<FieldValue>)
    ensures
        final(map).view() == record_all(old(map).view(), field_values_roles(fs@)),
    decreases fs@, 3nat,
{
    let ghost m0 = map.view();
    let n = fs.len();
    let mut i: usize = 0;
    assert(fs@.take(0) =~= Seq::<FieldValue>::empty());
    while i < n
        invariant
            n == fs@.len(),
            i <= n,
            map.view() == record_all(m0, field_values_roles(fs@.take(i as int))),
        decreases n - i,
    {
        let ghost m1 = map.view();
        record_member(map, fs[i].member, ReferenceKind::Initializer);
        assert(decreases_to!(fs@ => fs@[i as int]));
        assert(decreases_to!(fs@[i as int] => fs@[i as int].expr));
        visit_expr(map, &fs[i].expr);
        proof {
            let prev = field_values_roles(fs@.take(i as int));
            let mr = member_role(fs@[i as int].member, ReferenceKind::Initializer);
            let er = expr_roles(fs@[i as int].expr);
            assert(fs@.take(i + 1).drop_last() =~= fs@.take(i as int));
            lemma_record_all_concat(m0, prev, mr);
            lemma_record_all_concat(m0, prev + mr, er);
        }
        i = i + 1;
    }
    assert(fs@.take(n as int) =~= fs@);
}

/// Classify every field access in a file's expressions by its syntactic role.
pub fn reference_kinds(exprs: &Vec<SourceExpr>) -> (r: ReferenceKindMap)
    ensures
        r.view() == record_all(Map::empty(), exprs_roles(exprs@)),
{
    let mut map = ReferenceKindMap::new();
    visit_exprs(&mut map, exprs);
    map
}

#[verifier::external_type_specification]
#[verifier::external_body]
pub struct ExSynFile(syn::File);

#[verifier::external_type_specification]
#[verifier::external_body]
pub struct ExSynItem(syn::Item);

#[verifier::external_type_specification]
#[verifier::external_body]
pub struct ExSynFields(syn::Fields);

#[verifier::external_type_specification]
#[verifier::external_body]
pub struct ExSynAttribute(syn::Attribute);

#[verifier::external_type_specification]
#[verifier::external_body]
pub struct ExSynExpr(syn::Expr);

#[verifier::external_type_specification]
#[verifier::external_body]
pub struct ExSynMember(syn::Member);

#[verifier::external_type_specification]
#[verifier::external_body]
pub struct ExSynBinOp(BinOp);

#[verifier::external_type_specification]
#[verifier::external_body]
pub struct ExSynItemStruct(syn::ItemStruct);

#[verifier::external_type_specification]
#[verifier::external_body]
pub struct ExSynItemMod(syn::ItemMod);

#[verifier::external_type_specification]
#[verifier::external_body]
pub struct ExSynMetaList(syn::MetaList);

#[verifier::external_type_specification]
#[verifier::external_body]
pub struct ExSynExprField(syn::ExprField);

#[verifier::external_type_specification]
#[verifier::external_body]
pub struct ExSynExprAssign(syn::ExprAssign);

#[verifier::external_type_specification]
#[verifier::external_body]
pub struct ExSynExprBinary(syn::ExprBinary);

#[verifier::external_type_specification]
#[verifier::external_body]
pub struct ExSynExprReference(syn::ExprReference);

#[verifier::external_type_specification]
#[verifier::external_body]
pub struct ExSynExprStruct(syn::ExprStruct);


#[verifier::external_type_specification]
#[verifier::external_body]
pub struct ExSynMeta(syn::Meta);

#[verifier::external_type_specification]
#[verifier::external_body]
pub struct ExIdent(proc_macro2::Ident);

/// What `syn` parses a file's text into, reduced to the model: the file's
/// items, and the outermost expressions found below them, in source order;
/// `None` where the text is not a Rust file.
pub uninterp spec fn parsed_source(text: Seq<char>) -> Option<(Seq<SourceItem>, Seq<SourceExpr>)>;

/// `syn::parse_file`, with its syntax tree converted into the model.
///
/// The contract names the result: the parse and the conversion depend on the
/// text alone. Positions are those of `proc_macro2`'s spans: one-based lines,
/// zero-based columns counted in characters.
#[verifier::external_body]
pub fn parse_source(text: &str) -> (r: Option<(Vec<SourceItem>, Vec<SourceExpr>)>)
    ensures
        match r {
            Some(p) => parsed_source(text@) == Some((p.0@, p.1@)),
            None => parsed_source(text@) is None,
        },
{
    match syn::parse_file(text) {
        Ok(file) => Some((convert_items(&file.items), outermost_exprs(&file))),
        Err(_) => None,
    }
}

/// Collects the outermost expressions below a syntax node, each converted whole.
struct Gather {
    exprs: Vec<SourceExpr>,
}

impl<'ast> Visit<'ast> for Gather {
    #[verifier::external_body]
    fn visit_expr(&mut self, node: &'ast syn::Expr) {
        self.exprs.push(convert_expr(node));
    }
}

#[verifier::external_body]
fn outermost_exprs(file: &syn::File) -> Vec<SourceExpr> {
    let mut gather = Gather { exprs: Vec::new() };
    gather.visit_file(file);
    gather.exprs
}

#[verifier::external_body]
fn child_exprs(expr: &syn::Expr) -> Vec<SourceExpr> {
    let mut gather = Gather { exprs: Vec::new() };
    syn::visit::visit_expr(&mut gather, expr);
    gather.exprs
}

/// The outermost expressions inside attributes, each converted whole.
#[verifier::external_body]
fn attr_exprs(attrs: &[syn::Attribute]) -> Vec<SourceExpr> {
    let mut gather = Gather { exprs: Vec::new() };
    attrs.iter().for_each(|attr| gather.visit_attribute(attr));
    gather.exprs
}

/// The outermost expressions inside a struct literal's attributes, its
/// qualified self type and its path, in that order, each converted whole.
#[verifier::external_body]
fn struct_prefix_exprs(s: &syn::ExprStruct) -> Vec<SourceExpr> {
    let mut gather = Gather { exprs: Vec::new() };
    s.attrs.iter().for_each(|attr| gather.visit_attribute(attr));
    s.qself.iter().for_each(|qself| gather.visit_qself(qself));
    gather.visit_path(&s.path);
    gather.exprs
}

#[verifier::external_body]
fn ident_position(ident: &proc_macro2::Ident) -> Position {
    let start = ident.span().start();
    Position { line: start.line as u32, column: start.column as u32 }
}

#[verifier::external_body]
fn convert_items(items: &[syn::Item]) -> Vec<SourceItem> {
    items.iter().map(convert_item).collect()
}

#[verifier::external_body]
fn convert_item(item: &syn::Item) -> SourceItem {
    match item {
        syn::Item::Struct(s) => convert_struct(s),
        syn::Item::Mod(m) => convert_mod(m),
        _ => SourceItem::Other,
    }
}

#[verifier::external_body]
fn convert_struct(s: &syn::ItemStruct) -> SourceItem {
    SourceItem::Struct {
        name: s.ident.to_string(),
        attrs: convert_attrs(&s.attrs),
        fields: convert_fields(&s.fields),
    }
}

#[verifier::external_body]
fn convert_mod(m: &syn::ItemMod) -> SourceItem {
    SourceItem::Mod {
        attrs: convert_attrs(&m.attrs),
        content: m.content.as_ref().map(|(_, inner)| convert_items(inner)),
    }
}

#[verifier::external_body]
fn convert_fields(fields: &syn::Fields) -> Option<Vec<NamedField>> {
    match fields {
        syn::Fields::Named(named) => Some(
            named.named.iter().filter_map(|f| f.ident.as_ref()).map(
                |ident| NamedField { name: ident.to_string(), position: ident_position(ident) },
            ).collect(),
        ),
        _ => None,
    }
}

#[verifier::external_body]
fn convert_attrs(attrs: &[syn::Attribute]) -> Vec<SourceAttribute> {
    attrs.iter().map(convert_attr).collect()
}

#[verifier::external_body]
fn convert_attr(attr: &syn::Attribute) -> SourceAttribute {
    match &attr.meta {
        syn::Meta::List(list) => SourceAttribute {
            list_ident: list.path.get_ident().map(|ident| ident.to_string()),
            args: meta_args(list),
            paths: list_paths(list),
        },
        _ => SourceAttribute { list_ident: None, args: Vec::new(), paths: Vec::new() },
    }
}

/// The last segment of each comma-separated path of a list attribute.
#[verifier::external_body]
fn list_paths(list: &syn::MetaList) -> Vec<String> {
    match list.parse_args_with(Punctuated::<syn::Path, syn::token::Comma>::parse_terminated) {
        Ok(paths) => paths.iter().filter_map(|p| p.segments.last()).map(
            |segment| segment.ident.to_string(),
        ).collect(),
        Err(_) => Vec::new(),
    }
}

/// The comma-separated arguments of a list attribute, each read as a meta item.
#[verifier::external_body]
fn meta_args(list: &syn::MetaList) -> Vec<MetaArg> {
    match list.parse_args_with(Punctuated::<syn::Meta, syn::token::Comma>::parse_terminated) {
        Ok(metas) => metas.iter().map(convert_meta).collect(),
        Err(_) => Vec::new(),
    }
}

#[verifier::external_body]
fn convert_meta(meta: &syn::Meta) -> MetaArg {
    match meta {
        syn::Meta::Path(path) => MetaArg::Word { ident: path.get_ident().map(|i| i.to_string()) },
        syn::Meta::List(list) => MetaArg::List {
            ident: list.path.get_ident().map(|i| i.to_string()),
            args: meta_args(list),
        },
        syn::Meta::NameValue(_) => MetaArg::Other,
    }
}

#[verifier::external_body]
fn member_position(member: &syn::Member) -> Option<Position> {
    match member {
        syn::Member::Named(ident) => Some(ident_position(ident)),
        syn::Member::Unnamed(_) => None,
    }
}

#[verifier::external_body]
fn convert_expr(expr: &syn::Expr) -> SourceExpr {
    match expr {
        syn::Expr::Field(f) => convert_field(f),
        syn::Expr::Assign(a) => convert_assign(a),
        syn::Expr::Binary(b) => convert_binary(b),
        syn::Expr::Reference(r) => convert_reference(r),
        syn::Expr::Struct(s) => convert_literal(s),
        _ => SourceExpr::Other { children: child_exprs(expr) },
    }
}

#[verifier::external_body]
fn convert_field(f: &syn::ExprField) -> SourceExpr {
    SourceExpr::Field { base: Box::new(convert_expr(&f.base)), member: member_position(&f.member) }
}

#[verifier::external_body]
fn convert_assign(a: &syn::ExprAssign) -> SourceExpr {
    SourceExpr::Assign {
        left: Box::new(convert_expr(&a.left)),
        right: Box::new(convert_expr(&a.right)),
    }
}

#[verifier::external_body]
fn convert_binary(b: &syn::ExprBinary) -> SourceExpr {
    SourceExpr::Binary {
        op: convert_op(&b.op),
        prefix: attr_exprs(&b.attrs),
        left: Box::new(convert_expr(&b.left)),
        right: Box::new(convert_expr(&b.right)),
    }
}

#[verifier::external_body]
fn convert_reference(r: &syn::ExprReference) -> SourceExpr {
    SourceExpr::Reference {
        mutable: r.mutability.is_some(),
        prefix: attr_exprs(&r.attrs),
        expr: Box::new(convert_expr(&r.expr)),
    }
}

#[verifier::external_body]
fn convert_literal(s: &syn::ExprStruct) -> SourceExpr {
    SourceExpr::Struct {
        prefix: struct_prefix_exprs(s),
        fields: s.fields.iter().map(
            |v| FieldValue { member: member_position(&v.member), expr: convert_expr(&v.expr) },
        ).collect(),
        rest: s.rest.as_ref().map(|r| Box::new(convert_expr(r))),
    }
}

#[verifier::external_body]
fn convert_op(op: &BinOp) -> BinaryOp {
    match op {
        BinOp::Add(_) => BinaryOp::Add,
        BinOp::Sub(_) => BinaryOp::Sub,
        BinOp::Mul(_) => BinaryOp::Mul,
        BinOp::Div(_) => BinaryOp::Div,
        BinOp::Rem(_) => BinaryOp::Rem,
        BinOp::And(_) => BinaryOp::And,
        BinOp::Or(_) => BinaryOp::Or,
        BinOp::BitXor(_) => BinaryOp::BitXor,
        BinOp::BitAnd(_) => BinaryOp::BitAnd,
        _ => convert_op_rest(op),
    }
}

#[verifier::external_body]
fn convert_op_rest(op: &BinOp) -> BinaryOp {
    match op {
        BinOp::BitOr(_) => BinaryOp::BitOr,
        BinOp::Shl(_) => BinaryOp::Shl,
        BinOp::Shr(_) => BinaryOp::Shr,
        BinOp::Eq(_) => BinaryOp::Eq,
        BinOp::Lt(_) => BinaryOp::Lt,
        BinOp::Le(_) => BinaryOp::Le,
        BinOp::Ne(_) => BinaryOp::Ne,
        BinOp::Ge(_) => BinaryOp::Ge,
        BinOp::Gt(_) => BinaryOp::Gt,
        _ => convert_assign_op(op),
    }
}

#[verifier::external_body]
fn convert_assign_op(op: &BinOp) -> BinaryOp {
    match op {
        BinOp::AddAssign(_) => BinaryOp::AddAssign,
        BinOp::SubAssign(_) => BinaryOp::SubAssign,
        BinOp::MulAssign(_) => BinaryOp::MulAssign,
        BinOp::DivAssign(_) => BinaryOp::DivAssign,
        BinOp::RemAssign(_) => BinaryOp::RemAssign,
        _ => convert_bit_assign_op(op),
    }
}

#[verifier::external_body]
fn convert_bit_assign_op(op: &BinOp) -> BinaryOp {
    match op {
        BinOp::BitXorAssign(_) => BinaryOp::BitXorAssign,
        BinOp::BitAndAssign(_) => BinaryOp::BitAndAssign,
        BinOp::BitOrAssign(_) => BinaryOp::BitOrAssign,
        BinOp::ShlAssign(_) => BinaryOp::ShlAssign,
        BinOp::ShrAssign(_) => BinaryOp::ShrAssign,
        _ => BinaryOp::Other,
    }
}

/// Parse the text of the file at `path` into its items.
pub fn source_file(path: &str, text: &str) -> (r: Option<SourceFile>)
    ensures
        match r {
            Some(f) => f.path@ == path@ && (parsed_source(text@) matches Some(p) && f.items@
                == p.0),
            None => parsed_source(text@) is None,
        },
{
    match parse_source(text) {
        Some((items, _exprs)) => Some(SourceFile { path: String::from_str(path), items }),
        None => None,
    }
}

/// Classify every field access in a file's text by its syntactic role.
pub fn reference_kinds_of_text(text: &str) -> (r: Option<ReferenceKindMap>)
    ensures
        match r {
            Some(m) => parsed_source(text@) matches Some(p) && m.view() == record_all(
                Map::empty(),
                exprs_roles(p.1),
            ),
            None => parsed_source(text@) is None,
        },
{
    match parse_source(text) {
        Some((_items, exprs)) => Some(reference_kinds(&exprs)),
        None => None,
    }
}

} // verus!
