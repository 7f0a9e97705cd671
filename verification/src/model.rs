//! Core data model shared across the analysis pipeline.

use vstd::prelude::*;
use vstd::string::*;

use crate::order::{compare_paths, compare_text, lemma_lex_order_antisymmetric,
    lemma_lex_order_transitive, path_key, path_order, text_key, text_order,
    Ordered};

verus! {

/// How a struct field is used across the workspace.
#[derive(Debug, Clone, Copy, PartialEq, Eq, Structural, PartialOrd, Ord, Hash)]
pub enum Classification {
    /// The field has no references at all.
    Unused,
    /// The field's value is placed but never read.
    WriteOnly,
    /// The field is read but never reassigned after construction.
    ReadOnly,
    /// The field is read only through a derive macro, never in hand-written code.
    DeriveOnly,
}

impl Classification {
    /// The label used in textual output.
    pub open spec fn label_text(self) -> Seq<char> {
        match self {
            Classification::Unused => "unused"@,
            Classification::WriteOnly => "write-only"@,
            Classification::ReadOnly => "read-only"@,
            Classification::DeriveOnly => "derive-only"@,
        }
    }

    /// The label used in textual output.
    pub fn label(self) -> (r: &'static str)
        ensures
            r@ == self.label_text(),
    {
        match self {
            Classification::Unused => "unused",
            Classification::WriteOnly => "write-only",
            Classification::ReadOnly => "read-only",
            Classification::DeriveOnly => "derive-only",
        }
    }
}

/// The syntactic role of a single reference to a field.
#[derive(Debug, Clone, Copy, PartialEq, Eq, Structural)]
pub enum ReferenceKind {
    /// A struct literal initializer (`Foo { field: value }`).
    Initializer,
    /// A read of the field's value.
    Read,
    /// An assignment or compound assignment of the field.
    Write,
    /// A mutable borrow (`&mut field`); the value may be read and/or written
    /// through it, so it counts as both a read and a write.
    MutBorrow,
}

impl ReferenceKind {
    /// A short label for the reference kind.
    pub open spec fn label_text(self) -> Seq<char> {
        match self {
            ReferenceKind::Initializer => "initializer"@,
            ReferenceKind::Read => "read"@,
            ReferenceKind::Write => "write"@,
            ReferenceKind::MutBorrow => "mut-borrow"@,
        }
    }

    /// A short label for the reference kind.
    pub fn label(self) -> (r: &'static str)
        ensures
            r@ == self.label_text(),
    {
        match self {
            ReferenceKind::Initializer => "initializer",
            ReferenceKind::Read => "read",
            ReferenceKind::Write => "write",
            ReferenceKind::MutBorrow => "mut-borrow",
        }
    }
}

/// A position in a source file (one-based line, zero-based character).
#[derive(Debug)]
pub struct Location {
    /// The file's path.
    pub file: String,
    pub line: u32,
    pub character: u32,
}

impl Clone for Location {
    fn clone(&self) -> (r: Self)
        ensures
            r == *self,
    {
        Location { file: self.file.clone(), line: self.line, character: self.character }
    }
}

/// A single reference to a field, with its syntactic role.
#[derive(Debug)]
pub struct ReferenceSite {
    pub location: Location,
    pub kind: ReferenceKind,
}

impl Clone for ReferenceSite {
    fn clone(&self) -> (r: Self)
        ensures
            r == *self,
    {
        ReferenceSite { location: self.location.clone(), kind: self.kind }
    }
}

/// Reference sites are listed by file, then by line.
impl Ordered for ReferenceSite {
    open spec fn ord_le(self, other: Self) -> bool {
        let c = path_order(self.location.file@, other.location.file@);
        c < 0 || (c == 0 && self.location.line <= other.location.line)
    }

    proof fn lemma_ord_total(a: Self, b: Self) {
        lemma_lex_order_antisymmetric(path_key(a.location.file@), path_key(b.location.file@));
    }

    proof fn lemma_ord_transitive(a: Self, b: Self, c: Self) {
        let (ka, kb, kc) = (
            path_key(a.location.file@),
            path_key(b.location.file@),
            path_key(c.location.file@),
        );
        lemma_lex_order_transitive(ka, kb, kc);
        lemma_lex_order_antisymmetric(ka, kb);
        lemma_lex_order_antisymmetric(kb, kc);
    }

    fn le(&self, other: &Self) -> (r: bool) {
        let c = compare_paths(self.location.file.as_str(), other.location.file.as_str());
        c < 0 || (c == 0 && self.location.line <= other.location.line)
    }
}

/// A named struct field discovered in the workspace.
#[derive(Debug)]
pub struct FieldDef {
    pub struct_name: String,
    pub field_name: String,
    pub location: Location,
    /// Whether the field's struct has a derive macro that reads every field
    /// (such as `Debug`, `Serialize`, or `PartialEq`).
    pub used_by_derive: bool,
}

impl Clone for FieldDef {
    fn clone(&self) -> (r: Self)
        ensures
            r == *self,
    {
        FieldDef {
            struct_name: self.struct_name.clone(),
            field_name: self.field_name.clone(),
            location: self.location.clone(),
            used_by_derive: self.used_by_derive,
        }
    }
}

impl FieldDef {
    /// The `Struct::field` display form.
    pub open spec fn display_text(self) -> Seq<char> {
        self.struct_name@ + "::"@ + self.field_name@
    }

    /// The `Struct::field` display form.
    pub fn display_name(&self) -> (r: String)
        ensures
            r@ == self.display_text(),
    {
        let mut s = self.struct_name.clone();
        s.append("::");
        s.append(self.field_name.as_str());
        s
    }
}

/// Field definitions are listed by file, then line, then field name.
impl Ordered for FieldDef {
    open spec fn ord_le(self, other: Self) -> bool {
        let c = path_order(self.location.file@, other.location.file@);
        c < 0 || (c == 0 && (self.location.line < other.location.line || (self.location.line
            == other.location.line && text_order(self.field_name@, other.field_name@) <= 0)))
    }

    proof fn lemma_ord_total(a: Self, b: Self) {
        lemma_lex_order_antisymmetric(path_key(a.location.file@), path_key(b.location.file@));
        lemma_lex_order_antisymmetric(text_key(a.field_name@), text_key(b.field_name@));
    }

    proof fn lemma_ord_transitive(a: Self, b: Self, c: Self) {
        let (ka, kb, kc) = (
            path_key(a.location.file@),
            path_key(b.location.file@),
            path_key(c.location.file@),
        );
        lemma_lex_order_antisymmetric(ka, kb);
        lemma_lex_order_antisymmetric(kb, kc);
        lemma_lex_order_transitive(ka, kb, kc);
        let (na, nb, nc) = (text_key(a.field_name@), text_key(b.field_name@), text_key(
            c.field_name@,
        ));
        if lex_le_both(na, nb, nc) {
            lemma_lex_order_transitive(na, nb, nc);
        }
    }

    fn le(&self, other: &Self) -> (r: bool) {
        let c = compare_paths(self.location.file.as_str(), other.location.file.as_str());
        if c < 0 {
            true
        } else if c > 0 {
            false
        } else if self.location.line != other.location.line {
            self.location.line < other.location.line
        } else {
            compare_text(self.field_name.as_str(), other.field_name.as_str()) <= 0
        }
    }
}

/// Whether `a`, `b`, `c` are in order.
pub open spec fn lex_le_both(a: Seq<int>, b: Seq<int>, c: Seq<int>) -> bool {
    crate::order::lex_order(a, b) <= 0 && crate::order::lex_order(b, c) <= 0
}

/// Reference counts aggregated for a single field.
#[derive(Debug)]
pub struct FieldStats {
    pub initializers: u32,
    pub reads: u32,
    pub writes: u32,
    /// Line numbers at which writes occur.
    pub write_lines: Vec<u32>,
}

impl Default for FieldStats {
    fn default() -> (r: Self)
        ensures
            r.initializers == 0,
            r.reads == 0,
            r.writes == 0,
            r.write_lines@ == Seq::<u32>::empty(),
    {
        FieldStats { initializers: 0, reads: 0, writes: 0, write_lines: Vec::new() }
    }
}

/// A single reference site, in a form suitable for reporting.
#[derive(Debug)]
pub struct ReferenceEntry {
    pub kind: &'static str,
    pub file: String,
    pub line: u32,
}

/// One detected field, ready for reporting.
#[derive(Debug)]
pub struct Finding {
    pub classification: Classification,
    pub field: String,
    pub file: String,
    pub line: u32,
    pub initializers: u32,
    pub reads: u32,
    pub writes: u32,
    pub write_lines: Vec<u32>,
    pub message: String,
    /// Every reference site; populated only when `--explain` is set.
    pub references: Vec<ReferenceEntry>,
}

/// Findings are listed by file, then line, then field name.
impl Ordered for Finding {
    open spec fn ord_le(self, other: Self) -> bool {
        let c = path_order(self.file@, other.file@);
        c < 0 || (c == 0 && (self.line < other.line || (self.line == other.line && text_order(
            self.field@,
            other.field@,
        ) <= 0)))
    }

    proof fn lemma_ord_total(a: Self, b: Self) {
        lemma_lex_order_antisymmetric(path_key(a.file@), path_key(b.file@));
        lemma_lex_order_antisymmetric(text_key(a.field@), text_key(b.field@));
    }

    proof fn lemma_ord_transitive(a: Self, b: Self, c: Self) {
        let (ka, kb, kc) = (path_key(a.file@), path_key(b.file@), path_key(c.file@));
        lemma_lex_order_antisymmetric(ka, kb);
        lemma_lex_order_antisymmetric(kb, kc);
        lemma_lex_order_transitive(ka, kb, kc);
        let (na, nb, nc) = (text_key(a.field@), text_key(b.field@), text_key(c.field@));
        if lex_le_both(na, nb, nc) {
            lemma_lex_order_transitive(na, nb, nc);
        }
    }

    fn le(&self, other: &Self) -> (r: bool) {
        let c = compare_paths(self.file.as_str(), other.file.as_str());
        if c < 0 {
            true
        } else if c > 0 {
            false
        } else if self.line != other.line {
            self.line < other.line
        } else {
            compare_text(self.field.as_str(), other.field.as_str()) <= 0
        }
    }
}

/// Per-classification counts.
#[derive(Debug)]
pub struct Summary {
    pub unused: u32,
    pub write_only: u32,
    pub read_only: u32,
    pub derive_only: u32,
}

impl Default for Summary {
    fn default() -> (r: Self)
        ensures
            r.unused == 0,
            r.write_only == 0,
            r.read_only == 0,
            r.derive_only == 0,
    {
        Summary { unused: 0, write_only: 0, read_only: 0, derive_only: 0 }
    }
}

/// How many of `findings` carry the classification `c`.
pub open spec fn count_class(findings: Seq<Finding>, c: Classification) -> nat
    decreases findings.len(),
{
    if findings.len() == 0 {
        0
    } else {
        count_class(findings.drop_last(), c) + if findings.last().classification == c {
            1nat
        } else {
            0nat
        }
    }
}

/// The counts of the four classifications add up to the number of findings.
pub proof fn lemma_counts_add_up(findings: Seq<Finding>)
    ensures
        count_class(findings, Classification::Unused) + count_class(
            findings,
            Classification::WriteOnly,
        ) + count_class(findings, Classification::ReadOnly) + count_class(
            findings,
            Classification::DeriveOnly,
        ) == findings.len(),
    decreases findings.len(),
{
    if findings.len() > 0 {
        lemma_counts_add_up(findings.drop_last());
    }
}

proof fn lemma_count_bounded(findings: Seq<Finding>, c: Classification)
    ensures
        count_class(findings, c) <= findings.len(),
    decreases findings.len(),
{
    if findings.len() > 0 {
        lemma_count_bounded(findings.drop_last(), c);
    }
}

proof fn lemma_count_concat(a: Seq<Finding>, b: Seq<Finding>, c: Classification)
    ensures
        count_class(a + b, c) == count_class(a, c) + count_class(b, c),
    decreases b.len(),
{
    if b.len() == 0 {
        assert(a + b =~= a);
    } else {
        lemma_count_concat(a, b.drop_last(), c);
        assert((a + b).drop_last() =~= a + b.drop_last());
        assert((a + b).last() == b.last());
    }
}

/// The count of a classification does not depend on the order of the
/// findings: the same findings in any order give the same count.
pub proof fn lemma_count_order_free(a: Seq<Finding>, b: Seq<Finding>, c: Classification)
    requires
        a.to_multiset() == b.to_multiset(),
    ensures
        count_class(a, c) == count_class(b, c),
    decreases a.len(),
{
    broadcast use vstd::seq_lib::group_to_multiset_ensures;
    broadcast use vstd::multiset::group_multiset_axioms;

    if a.len() == 0 {
        assert(a.to_multiset().len() == 0);
        assert(b.to_multiset().len() == b.len());
        assert(b =~= a);
    } else {
        let x = a.last();
        let d = a.drop_last();
        assert(a =~= d.push(x));
        assert(b.to_multiset().count(x) > 0);
        assert(b.contains(x));
        let j = choose|j: int| 0 <= j < b.len() && b[j] == x;
        let r = b.remove(j);
        assert(d.to_multiset() =~= a.to_multiset().remove(x));
        assert(r.to_multiset() =~= b.to_multiset().remove(x));
        lemma_count_order_free(d, r, c);
        let t = b.take(j);
        let u = b.skip(j + 1);
        let one = seq![x];
        assert(r =~= t + u);
        assert(b =~= t + one + u);
        assert(one.drop_last() =~= Seq::<Finding>::empty());
        lemma_count_concat(t, one, c);
        lemma_count_concat(t + one, u, c);
        lemma_count_concat(t, u, c);
        assert(a =~= d + one);
        lemma_count_concat(d, one, c);
    }
}

/// A summary of findings counts each classification whatever the order of the
/// findings, and its four counts add up to the number of findings.
pub proof fn lemma_summary_order_free(s1: Summary, s2: Summary, a: Seq<Finding>, b: Seq<Finding>)
    requires
        s1.counts(a),
        s2.counts(b),
        a.to_multiset() == b.to_multiset(),
    ensures
        s1 == s2,
        s1.unused + s1.write_only + s1.read_only + s1.derive_only == a.len(),
{
    lemma_count_order_free(a, b, Classification::Unused);
    lemma_count_order_free(a, b, Classification::WriteOnly);
    lemma_count_order_free(a, b, Classification::ReadOnly);
    lemma_count_order_free(a, b, Classification::DeriveOnly);
    lemma_counts_add_up(a);
}

impl Summary {
    /// Whether this summary holds the counts of `findings`.
    pub open spec fn counts(self, findings: Seq<Finding>) -> bool {
        &&& self.unused == count_class(findings, Classification::Unused)
        &&& self.write_only == count_class(findings, Classification::WriteOnly)
        &&& self.read_only == count_class(findings, Classification::ReadOnly)
        &&& self.derive_only == count_class(findings, Classification::DeriveOnly)
    }

    /// Count the findings of each classification.
    pub fn from_findings(findings: &[Finding]) -> (summary: Summary)
        requires
            findings@.len() <= u32::MAX,
        ensures
            summary.counts(findings@),
    {
        let mut summary = Summary::default();
        let n = findings.len();
        let mut i: usize = 0;
        while i < n
            invariant
                n == findings@.len(),
                n <= u32::MAX,
                i <= n,
                summary.counts(findings@.take(i as int)),
            decreases n - i,
        {
            proof {
                let t = findings@.take(i + 1);
                assert(t.drop_last() =~= findings@.take(i as int));
                lemma_counts_add_up(findings@.take(i as int));
            }
            match findings[i].classification {
                Classification::Unused => summary.unused += 1,
                Classification::WriteOnly => summary.write_only += 1,
                Classification::ReadOnly => summary.read_only += 1,
                Classification::DeriveOnly => summary.derive_only += 1,
            }
            i = i + 1;
        }
        assert(findings@.take(n as int) =~= findings@);
        summary
    }
}

/// The full result of a `check` run.
#[derive(Debug)]
pub struct Report {
    pub schema_version: &'static str,
    /// The workspace root's path.
    pub workspace: String,
    pub findings: Vec<Finding>,
    pub summary: Summary,
}

impl Report {
    /// Version of the JSON output schema.
    pub const SCHEMA_VERSION: &'static str = "0.1";

    /// Build a report from an already-ordered list of findings.
    pub fn new(workspace: String, findings: Vec<Finding>) -> (r: Report)
        requires
            findings@.len() <= u32::MAX,
        ensures
            r.schema_version@ == "0.1"@,
            r.workspace == workspace,
            r.findings@ == findings@,
            r.summary.counts(findings@),
    {
        let summary = Summary::from_findings(findings.as_slice());
        Report { schema_version: Self::SCHEMA_VERSION, workspace, findings, summary }
    }
}

} // verus!
