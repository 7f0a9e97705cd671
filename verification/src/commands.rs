//! The decisions of the subcommands: which fields are reported, in what
//! order, with what exit code, and what `explain` prints.
//!
//! The caller resolves the workspace, asks the language server for every
//! field's references and reads the files; it hands the results here.

use vstd::prelude::*;
use vstd::string::*;

use crate::analysis::{
    aggregate, classification_of_counts, classify, count_kind, lemma_classification_table, message_for,
    message_text, write_lines_of,
};
use crate::cli::{CheckArgs, ClassFilter, Severity};
use crate::config::KoyashiConfig;
use crate::model::{
    Classification, FieldDef, Finding, Location, ReferenceEntry, ReferenceKind, ReferenceSite,
    Report, Summary,
};
use crate::rust_analyzer::{char_column, char_column_spec, lemma_char_column_bound};
use crate::source::ReferenceKindMap;
use crate::order::{is_sorted, sort_spec, sort_stable};
use crate::report::{explanation_text, render_explanation};
use crate::text::{join, join_strings, same_text, views};

verus! {

/// The kind of a reference at `location`, from the roles recorded in its
/// file: a reference outside the expressions (for example inside a macro) is
/// counted as a read, so it is never mistaken for dead code.
pub fn site_for(location: Location, kinds: &ReferenceKindMap) -> (r: ReferenceSite)
    ensures
        r.location == location,
        r.kind == (if kinds.view().contains_key((location.line, location.character)) {
            kinds.view()[(location.line, location.character)]
        } else {
            ReferenceKind::Read
        }),
{
    let kind = match kinds.get(location.line, location.character) {
        Some(k) => k,
        None => ReferenceKind::Read,
    };
    ReferenceSite { location, kind }
}

/// The kind of a reference that the language server reports at
/// `location`, whose column counts UTF-16 code units on `line_text`, the text
/// of its line: the column becomes a character column and the kind is looked
/// up as `site_for` does. `None` where the line's length in characters plus
/// the reported column does not fit a `u32`.
pub fn site_at(location: Location, line_text: &str, kinds: &ReferenceKindMap) -> (r: Option<
    ReferenceSite,
>)
    ensures
        match r {
            Some(site) => {
                let character = char_column_spec(line_text@, location.character as nat);
                &&& line_text@.len() + location.character <= u32::MAX
                &&& site.location.file == location.file
                &&& site.location.line == location.line
                &&& site.location.character == character
                &&& site.kind == (if kinds.view().contains_key((location.line, character as u32)) {
                    kinds.view()[(location.line, character as u32)]
                } else {
                    ReferenceKind::Read
                })
            },
            None => line_text@.len() + location.character > u32::MAX,
        },
{
    let n = line_text.unicode_len();
    if n > (0xffff_ffffu32 - location.character) as usize {
        return None;
    }
    proof {
        lemma_char_column_bound(line_text@, location.character as nat);
    }
    let character = char_column(line_text, location.character);
    let Location { file, line, character: _ } = location;
    Some(site_for(Location { file, line, character }, kinds))
}

/// The classification that a filter selects.
pub open spec fn filter_class(filter: ClassFilter) -> Classification {
    match filter {
        ClassFilter::Unused => Classification::Unused,
        ClassFilter::WriteOnly => Classification::WriteOnly,
        ClassFilter::ReadOnly => Classification::ReadOnly,
        ClassFilter::DeriveOnly => Classification::DeriveOnly,
    }
}

/// The classification that a filter selects.
pub fn classification_of(filter: ClassFilter) -> (c: Classification)
    ensures
        c == filter_class(filter),
{
    match filter {
        ClassFilter::Unused => Classification::Unused,
        ClassFilter::WriteOnly => Classification::WriteOnly,
        ClassFilter::ReadOnly => Classification::ReadOnly,
        ClassFilter::DeriveOnly => Classification::DeriveOnly,
    }
}

/// Whether a classification passes the `--include` filter: an empty filter
/// allows every classification, else one of its entries must select it.
pub open spec fn allows(filters: Seq<ClassFilter>, c: Classification) -> bool {
    filters.len() == 0 || exists|i: int| 0 <= i < filters.len() && filter_class(#[trigger] filters[i]) == c
}

/// Whether a classification passes the `--include` filter (empty allows all).
pub fn include_allows(filters: &[ClassFilter], classification: Classification) -> (r: bool)
    ensures
        r == allows(filters@, classification),
{
    if filters.len() == 0 {
        return true;
    }
    let n = filters.len();
    let mut i: usize = 0;
    while i < n
        invariant
            n == filters@.len(),
            i <= n,
            forall|j: int| 0 <= j < i ==> filter_class(#[trigger] filters@[j]) != classification,
        decreases n - i,
    {
        if classification_of(filters[i]) == classification {
            return true;
        }
        i = i + 1;
    }
    false
}

/// Whether the counts trigger a failing exit code at `severity`: dead fields
/// (unused or write-only) at every threshold, advisory ones (read-only or
/// derive-only) at `info` only.
pub open spec fn triggered(severity: Severity, summary: Summary) -> bool {
    let dead = summary.unused > 0 || summary.write_only > 0;
    let advisory = summary.read_only > 0 || summary.derive_only > 0;
    match severity {
        Severity::Error | Severity::Warn => dead,
        Severity::Info => dead || advisory,
    }
}

/// Map the severity threshold and counts to an exit code.
pub fn exit_code(severity: Severity, summary: &Summary) -> (r: u8)
    ensures
        r == (if triggered(severity, *summary) {
            1u8
        } else {
            0u8
        }),
        severity == Severity::Info ==> (r == 1 <==> summary.unused + summary.write_only
            + summary.read_only + summary.derive_only > 0),
        severity != Severity::Info ==> (r == 1 <==> summary.unused + summary.write_only > 0),
        r == 0 || r == 1,
{
    let dead = summary.unused > 0 || summary.write_only > 0;
    let advisory = summary.read_only > 0 || summary.derive_only > 0;
    let triggered = match severity {
        Severity::Error | Severity::Warn => dead,
        Severity::Info => dead || advisory,
    };
    if triggered {
        1
    } else {
        0
    }
}

/// At `info` any finding fails the run; at `warn` and `error` only unused or
/// write-only findings do.
pub proof fn lemma_exit_thresholds(summary: Summary)
    ensures
        triggered(Severity::Info, summary) <==> summary.unused + summary.write_only
            + summary.read_only + summary.derive_only > 0,
        triggered(Severity::Warn, summary) <==> summary.unused + summary.write_only > 0,
        triggered(Severity::Error, summary) <==> summary.unused + summary.write_only > 0,
{
}

/// A lower threshold fails whenever a higher one does: `info` fails whenever
/// `warn` does, and `warn` exactly when `error` does.
pub proof fn lemma_exit_code_monotone(summary: Summary)
    ensures
        triggered(Severity::Warn, summary) == triggered(Severity::Error, summary),
        triggered(Severity::Warn, summary) ==> triggered(Severity::Info, summary),
{
}

/// The classification of `field` from the references `sites`.
pub open spec fn field_class(field: FieldDef, sites: Seq<ReferenceSite>) -> Option<Classification> {
    classification_of_counts(
        count_kind(sites, ReferenceKind::Initializer),
        count_kind(sites, ReferenceKind::Read) + count_kind(sites, ReferenceKind::MutBorrow),
        count_kind(sites, ReferenceKind::Write) + count_kind(sites, ReferenceKind::MutBorrow),
        field.used_by_derive,
    )
}

/// Whether `field` is reported: it is classified, its classification passes
/// the filter, and the configuration does not suppress it for the field.
pub open spec fn reported(
    field: FieldDef,
    sites: Seq<ReferenceSite>,
    filters: Seq<ClassFilter>,
    config: KoyashiConfig,
) -> bool {
    match field_class(field, sites) {
        Some(c) => allows(filters, c) && !(config.table().contains_key(field.display_text())
            && config.table()[field.display_text()].contains(c)),
        None => false,
    }
}

/// The configuration leaves a classified field out only for the
/// classifications listed for it: a field whose classification passes the
/// filter is reported exactly when its entry in the table, if it has one,
/// does not list that classification.
pub proof fn lemma_suppression_only_listed(
    field: FieldDef,
    sites: Seq<ReferenceSite>,
    filters: Seq<ClassFilter>,
    config: KoyashiConfig,
    c: Classification,
)
    requires
        field_class(field, sites) == Some(c),
        filters.len() == 0 || exists|i: int|
            0 <= i < filters.len() && filter_class(#[trigger] filters[i]) == c,
    ensures
        !config.table().contains_key(field.display_text()) ==> reported(
            field,
            sites,
            filters,
            config,
        ),
        config.table().contains_key(field.display_text()) && !config.table()[field.display_text()].contains(c)
            ==> reported(field, sites, filters, config),
        config.table().contains_key(field.display_text()) && config.table()[field.display_text()].contains(c)
            ==> !reported(field, sites, filters, config),
{
}

/// The `--include` filter: without entries it lets every classification
/// through; otherwise exactly those that one of its entries names.
pub proof fn lemma_filter_names(filters: Seq<ClassFilter>, c: Classification)
    ensures
        filters.len() == 0 ==> allows(filters, c),
        filter_class(ClassFilter::Unused) == Classification::Unused,
        filter_class(ClassFilter::WriteOnly) == Classification::WriteOnly,
        filter_class(ClassFilter::ReadOnly) == Classification::ReadOnly,
        filter_class(ClassFilter::DeriveOnly) == Classification::DeriveOnly,
        forall|i: int| 0 <= i < filters.len() && filter_class(#[trigger] filters[i]) == c ==> allows(filters, c),
        filters.len() > 0 && (forall|i: int| 0 <= i < filters.len() ==> filter_class(#[trigger] filters[i]) != c)
            ==> !allows(filters, c),
{
}

/// A field is reported with the classification that its reference counts
/// give: unused when it has no reference, read-only when read and never
/// written, write-only or derive-only when placed and never read; and a field
/// that is both read and written never is.
pub proof fn lemma_field_class_counts(field: FieldDef, sites: Seq<ReferenceSite>)
    ensures
        sites.len() == 0 ==> field_class(field, sites) == Some(Classification::Unused),
        count_kind(sites, ReferenceKind::Read) > 0 && count_kind(sites, ReferenceKind::Write) == 0
            && count_kind(sites, ReferenceKind::MutBorrow) == 0 ==> field_class(field, sites) == Some(
            Classification::ReadOnly,
        ),
{
    lemma_classification_table(
        count_kind(sites, ReferenceKind::Initializer),
        count_kind(sites, ReferenceKind::Read) + count_kind(sites, ReferenceKind::MutBorrow),
        count_kind(sites, ReferenceKind::Write) + count_kind(sites, ReferenceKind::MutBorrow),
        field.used_by_derive,
    );
}

/// A field that is both read and written is healthy: it is never reported,
/// whatever the filter and the configuration.
pub proof fn lemma_healthy_never_reported(
    field: FieldDef,
    sites: Seq<ReferenceSite>,
    filters: Seq<ClassFilter>,
    config: KoyashiConfig,
)
    requires
        count_kind(sites, ReferenceKind::Read) + count_kind(sites, ReferenceKind::MutBorrow) > 0,
        count_kind(sites, ReferenceKind::Write) + count_kind(sites, ReferenceKind::MutBorrow) > 0,
    ensures
        !reported(field, sites, filters, config),
{
}

/// Whether `e` lists the reference site `s`.
pub open spec fn entry_of(e: ReferenceEntry, s: ReferenceSite) -> bool {
    &&& e.kind@ == s.kind.label_text()
    &&& e.file@ == s.location.file@
    &&& e.line == s.location.line
}

/// Whether `f` is the finding for `field` with the references `sites`: its
/// classification, name, place, counts, write lines and message, and, with
/// `explain`, one entry per reference site in their order.
pub open spec fn finding_of(
    f: Finding,
    field: FieldDef,
    sites: Seq<ReferenceSite>,
    explain: bool,
) -> bool {
    &&& field_class(field, sites) == Some(f.classification)
    &&& f.field@ == field.display_text()
    &&& f.file@ == field.location.file@
    &&& f.line == field.location.line
    &&& f.initializers == count_kind(sites, ReferenceKind::Initializer)
    &&& f.reads == count_kind(sites, ReferenceKind::Read) + count_kind(
        sites,
        ReferenceKind::MutBorrow,
    )
    &&& f.writes == count_kind(sites, ReferenceKind::Write) + count_kind(
        sites,
        ReferenceKind::MutBorrow,
    )
    &&& f.write_lines@ == sort_spec(write_lines_of(sites))
    &&& f.message@ == message_text(f.classification)
    &&& if explain {
        &&& f.references@.len() == sites.len()
        &&& forall|i: int| 0 <= i < sites.len() ==> entry_of(#[trigger] f.references@[i], sites[i])
    } else {
        f.references@.len() == 0
    }
}

/// The finding for `field`, if it is reported.
pub fn finding_for(
    field: &FieldDef,
    sites: &[ReferenceSite],
    filters: &[ClassFilter],
    explain: bool,
    config: &KoyashiConfig,
) -> (r: Option<Finding>)
    requires
        sites@.len() <= u32::MAX,
    ensures
        r is Some <==> reported(*field, sites@, filters@, *config),
        r matches Some(f) ==> finding_of(f, *field, sites@, explain),
{
    let stats = aggregate(sites);
    let classification = match classify(&stats, field.used_by_derive) {
        Some(c) => c,
        None => return None,
    };
    if !include_allows(filters, classification) {
        return None;
    }
    let name = field.display_name();
    if config.is_suppressed(name.as_str(), classification) {
        return None;
    }
    let mut references: Vec<ReferenceEntry> = Vec::new();
    if explain {
        let n = sites.len();
        let mut i: usize = 0;
        while i < n
            invariant
                n == sites@.len(),
                i <= n,
                references@.len() == i,
                forall|k: int| 0 <= k < i ==> entry_of(#[trigger] references@[k], sites@[k]),
            decreases n - i,
        {
            let site = &sites[i];
            references.push(
                ReferenceEntry {
                    kind: site.kind.label(),
                    file: site.location.file.clone(),
                    line: site.location.line,
                },
            );
            i = i + 1;
        }
    }
    Some(
        Finding {
            classification,
            field: name,
            file: field.location.file.clone(),
            line: field.location.line,
            initializers: stats.initializers,
            reads: stats.reads,
            writes: stats.writes,
            write_lines: stats.write_lines,
            message: String::from_str(message_for(classification)),
            references,
        },
    )
}

/// The views of the reference lists.
pub open spec fn site_lists(sites: Seq<Vec<ReferenceSite>>) -> Seq<Seq<ReferenceSite>> {
    sites.map_values(|v: Vec<ReferenceSite>| v@)
}

/// Whether `out` holds, in order, the findings of the reported fields among
/// `fields`, whose references are `sites` (one list per field).
pub open spec fn findings_of(
    out: Seq<Finding>,
    fields: Seq<FieldDef>,
    sites: Seq<Seq<ReferenceSite>>,
    filters: Seq<ClassFilter>,
    explain: bool,
    config: KoyashiConfig,
) -> bool
    decreases fields.len(),
{
    if fields.len() == 0 {
        out.len() == 0
    } else if reported(fields.last(), sites.last(), filters, config) {
        &&& out.len() > 0
        &&& finding_of(out.last(), fields.last(), sites.last(), explain)
        &&& findings_of(
            out.drop_last(),
            fields.drop_last(),
            sites.drop_last(),
            filters,
            explain,
            config,
        )
    } else {
        findings_of(out, fields.drop_last(), sites.drop_last(), filters, explain, config)
    }
}

proof fn lemma_findings_of_len(
    out: Seq<Finding>,
    fields: Seq<FieldDef>,
    sites: Seq<Seq<ReferenceSite>>,
    filters: Seq<ClassFilter>,
    explain: bool,
    config: KoyashiConfig,
)
    requires
        findings_of(out, fields, sites, filters, explain, config),
    ensures
        out.len() <= fields.len(),
    decreases fields.len(),
{
    if fields.len() > 0 {
        if reported(fields.last(), sites.last(), filters, config) {
            lemma_findings_of_len(
                out.drop_last(),
                fields.drop_last(),
                sites.drop_last(),
                filters,
                explain,
                config,
            );
        } else {
            lemma_findings_of_len(out, fields.drop_last(), sites.drop_last(), filters, explain, config);
        }
    }
}

/// Requirements on the reference lists: one per field, each short enough to
/// be counted in a `u32`.
pub open spec fn sites_fit(fields: Seq<FieldDef>, sites: Seq<Vec<ReferenceSite>>) -> bool {
    &&& sites.len() == fields.len()
    &&& forall|i: int| 0 <= i < sites.len() ==> (#[trigger] sites[i])@.len() <= u32::MAX
}

/// The findings of the reported fields, in the order of `fields`.
pub fn collect_findings(
    fields: &Vec<FieldDef>,
    sites: &Vec<Vec<ReferenceSite>>,
    args: &CheckArgs,
    config: &KoyashiConfig,
) -> (r: Vec<Finding>)
    requires
        sites_fit(fields@, sites@),
    ensures
        findings_of(
            r@,
            fields@,
            site_lists(sites@),
            args.included@,
            args.explain,
            *config,
        ),
{
    let mut out: Vec<Finding> = Vec::new();
    let n = fields.len();
    let mut i: usize = 0;
    while i < n
        invariant
            n == fields@.len(),
            sites_fit(fields@, sites@),
            i <= n,
            findings_of(
                out@,
                fields@.take(i as int),
                site_lists(sites@).take(i as int),
                args.included@,
                args.explain,
                *config,
            ),
        decreases n - i,
    {
        let found = finding_for(
            &fields[i],
            sites[i].as_slice(),
            args.included.as_slice(),
            args.explain,
            config,
        );
        let ghost prev = out@;
        proof {
            assert(fields@.take(i + 1).drop_last() =~= fields@.take(i as int));
            assert(site_lists(sites@).take(i + 1).drop_last() =~= site_lists(sites@).take(
                i as int,
            ));
            assert(site_lists(sites@).take(i + 1).last() == sites@[i as int]@);
        }
        match found {
            Some(f) => {
                out.push(f);
                assert(out@.drop_last() =~= prev);
            },
            None => {},
        }
        i = i + 1;
    }
    assert(fields@.take(n as int) =~= fields@);
    assert(site_lists(sites@).take(n as int) =~= site_lists(sites@));
    out
}

/// Order findings by file, then line, then field name.
pub fn sort_findings(findings: Vec<Finding>) -> (r: Vec<Finding>)
    ensures
        r@ == sort_spec(findings@),
        is_sorted(r@),
        r@.to_multiset() == findings@.to_multiset(),
{
    proof {
        crate::order::lemma_sort_spec(findings@);
    }
    sort_stable(findings)
}

/// The report of a `check` run: the reported fields' findings, ordered by
/// file, line and field name, with their summary.
pub fn check_report(
    workspace: String,
    fields: &Vec<FieldDef>,
    sites: &Vec<Vec<ReferenceSite>>,
    args: &CheckArgs,
    config: &KoyashiConfig,
) -> (r: Report)
    requires
        sites_fit(fields@, sites@),
        fields@.len() <= u32::MAX,
    ensures
        r.workspace == workspace,
        r.schema_version@ == "0.1"@,
        exists|found: Seq<Finding>|
            {
                &&& findings_of(
                    found,
                    fields@,
                    site_lists(sites@),
                    args.included@,
                    args.explain,
                    *config,
                )
                &&& r.findings@ == sort_spec(found)
            },
        is_sorted(r.findings@),
        r.summary.counts(r.findings@),
{
    let found = collect_findings(fields, sites, args, config);
    proof {
        lemma_findings_of_len(
            found@,
            fields@,
            site_lists(sites@),
            args.included@,
            args.explain,
            *config,
        );
        crate::order::lemma_sort_spec(found@);
    }
    let sorted = sort_findings(found);
    Report::new(workspace, sorted)
}

/// The fields whose `Struct::field` name is `name`, in their order.
pub fn fields_named(fields: &Vec<FieldDef>, name: &str) -> (r: Vec<FieldDef>)
    ensures
        r@ == fields@.filter(|f: FieldDef| f.display_text() == name@),
{
    let mut out: Vec<FieldDef> = Vec::new();
    let n = fields.len();
    let mut i: usize = 0;
    while i < n
        invariant
            n == fields@.len(),
            i <= n,
            out@ == fields@.take(i as int).filter(|f: FieldDef| f.display_text() == name@),
        decreases n - i,
    {
        let shown = fields[i].display_name();
        proof {
            let t = fields@.take(i + 1);
            assert(t.drop_last() =~= fields@.take(i as int));
            reveal_with_fuel(Seq::<_>::filter, 1);
        }
        if same_text(shown.as_str(), name) {
            out.push(fields[i].clone());
        }
        i = i + 1;
    }
    assert(fields@.take(n as int) =~= fields@);
    out
}

/// The explanation of each field, from its references: its classification
/// follows from the aggregated counts.
pub open spec fn explanations_text(fields: Seq<FieldDef>, sites: Seq<Seq<ReferenceSite>>) -> Seq<
    char,
> {
    join(
        Seq::new(
            fields.len(),
            |i: int| explanation_text(fields[i], sites[i], field_class(fields[i], sites[i])),
        ),
        "\n\n"@,
    )
}

/// The explanations of `fields`, whose references are `sites` (one list per
/// field), separated by blank lines.
pub fn explain_fields(fields: &Vec<FieldDef>, sites: &Vec<Vec<ReferenceSite>>) -> (r: String)
    requires
        sites_fit(fields@, sites@),
    ensures
        r@ == explanations_text(fields@, site_lists(sites@)),
{
    let mut blocks: Vec<String> = Vec::new();
    let n = fields.len();
    let mut i: usize = 0;
    while i < n
        invariant
            n == fields@.len(),
            sites_fit(fields@, sites@),
            i <= n,
            blocks@.len() == i,
            forall|k: int|
                0 <= k < i ==> (#[trigger] blocks@[k])@ == explanation_text(
                    fields@[k],
                    sites@[k]@,
                    field_class(fields@[k], sites@[k]@),
                ),
        decreases n - i,
    {
        let stats = aggregate(sites[i].as_slice());
        let classification = classify(&stats, fields[i].used_by_derive);
        blocks.push(render_explanation(&fields[i], sites[i].as_slice(), classification));
        i = i + 1;
    }
    let r = join_strings(&blocks, "\n\n");
    assert(views(blocks@) =~= Seq::new(
        fields@.len(),
        |i: int|
            explanation_text(
                fields@[i],
                site_lists(sites@)[i],
                field_class(fields@[i], site_lists(sites@)[i]),
            ),
    ));
    r
}

} // verus!
