//! Rendering of a [`Report`] as text.

use colored::Colorize;
use vstd::prelude::*;
use vstd::string::*;

use crate::analysis::message_text;
use crate::analysis::message_for;
use crate::model::{Classification, FieldDef, Finding, ReferenceEntry, ReferenceSite, Report};
use crate::order::{sort_spec, sort_stable};
use crate::text::{
    decimal, decimal_text, join, join_strings, lacks, lemma_decimal_digits, lemma_split_join,
    pad_right, padded, push_text, spaces, split_on, views,
};

verus! {

/// The escape sequence that starts a foreground color.
pub open spec fn color_start(code: Seq<char>) -> Seq<char> {
    seq!['\x1b', '['] + code + seq!['m']
}

/// The escape sequence that resets all attributes.
pub open spec fn color_reset() -> Seq<char> {
    seq!['\x1b', '[', '0', 'm']
}

pub open spec fn has_no_escape(t: Seq<char>) -> bool {
    forall|i: int| 0 <= i < t.len() ==> t[i] != '\x1b'
}

/// What `colored` prints for `t` in the foreground color `code`: the text as
/// it is where coloring is off (by the environment or the terminal), and
/// otherwise the text between the color's start and a reset.
pub open spec fn painted(t: Seq<char>, code: Seq<char>, r: Seq<char>) -> bool {
    r == t || r == color_start(code) + t + color_reset()
}

/// `colored`'s `red`, printed with `to_string`.
///
/// Whether color is printed depends on the environment (`NO_COLOR`,
/// `CLICOLOR`, `CLICOLOR_FORCE`) and on the terminal; the contract states
/// what holds either way, for text that holds no escape character.
#[verifier::external_body]
fn paint_red(t: &str) -> (r: String)
    ensures
        has_no_escape(t@) ==> painted(t@, seq!['3', '1'], r@),
{
    t.red().to_string()
}

/// `colored`'s `yellow`, printed with `to_string`; see `paint_red`.
#[verifier::external_body]
fn paint_yellow(t: &str) -> (r: String)
    ensures
        has_no_escape(t@) ==> painted(t@, seq!['3', '3'], r@),
{
    t.yellow().to_string()
}

/// `colored`'s `blue`, printed with `to_string`; see `paint_red`.
#[verifier::external_body]
fn paint_blue(t: &str) -> (r: String)
    ensures
        has_no_escape(t@) ==> painted(t@, seq!['3', '4'], r@),
{
    t.blue().to_string()
}

/// The color code of a classification's label: red for the dead
/// classifications, yellow for `read-only`, blue for `derive-only`.
pub open spec fn color_code(c: Classification) -> Seq<char> {
    match c {
        Classification::Unused | Classification::WriteOnly => seq!['3', '1'],
        Classification::ReadOnly => seq!['3', '3'],
        Classification::DeriveOnly => seq!['3', '4'],
    }
}

/// The plain label of a classification, padded to twelve characters.
pub open spec fn plain_label(c: Classification) -> Seq<char> {
    pad_right(c.label_text(), 12)
}

/// Whether `l` is a label that `label` may print for `c`: the plain label,
/// or, with color, the plain label painted in the classification's color.
pub open spec fn is_label_text(c: Classification, use_color: bool, l: Seq<char>) -> bool {
    if use_color {
        painted(plain_label(c), color_code(c), l)
    } else {
        l == plain_label(c)
    }
}

proof fn lemma_labels_plain(c: Classification)
    ensures
        has_no_escape(plain_label(c)),
{
    reveal_strlit("unused");
    reveal_strlit("write-only");
    reveal_strlit("read-only");
    reveal_strlit("derive-only");
    let t = c.label_text();
    match c {
        Classification::Unused => assert(has_no_escape("unused"@)),
        Classification::WriteOnly => assert(has_no_escape("write-only"@)),
        Classification::ReadOnly => assert(has_no_escape("read-only"@)),
        Classification::DeriveOnly => assert(has_no_escape("derive-only"@)),
    }
    let sp = spaces(12 - t.len());
    lemma_spaces_plain(12 - t.len());
    assert forall|i: int| 0 <= i < plain_label(c).len() implies plain_label(c)[i] != '\x1b' by {
        if i < t.len() {
            assert(plain_label(c)[i] == t[i]);
        } else {
            assert(plain_label(c)[i] == sp[i - t.len()]);
        }
    }
}

proof fn lemma_spaces_plain(n: int)
    ensures
        has_no_escape(spaces(n)),
    decreases n,
{
    if n > 0 {
        lemma_spaces_plain(n - 1);
    }
}

/// The classification label, padded and optionally colored.
pub fn label(classification: Classification, use_color: bool) -> (r: String)
    ensures
        is_label_text(classification, use_color, r@),
{
    let text = padded(classification.label(), 12);
    if !use_color {
        return text;
    }
    proof {
        lemma_labels_plain(classification);
    }
    match classification {
        Classification::Unused | Classification::WriteOnly => paint_red(text.as_str()),
        Classification::ReadOnly => paint_yellow(text.as_str()),
        Classification::DeriveOnly => paint_blue(text.as_str()),
    }
}

/// `file:line`.
pub open spec fn location_text(file: Seq<char>, line: u32) -> Seq<char> {
    file + ":"@ + decimal(line as nat)
}

fn location_string(file: &str, line: u32) -> (r: String)
    ensures
        r@ == location_text(file@, line),
{
    let mut s = String::from_str(file);
    push_text(&mut s, ":");
    let n = decimal_text(line as u64);
    push_text(&mut s, n.as_str());
    s
}

/// The line numbers joined by `, `.
pub open spec fn lines_text(lines: Seq<u32>) -> Seq<char> {
    join(lines.map_values(|l: u32| decimal(l as nat)), ", "@)
}

/// The counts line of a finding (`unused` has none).
pub open spec fn counts_text(f: Finding) -> Option<Seq<char>> {
    let reads = decimal(f.reads as nat) + " reads, "@ + decimal(f.writes as nat) + " writes"@;
    match f.classification {
        Classification::Unused => None,
        Classification::WriteOnly => Some(
            if f.write_lines@.len() == 0 {
                reads
            } else {
                reads + " (lines "@ + lines_text(f.write_lines@) + ")"@
            },
        ),
        Classification::ReadOnly | Classification::DeriveOnly => Some(
            decimal(f.initializers as nat) + (if f.initializers == 1 {
                " initializer, "@
            } else {
                " initializers, "@
            }) + reads,
        ),
    }
}

fn lines_string(lines: &Vec<u32>) -> (r: String)
    ensures
        r@ == lines_text(lines@),
{
    let mut parts: Vec<String> = Vec::new();
    let n = lines.len();
    let mut i: usize = 0;
    while i < n
        invariant
            n == lines@.len(),
            i <= n,
            parts@.len() == i,
            forall|k: int| 0 <= k < i ==> #[trigger] parts@[k]@ == decimal(lines@[k] as nat),
        decreases n - i,
    {
        parts.push(decimal_text(lines[i] as u64));
        i = i + 1;
    }
    let r = join_strings(&parts, ", ");
    assert(views(parts@) =~= lines@.map_values(|l: u32| decimal(l as nat)));
    r
}

/// The counts line for a finding (`unused` has none).
pub fn counts_line(finding: &Finding) -> (r: Option<String>)
    ensures
        match r {
            Some(s) => counts_text(*finding) == Some(s@),
            None => counts_text(*finding) is None,
        },
{
    match finding.classification {
        Classification::Unused => None,
        Classification::WriteOnly => {
            let mut s = decimal_text(finding.reads as u64);
            push_text(&mut s, " reads, ");
            let w = decimal_text(finding.writes as u64);
            push_text(&mut s, w.as_str());
            push_text(&mut s, " writes");
            if finding.write_lines.len() != 0 {
                push_text(&mut s, " (lines ");
                let l = lines_string(&finding.write_lines);
                push_text(&mut s, l.as_str());
                push_text(&mut s, ")");
            }
            Some(s)
        },
        Classification::ReadOnly | Classification::DeriveOnly => {
            let mut s = decimal_text(finding.initializers as u64);
            if finding.initializers == 1 {
                push_text(&mut s, " initializer, ");
            } else {
                push_text(&mut s, " initializers, ");
            }
            let r = decimal_text(finding.reads as u64);
            push_text(&mut s, r.as_str());
            push_text(&mut s, " reads, ");
            let w = decimal_text(finding.writes as u64);
            push_text(&mut s, w.as_str());
            push_text(&mut s, " writes");
            Some(s)
        },
    }
}

/// The indent of a finding's detail lines.
pub open spec fn detail_prefix() -> Seq<char> {
    spaces(13) + "↳ "@
}

/// The line of one reference site of a finding.
pub open spec fn entry_text(e: ReferenceEntry) -> Seq<char> {
    spaces(15) + pad_right(e.kind@, 11) + "  "@ + location_text(e.file@, e.line)
}

/// The lines of a finding's reference sites: none without sites, else a
/// heading and one line per site.
pub open spec fn entries_lines(es: Seq<ReferenceEntry>) -> Seq<Seq<char>> {
    if es.len() == 0 {
        seq![]
    } else {
        seq![detail_prefix() + decimal(es.len()) + " reference site(s):"@] + es.map_values(
            |e: ReferenceEntry| entry_text(e),
        )
    }
}

/// The lines of a finding, with `l` as its label.
pub open spec fn finding_lines(f: Finding, l: Seq<char>) -> Seq<Seq<char>> {
    let first = l + " "@ + pad_right(location_text(f.file@, f.line), 32) + " "@ + f.field@;
    let counts = match counts_text(f) {
        Some(c) => seq![detail_prefix() + c],
        None => seq![],
    };
    seq![first] + counts + seq![detail_prefix() + f.message@] + entries_lines(f.references@)
}

/// The text of a finding, with `l` as its label.
pub open spec fn finding_text(f: Finding, l: Seq<char>) -> Seq<char> {
    join(finding_lines(f, l), "\n"@)
}

fn entry_string(e: &ReferenceEntry) -> (r: String)
    ensures
        r@ == entry_text(*e),
{
    let mut s = padded("", 15);
    let k = padded(e.kind, 11);
    push_text(&mut s, k.as_str());
    push_text(&mut s, "  ");
    let loc = location_string(e.file.as_str(), e.line);
    push_text(&mut s, loc.as_str());
    proof {
        reveal_strlit("");
        assert(""@ + spaces(15 - 0) =~= spaces(15));
    }
    s
}

fn detail(t: &str) -> (r: String)
    ensures
        r@ == detail_prefix() + t@,
{
    let mut s = padded("", 13);
    push_text(&mut s, "↳ ");
    push_text(&mut s, t);
    proof {
        reveal_strlit("");
        assert(""@ + spaces(13 - 0) =~= spaces(13));
    }
    s
}

/// Render one finding, with `label` as its label.
pub fn render_finding_with(finding: &Finding, label: &str) -> (r: String)
    ensures
        r@ == finding_text(*finding, label@),
{
    let mut first = String::from_str(label);
    push_text(&mut first, " ");
    let loc = location_string(finding.file.as_str(), finding.line);
    let loc = padded(loc.as_str(), 32);
    push_text(&mut first, loc.as_str());
    push_text(&mut first, " ");
    push_text(&mut first, finding.field.as_str());
    let mut lines: Vec<String> = Vec::new();
    lines.push(first);
    let ghost counts_part: Seq<Seq<char>> = match counts_text(*finding) {
        Some(c) => seq![detail_prefix() + c],
        None => seq![],
    };
    match counts_line(finding) {
        Some(counts) => {
            lines.push(detail(counts.as_str()));
        },
        None => {},
    }
    lines.push(detail(finding.message.as_str()));
    let ghost base = views(lines@);
    assert(base =~= seq![views(lines@)[0]] + counts_part + seq![detail_prefix() + finding.message@]);
    let n = finding.references.len();
    if n > 0 {
        let count = decimal_text(n as u64);
        let mut heading = String::from_str(count.as_str());
        push_text(&mut heading, " reference site(s):");
        let h = detail(heading.as_str());
        assert(h@ == detail_prefix() + decimal(n as nat) + " reference site(s):"@);
        lines.push(h);
        assert(views(lines@) =~= base.push(h@));
        let mut i: usize = 0;
        assert(finding.references@.take(0).map_values(|e: ReferenceEntry| entry_text(e)) =~= Seq::<
            Seq<char>,
        >::empty());
        assert(views(lines@) =~= base + seq![detail_prefix() + decimal(n as nat)
            + " reference site(s):"@] + finding.references@.take(0).map_values(
            |e: ReferenceEntry| entry_text(e),
        ));
        while i < n
            invariant
                n == finding.references@.len(),
                i <= n,
                views(lines@) == base + seq![detail_prefix() + decimal(n as nat)
                    + " reference site(s):"@] + finding.references@.take(i as int).map_values(
                    |e: ReferenceEntry| entry_text(e),
                ),
            decreases n - i,
        {
            let line = entry_string(&finding.references[i]);
            let ghost before = views(lines@);
            lines.push(line);
            assert(finding.references@.take(i + 1).map_values(|e: ReferenceEntry| entry_text(e))
                =~= finding.references@.take(i as int).map_values(
                |e: ReferenceEntry| entry_text(e),
            ).push(entry_text(finding.references@[i as int])));
            assert(views(lines@) =~= before.push(entry_text(finding.references@[i as int])));
            i = i + 1;
        }
        assert(finding.references@.take(n as int) =~= finding.references@);
    }
    assert(views(lines@) =~= finding_lines(*finding, label@));
    join_strings(&lines, "\n")
}

/// Render one finding, with its label plain or colored.
pub fn render_finding(finding: &Finding, use_color: bool) -> (r: String)
    ensures
        exists|l: Seq<char>|
            is_label_text(finding.classification, use_color, l) && r@ == finding_text(
                *finding,
                l,
            ),
{
    let l = label(finding.classification, use_color);
    render_finding_with(finding, l.as_str())
}

/// Whether `t` is a text that `render_finding` may print for `f`.
pub open spec fn finding_rendered(f: Finding, use_color: bool, t: Seq<char>) -> bool {
    exists|l: Seq<char>| is_label_text(f.classification, use_color, l) && t == finding_text(f, l)
}

/// The text of a report with no findings.
pub open spec fn empty_report_text() -> Seq<char> {
    "no koyashi fields found"@
}

/// Whether `r` is a text of the report: the placeholder without findings,
/// else the findings' texts separated by blank lines, each with a label that
/// `label` may print.
pub open spec fn is_report_text(findings: Seq<Finding>, use_color: bool, r: Seq<char>) -> bool {
    if findings.len() == 0 {
        r == empty_report_text()
    } else {
        exists|parts: Seq<Seq<char>>| report_parts(findings, use_color, parts, r)
    }
}

pub open spec fn report_parts(
    findings: Seq<Finding>,
    use_color: bool,
    parts: Seq<Seq<char>>,
    r: Seq<char>,
) -> bool {
    &&& parts.len() == findings.len()
    &&& forall|i: int|
        0 <= i < findings.len() ==> finding_rendered(findings[i], use_color, #[trigger] parts[i])
    &&& r == join(parts, "\n\n"@)
}

/// Render a report's findings as text.
pub fn render_text(report: &Report, use_color: bool) -> (r: String)
    ensures
        is_report_text(report.findings@, use_color, r@),
{
    if report.findings.len() == 0 {
        return String::from_str("no koyashi fields found");
    }
    let mut parts: Vec<String> = Vec::new();
    let n = report.findings.len();
    let mut i: usize = 0;
    while i < n
        invariant
            n == report.findings@.len(),
            i <= n,
            parts@.len() == i,
            forall|k: int|
                0 <= k < i ==> finding_rendered(report.findings@[k], use_color, #[trigger] parts@[k]@),
        decreases n - i,
    {
        let t = render_finding(&report.findings[i], use_color);
        let ghost before = parts@;
        parts.push(t);
        assert forall|k: int| 0 <= k < i + 1 implies finding_rendered(
            report.findings@[k],
            use_color,
            #[trigger] parts@[k]@,
        ) by {
            if k < i {
                assert(parts@[k] == before[k]);
            }
        }
        i = i + 1;
    }
    let r = join_strings(&parts, "\n\n");
    assert(report_parts(report.findings@, use_color, views(parts@), r@)) by {
        assert forall|k: int| 0 <= k < n implies finding_rendered(
            report.findings@[k],
            use_color,
            #[trigger] views(parts@)[k],
        ) by {
            assert(views(parts@)[k] == parts@[k]@);
        }
    }
    r
}

/// Render the findings of a report with plain labels: exactly one text.
pub proof fn lemma_plain_report_text(findings: Seq<Finding>, r: Seq<char>)
    requires
        is_report_text(findings, false, r),
        findings.len() > 0,
    ensures
        r == join(findings.map_values(|f: Finding| finding_text(f, plain_label(f.classification))), "\n\n"@),
{
    let parts = choose|parts: Seq<Seq<char>>| report_parts(findings, false, parts, r);
    assert forall|i: int| 0 <= i < findings.len() implies #[trigger] parts[i] == finding_text(
        findings[i],
        plain_label(findings[i].classification),
    ) by {
        assert(finding_rendered(findings[i], false, parts[i]));
    }
    assert(parts =~= findings.map_values(|f: Finding| finding_text(f, plain_label(f.classification))));
}

/// The result line's text: the classification and its message, or healthy.
pub open spec fn result_text(c: Option<Classification>) -> Seq<char> {
    match c {
        Some(c) => c.label_text() + " — "@ + message_text(c),
        None => "healthy — the field is both read and written"@,
    }
}

/// The line of one reference site in an explanation.
pub open spec fn site_text(s: ReferenceSite) -> Seq<char> {
    spaces(4) + pad_right(s.kind.label_text(), 11) + "  "@ + location_text(
        s.location.file@,
        s.location.line,
    )
}

/// The lines of a field's explanation: its name, where it is defined, its
/// classification, and its reference sites ordered by file and line.
pub open spec fn explanation_lines(
    field: FieldDef,
    sites: Seq<ReferenceSite>,
    c: Option<Classification>,
) -> Seq<Seq<char>> {
    let head = seq![
        field.display_text(),
        "  defined  "@ + location_text(field.location.file@, field.location.line),
        "  result   "@ + result_text(c),
        Seq::<char>::empty(),
    ];
    if sites.len() == 0 {
        head + seq!["  no references"@]
    } else {
        head + seq!["  "@ + decimal(sites.len()) + " reference(s):"@] + sort_spec(sites).map_values(
            |s: ReferenceSite| site_text(s),
        )
    }
}

/// The text of a field's explanation.
pub open spec fn explanation_text(
    field: FieldDef,
    sites: Seq<ReferenceSite>,
    c: Option<Classification>,
) -> Seq<char> {
    join(explanation_lines(field, sites, c), "\n"@)
}

proof fn lemma_lacks_concat(a: Seq<char>, b: Seq<char>)
    requires
        lacks(a, '\n'),
        lacks(b, '\n'),
    ensures
        lacks(a + b, '\n'),
{
    assert forall|i: int| 0 <= i < (a + b).len() implies (a + b)[i] != '\n' by {
        if i < a.len() {
            assert((a + b)[i] == a[i]);
        } else {
            assert((a + b)[i] == b[i - a.len()]);
        }
    }
}

proof fn lemma_spaces_lack(n: int)
    ensures
        lacks(spaces(n), '\n'),
    decreases n,
{
    if n > 0 {
        lemma_spaces_lack(n - 1);
    }
}

proof fn lemma_location_lacks(file: Seq<char>, line: u32)
    requires
        lacks(file, '\n'),
    ensures
        lacks(location_text(file, line), '\n'),
{
    reveal_strlit(":");
    lemma_decimal_digits(line as nat);
    lemma_lacks_concat(file, ":"@);
    lemma_lacks_concat(file + ":"@, decimal(line as nat));
}

proof fn lemma_result_lacks(c: Option<Classification>)
    ensures
        lacks(result_text(c), '\n'),
{
    reveal_strlit(" — ");
    reveal_strlit("healthy — the field is both read and written");
    reveal_strlit("unused");
    reveal_strlit("write-only");
    reveal_strlit("read-only");
    reveal_strlit("derive-only");
    reveal_strlit("no references found");
    reveal_strlit("field is written but its value is never observed");
    reveal_strlit("field is set once at construction and never mutated");
    reveal_strlit("field is read only through a derive macro");
    match c {
        Some(k) => {
            lemma_lacks_concat(k.label_text(), " — "@);
            lemma_lacks_concat(k.label_text() + " — "@, message_text(k));
        },
        None => {},
    }
}

proof fn lemma_site_lacks(site: ReferenceSite)
    requires
        lacks(site.location.file@, '\n'),
    ensures
        lacks(site_text(site), '\n'),
{
    reveal_strlit("  ");
    reveal_strlit("initializer");
    reveal_strlit("read");
    reveal_strlit("write");
    reveal_strlit("mut-borrow");
    lemma_spaces_lack(4);
    let label = site.kind.label_text();
    lemma_spaces_lack(11 - label.len());
    lemma_lacks_concat(label, spaces(11 - label.len()));
    lemma_lacks_concat(spaces(4), pad_right(label, 11));
    lemma_lacks_concat(spaces(4) + pad_right(label, 11), "  "@);
    lemma_location_lacks(site.location.file@, site.location.line);
    lemma_lacks_concat(spaces(4) + pad_right(label, 11) + "  "@, location_text(
        site.location.file@,
        site.location.line,
    ));
}

/// Where neither the field's names, nor its file, nor the file of any
/// reference site holds a line break, the lines of an explanation (its text
/// split at each line break) are exactly `explanation_lines`: the field's
/// name, where it is defined, its result, an empty line, and then either
/// "no references" or the count and one line per site in file and line order.
pub proof fn lemma_explanation_split(
    field: FieldDef,
    sites: Seq<ReferenceSite>,
    c: Option<Classification>,
)
    requires
        lacks(field.struct_name@, '\n'),
        lacks(field.field_name@, '\n'),
        lacks(field.location.file@, '\n'),
        forall|i: int| 0 <= i < sites.len() ==> lacks((#[trigger] sites[i]).location.file@, '\n'),
    ensures
        split_on(explanation_text(field, sites, c), '\n') == explanation_lines(field, sites, c),
{
    broadcast use vstd::seq_lib::group_to_multiset_ensures;

    reveal_strlit("::");
    reveal_strlit("  defined  ");
    reveal_strlit("  result   ");
    reveal_strlit("  no references");
    reveal_strlit("  ");
    reveal_strlit(" reference(s):");
    lemma_lacks_concat(field.struct_name@, "::"@);
    lemma_lacks_concat(field.struct_name@ + "::"@, field.field_name@);
    lemma_location_lacks(field.location.file@, field.location.line);
    lemma_lacks_concat("  defined  "@, location_text(field.location.file@, field.location.line));
    lemma_result_lacks(c);
    lemma_lacks_concat("  result   "@, result_text(c));
    lemma_decimal_digits(sites.len());
    lemma_lacks_concat("  "@, decimal(sites.len()));
    lemma_lacks_concat("  "@ + decimal(sites.len()), " reference(s):"@);
    let lines = explanation_lines(field, sites, c);
    crate::order::lemma_sort_spec(sites);
    let sorted = sort_spec(sites);
    assert forall|i: int| 0 <= i < sorted.len() implies lacks(
        site_text(#[trigger] sorted[i]),
        '\n',
    ) by {
        assert(sorted.to_multiset().count(sorted[i]) > 0);
        assert(sites.contains(sorted[i]));
        let j = choose|j: int| 0 <= j < sites.len() && sites[j] == sorted[i];
        lemma_site_lacks(sorted[i]);
    }
    assert forall|i: int| 0 <= i < lines.len() implies lacks(#[trigger] lines[i], '\n') by {
        if i >= 5 {
            assert(lines[i] == site_text(sorted[i - 5]));
        }
    }
    lemma_split_join(lines, '\n');
    assert(seq!['\n'] =~= "\n"@) by {
        reveal_strlit("\n");
    }
}

fn site_string(site: &ReferenceSite) -> (r: String)
    ensures
        r@ == site_text(*site),
{
    let mut s = padded("", 4);
    let k = padded(site.kind.label(), 11);
    push_text(&mut s, k.as_str());
    push_text(&mut s, "  ");
    let loc = location_string(site.location.file.as_str(), site.location.line);
    push_text(&mut s, loc.as_str());
    proof {
        reveal_strlit("");
        assert(""@ + spaces(4 - 0) =~= spaces(4));
    }
    s
}

/// Render a per-field explanation: its definition, classification, and every
/// reference site listed by kind.
pub fn render_explanation(
    field: &FieldDef,
    sites: &[ReferenceSite],
    classification: Option<Classification>,
) -> (r: String)
    ensures
        r@ == explanation_text(*field, sites@, classification),
{
    let mut lines: Vec<String> = Vec::new();
    lines.push(field.display_name());
    let mut defined = String::from_str("  defined  ");
    let loc = location_string(field.location.file.as_str(), field.location.line);
    push_text(&mut defined, loc.as_str());
    lines.push(defined);
    let result = match classification {
        Some(class) => {
            let mut t = String::from_str(class.label());
            push_text(&mut t, " — ");
            push_text(&mut t, message_for(class));
            t
        },
        None => String::from_str("healthy — the field is both read and written"),
    };
    let mut result_line = String::from_str("  result   ");
    push_text(&mut result_line, result.as_str());
    lines.push(result_line);
    lines.push(String::new());
    if sites.len() == 0 {
        lines.push(String::from_str("  no references"));
        assert(views(lines@) =~= explanation_lines(*field, sites@, classification));
        return join_strings(&lines, "\n");
    }
    let mut copies: Vec<ReferenceSite> = Vec::new();
    let n = sites.len();
    let mut i: usize = 0;
    while i < n
        invariant
            n == sites@.len(),
            i <= n,
            copies@ == sites@.take(i as int),
        decreases n - i,
    {
        copies.push(sites[i].clone());
        assert(copies@ =~= sites@.take(i + 1));
        i = i + 1;
    }
    assert(sites@.take(n as int) =~= sites@);
    let sorted = sort_stable(copies);
    let count = decimal_text(n as u64);
    let mut heading = String::from_str("  ");
    push_text(&mut heading, count.as_str());
    push_text(&mut heading, " reference(s):");
    lines.push(heading);
    let ghost with_heading = views(lines@);
    proof {
        crate::order::lemma_sort_spec(sites@);
    }
    let m = sorted.len();
    let mut k: usize = 0;
    assert(sorted@.take(0).map_values(|s: ReferenceSite| site_text(s)) =~= Seq::<
        Seq<char>,
    >::empty());
    assert(views(lines@) =~= with_heading + sorted@.take(0).map_values(
        |s: ReferenceSite| site_text(s),
    ));
    while k < m
        invariant
            m == sorted@.len(),
            k <= m,
            views(lines@) == with_heading + sorted@.take(k as int).map_values(
                |s: ReferenceSite| site_text(s),
            ),
        decreases m - k,
    {
        let line = site_string(&sorted[k]);
        let ghost before = views(lines@);
        lines.push(line);
        assert(sorted@.take(k + 1).map_values(|s: ReferenceSite| site_text(s))
            =~= sorted@.take(k as int).map_values(|s: ReferenceSite| site_text(s)).push(
            site_text(sorted@[k as int]),
        ));
        assert(views(lines@) =~= before.push(site_text(sorted@[k as int])));
        k = k + 1;
    }
    assert(sorted@.take(m as int) =~= sorted@);
    assert(views(lines@) =~= explanation_lines(*field, sites@, classification));
    join_strings(&lines, "\n")
}

} // verus!
