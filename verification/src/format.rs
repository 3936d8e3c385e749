//! Rendering diagnostics for humans and for CI.
//!
//! The plain-text renderings are produced here character by character; the
//! JSON and SARIF renderings are documents built here and printed by
//! `serde_json`.

use vstd::prelude::*;
use vstd::string::*;

use crate::bundle::first_occurrences;
use crate::sorted::{holds_text, texts};
use crate::diagnostic::{findings, rule_table, rules, severity_text, Diagnostic, Finding, Rule, Severity};
use crate::json::{
    array1, count, count_or_null, items_view, members_view, object1, pretty_json, push_item,
    push_member, text, text_or_null, to_string_pretty, Json, JsonModel,
};
use crate::span::Span;
use crate::text::{chars_of, decimal, push_char, push_number, push_str, str_eq};

verus! {

/// The output formats a run can be rendered in.
#[derive(Debug, Clone, Copy, PartialEq, Eq, Structural)]
pub enum Format {
    /// Grouped by file, with spans and help text.
    Human,
    /// One JSON object with a `diagnostics` array.
    Json,
    /// GitHub Actions workflow commands, which render as inline annotations.
    Github,
    /// SARIF 2.1.0, for GitHub code scanning and other analysis tooling.
    Sarif,
}

/// What a run produced, independent of how it is rendered.
#[derive(Debug)]
pub struct Report {
    pub diagnostics: Vec<Diagnostic>,
    /// Bundle path as the user typed it, for display only.
    pub bundle: String,
}

/// How many of `fs` have severity `s`.
pub open spec fn count_of(fs: Seq<Finding>, s: Severity) -> nat
    decreases fs.len(),
{
    if fs.len() == 0 {
        0
    } else {
        count_of(fs.drop_last(), s) + if fs.last().severity == s {
            1nat
        } else {
            0nat
        }
    }
}

/// `t` right-aligned in a field `width` wide, padded with spaces.
pub open spec fn pad_left(t: Seq<char>, width: nat) -> Seq<char> {
    if t.len() >= width {
        t
    } else {
        Seq::new((width - t.len()) as nat, |_i: int| ' ') + t
    }
}

/// The line-number column of the human rendering.
pub open spec fn location_text(span: Option<Span>) -> Seq<char> {
    match span {
        Some(s) => pad_left(decimal(s.start.line as nat), 3),
        None => seq![' ', ' ', ' '],
    }
}

/// The lines the human rendering gives one finding.
pub open spec fn human_line(f: Finding) -> Seq<char> {
    seq![' ', ' '] + location_text(f.span) + seq![' ', ' '] + severity_text(f.severity) + seq![' ']
        + f.code + seq![' ', ' '] + f.message + seq!['\n'] + match f.help {
        Some(h) => "         help: "@ + h + seq!['\n'],
        None => seq![],
    }
}

/// The paths of `fs`, in order.
pub open spec fn paths_of(fs: Seq<Finding>) -> Seq<Seq<char>> {
    fs.map_values(|f: Finding| f.path)
}

/// The lines of the findings of `fs` at `path`, in order.
pub open spec fn lines_at(fs: Seq<Finding>, path: Seq<char>) -> Seq<char>
    decreases fs.len(),
{
    if fs.len() == 0 {
        seq![]
    } else {
        lines_at(fs.drop_last(), path) + if fs.last().path == path {
            human_line(fs.last())
        } else {
            seq![]
        }
    }
}

/// One block per path of `paths`: a blank line before every block but the
/// first, the path, then the lines of its findings.
pub open spec fn file_blocks(paths: Seq<Seq<char>>, fs: Seq<Finding>) -> Seq<char>
    decreases paths.len(),
{
    if paths.len() == 0 {
        seq![]
    } else {
        file_blocks(paths.drop_last(), fs) + (if paths.len() > 1 {
            seq!['\n']
        } else {
            seq![]
        }) + paths.last() + seq!['\n'] + lines_at(fs, paths.last())
    }
}

/// The human rendering of `fs`, grouped by file: each path heads one block,
/// in the order paths first appear, holding all its findings in order.
pub open spec fn human_items(fs: Seq<Finding>) -> Seq<char> {
    file_blocks(first_occurrences(paths_of(fs)), fs)
}

/// The whole human rendering of a report.
pub open spec fn human_text(bundle: Seq<char>, fs: Seq<Finding>) -> Seq<char> {
    if fs.len() == 0 {
        bundle + ": no findings\n"@
    } else {
        human_items(fs) + seq!['\n'] + decimal(count_of(fs, Severity::Error)) + " error(s), "@
            + decimal(count_of(fs, Severity::Warning)) + " warning(s), "@ + decimal(
            count_of(fs, Severity::Info),
        ) + " info(s)\n"@
    }
}

/// The characters GitHub treats as delimiters, escaped: `%`, `\r`, `\n`.
pub open spec fn escaped(t: Seq<char>) -> Seq<char>
    decreases t.len(),
{
    if t.len() == 0 {
        seq![]
    } else {
        escaped(t.drop_last()) + if t.last() == '%' {
            seq!['%', '2', '5']
        } else if t.last() == '\r' {
            seq!['%', '0', 'D']
        } else if t.last() == '\n' {
            seq!['%', '0', 'A']
        } else {
            seq![t.last()]
        }
    }
}

/// The GitHub annotation level of each severity.
pub open spec fn github_level(s: Severity) -> Seq<char> {
    match s {
        Severity::Error => "error"@,
        Severity::Warning => "warning"@,
        Severity::Info => "notice"@,
    }
}

/// One GitHub workflow command for a finding.
pub open spec fn github_item(f: Finding) -> Seq<char> {
    "::"@ + github_level(f.severity) + " file="@ + f.path + match f.span {
        Some(s) => ",line="@ + decimal(s.start.line as nat) + ",col="@ + decimal(
            s.start.column as nat,
        ),
        None => seq![],
    } + ",title="@ + f.code + "::"@ + escaped(f.message) + seq!['\n']
}

/// The GitHub rendering of `fs`.
pub open spec fn github_text(fs: Seq<Finding>) -> Seq<char>
    decreases fs.len(),
{
    if fs.len() == 0 {
        seq![]
    } else {
        github_text(fs.drop_last()) + github_item(fs.last())
    }
}

/// Escapes the characters GitHub treats as delimiters in workflow commands.
pub fn escape_workflow_data(value: &str) -> (r: String)
    ensures
        r@ == escaped(value@),
{
    let cs = chars_of(value);
    let mut out = String::new();
    let mut i: usize = 0;
    while i < cs.len()
        invariant
            i <= cs@.len(),
            cs@ == value@,
            out@ == escaped(cs@.take(i as int)),
        decreases cs@.len() - i,
    {
        assert(cs@.take(i + 1).drop_last() =~= cs@.take(i as int));
        let c = cs[i];
        let ghost before = out@;
        if c == '%' {
            push_char(&mut out, '%');
            push_char(&mut out, '2');
            push_char(&mut out, '5');
        } else if c == '\r' {
            push_char(&mut out, '%');
            push_char(&mut out, '0');
            push_char(&mut out, 'D');
        } else if c == '\n' {
            push_char(&mut out, '%');
            push_char(&mut out, '0');
            push_char(&mut out, 'A');
        } else {
            push_char(&mut out, c);
        }
        assert(out@ =~= escaped(cs@.take(i + 1)));
        i = i + 1;
    }
    assert(cs@.take(i as int) =~= cs@);
    out
}

/// Appends `n` in decimal, right-aligned in three columns.
fn push_location(out: &mut String, span: Option<Span>)
    ensures
        final(out)@ == old(out)@ + location_text(span),
{
    match span {
        Some(s) => {
            let digits = crate::text::decimal_chars(s.start.line as u64);
            let mut k: usize = digits.len();
            let ghost start = out@;
            while k < 3
                invariant
                    digits.len() <= k <= 3 || (k == digits.len() && k > 3),
                    out@ == start + Seq::new((k - digits.len()) as nat, |_i: int| ' '),
                decreases 3 - k,
            {
                push_char(out, ' ');
                k = k + 1;
                assert(out@ =~= start + Seq::new((k - digits.len()) as nat, |_i: int| ' '));
            }
            let ghost mid = out@;
            push_number(out, s.start.line as u64);
            assert(out@ =~= old(out)@ + location_text(span));
        },
        None => {
            push_str(out, "   ");
            proof {
                reveal_strlit("   ");
            }
            assert(out@ =~= old(out)@ + location_text(span));
        },
    }
}

fn push_line(out: &mut String, d: &Diagnostic)
    ensures
        final(out)@ == old(out)@ + human_line(d@),
{
    proof {
        reveal_strlit("  ");
    }
    let ghost s0 = out@;
    push_str(out, "  ");
    push_location(out, d.span);
    push_str(out, "  ");
    push_str(out, d.severity.as_str());
    push_char(out, ' ');
    let ghost s1 = out@;
    assert(s1 =~= s0 + seq![' ', ' '] + location_text(d.span) + seq![' ', ' ']
        + severity_text(d.severity) + seq![' ']);
    push_str(out, d.code);
    push_str(out, "  ");
    push_str(out, d.message.as_str());
    push_char(out, '\n');
    let ghost s2 = out@;
    assert(s2 =~= s1 + d.code@ + seq![' ', ' '] + d.message@ + seq!['\n']);
    match &d.help {
        Some(help) => {
            push_str(out, "         help: ");
            push_str(out, help.as_str());
            push_char(out, '\n');
        },
        None => {},
    }
    assert(out@ =~= old(out)@ + human_line(d@));
}

/// The distinct paths of `diagnostics`, in the order they first appear.
fn distinct_paths(diagnostics: &Vec<Diagnostic>) -> (r: Vec<String>)
    ensures
        texts(r@) == first_occurrences(paths_of(findings(diagnostics@))),
{
    let ghost ps = paths_of(findings(diagnostics@));
    let mut out: Vec<String> = Vec::new();
    let mut i: usize = 0;
    while i < diagnostics.len()
        invariant
            i <= diagnostics@.len(),
            ps == paths_of(findings(diagnostics@)),
            ps.len() == diagnostics@.len(),
            texts(out@) == first_occurrences(ps.take(i as int)),
        decreases diagnostics@.len() - i,
    {
        assert(ps.take(i + 1).drop_last() =~= ps.take(i as int));
        assert(ps[i as int] == diagnostics@[i as int].path@);
        let path = diagnostics[i].path.as_str();
        let seen = holds_text(&out, path);
        if !seen {
            let ghost before = texts(out@);
            out.push(path.to_owned());
            assert(texts(out@) =~= before.push(path@));
        }
        i = i + 1;
    }
    assert(ps.take(i as int) =~= ps);
    out
}

/// Appends the lines of the findings at `path`, in order.
fn push_lines_at(out: &mut String, diagnostics: &Vec<Diagnostic>, path: &str)
    ensures
        final(out)@ == old(out)@ + lines_at(findings(diagnostics@), path@),
{
    let ghost fs = findings(diagnostics@);
    let mut i: usize = 0;
    while i < diagnostics.len()
        invariant
            i <= diagnostics@.len(),
            fs == findings(diagnostics@),
            fs.len() == diagnostics@.len(),
            out@ == old(out)@ + lines_at(fs.take(i as int), path@),
        decreases diagnostics@.len() - i,
    {
        assert(fs.take(i + 1).drop_last() =~= fs.take(i as int));
        let d = &diagnostics[i];
        assert(d@ == fs[i as int]);
        let ghost before = out@;
        if str_eq(d.path.as_str(), path) {
            push_line(out, d);
        }
        assert(out@ =~= old(out)@ + lines_at(fs.take(i + 1), path@));
        i = i + 1;
    }
    assert(fs.take(i as int) =~= fs);
}

impl Report {
    /// The findings the report holds.
    pub open spec fn findings(&self) -> Seq<Finding> {
        findings(self.diagnostics@)
    }

    fn count(&self, severity: Severity) -> (n: usize)
        ensures
            n == count_of(self.findings(), severity),
    {
        let mut n: usize = 0;
        let mut i: usize = 0;
        while i < self.diagnostics.len()
            invariant
                i <= self.diagnostics@.len(),
                n == count_of(findings(self.diagnostics@.take(i as int)), severity),
                n <= i,
            decreases self.diagnostics@.len() - i,
        {
            assert(findings(self.diagnostics@.take(i + 1)).drop_last() =~= findings(
                self.diagnostics@.take(i as int),
            ));
            if self.diagnostics[i].severity == severity {
                n = n + 1;
            }
            i = i + 1;
        }
        assert(self.diagnostics@.take(i as int) =~= self.diagnostics@);
        n
    }

    pub fn errors(&self) -> (n: usize)
        ensures
            n == count_of(self.findings(), Severity::Error),
    {
        self.count(Severity::Error)
    }

    pub fn warnings(&self) -> (n: usize)
        ensures
            n == count_of(self.findings(), Severity::Warning),
    {
        self.count(Severity::Warning)
    }

    pub fn infos(&self) -> (n: usize)
        ensures
            n == count_of(self.findings(), Severity::Info),
    {
        self.count(Severity::Info)
    }

    /// The findings grouped by file, with spans, help text and a summary.
    pub fn render_human(&self) -> (r: String)
        ensures
            r@ == human_text(self.bundle@, self.findings()),
    {
        if self.diagnostics.len() == 0 {
            let mut out = self.bundle.as_str().to_owned();
            push_str(&mut out, ": no findings\n");
            return out;
        }
        let mut out = String::new();
        let ghost fs = self.findings();
        let paths = distinct_paths(&self.diagnostics);
        let ghost pv = texts(paths@);
        let mut k: usize = 0;
        while k < paths.len()
            invariant
                fs == self.findings(),
                pv == texts(paths@),
                k <= paths@.len(),
                out@ == file_blocks(pv.take(k as int), fs),
            decreases paths@.len() - k,
        {
            assert(pv.take(k + 1).drop_last() =~= pv.take(k as int));
            assert(pv[k as int] == paths@[k as int]@);
            let ghost before = out@;
            if k > 0 {
                push_char(&mut out, '\n');
            }
            push_str(&mut out, paths[k].as_str());
            push_char(&mut out, '\n');
            push_lines_at(&mut out, &self.diagnostics, paths[k].as_str());
            assert(out@ =~= file_blocks(pv.take(k + 1), fs));
            k = k + 1;
        }
        assert(pv.take(k as int) =~= pv);
        push_char(&mut out, '\n');
        push_number(&mut out, self.errors() as u64);
        push_str(&mut out, " error(s), ");
        push_number(&mut out, self.warnings() as u64);
        push_str(&mut out, " warning(s), ");
        push_number(&mut out, self.infos() as u64);
        push_str(&mut out, " info(s)\n");
        out
    }

    /// GitHub Actions workflow commands.
    ///
    /// The runner turns these into inline annotations on the PR diff, which is
    /// what makes a failing bundle visible where the change was made.
    pub fn render_github(&self) -> (r: String)
        ensures
            r@ == github_text(self.findings()),
    {
        let mut out = String::new();
        let ghost fs = self.findings();
        let mut i: usize = 0;
        while i < self.diagnostics.len()
            invariant
                fs == self.findings(),
                i <= fs.len(),
                out@ == github_text(fs.take(i as int)),
            decreases fs.len() - i,
        {
            assert(fs.take(i + 1).drop_last() =~= fs.take(i as int));
            let d = &self.diagnostics[i];
            assert(d@ == fs[i as int]);
            let ghost before = out@;
            let level = match d.severity {
                Severity::Error => "error",
                Severity::Warning => "warning",
                Severity::Info => "notice",
            };
            push_str(&mut out, "::");
            push_str(&mut out, level);
            push_str(&mut out, " file=");
            push_str(&mut out, d.path.as_str());
            match d.span {
                Some(span) => {
                    push_str(&mut out, ",line=");
                    push_number(&mut out, span.start.line as u64);
                    push_str(&mut out, ",col=");
                    push_number(&mut out, span.start.column as u64);
                },
                None => {},
            }
            push_str(&mut out, ",title=");
            push_str(&mut out, d.code);
            push_str(&mut out, "::");
            let message = escape_workflow_data(d.message.as_str());
            push_str(&mut out, message.as_str());
            push_char(&mut out, '\n');
            assert(out@ =~= before + github_item(fs[i as int]));
            i = i + 1;
        }
        assert(fs.take(i as int) =~= fs);
        out
    }
}

/// The SARIF result level of each severity.
pub open spec fn sarif_level_text(s: Severity) -> Seq<char> {
    match s {
        Severity::Error => "error"@,
        Severity::Warning => "warning"@,
        Severity::Info => "note"@,
    }
}

/// The SARIF result level a finding of `severity` is reported at.
pub fn sarif_level(severity: Severity) -> (s: &'static str)
    ensures
        s@ == sarif_level_text(severity),
{
    match severity {
        Severity::Error => "error",
        Severity::Warning => "warning",
        Severity::Info => "note",
    }
}

/// A line or column of a finding's span, or null when it has none.
pub open spec fn span_field(span: Option<Span>, column: bool) -> JsonModel {
    match span {
        Some(s) => JsonModel::Int(if column { s.start.column as int } else { s.start.line as int }),
        None => JsonModel::Null,
    }
}

/// An optional text, or null.
pub open spec fn text_or_null_model(t: Option<Seq<char>>) -> JsonModel {
    match t {
        Some(s) => JsonModel::Text(s),
        None => JsonModel::Null,
    }
}

/// One entry of the JSON rendering's `diagnostics` array.
pub open spec fn finding_json(f: Finding) -> JsonModel {
    JsonModel::Object(
        seq![
            ("code"@, JsonModel::Text(f.code)),
            ("severity"@, JsonModel::Text(severity_text(f.severity))),
            ("path"@, JsonModel::Text(f.path)),
            ("line"@, span_field(f.span, false)),
            ("column"@, span_field(f.span, true)),
            ("message"@, JsonModel::Text(f.message)),
            ("help"@, text_or_null_model(f.help)),
        ],
    )
}

/// The JSON rendering: the bundle, a summary of the counts, and every
/// finding in order.
pub open spec fn json_document(bundle: Seq<char>, fs: Seq<Finding>) -> JsonModel {
    JsonModel::Object(
        seq![
            ("bundle"@, JsonModel::Text(bundle)),
            (
                "summary"@,
                JsonModel::Object(
                    seq![
                        ("errors"@, JsonModel::Int(count_of(fs, Severity::Error) as int)),
                        ("warnings"@, JsonModel::Int(count_of(fs, Severity::Warning) as int)),
                        ("infos"@, JsonModel::Int(count_of(fs, Severity::Info) as int)),
                    ],
                ),
            ),
            ("diagnostics"@, JsonModel::Array(fs.map_values(|f: Finding| finding_json(f)))),
        ],
    )
}

/// Where the format whose rules SARIF results cite is published.
pub open spec fn format_url() -> Seq<char> {
    "https://github.com/GoogleCloudPlatform/knowledge-catalog/tree/main/okf"@
}

/// A rule as SARIF describes it to code-scanning tools.
pub open spec fn rule_json(r: Rule) -> JsonModel {
    JsonModel::Object(
        seq![
            ("id"@, JsonModel::Text(r.code@)),
            (
                "shortDescription"@,
                JsonModel::Object(seq![("text"@, JsonModel::Text(r.description@))]),
            ),
            ("helpUri"@, JsonModel::Text(format_url())),
            (
                "properties"@,
                JsonModel::Object(seq![("specSection"@, JsonModel::Text(r.spec_section@))]),
            ),
        ],
    )
}

/// Where a SARIF result points in its file: the span's start, or null.
pub open spec fn region_json(span: Option<Span>) -> JsonModel {
    match span {
        Some(s) => JsonModel::Object(
            seq![
                ("startLine"@, JsonModel::Int(s.start.line as int)),
                ("startColumn"@, JsonModel::Int(s.start.column as int)),
            ],
        ),
        None => JsonModel::Null,
    }
}

/// A finding as a SARIF result.
pub open spec fn result_json(f: Finding) -> JsonModel {
    JsonModel::Object(
        seq![
            ("ruleId"@, JsonModel::Text(f.code)),
            ("level"@, JsonModel::Text(sarif_level_text(f.severity))),
            ("message"@, JsonModel::Object(seq![("text"@, JsonModel::Text(f.message))])),
            (
                "locations"@,
                JsonModel::Array(
                    seq![
                        JsonModel::Object(
                            seq![
                                (
                                    "physicalLocation"@,
                                    JsonModel::Object(
                                        seq![
                                            (
                                                "artifactLocation"@,
                                                JsonModel::Object(
                                                    seq![("uri"@, JsonModel::Text(f.path))],
                                                ),
                                            ),
                                            ("region"@, region_json(f.span)),
                                        ],
                                    ),
                                ),
                            ],
                        ),
                    ],
                ),
            ),
        ],
    )
}

/// The SARIF 2.1.0 rendering: one run of this tool at `version`, with the
/// whole rule registry and one result per finding, in order.
pub open spec fn sarif_document(version: Seq<char>, fs: Seq<Finding>) -> JsonModel {
    JsonModel::Object(
        seq![
            ("version"@, JsonModel::Text("2.1.0"@)),
            ("$schema"@, JsonModel::Text("https://json.schemastore.org/sarif-2.1.0.json"@)),
            (
                "runs"@,
                JsonModel::Array(
                    seq![
                        JsonModel::Object(
                            seq![
                                (
                                    "tool"@,
                                    JsonModel::Object(
                                        seq![
                                            (
                                                "driver"@,
                                                JsonModel::Object(
                                                    seq![
                                                        ("name"@, JsonModel::Text("okft"@)),
                                                        (
                                                            "informationUri"@,
                                                            JsonModel::Text(
                                                                "https://github.com/galkleinman/okf-toolkit"@,
                                                            ),
                                                        ),
                                                        ("version"@, JsonModel::Text(version)),
                                                        (
                                                            "rules"@,
                                                            JsonModel::Array(
                                                                rule_table().map_values(
                                                                    |r: Rule| rule_json(r),
                                                                ),
                                                            ),
                                                        ),
                                                    ],
                                                ),
                                            ),
                                        ],
                                    ),
                                ),
                                (
                                    "results"@,
                                    JsonModel::Array(fs.map_values(|f: Finding| result_json(f))),
                                ),
                            ],
                        ),
                    ],
                ),
            ),
        ],
    )
}

/// The text of a report in `format`, for a tool at `version`.
pub open spec fn rendered(format: Format, bundle: Seq<char>, fs: Seq<Finding>, version: Seq<char>) -> Seq<char> {
    match format {
        Format::Human => human_text(bundle, fs),
        Format::Json => pretty_json(json_document(bundle, fs)) + seq!['\n'],
        Format::Github => github_text(fs),
        Format::Sarif => pretty_json(sarif_document(version, fs)) + seq!['\n'],
    }
}

/// The span's line or column as a number, or null.
fn span_number(span: Option<Span>, column: bool) -> (j: Json)
    ensures
        j@ == span_field(span, column),
{
    match span {
        Some(s) => count(if column { s.start.column } else { s.start.line }),
        None => Json::Null,
    }
}

/// One entry of the JSON rendering's `diagnostics` array.
fn finding_object(d: &Diagnostic) -> (j: Json)
    ensures
        j@ == finding_json(d@),
{
    let mut m: Vec<(String, Json)> = Vec::new();
    push_member(&mut m, "code", text(d.code));
    push_member(&mut m, "severity", text(d.severity.as_str()));
    push_member(&mut m, "path", text(d.path.as_str()));
    push_member(&mut m, "line", span_number(d.span, false));
    push_member(&mut m, "column", span_number(d.span, true));
    push_member(&mut m, "message", text(d.message.as_str()));
    let help = match &d.help {
        Some(h) => text_or_null(Some(h.as_str())),
        None => text_or_null(None),
    };
    push_member(&mut m, "help", help);
    proof {
        assert(members_view(Seq::<(String, Json)>::empty()) =~= seq![]);
    }
    assert(members_view(m@) =~= match finding_json(d@) {
        JsonModel::Object(ms) => ms,
        _ => seq![],
    });
    Json::Object(m)
}

/// A rule as SARIF describes it.
fn rule_object(r: &Rule) -> (j: Json)
    ensures
        j@ == rule_json(*r),
{
    let mut m: Vec<(String, Json)> = Vec::new();
    push_member(&mut m, "id", text(r.code));
    push_member(&mut m, "shortDescription", object1("text", text(r.description)));
    push_member(
        &mut m,
        "helpUri",
        text("https://github.com/GoogleCloudPlatform/knowledge-catalog/tree/main/okf"),
    );
    push_member(&mut m, "properties", object1("specSection", text(r.spec_section)));
    proof {
        assert(members_view(Seq::<(String, Json)>::empty()) =~= seq![]);
    }
    assert(members_view(m@) =~= match rule_json(*r) {
        JsonModel::Object(ms) => ms,
        _ => seq![],
    });
    Json::Object(m)
}

/// Where a SARIF result points in its file.
fn region_object(span: Option<Span>) -> (j: Json)
    ensures
        j@ == region_json(span),
{
    match span {
        Some(s) => {
            let mut m: Vec<(String, Json)> = Vec::new();
            push_member(&mut m, "startLine", count(s.start.line));
            push_member(&mut m, "startColumn", count(s.start.column));
            proof {
                assert(members_view(Seq::<(String, Json)>::empty()) =~= seq![]);
            }
            assert(members_view(m@) =~= match region_json(span) {
                JsonModel::Object(ms) => ms,
                _ => seq![],
            });
            Json::Object(m)
        },
        None => Json::Null,
    }
}

/// A finding as a SARIF result.
fn result_object(d: &Diagnostic) -> (j: Json)
    ensures
        j@ == result_json(d@),
{
    let mut place: Vec<(String, Json)> = Vec::new();
    push_member(&mut place, "artifactLocation", object1("uri", text(d.path.as_str())));
    push_member(&mut place, "region", region_object(d.span));
    proof {
        assert(members_view(Seq::<(String, Json)>::empty()) =~= seq![]);
    }
    assert(members_view(place@) =~= seq![
        ("artifactLocation"@, JsonModel::Object(seq![("uri"@, JsonModel::Text(d.path@))])),
        ("region"@, region_json(d.span)),
    ]);
    let location = object1("physicalLocation", Json::Object(place));
    let mut m: Vec<(String, Json)> = Vec::new();
    push_member(&mut m, "ruleId", text(d.code));
    push_member(&mut m, "level", text(sarif_level(d.severity)));
    push_member(&mut m, "message", object1("text", text(d.message.as_str())));
    push_member(&mut m, "locations", array1(location));
    assert(members_view(m@) =~= match result_json(d@) {
        JsonModel::Object(ms) => ms,
        _ => seq![],
    });
    Json::Object(m)
}

impl Report {
    /// The JSON document of the report.
    pub fn json_value(&self) -> (j: Json)
        ensures
            j@ == json_document(self.bundle@, self.findings()),
    {
        let ghost fs = self.findings();
        let mut items: Vec<Json> = Vec::new();
        let mut i: usize = 0;
        proof {
            assert(items_view(Seq::<Json>::empty()) =~= seq![]);
        }
        while i < self.diagnostics.len()
            invariant
                fs == self.findings(),
                i <= fs.len(),
                fs.len() == self.diagnostics@.len(),
                items_view(items@) == fs.take(i as int).map_values(|f: Finding| finding_json(f)),
            decreases fs.len() - i,
        {
            let d = &self.diagnostics[i];
            assert(d@ == fs[i as int]);
            push_item(&mut items, finding_object(d));
            assert(fs.take(i + 1).map_values(|f: Finding| finding_json(f)) =~= fs.take(
                i as int,
            ).map_values(|f: Finding| finding_json(f)).push(finding_json(fs[i as int])));
            i = i + 1;
        }
        assert(fs.take(i as int) =~= fs);
        let mut summary: Vec<(String, Json)> = Vec::new();
        push_member(&mut summary, "errors", count(self.errors()));
        push_member(&mut summary, "warnings", count(self.warnings()));
        push_member(&mut summary, "infos", count(self.infos()));
        proof {
            assert(members_view(Seq::<(String, Json)>::empty()) =~= seq![]);
        }
        assert(members_view(summary@) =~= seq![
            ("errors"@, JsonModel::Int(count_of(fs, Severity::Error) as int)),
            ("warnings"@, JsonModel::Int(count_of(fs, Severity::Warning) as int)),
            ("infos"@, JsonModel::Int(count_of(fs, Severity::Info) as int)),
        ]);
        let mut m: Vec<(String, Json)> = Vec::new();
        push_member(&mut m, "bundle", text(self.bundle.as_str()));
        push_member(&mut m, "summary", Json::Object(summary));
        push_member(&mut m, "diagnostics", Json::Array(items));
        proof {
            assert(members_view(Seq::<(String, Json)>::empty()) =~= seq![]);
        }
        assert(members_view(m@) =~= match json_document(self.bundle@, fs) {
            JsonModel::Object(ms) => ms,
            _ => seq![],
        });
        Json::Object(m)
    }

    /// The SARIF document of the report, for a tool at `version`.
    pub fn sarif_value(&self, version: &str) -> (j: Json)
        ensures
            j@ == sarif_document(version@, self.findings()),
    {
        let ghost fs = self.findings();
        let table = rules();
        let mut rule_items: Vec<Json> = Vec::new();
        let mut k: usize = 0;
        proof {
            assert(items_view(Seq::<Json>::empty()) =~= seq![]);
        }
        while k < table.len()
            invariant
                table@ == rule_table(),
                k <= table@.len(),
                items_view(rule_items@) == table@.take(k as int).map_values(|r: Rule| rule_json(r)),
            decreases table@.len() - k,
        {
            push_item(&mut rule_items, rule_object(&table[k]));
            assert(table@.take(k + 1).map_values(|r: Rule| rule_json(r)) =~= table@.take(
                k as int,
            ).map_values(|r: Rule| rule_json(r)).push(rule_json(table@[k as int])));
            k = k + 1;
        }
        assert(table@.take(k as int) =~= table@);
        let mut results: Vec<Json> = Vec::new();
        let mut i: usize = 0;
        while i < self.diagnostics.len()
            invariant
                fs == self.findings(),
                i <= fs.len(),
                fs.len() == self.diagnostics@.len(),
                items_view(results@) == fs.take(i as int).map_values(|f: Finding| result_json(f)),
            decreases fs.len() - i,
        {
            let d = &self.diagnostics[i];
            assert(d@ == fs[i as int]);
            push_item(&mut results, result_object(d));
            assert(fs.take(i + 1).map_values(|f: Finding| result_json(f)) =~= fs.take(
                i as int,
            ).map_values(|f: Finding| result_json(f)).push(result_json(fs[i as int])));
            i = i + 1;
        }
        assert(fs.take(i as int) =~= fs);
        let mut driver: Vec<(String, Json)> = Vec::new();
        push_member(&mut driver, "name", text("okft"));
        push_member(&mut driver, "informationUri", text("https://github.com/galkleinman/okf-toolkit"));
        push_member(&mut driver, "version", text(version));
        push_member(&mut driver, "rules", Json::Array(rule_items));
        proof {
            assert(members_view(Seq::<(String, Json)>::empty()) =~= seq![]);
        }
        assert(members_view(driver@) =~= seq![
            ("name"@, JsonModel::Text("okft"@)),
            ("informationUri"@, JsonModel::Text("https://github.com/galkleinman/okf-toolkit"@)),
            ("version"@, JsonModel::Text(version@)),
            ("rules"@, JsonModel::Array(rule_table().map_values(|r: Rule| rule_json(r)))),
        ]);
        let tool = object1("driver", Json::Object(driver));
        let mut run: Vec<(String, Json)> = Vec::new();
        push_member(&mut run, "tool", tool);
        push_member(&mut run, "results", Json::Array(results));
        assert(members_view(run@) =~= seq![
            ("tool"@, tool@),
            ("results"@, JsonModel::Array(fs.map_values(|f: Finding| result_json(f)))),
        ]);
        let runs = array1(Json::Object(run));
        let mut m: Vec<(String, Json)> = Vec::new();
        push_member(&mut m, "version", text("2.1.0"));
        push_member(&mut m, "$schema", text("https://json.schemastore.org/sarif-2.1.0.json"));
        push_member(&mut m, "runs", runs);
        proof {
            assert(members_view(Seq::<(String, Json)>::empty()) =~= seq![]);
        }
        assert(members_view(m@) =~= match sarif_document(version@, fs) {
            JsonModel::Object(ms) => ms,
            _ => seq![],
        });
        Json::Object(m)
    }

    /// One JSON object with the bundle, a summary and a `diagnostics` array.
    pub fn render_json(&self) -> (r: String)
        ensures
            r@ == pretty_json(json_document(self.bundle@, self.findings())) + seq!['\n'],
    {
        let mut out = to_string_pretty(&self.json_value());
        push_char(&mut out, '\n');
        out
    }

    /// SARIF 2.1.0, for GitHub code scanning and other analysis tooling.
    pub fn render_sarif(&self, version: &str) -> (r: String)
        ensures
            r@ == pretty_json(sarif_document(version@, self.findings())) + seq!['\n'],
    {
        let mut out = to_string_pretty(&self.sarif_value(version));
        push_char(&mut out, '\n');
        out
    }

    /// The report in `format`; `version` is the tool's own, which SARIF
    /// names.
    pub fn render(&self, format: Format, version: &str) -> (r: String)
        ensures
            r@ == rendered(format, self.bundle@, self.findings(), version@),
    {
        match format {
            Format::Human => self.render_human(),
            Format::Json => self.render_json(),
            Format::Github => self.render_github(),
            Format::Sarif => self.render_sarif(version),
        }
    }
}

/// Every finding has exactly one severity, so the three counts add up to the
/// number of findings.
pub proof fn lemma_counts_partition(fs: Seq<Finding>)
    ensures
        count_of(fs, Severity::Error) + count_of(fs, Severity::Warning) + count_of(
            fs,
            Severity::Info,
        ) == fs.len(),
    decreases fs.len(),
{
    if fs.len() > 0 {
        lemma_counts_partition(fs.drop_last());
    }
}

} // verus!
