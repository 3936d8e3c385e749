//! What the command-line program decides: the date a run judges staleness
//! against, which findings a check reports, the rule table, and the exit
//! status. Reading arguments, files and the clock, and printing, are the
//! program's own.

use vstd::prelude::*;
use vstd::string::*;

use crate::bundle::{directory_set, Bundle, Entry};
use crate::conformance::{conformance_of, is_conformance_error, lemma_conformance_findings_are_errors, validate};
use crate::format::count_of;
use crate::date::{date_from_text, day_of_day, floor_days, month_of_day, year_of_day, Date};
use crate::diagnostic::{
    findings, rule_for, rule_table, rules, severity_text, Diagnostic, Finding, Rule, RuleKind, Severity,
};
use crate::lint::{concepts_findings, index_findings_of, lint, LintOptions};
use crate::severity::{lemma_overrides_keep_conformance, overridden_all, SeverityOverrides};
use crate::sorted::strictly_sorted;
use crate::json::{items_view, members_view, pretty_json, push_item, push_member, text, to_string_pretty, Json, JsonModel};
use crate::text::{chars_of, push_char, push_str};

verus! {

/// Exit code returned when a run produces at least one error.
pub const EXIT_FINDINGS: u8 = 1;

/// Exit code returned when the bundle could not be read at all.
pub const EXIT_USAGE: u8 = 2;

/// The UTC calendar date `seconds` after the Unix epoch.
pub open spec fn unix_date(seconds: int) -> Date {
    Date {
        year: year_of_day(floor_days(seconds)) as i32,
        month: month_of_day(floor_days(seconds)) as u8,
        day: day_of_day(floor_days(seconds)) as u8,
    }
}

/// A clock reading as a signed count: one beyond `i64` reads as zero.
pub open spec fn clock_count(seconds: u64) -> int {
    if seconds <= i64::MAX {
        seconds as int
    } else {
        0
    }
}

/// Whole seconds since the Unix epoch by the system clock
/// (`SystemTime::now().duration_since(UNIX_EPOCH)`), or zero when the clock
/// reads earlier than the epoch. It depends on the time, so nothing is
/// promised of the value.
#[verifier::external_body]
fn clock_seconds() -> u64 {
    match std::time::SystemTime::now().duration_since(std::time::UNIX_EPOCH) {
        Ok(elapsed) => elapsed.as_secs(),
        Err(_) => 0,
    }
}

/// The UTC date of a clock reading of `seconds` since the epoch.
pub fn date_at(seconds: u64) -> (d: Date)
    ensures
        d == unix_date(clock_count(seconds)),
{
    let signed: i64 = if seconds <= 9_223_372_036_854_775_807u64 {
        seconds as i64
    } else {
        0
    };
    Date::from_unix_seconds(signed)
}

/// Today's date in UTC, by the system clock.
pub fn current_utc_date() -> (d: Date)
    ensures
        exists|seconds: u64| d == #[trigger] unix_date(clock_count(seconds)),
{
    let seconds = clock_seconds();
    let d = date_at(seconds);
    assert(d == unix_date(clock_count(seconds)));
    d
}

/// The message for a `--today` value that is not a date.
pub open spec fn bad_today_message(text: Seq<char>) -> Seq<char> {
    "`--today "@ + text + "` is not a YYYY-MM-DD date"@
}

/// Parses `--today`, falling back to the current UTC date.
pub fn resolve_today(value: Option<&str>) -> (r: Result<Date, String>)
    ensures
        match value {
            Some(t) => match date_from_text(t@) {
                Some(d) => r == Ok::<Date, String>(d),
                None => r matches Err(m) && m@ == bad_today_message(t@),
            },
            None => r matches Ok(d) && exists|seconds: u64| d == #[trigger] unix_date(clock_count(seconds)),
        },
{
    match value {
        Some(text) => match Date::parse(text) {
            Some(d) => Ok(d),
            None => {
                let mut m = "`--today ".to_owned();
                push_str(&mut m, text);
                push_str(&mut m, "` is not a YYYY-MM-DD date");
                Err(m)
            },
        },
        None => Ok(current_utc_date()),
    }
}

/// Whether a severity should count as failing.
pub fn is_failing(severity: Severity) -> (b: bool)
    ensures
        b == (severity == Severity::Error),
{
    match severity {
        Severity::Error => true,
        _ => false,
    }
}

/// The process exit status for a run that reported `errors` errors.
pub fn exit_status(errors: usize) -> (code: u8)
    ensures
        code == if errors > 0 {
            EXIT_FINDINGS
        } else {
            0
        },
{
    if errors > 0 {
        EXIT_FINDINGS
    } else {
        0
    }
}

/// What a check reports, before overrides: the conformance findings, and
/// after them the advisory ones (with `dirs` the bundle's directories in
/// order) when linting.
pub open spec fn check_findings(b: Bundle, lint_too: bool, today: Date, dirs: Seq<Seq<char>>) -> Seq<Finding> {
    conformance_of(b.entry_seq()) + if lint_too {
        concepts_findings(b, b.entry_seq(), today) + index_findings_of(b.entry_seq(), dirs)
    } else {
        seq![]
    }
}

/// Runs a check: the conformance rules, the advisory rules too when
/// `lint_too`, and then the severity overrides.
pub fn check_bundle(bundle: &Bundle, lint_too: bool, today: Date, overrides: &SeverityOverrides) -> (r: Vec<Diagnostic>)
    ensures
        lint_too ==> exists|dirs: Seq<Seq<char>>|
            strictly_sorted(dirs) && #[trigger] dirs.to_set() == directory_set(bundle.entry_seq())
                && findings(r@) == overridden_all(
                overrides.denied_codes(),
                overrides.allowed_codes(),
                overrides.is_strict(),
                check_findings(*bundle, true, today, dirs),
            ),
        !lint_too ==> findings(r@) == overridden_all(
            overrides.denied_codes(),
            overrides.allowed_codes(),
            overrides.is_strict(),
            conformance_of(bundle.entry_seq()),
        ),
{
    let mut diagnostics = validate(bundle);
    if lint_too {
        let mut more = lint(bundle, &LintOptions { today });
        let ghost extra = findings(more@);
        let ghost dirs = choose|dirs: Seq<Seq<char>>|
            strictly_sorted(dirs) && #[trigger] dirs.to_set() == directory_set(bundle.entry_seq())
                && extra == concepts_findings(*bundle, bundle.entry_seq(), today) + index_findings_of(
                bundle.entry_seq(),
                dirs,
            );
        let ghost d0 = diagnostics@;
        let ghost m0 = more@;
        diagnostics.append(&mut more);
        assert(findings(diagnostics@) =~= findings(d0) + findings(m0));
        assert(findings(diagnostics@) =~= check_findings(*bundle, true, today, dirs));
        overrides.apply(diagnostics)
    } else {
        overrides.apply(diagnostics)
    }
}

/// `t` left-aligned in a field `width` wide, padded with spaces.
pub open spec fn pad_right(t: Seq<char>, width: nat) -> Seq<char> {
    if t.len() >= width {
        t
    } else {
        t + Seq::new((width - t.len()) as nat, |_i: int| ' ')
    }
}

/// The table row of a conformance rule.
pub open spec fn conformance_row(r: Rule) -> Seq<char> {
    "  "@ + pad_right(r.code@, 28) + " "@ + pad_right(r.spec_section@, 8) + " "@ + r.description@
        + seq!['\n']
}

/// The table row of an advisory rule.
pub open spec fn lint_row(r: Rule) -> Seq<char> {
    "  "@ + pad_right(r.code@, 28) + " "@ + pad_right(r.spec_section@, 8) + " "@ + pad_right(
        severity_text(r.default_severity),
        8,
    ) + " "@ + r.description@ + seq!['\n']
}

/// The rows for the rules of `kind` among `rs`, in order.
pub open spec fn rows(rs: Seq<Rule>, kind: RuleKind) -> Seq<char>
    decreases rs.len(),
{
    if rs.len() == 0 {
        seq![]
    } else {
        rows(rs.drop_last(), kind) + if rs.last().kind == kind {
            match kind {
                RuleKind::Conformance => conformance_row(rs.last()),
                RuleKind::Lint => lint_row(rs.last()),
            }
        } else {
            seq![]
        }
    }
}

/// The rule table: the conformance rules, then the advisory ones.
pub open spec fn rule_table_text() -> Seq<char> {
    "Conformance rules (§11) always fail `validate`:\n"@ + rows(rule_table(), RuleKind::Conformance)
        + "\nLint rules are advisory unless denied or run with --strict:\n"@ + rows(
        rule_table(),
        RuleKind::Lint,
    )
}

/// Appends `t` left-aligned in a field `width` wide.
fn push_padded(out: &mut String, t: &str, width: usize)
    ensures
        final(out)@ == old(out)@ + pad_right(t@, width as nat),
{
    let n = chars_of(t).len();
    push_str(out, t);
    let mut k: usize = n;
    let ghost mid = out@;
    while k < width
        invariant
            n == t@.len(),
            n <= k <= width || (k == n && n >= width),
            out@ == mid + Seq::new((k - n) as nat, |_i: int| ' '),
        decreases width - k,
    {
        push_char(out, ' ');
        k = k + 1;
        assert(out@ =~= mid + Seq::new((k - n) as nat, |_i: int| ' '));
    }
    assert(out@ =~= old(out)@ + pad_right(t@, width as nat));
}

fn push_row(out: &mut String, r: Rule)
    ensures
        final(out)@ == old(out)@ + match r.kind {
            RuleKind::Conformance => conformance_row(r),
            RuleKind::Lint => lint_row(r),
        },
{
    proof {
        reveal_strlit("  ");
        reveal_strlit(" ");
    }
    let ghost s0 = out@;
    push_str(out, "  ");
    push_padded(out, r.code, 28);
    push_str(out, " ");
    push_padded(out, r.spec_section, 8);
    push_str(out, " ");
    match r.kind {
        RuleKind::Lint => {
            push_padded(out, r.default_severity.as_str(), 8);
            push_str(out, " ");
        },
        RuleKind::Conformance => {},
    }
    push_str(out, r.description);
    push_char(out, '\n');
    assert(out@ =~= s0 + match r.kind {
        RuleKind::Conformance => conformance_row(r),
        RuleKind::Lint => lint_row(r),
    });
}

fn push_rows(out: &mut String, table: &Vec<Rule>, kind: RuleKind)
    ensures
        final(out)@ == old(out)@ + rows(table@, kind),
{
    let ghost start = out@;
    let mut i: usize = 0;
    while i < table.len()
        invariant
            i <= table@.len(),
            out@ == start + rows(table@.take(i as int), kind),
        decreases table@.len() - i,
    {
        assert(table@.take(i + 1).drop_last() =~= table@.take(i as int));
        let r = table[i];
        let same = match (r.kind, kind) {
            (RuleKind::Conformance, RuleKind::Conformance) => true,
            (RuleKind::Lint, RuleKind::Lint) => true,
            _ => false,
        };
        let ghost before = out@;
        if same {
            push_row(out, r);
        }
        assert(out@ =~= start + rows(table@.take(i + 1), kind));
        i = i + 1;
    }
    assert(table@.take(i as int) =~= table@);
}

/// The rule table: every rule, its section and its description, the
/// conformance rules first.
pub fn render_rules_table() -> (s: String)
    ensures
        s@ == rule_table_text(),
{
    let table = rules();
    let mut out = "Conformance rules (§11) always fail `validate`:\n".to_owned();
    push_rows(&mut out, &table, RuleKind::Conformance);
    push_str(&mut out, "\nLint rules are advisory unless denied or run with --strict:\n");
    push_rows(&mut out, &table, RuleKind::Lint);
    out
}


/// The name of a rule kind in the JSON rule list.
pub open spec fn kind_text(k: RuleKind) -> Seq<char> {
    match k {
        RuleKind::Conformance => "conformance"@,
        RuleKind::Lint => "lint"@,
    }
}

/// One entry of the JSON rule list.
pub open spec fn rule_entry_json(r: Rule) -> JsonModel {
    JsonModel::Object(
        seq![
            ("code"@, JsonModel::Text(r.code@)),
            ("kind"@, JsonModel::Text(kind_text(r.kind))),
            ("defaultSeverity"@, JsonModel::Text(severity_text(r.default_severity))),
            ("description"@, JsonModel::Text(r.description@)),
            ("specSection"@, JsonModel::Text(r.spec_section@)),
        ],
    )
}

/// The JSON rule list: every rule, in registry order.
pub open spec fn rules_document() -> JsonModel {
    JsonModel::Array(rule_table().map_values(|r: Rule| rule_entry_json(r)))
}

/// What `rules` prints: the JSON rule list, or the table.
pub open spec fn rules_text(json: bool) -> Seq<char> {
    if json {
        pretty_json(rules_document()) + seq!['\n']
    } else {
        rule_table_text()
    }
}

fn rule_entry(r: Rule) -> (j: Json)
    ensures
        j@ == rule_entry_json(r),
{
    let kind = match r.kind {
        RuleKind::Conformance => "conformance",
        RuleKind::Lint => "lint",
    };
    let mut m: Vec<(String, Json)> = Vec::new();
    push_member(&mut m, "code", text(r.code));
    push_member(&mut m, "kind", text(kind));
    push_member(&mut m, "defaultSeverity", text(r.default_severity.as_str()));
    push_member(&mut m, "description", text(r.description));
    push_member(&mut m, "specSection", text(r.spec_section));
    proof {
        assert(members_view(Seq::<(String, Json)>::empty()) =~= seq![]);
    }
    assert(members_view(m@) =~= match rule_entry_json(r) {
        JsonModel::Object(ms) => ms,
        _ => seq![],
    });
    Json::Object(m)
}

/// The JSON rule list as a document.
pub fn rules_value() -> (j: Json)
    ensures
        j@ == rules_document(),
{
    let table = rules();
    let mut items: Vec<Json> = Vec::new();
    let mut k: usize = 0;
    proof {
        assert(items_view(Seq::<Json>::empty()) =~= seq![]);
    }
    while k < table.len()
        invariant
            table@ == rule_table(),
            k <= table@.len(),
            items_view(items@) == table@.take(k as int).map_values(|r: Rule| rule_entry_json(r)),
        decreases table@.len() - k,
    {
        push_item(&mut items, rule_entry(table[k]));
        assert(table@.take(k + 1).map_values(|r: Rule| rule_entry_json(r)) =~= table@.take(
            k as int,
        ).map_values(|r: Rule| rule_entry_json(r)).push(rule_entry_json(table@[k as int])));
        k = k + 1;
    }
    assert(table@.take(k as int) =~= table@);
    Json::Array(items)
}

/// Every rule, as a JSON array when `json` is set, else as the table.
pub fn render_rules(json: bool) -> (s: String)
    ensures
        s@ == rules_text(json),
{
    if json {
        let mut out = to_string_pretty(&rules_value());
        push_char(&mut out, '\n');
        out
    } else {
        render_rules_table()
    }
}

proof fn lemma_all_errors_counted(fs: Seq<Finding>)
    requires
        forall|i: int| 0 <= i < fs.len() ==> (#[trigger] fs[i]).severity == Severity::Error,
    ensures
        count_of(fs, Severity::Error) == fs.len(),
    decreases fs.len(),
{
    if fs.len() > 0 {
        assert(fs[fs.len() - 1].severity == Severity::Error);
        lemma_all_errors_counted(fs.drop_last());
    }
}

/// No configuration makes a non-conformant bundle look clean: whatever the
/// overrides, `validate` reports exactly the conformance findings, every one
/// an error, so the run fails exactly when there is at least one.
pub proof fn lemma_validate_fails_exactly_on_nonconformance(
    entries: Seq<Entry>,
    denied: Set<Seq<char>>,
    allowed: Set<Seq<char>>,
    strict: bool,
)
    ensures
        overridden_all(denied, allowed, strict, conformance_of(entries)) == conformance_of(entries),
        count_of(conformance_of(entries), Severity::Error) == conformance_of(entries).len(),
{
    lemma_conformance_findings_are_errors(entries);
    let fs = conformance_of(entries);
    assert forall|i: int| 0 <= i < fs.len() implies (rule_for((#[trigger] fs[i]).code) matches Some(r)
        && r.kind == RuleKind::Conformance) by {
        assert(is_conformance_error(fs[i]));
    }
    lemma_overrides_keep_conformance(denied, allowed, strict, fs);
    assert forall|i: int| 0 <= i < fs.len() implies (#[trigger] fs[i]).severity == Severity::Error by {
        assert(is_conformance_error(fs[i]));
    }
    lemma_all_errors_counted(fs);
}

} // verus!
