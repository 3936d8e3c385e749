//! The three conformance rules, and nothing else.
//!
//! A bundle is conformant if every non-reserved `.md` file has a parseable
//! frontmatter block, every block has a non-empty `type`, and the reserved
//! filenames follow their specified structure. Consumers may not reject a
//! bundle for anything else (missing optional fields, unknown types or keys,
//! broken links, a missing `index.md`): those live in [`crate::lint`] and can
//! never be errors.

use vstd::prelude::*;
use vstd::string::*;

use crate::bundle::{directory_of, Bundle, Entry, EntryKind};
use crate::date::{date_from_text, Date};
use crate::diagnostic::{
    findings, lemma_conformance_codes, rule_for, rule_table, Diagnostic, Finding, RuleKind,
    Severity,
};
use crate::document::{error_message, error_span, Frontmatter, FrontmatterState};
use crate::frontmatter::{blank, text_field};
use crate::links::{headings_at_level, Heading};
use crate::span::Span;
use crate::text::{push_str, str_eq};
use crate::value::{key_index, string_keys, Node};

verus! {

/// An error finding with the given code, path, span, message and help.
pub open spec fn error_finding(
    code: Seq<char>,
    path: Seq<char>,
    span: Option<Span>,
    message: Seq<char>,
    help: Option<Seq<char>>,
) -> Finding {
    Finding { code, severity: Severity::Error, path, span, message, help }
}

/// A concept document needs a frontmatter block that parses.
pub open spec fn parse_findings(e: Entry) -> Seq<Finding> {
    match e.document.frontmatter {
        FrontmatterState::Parsed(_) => seq![],
        FrontmatterState::Absent => seq![
            error_finding(
                "okf-parse"@,
                e.path@,
                None,
                "concept document has no frontmatter block"@,
                Some("add a `---` delimited YAML block at the top of the file"@),
            ),
        ],
        FrontmatterState::Malformed(err) => seq![
            error_finding("okf-parse"@, e.path@, Some(error_span(err)), error_message(err), None),
        ],
    }
}

/// Whether a frontmatter block carries a non-blank `type`.
pub open spec fn has_type(fm: Frontmatter) -> bool {
    text_field(fm.entries@, "type"@) matches Some(t) && !blank(t)
}

/// A parsed block needs a non-empty `type`: blamed on the `type` key when it
/// is present but empty, on the whole block when it is missing.
pub open spec fn type_findings(e: Entry) -> Seq<Finding> {
    match e.document.frontmatter {
        FrontmatterState::Parsed(fm) => if has_type(fm) {
            seq![]
        } else {
            seq![
                match key_index(fm.entries@, "type"@) {
                    Some(j) => error_finding(
                        "okf-type"@,
                        e.path@,
                        Some(fm.entries@[j].0.span),
                        "`type` is present but empty"@,
                        Some("every concept needs a `type`, for example `type: Metric`"@),
                    ),
                    None => error_finding(
                        "okf-type"@,
                        e.path@,
                        Some(fm.span),
                        "frontmatter is missing the required `type` field"@,
                        Some("every concept needs a `type`, for example `type: Metric`"@),
                    ),
                },
            ]
        },
        _ => seq![],
    }
}

/// The help for a key an `index.md` may not carry.
pub open spec fn index_help(root: bool) -> Seq<char> {
    if root {
        "a bundle-root `index.md` may only declare `okf_version` (§12)"@
    } else {
        "only a bundle-root `index.md` may carry frontmatter, and only `okf_version` (§8, §12)"@
    }
}

/// One finding per frontmatter key of an `index.md`, except `okf_version`
/// in the bundle root's.
pub open spec fn index_key_findings(
    keys: Seq<Seq<char>>,
    entries: Seq<(Node, Node)>,
    root: bool,
    block: Span,
    path: Seq<char>,
) -> Seq<Finding>
    decreases keys.len(),
{
    if keys.len() == 0 {
        seq![]
    } else {
        let rest = index_key_findings(keys.drop_last(), entries, root, block, path);
        let k = keys.last();
        if root && k == "okf_version"@ {
            rest
        } else {
            rest.push(
                error_finding(
                    "okf-reserved"@,
                    path,
                    Some(
                        match key_index(entries, k) {
                            Some(j) => entries[j].0.span,
                            None => block,
                        },
                    ),
                    "`index.md` must not carry frontmatter key `"@ + k + "`"@,
                    Some(index_help(root)),
                ),
            )
        }
    }
}

/// An `index.md` carries no frontmatter, except that the bundle root's may
/// declare `okf_version`; a malformed block is reported as unexpected.
pub open spec fn index_findings(e: Entry) -> Seq<Finding> {
    match e.document.frontmatter {
        FrontmatterState::Parsed(fm) => index_key_findings(
            string_keys(fm.entries@),
            fm.entries@,
            directory_of(e.id@).len() == 0,
            fm.span,
            e.path@,
        ),
        FrontmatterState::Malformed(err) => seq![
            error_finding(
                "okf-reserved"@,
                e.path@,
                Some(error_span(err)),
                error_message(err),
                Some("`index.md` files carry no frontmatter (§8)"@),
            ),
        ],
        FrontmatterState::Absent => seq![],
    }
}

/// One finding per date heading of a `log.md` that is not an ISO 8601 date.
pub open spec fn log_heading_findings(hs: Seq<Heading>, path: Seq<char>) -> Seq<Finding>
    decreases hs.len(),
{
    if hs.len() == 0 {
        seq![]
    } else {
        let rest = log_heading_findings(hs.drop_last(), path);
        let h = hs.last();
        if date_from_text(h.text@) is None {
            rest.push(
                error_finding(
                    "okf-reserved"@,
                    path,
                    Some(h.span),
                    "log date heading `"@ + h.text@ + "` is not an ISO 8601 date"@,
                    Some("use `## YYYY-MM-DD`, for example `## 2026-05-22`"@),
                ),
            )
        } else {
            rest
        }
    }
}

/// Level-2 headings of a `log.md` are date headings.
pub open spec fn log_findings(e: Entry) -> Seq<Finding> {
    log_heading_findings(headings_at_level(e.body.headings@, 2), e.path@)
}

/// What the conformance rules find in one entry.
pub open spec fn entry_findings(e: Entry) -> Seq<Finding> {
    match e.kind {
        EntryKind::Concept => parse_findings(e) + type_findings(e),
        EntryKind::Index => index_findings(e),
        EntryKind::Log => log_findings(e),
    }
}

/// What the conformance rules find in `entries`, in order.
pub open spec fn conformance_of(entries: Seq<Entry>) -> Seq<Finding>
    decreases entries.len(),
{
    if entries.len() == 0 {
        seq![]
    } else {
        conformance_of(entries.drop_last()) + entry_findings(entries.last())
    }
}

/// Whether a finding is an error under a conformance rule.
pub open spec fn is_conformance_error(f: Finding) -> bool {
    &&& f.severity == Severity::Error
    &&& rule_for(f.code) matches Some(r) && r.kind == RuleKind::Conformance
}

/// The optional text of an optional string slice.
pub open spec fn opt_str(o: Option<&str>) -> Option<Seq<char>> {
    match o {
        Some(s) => Some(s@),
        None => None,
    }
}

/// Appends an error finding under one of the conformance codes.
fn push_error(
    out: &mut Vec<Diagnostic>,
    code: &'static str,
    path: &str,
    span: Option<Span>,
    message: &str,
    help: Option<&str>,
)
    requires
        code@ == "okf-parse"@ || code@ == "okf-type"@ || code@ == "okf-reserved"@,
    ensures
        findings(final(out)@) == findings(old(out)@).push(
            error_finding(code@, path@, span, message@, opt_str(help)),
        ),
{
    proof {
        lemma_conformance_codes();
    }
    let mut d = Diagnostic::new(code, path, message);
    d.span = span;
    d.help = match help {
        Some(h) => Some(h.to_owned()),
        None => None,
    };
    let ghost before = findings(out@);
    out.push(d);
    assert(findings(out@) =~= before.push(d@));
}

fn check_frontmatter_parses(entry: &Entry, out: &mut Vec<Diagnostic>)
    ensures
        findings(final(out)@) == findings(old(out)@) + parse_findings(*entry),
{
    let ghost before = findings(out@);
    match &entry.document.frontmatter {
        FrontmatterState::Parsed(_) => {},
        FrontmatterState::Absent => {
            push_error(
                out,
                "okf-parse",
                entry.path.as_str(),
                None,
                "concept document has no frontmatter block",
                Some("add a `---` delimited YAML block at the top of the file"),
            );
        },
        FrontmatterState::Malformed(error) => {
            let message = error.message();
            push_error(out, "okf-parse", entry.path.as_str(), Some(error.span()), message.as_str(), None);
        },
    }
    assert(findings(out@) =~= before + parse_findings(*entry));
}

fn check_type_present(entry: &Entry, out: &mut Vec<Diagnostic>)
    ensures
        findings(final(out)@) == findings(old(out)@) + type_findings(*entry),
{
    let ghost before = findings(out@);
    let frontmatter = match entry.document.frontmatter.parsed() {
        Some(f) => f,
        None => {
            assert(findings(out@) =~= before + type_findings(*entry));
            return;
        },
    };
    if frontmatter.concept_type().is_some() {
        assert(findings(out@) =~= before + type_findings(*entry));
        return;
    }
    match frontmatter.entries.entry("type") {
        Some((key, _)) => {
            push_error(
                out,
                "okf-type",
                entry.path.as_str(),
                Some(key.span),
                "`type` is present but empty",
                Some("every concept needs a `type`, for example `type: Metric`"),
            );
        },
        None => {
            push_error(
                out,
                "okf-type",
                entry.path.as_str(),
                Some(frontmatter.span),
                "frontmatter is missing the required `type` field",
                Some("every concept needs a `type`, for example `type: Metric`"),
            );
        },
    }
    assert(findings(out@) =~= before + type_findings(*entry));
}

fn check_index(entry: &Entry, out: &mut Vec<Diagnostic>)
    ensures
        findings(final(out)@) == findings(old(out)@) + index_findings(*entry),
{
    let ghost before = findings(out@);
    let frontmatter = match entry.document.frontmatter.parsed() {
        Some(f) => f,
        None => {
            if let Some(error) = entry.document.frontmatter.error() {
                let message = error.message();
                push_error(
                    out,
                    "okf-reserved",
                    entry.path.as_str(),
                    Some(error.span()),
                    message.as_str(),
                    Some("`index.md` files carry no frontmatter (§8)"),
                );
            }
            assert(findings(out@) =~= before + index_findings(*entry));
            return;
        },
    };
    let is_bundle_root = entry.directory().is_empty();
    let keys = frontmatter.entries.keys();
    let ghost all = string_keys(frontmatter.entries@);
    let ghost entries = frontmatter.entries@;
    let ghost path = entry.path@;
    let ghost block = frontmatter.span;
    proof {
        reveal_strlit("");
    }
    assert(is_bundle_root == (directory_of(entry.id@).len() == 0));
    let mut i: usize = 0;
    while i < keys.len()
        invariant
            keys@.len() == all.len(),
            forall|j: int| 0 <= j < keys@.len() ==> #[trigger] keys@[j]@ == all[j],
            entries == frontmatter.entries@,
            path == entry.path@,
            block == frontmatter.span,
            i <= keys@.len(),
            findings(out@) == before + index_key_findings(
                all.take(i as int),
                entries,
                is_bundle_root,
                block,
                path,
            ),
        decreases keys@.len() - i,
    {
        let ghost head = findings(out@);
        assert(all.take(i + 1).drop_last() =~= all.take(i as int));
        assert(keys@[i as int]@ == all[i as int]);
        let key = keys[i];
        if is_bundle_root && str_eq(key, "okf_version") {
            i = i + 1;
            continue;
        }
        let span = match frontmatter.entries.entry(key) {
            Some((k, _)) => k.span,
            None => frontmatter.span,
        };
        let mut message = "`index.md` must not carry frontmatter key `".to_owned();
        push_str(&mut message, key);
        push_str(&mut message, "`");
        let help = if is_bundle_root {
            "a bundle-root `index.md` may only declare `okf_version` (§12)"
        } else {
            "only a bundle-root `index.md` may carry frontmatter, and only `okf_version` (§8, §12)"
        };
        push_error(out, "okf-reserved", entry.path.as_str(), Some(span), message.as_str(), Some(help));
        assert(findings(out@) =~= before + index_key_findings(
            all.take(i + 1),
            entries,
            is_bundle_root,
            block,
            path,
        ));
        i = i + 1;
    }
    assert(all.take(i as int) =~= all);
}

fn check_log(entry: &Entry, out: &mut Vec<Diagnostic>)
    ensures
        findings(final(out)@) == findings(old(out)@) + log_findings(*entry),
{
    let ghost before = findings(out@);
    let headings = entry.body.headings_at(2);
    let ghost hs = headings_at_level(entry.body.headings@, 2);
    let ghost path = entry.path@;
    let mut i: usize = 0;
    while i < headings.len()
        invariant
            headings@.len() == hs.len(),
            forall|j: int| 0 <= j < headings@.len() ==> *#[trigger] headings@[j] == hs[j],
            path == entry.path@,
            i <= headings@.len(),
            findings(out@) == before + log_heading_findings(hs.take(i as int), path),
        decreases headings@.len() - i,
    {
        assert(hs.take(i + 1).drop_last() =~= hs.take(i as int));
        assert(*headings@[i as int] == hs[i as int]);
        let heading = headings[i];
        if Date::parse(heading.text.as_str()).is_none() {
            let mut message = "log date heading `".to_owned();
            push_str(&mut message, heading.text.as_str());
            push_str(&mut message, "` is not an ISO 8601 date");
            push_error(
                out,
                "okf-reserved",
                entry.path.as_str(),
                Some(heading.span),
                message.as_str(),
                Some("use `## YYYY-MM-DD`, for example `## 2026-05-22`"),
            );
        }
        assert(findings(out@) =~= before + log_heading_findings(hs.take(i + 1), path));
        i = i + 1;
    }
    assert(hs.take(i as int) =~= hs);
}

/// Runs the conformance rules over a bundle.
///
/// Every returned diagnostic is an error under a conformance rule.
pub fn validate(bundle: &Bundle) -> (r: Vec<Diagnostic>)
    ensures
        findings(r@) == conformance_of(bundle.entry_seq()),
{
    let entries = bundle.entries();
    let mut out: Vec<Diagnostic> = Vec::new();
    let mut i: usize = 0;
    assert(findings(out@) =~= conformance_of(entries@.take(0)));
    while i < entries.len()
        invariant
            entries@ == bundle.entry_seq(),
            i <= entries@.len(),
            findings(out@) == conformance_of(entries@.take(i as int)),
        decreases entries@.len() - i,
    {
        assert(entries@.take(i + 1).drop_last() =~= entries@.take(i as int));
        let entry = &entries[i];
        let ghost before = findings(out@);
        match entry.kind {
            EntryKind::Concept => {
                check_frontmatter_parses(entry, &mut out);
                check_type_present(entry, &mut out);
                assert(findings(out@) =~= before + entry_findings(*entry));
            },
            EntryKind::Index => check_index(entry, &mut out),
            EntryKind::Log => check_log(entry, &mut out),
        }
        i = i + 1;
    }
    assert(entries@.take(i as int) =~= entries@);
    out
}

/// Every finding of the conformance rules is an error under a conformance
/// rule: nothing else can make a bundle non-conformant.
pub proof fn lemma_conformance_findings_are_errors(entries: Seq<Entry>)
    ensures
        forall|i: int|
            0 <= i < conformance_of(entries).len() ==> is_conformance_error(
                #[trigger] conformance_of(entries)[i],
            ),
    decreases entries.len(),
{
    lemma_conformance_codes();
    if entries.len() > 0 {
        lemma_conformance_findings_are_errors(entries.drop_last());
        let e = entries.last();
        let rest = conformance_of(entries.drop_last());
        lemma_entry_findings_are_errors(e);
        assert forall|i: int| 0 <= i < conformance_of(entries).len() implies is_conformance_error(
            #[trigger] conformance_of(entries)[i],
        ) by {
            if i < rest.len() {
                assert(conformance_of(entries)[i] == rest[i]);
            } else {
                assert(conformance_of(entries)[i] == entry_findings(e)[i - rest.len()]);
            }
        }
    }
}

proof fn lemma_entry_findings_are_errors(e: Entry)
    ensures
        forall|i: int|
            0 <= i < entry_findings(e).len() ==> is_conformance_error(#[trigger] entry_findings(e)[i]),
{
    lemma_conformance_codes();
    match e.kind {
        EntryKind::Concept => {
            let a = parse_findings(e);
            let b = type_findings(e);
            assert forall|i: int| 0 <= i < (a + b).len() implies is_conformance_error(
                #[trigger] (a + b)[i],
            ) by {
                if i < a.len() {
                    assert((a + b)[i] == a[i]);
                } else {
                    assert((a + b)[i] == b[i - a.len()]);
                }
            }
        },
        EntryKind::Index => {
            if let FrontmatterState::Parsed(fm) = e.document.frontmatter {
                lemma_index_key_findings_are_errors(
                    string_keys(fm.entries@),
                    fm.entries@,
                    directory_of(e.id@).len() == 0,
                    fm.span,
                    e.path@,
                );
            }
        },
        EntryKind::Log => {
            lemma_log_findings_are_errors(headings_at_level(e.body.headings@, 2), e.path@);
        },
    }
}

proof fn lemma_index_key_findings_are_errors(
    keys: Seq<Seq<char>>,
    entries: Seq<(Node, Node)>,
    root: bool,
    block: Span,
    path: Seq<char>,
)
    ensures
        forall|i: int|
            0 <= i < index_key_findings(keys, entries, root, block, path).len()
                ==> is_conformance_error(
                #[trigger] index_key_findings(keys, entries, root, block, path)[i],
            ),
    decreases keys.len(),
{
    lemma_conformance_codes();
    if keys.len() > 0 {
        lemma_index_key_findings_are_errors(keys.drop_last(), entries, root, block, path);
        let rest = index_key_findings(keys.drop_last(), entries, root, block, path);
        let all = index_key_findings(keys, entries, root, block, path);
        assert(rule_table()[2].kind == RuleKind::Conformance);
        assert forall|i: int| 0 <= i < all.len() implies is_conformance_error(#[trigger] all[i]) by {
            if i < rest.len() {
                assert(all[i] == rest[i]);
            }
        }
    }
}

proof fn lemma_log_findings_are_errors(hs: Seq<Heading>, path: Seq<char>)
    ensures
        forall|i: int|
            0 <= i < log_heading_findings(hs, path).len() ==> is_conformance_error(
                #[trigger] log_heading_findings(hs, path)[i],
            ),
    decreases hs.len(),
{
    lemma_conformance_codes();
    if hs.len() > 0 {
        lemma_log_findings_are_errors(hs.drop_last(), path);
        let rest = log_heading_findings(hs.drop_last(), path);
        let all = log_heading_findings(hs, path);
        assert(rule_table()[2].kind == RuleKind::Conformance);
        assert forall|i: int| 0 <= i < all.len() implies is_conformance_error(#[trigger] all[i]) by {
            if i < rest.len() {
                assert(all[i] == rest[i]);
            }
        }
    }
}

} // verus!

verus! {

/// A concept document gets at most one conformance finding: one whose
/// frontmatter is missing or malformed is not also reported for a missing
/// `type`.
pub proof fn lemma_one_finding_per_concept(e: Entry)
    requires
        e.kind == EntryKind::Concept,
    ensures
        entry_findings(e).len() <= 1,
        parse_findings(e).len() > 0 ==> type_findings(e).len() == 0,
{
}

} // verus!
