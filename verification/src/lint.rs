//! Advisory rules: bundle hygiene beyond conformance.
//!
//! Nothing here is ever an error by default: a bundle may not be rejected for
//! broken links, missing optional fields, or a missing `index.md`, so these
//! findings are warnings and infos that a caller opts into failing on.

use vstd::prelude::*;
use vstd::string::*;

use crate::bundle::{directory_of, directory_set, ids, linking_ids, Bundle, Entry, EntryKind};
use crate::concept_id::concept_id_of;
use crate::date::{date_from_text, date_text, Date};
use crate::diagnostic::{
    findings, is_registered, lemma_registered_codes, rule_for, rule_table, Diagnostic, Finding,
    RuleKind, Severity,
};
use crate::document::{Frontmatter, FrontmatterState};
use crate::frontmatter::{
    actor_models, blank, path_models, sequence_field, source_models, text_field, SourceModel,
    ATTESTED_COMPUTATION,
};
use crate::links::{headings_at_level, resolve_link, without_leading_slashes, FootnoteReference, Heading, Link};
use crate::sorted::{strictly_sorted, texts};
use crate::span::Span;
use crate::text::{chars_of, is_white, is_white_char, push_str, str_eq};
use crate::trust::{actor_of, Actor, ActorModel};
use crate::value::{lookup, Node};

verus! {

/// Inputs a lint run needs from the caller.
#[derive(Debug, Clone, Copy)]
pub struct LintOptions {
    /// The date staleness is judged against.
    ///
    /// Supplied rather than read from the clock so a run is reproducible: the
    /// same bundle and the same `today` always give the same result.
    pub today: Date,
}

/// A finding under `code`, at the code's default severity, with help.
pub open spec fn lint_finding(
    code: Seq<char>,
    path: Seq<char>,
    span: Option<Span>,
    message: Seq<char>,
    help: Seq<char>,
) -> Finding {
    Finding {
        code,
        severity: rule_for(code)->0.default_severity,
        path,
        span,
        message,
        help: Some(help),
    }
}

/// Appends a finding under a registered code.
fn push_finding(
    out: &mut Vec<Diagnostic>,
    code: &'static str,
    path: &str,
    span: Option<Span>,
    message: &str,
    help: &str,
)
    requires
        is_registered(code@),
    ensures
        findings(final(out)@) == findings(old(out)@).push(
            lint_finding(code@, path@, span, message@, help@),
        ),
{
    let mut d = Diagnostic::new(code, path, message);
    d.span = span;
    d.help = Some(help.to_owned());
    let ghost before = findings(out@);
    out.push(d);
    assert(findings(out@) =~= before.push(d@));
}

// ----- broken links -----

pub open spec fn broken_link_help() -> Seq<char> {
    "§6.1 permits links to not-yet-written concepts, so this is advisory"@
}

/// A finding for each link that resolves to a concept the bundle lacks.
pub open spec fn broken_links(links: Seq<Link>, from: Seq<char>, known: Seq<Seq<char>>, path: Seq<char>) -> Seq<Finding>
    decreases links.len(),
{
    if links.len() == 0 {
        seq![]
    } else {
        let rest = broken_links(links.drop_last(), from, known, path);
        let l = links.last();
        match resolve_link(l.target@, l.kind, from) {
            Some(t) => if known.contains(t) {
                rest
            } else {
                rest.push(
                    lint_finding(
                        "broken-link"@,
                        path,
                        Some(l.span),
                        "link target `"@ + l.target@ + "` does not exist in the bundle"@,
                        broken_link_help(),
                    ),
                )
            },
            None => rest,
        }
    }
}

fn check_links(bundle: &Bundle, entry: &Entry, out: &mut Vec<Diagnostic>)
    ensures
        findings(final(out)@) == findings(old(out)@) + broken_links(
            entry.body.links@,
            entry.id@,
            ids(bundle.entry_seq()),
            entry.path@,
        ),
{
    proof {
        lemma_registered_codes();
        assert(rule_table()[3].code@ == "broken-link"@);
    }
    let ghost before = findings(out@);
    let links = &entry.body.links;
    let mut i: usize = 0;
    while i < links.len()
        invariant
            i <= links@.len(),
            links@ == entry.body.links@,
            is_registered("broken-link"@),
            findings(out@) == before + broken_links(
                links@.take(i as int),
                entry.id@,
                ids(bundle.entry_seq()),
                entry.path@,
            ),
        decreases links@.len() - i,
    {
        assert(links@.take(i + 1).drop_last() =~= links@.take(i as int));
        assert(links@.take(i + 1).last() == links@[i as int]);
        let link = &links[i];
        if let Some(target) = link.resolve(&entry.id) {
            if !bundle.contains(&target) {
                let mut message = "link target `".to_owned();
                push_str(&mut message, link.target.as_str());
                push_str(&mut message, "` does not exist in the bundle");
                push_finding(
                    out,
                    "broken-link",
                    entry.path.as_str(),
                    Some(link.span),
                    message.as_str(),
                    "§6.1 permits links to not-yet-written concepts, so this is advisory",
                );
            }
        }
        i = i + 1;
    }
    assert(links@.take(i as int) =~= links@);
}

// ----- orphans -----

/// A finding when no other concept links to `e`.
pub open spec fn orphan_findings(entries: Seq<Entry>, e: Entry) -> Seq<Finding> {
    if linking_ids(entries, e.id@).len() == 0 {
        seq![
            lint_finding(
                "orphan-concept"@,
                e.path@,
                None,
                "no concept links to `"@ + e.id@ + "`"@,
                "link it from a neighbouring concept or the directory's `index.md`"@,
            ),
        ]
    } else {
        seq![]
    }
}

fn check_orphan(bundle: &Bundle, entry: &Entry, out: &mut Vec<Diagnostic>)
    ensures
        findings(final(out)@) == findings(old(out)@) + orphan_findings(bundle.entry_seq(), *entry),
{
    proof {
        lemma_registered_codes();
        assert(rule_table()[13].code@ == "orphan-concept"@);
    }
    let ghost before = findings(out@);
    let back = bundle.backlinks(&entry.id);
    if back.len() == 0 {
        let mut message = "no concept links to `".to_owned();
        push_str(&mut message, entry.id.as_str());
        push_str(&mut message, "`");
        push_finding(
            out,
            "orphan-concept",
            entry.path.as_str(),
            None,
            message.as_str(),
            "link it from a neighbouring concept or the directory's `index.md`",
        );
    }
    assert(findings(out@) =~= before + orphan_findings(bundle.entry_seq(), *entry));
}

// ----- recommended fields -----

/// Findings for a missing `description` and a missing `title`.
pub open spec fn field_findings(e: Entry, fm: Frontmatter) -> Seq<Finding> {
    (if text_field(fm.entries@, "description"@) is None {
        seq![
            lint_finding(
                "missing-description"@,
                e.path@,
                Some(fm.span),
                "concept has no `description`"@,
                "index generators and search previews use `description` (§4.1)"@,
            ),
        ]
    } else {
        seq![]
    }) + (if text_field(fm.entries@, "title"@) is None {
        seq![
            lint_finding(
                "missing-title"@,
                e.path@,
                Some(fm.span),
                "concept has no `title`"@,
                "without `title`, consumers fall back to the filename (§4.1)"@,
            ),
        ]
    } else {
        seq![]
    })
}

fn check_recommended_fields(entry: &Entry, frontmatter: &Frontmatter, out: &mut Vec<Diagnostic>)
    ensures
        findings(final(out)@) == findings(old(out)@) + field_findings(*entry, *frontmatter),
{
    proof {
        lemma_registered_codes();
        assert(rule_table()[4].code@ == "missing-description"@);
        assert(rule_table()[5].code@ == "missing-title"@);
    }
    let ghost before = findings(out@);
    if frontmatter.description().is_none() {
        push_finding(
            out,
            "missing-description",
            entry.path.as_str(),
            Some(frontmatter.span),
            "concept has no `description`",
            "index generators and search previews use `description` (§4.1)",
        );
    }
    let ghost mid = findings(out@);
    if frontmatter.title().is_none() {
        push_finding(
            out,
            "missing-title",
            entry.path.as_str(),
            Some(frontmatter.span),
            "concept has no `title`",
            "without `title`, consumers fall back to the filename (§4.1)",
        );
    }
    assert(findings(out@) =~= before + field_findings(*entry, *frontmatter));
}

// ----- staleness -----

/// A finding when the concept is stale on `today`.
pub open spec fn stale_findings(e: Entry, fm: Frontmatter, today: Date) -> Seq<Finding> {
    match text_field(fm.entries@, "stale_after"@) {
        Some(t) => match date_from_text(t) {
            Some(d) => if !today.before(d) {
                seq![
                    lint_finding(
                        "stale-concept"@,
                        e.path@,
                        Some(
                            match lookup(fm.entries@, "stale_after"@) {
                                Some(n) => n.span,
                                None => fm.span,
                            },
                        ),
                        "concept went stale on "@ + date_text(d),
                        "re-verify the content and move `stale_after` forward (§5.5)"@,
                    ),
                ]
            } else {
                seq![]
            },
            None => seq![],
        },
        None => seq![],
    }
}

fn check_staleness(entry: &Entry, frontmatter: &Frontmatter, today: Date, out: &mut Vec<Diagnostic>)
    ensures
        findings(final(out)@) == findings(old(out)@) + stale_findings(*entry, *frontmatter, today),
{
    proof {
        lemma_registered_codes();
        assert(rule_table()[6].code@ == "stale-concept"@);
    }
    let ghost before = findings(out@);
    if frontmatter.is_stale_on(today) {
        let stale_after = match frontmatter.stale_after() {
            Some(d) => d,
            None => today,
        };
        let mut message = "concept went stale on ".to_owned();
        let shown = stale_after.to_string();
        push_str(&mut message, shown.as_str());
        let span = match frontmatter.stale_after_raw() {
            Some(n) => n.span,
            None => frontmatter.span,
        };
        push_finding(
            out,
            "stale-concept",
            entry.path.as_str(),
            Some(span),
            message.as_str(),
            "re-verify the content and move `stale_after` forward (§5.5)",
        );
    }
    assert(findings(out@) =~= before + stale_findings(*entry, *frontmatter, today));
}

// ----- superseded constructs -----

/// The ASCII lower-case form of `c`.
pub open spec fn ascii_lower(c: char) -> char {
    if 'A' <= c && c <= 'Z' {
        ((c as u8) + 32) as char
    } else {
        c
    }
}

/// Whether `a` and `b` are equal ignoring ASCII case.
pub open spec fn eq_ignore_ascii_case(a: Seq<char>, b: Seq<char>) -> bool {
    a.len() == b.len() && forall|i: int| 0 <= i < a.len() ==> ascii_lower(#[trigger] a[i]) == ascii_lower(b[i])
}

fn lower(c: char) -> (r: char)
    ensures
        r == ascii_lower(c),
{
    if 'A' <= c && c <= 'Z' {
        ((c as u8) + 32) as char
    } else {
        c
    }
}

fn same_ignoring_case(a: &str, b: &str) -> (r: bool)
    ensures
        r == eq_ignore_ascii_case(a@, b@),
{
    let x = chars_of(a);
    let y = chars_of(b);
    if x.len() != y.len() {
        return false;
    }
    let mut i: usize = 0;
    while i < x.len()
        invariant
            x@ == a@,
            y@ == b@,
            x@.len() == y@.len(),
            i <= x@.len(),
            forall|j: int| 0 <= j < i ==> ascii_lower(#[trigger] x@[j]) == ascii_lower(y@[j]),
        decreases x@.len() - i,
    {
        if lower(x[i]) != lower(y[i]) {
            return false;
        }
        i = i + 1;
    }
    true
}

/// A finding for each `# Citations` heading, in any ASCII case.
pub open spec fn citation_findings(hs: Seq<Heading>, path: Seq<char>) -> Seq<Finding>
    decreases hs.len(),
{
    if hs.len() == 0 {
        seq![]
    } else {
        let rest = citation_findings(hs.drop_last(), path);
        let h = hs.last();
        if eq_ignore_ascii_case(h.text@, "citations"@) {
            rest.push(
                lint_finding(
                    "legacy-citations"@,
                    path,
                    Some(h.span),
                    "a body `# Citations` list is a v0.1 construct"@,
                    "move the citations into frontmatter `sources` (§13.1)"@,
                ),
            )
        } else {
            rest
        }
    }
}

/// Findings for the older `timestamp` field and `# Citations` headings.
pub open spec fn legacy_findings(e: Entry, fm: Frontmatter) -> Seq<Finding> {
    (match lookup(fm.entries@, "timestamp"@) {
        Some(n) => seq![
            lint_finding(
                "legacy-timestamp"@,
                e.path@,
                Some(n.span),
                "`timestamp` is a v0.1 field"@,
                "replace it with `generated: { by, at }` (§13.1)"@,
            ),
        ],
        None => seq![],
    }) + citation_findings(headings_at_level(e.body.headings@, 1), e.path@)
}

fn check_legacy_fields(entry: &Entry, frontmatter: &Frontmatter, out: &mut Vec<Diagnostic>)
    ensures
        findings(final(out)@) == findings(old(out)@) + legacy_findings(*entry, *frontmatter),
{
    proof {
        lemma_registered_codes();
        assert(rule_table()[7].code@ == "legacy-timestamp"@);
        assert(rule_table()[8].code@ == "legacy-citations"@);
    }
    let ghost before = findings(out@);
    if let Some(timestamp) = frontmatter.legacy_timestamp() {
        push_finding(
            out,
            "legacy-timestamp",
            entry.path.as_str(),
            Some(timestamp.span),
            "`timestamp` is a v0.1 field",
            "replace it with `generated: { by, at }` (§13.1)",
        );
    }
    let ghost mid = findings(out@);
    let headings = entry.body.headings_at(1);
    let ghost hs = headings_at_level(entry.body.headings@, 1);
    let mut i: usize = 0;
    while i < headings.len()
        invariant
            headings@.len() == hs.len(),
            forall|j: int| 0 <= j < headings@.len() ==> *#[trigger] headings@[j] == hs[j],
            i <= headings@.len(),
            is_registered("legacy-citations"@),
            findings(out@) == mid + citation_findings(hs.take(i as int), entry.path@),
        decreases headings@.len() - i,
    {
        assert(hs.take(i + 1).drop_last() =~= hs.take(i as int));
        assert(*headings@[i as int] == hs[i as int]);
        let heading = headings[i];
        if same_ignoring_case(heading.text.as_str(), "citations") {
            push_finding(
                out,
                "legacy-citations",
                entry.path.as_str(),
                Some(heading.span),
                "a body `# Citations` list is a v0.1 construct",
                "move the citations into frontmatter `sources` (§13.1)",
            );
        }
        i = i + 1;
    }
    assert(hs.take(i as int) =~= hs);
    assert(findings(out@) =~= before + legacy_findings(*entry, *frontmatter));
}

// ----- actors -----

pub open spec fn actor_help() -> Seq<char> {
    "use `<producer>/<version>`, `human:<id>`, or `process:<id>` (§7); trust tiers key off the `human:` prefix"@
}

/// A finding for each actor outside the three conventions.
pub open spec fn actor_findings_of(actors: Seq<(Seq<char>, Span)>, path: Seq<char>) -> Seq<Finding>
    decreases actors.len(),
{
    if actors.len() == 0 {
        seq![]
    } else {
        let rest = actor_findings_of(actors.drop_last(), path);
        let (a, s) = actors.last();
        if actor_of(a) is Unrecognized {
            rest.push(
                lint_finding(
                    "unknown-actor"@,
                    path,
                    Some(s),
                    "`"@ + a + "` does not match the actor conventions"@,
                    actor_help(),
                ),
            )
        } else {
            rest
        }
    }
}

fn check_actors(entry: &Entry, frontmatter: &Frontmatter, out: &mut Vec<Diagnostic>)
    ensures
        findings(final(out)@) == findings(old(out)@) + actor_findings_of(
            actor_models(frontmatter.entries@),
            entry.path@,
        ),
{
    proof {
        lemma_registered_codes();
        assert(rule_table()[9].code@ == "unknown-actor"@);
    }
    let ghost before = findings(out@);
    let actors = frontmatter.actors();
    let ghost model = actor_models(frontmatter.entries@);
    let mut i: usize = 0;
    while i < actors.len()
        invariant
            actors@.len() == model.len(),
            forall|j: int|
                0 <= j < actors@.len() ==> (#[trigger] actors@[j]).0@ == model[j].0 && actors@[j].1
                    == model[j].1,
            i <= actors@.len(),
            is_registered("unknown-actor"@),
            findings(out@) == before + actor_findings_of(model.take(i as int), entry.path@),
        decreases actors@.len() - i,
    {
        assert(model.take(i + 1).drop_last() =~= model.take(i as int));
        assert(actors@[i as int].0@ == model[i as int].0);
        let (actor, span) = actors[i];
        let parsed = Actor::parse(actor);
        if !parsed.is_recognized() {
            let mut message = "`".to_owned();
            push_str(&mut message, actor);
            push_str(&mut message, "` does not match the actor conventions");
            push_finding(
                out,
                "unknown-actor",
                entry.path.as_str(),
                Some(span),
                message.as_str(),
                "use `<producer>/<version>`, `human:<id>`, or `process:<id>` (§7); trust tiers key off the `human:` prefix",
            );
        }
        i = i + 1;
    }
    assert(model.take(i as int) =~= model);
}

// ----- sources -----

/// A finding for each `sources` entry without a `resource`.
pub open spec fn source_findings_of(sources: Seq<SourceModel>, path: Seq<char>) -> Seq<Finding>
    decreases sources.len(),
{
    if sources.len() == 0 {
        seq![]
    } else {
        let rest = source_findings_of(sources.drop_last(), path);
        let s = sources.last();
        if s.resource is None {
            rest.push(
                lint_finding(
                    "source-missing-resource"@,
                    path,
                    Some(s.span),
                    "`sources` entry has no `resource`"@,
                    "`resource` is required within a `sources` entry (§5.1)"@,
                ),
            )
        } else {
            rest
        }
    }
}

/// The sources a frontmatter lists.
pub open spec fn sources_of(fm: Frontmatter) -> Seq<SourceModel> {
    source_models(sequence_field(fm.entries@, "sources"@))
}

fn check_sources(entry: &Entry, frontmatter: &Frontmatter, out: &mut Vec<Diagnostic>)
    ensures
        findings(final(out)@) == findings(old(out)@) + source_findings_of(
            sources_of(*frontmatter),
            entry.path@,
        ),
{
    proof {
        lemma_registered_codes();
        assert(rule_table()[12].code@ == "source-missing-resource"@);
    }
    let ghost before = findings(out@);
    let sources = frontmatter.sources();
    let ghost model = sources_of(*frontmatter);
    let mut i: usize = 0;
    while i < sources.len()
        invariant
            sources@.len() == model.len(),
            forall|j: int| 0 <= j < sources@.len() ==> #[trigger] sources@[j]@ == model[j],
            i <= sources@.len(),
            is_registered("source-missing-resource"@),
            findings(out@) == before + source_findings_of(model.take(i as int), entry.path@),
        decreases sources@.len() - i,
    {
        assert(model.take(i + 1).drop_last() =~= model.take(i as int));
        assert(sources@[i as int]@ == model[i as int]);
        if sources[i].resource.is_none() {
            push_finding(
                out,
                "source-missing-resource",
                entry.path.as_str(),
                Some(sources[i].span),
                "`sources` entry has no `resource`",
                "`resource` is required within a `sources` entry (§5.1)",
            );
        }
        i = i + 1;
    }
    assert(model.take(i as int) =~= model);
}

// ----- footnotes -----

/// The `id`s the sources declare.
pub open spec fn declared_ids(sources: Seq<SourceModel>) -> Seq<Seq<char>>
    decreases sources.len(),
{
    if sources.len() == 0 {
        seq![]
    } else {
        let rest = declared_ids(sources.drop_last());
        match sources.last().id {
            Some(i) => rest.push(i),
            None => rest,
        }
    }
}

/// A finding for each footnote whose label no source declares as its `id`.
pub open spec fn footnote_findings_of(
    notes: Seq<FootnoteReference>,
    known: Seq<Seq<char>>,
    path: Seq<char>,
) -> Seq<Finding>
    decreases notes.len(),
{
    if notes.len() == 0 {
        seq![]
    } else {
        let rest = footnote_findings_of(notes.drop_last(), known, path);
        let n = notes.last();
        if known.contains(n.label@) {
            rest
        } else {
            rest.push(
                lint_finding(
                    "unresolved-footnote"@,
                    path,
                    Some(n.span),
                    "footnote `[^"@ + n.label@ + "]` matches no `sources[].id`"@,
                    "give the source an `id` equal to the footnote label (§5.1)"@,
                ),
            )
        }
    }
}

fn check_footnotes(entry: &Entry, frontmatter: &Frontmatter, out: &mut Vec<Diagnostic>)
    ensures
        findings(final(out)@) == findings(old(out)@) + footnote_findings_of(
            entry.body.footnotes@,
            declared_ids(sources_of(*frontmatter)),
            entry.path@,
        ),
{
    proof {
        lemma_registered_codes();
        assert(rule_table()[10].code@ == "unresolved-footnote"@);
    }
    let ghost before = findings(out@);
    let sources = frontmatter.sources();
    let ghost model = sources_of(*frontmatter);
    let mut known: Vec<&str> = Vec::new();
    let mut k: usize = 0;
    while k < sources.len()
        invariant
            sources@.len() == model.len(),
            forall|j: int| 0 <= j < sources@.len() ==> #[trigger] sources@[j]@ == model[j],
            k <= sources@.len(),
            known@.map_values(|s: &str| s@) == declared_ids(model.take(k as int)),
        decreases sources@.len() - k,
    {
        assert(model.take(k + 1).drop_last() =~= model.take(k as int));
        assert(sources@[k as int]@ == model[k as int]);
        let ghost prev = known@.map_values(|s: &str| s@);
        if let Some(id) = sources[k].id {
            known.push(id);
            assert(known@.map_values(|s: &str| s@) =~= prev.push(id@));
        }
        k = k + 1;
    }
    assert(model.take(k as int) =~= model);
    let ghost ids_seen = declared_ids(model);
    let notes = &entry.body.footnotes;
    let mut i: usize = 0;
    while i < notes.len()
        invariant
            notes@ == entry.body.footnotes@,
            known@.map_values(|s: &str| s@) == ids_seen,
            i <= notes@.len(),
            is_registered("unresolved-footnote"@),
            findings(out@) == before + footnote_findings_of(notes@.take(i as int), ids_seen, entry.path@),
        decreases notes@.len() - i,
    {
        assert(notes@.take(i + 1).drop_last() =~= notes@.take(i as int));
        assert(notes@.take(i + 1).last() == notes@[i as int]);
        let note = &notes[i];
        let mut found = false;
        let mut j: usize = 0;
        while j < known.len()
            invariant
                j <= known@.len(),
                known@.map_values(|s: &str| s@) == ids_seen,
                found == known@.map_values(|s: &str| s@).take(j as int).contains(note.label@),
            decreases known@.len() - j,
        {
            let ghost seen = known@.map_values(|s: &str| s@);
            assert(seen.take(j + 1) =~= seen.take(j as int).push(known@[j as int]@));
            proof {
                crate::sorted::lemma_push_contains(seen.take(j as int), known@[j as int]@, note.label@);
            }
            if str_eq(known[j], note.label.as_str()) {
                found = true;
            }
            j = j + 1;
        }
        assert(known@.map_values(|s: &str| s@).take(j as int) =~= ids_seen);
        if !found {
            let mut message = "footnote `[^".to_owned();
            push_str(&mut message, note.label.as_str());
            push_str(&mut message, "]` matches no `sources[].id`");
            push_finding(
                out,
                "unresolved-footnote",
                entry.path.as_str(),
                Some(note.span),
                message.as_str(),
                "give the source an `id` equal to the footnote label (§5.1)",
            );
        }
        i = i + 1;
    }
    assert(notes@.take(i as int) =~= notes@);
}

// ----- computations -----

/// A finding for an Attested Computation without a `runtime`.
pub open spec fn computation_findings(e: Entry, fm: Frontmatter) -> Seq<Finding> {
    let attested = match text_field(fm.entries@, "type"@) {
        Some(t) => !blank(t) && t == ATTESTED_COMPUTATION@,
        None => false,
    };
    if attested && text_field(fm.entries@, "runtime"@) is None {
        seq![
            lint_finding(
                "computation-missing-runtime"@,
                e.path@,
                Some(fm.span),
                "Attested Computation has no `runtime`"@,
                "`runtime` defines what `parameters` mean, e.g. `runtime: bigquery` (§10.2)"@,
            ),
        ]
    } else {
        seq![]
    }
}

fn check_computation(entry: &Entry, frontmatter: &Frontmatter, out: &mut Vec<Diagnostic>)
    ensures
        findings(final(out)@) == findings(old(out)@) + computation_findings(*entry, *frontmatter),
{
    proof {
        lemma_registered_codes();
        assert(rule_table()[11].code@ == "computation-missing-runtime"@);
    }
    let ghost before = findings(out@);
    if frontmatter.is_attested_computation() && frontmatter.runtime().is_none() {
        push_finding(
            out,
            "computation-missing-runtime",
            entry.path.as_str(),
            Some(frontmatter.span),
            "Attested Computation has no `runtime`",
            "`runtime` defines what `parameters` mean, e.g. `runtime: bigquery` (§10.2)",
        );
    }
    assert(findings(out@) =~= before + computation_findings(*entry, *frontmatter));
}

// ----- paths -----

/// The characters `://`.
pub open spec fn scheme_mark() -> Seq<char> {
    seq![':', '/', '/']
}

/// Whether `s` contains `://` starting at index `i`.
pub open spec fn mark_at(s: Seq<char>, i: int) -> bool {
    0 <= i && i + 3 <= s.len() && s.subrange(i, i + 3) == scheme_mark()
}

/// Whether a path-valued field looks like a path into the bundle: not
/// empty, no white space, and no URL scheme before a `://`.
pub open spec fn bundle_path(v: Seq<char>) -> bool {
    &&& v.len() > 0
    &&& forall|i: int| 0 <= i < v.len() ==> !is_white(#[trigger] v[i])
    &&& forall|i: int| #[trigger] mark_at(v, i) ==> (i == 0 || exists|j: int| 0 <= j < i && mark_at(v, j))
}

/// Whether a path-valued field looks like a path into the bundle.
///
/// URLs point outside it, and a value containing whitespace is prose rather
/// than a path, so neither can be resolved against the bundle.
pub fn is_bundle_path(value: &str) -> (b: bool)
    ensures
        b == bundle_path(value@),
{
    let cs = chars_of(value);
    let n = cs.len();
    if n == 0 {
        return false;
    }
    let mut i: usize = 0;
    while i < n
        invariant
            n == cs@.len(),
            cs@ == value@,
            i <= n,
            forall|j: int| 0 <= j < i ==> !is_white(#[trigger] cs@[j]),
        decreases n - i,
    {
        if is_white_char(cs[i]) {
            return false;
        }
        i = i + 1;
    }
    let mut k: usize = 0;
    while k < n && n - k >= 3
        invariant
            n == cs@.len(),
            n > 0,
            cs@ == value@,
            forall|j: int| 0 <= j < n ==> !is_white(#[trigger] cs@[j]),
            forall|j: int| 0 <= j < k ==> !mark_at(cs@, j),
        decreases n - k,
    {
        if cs[k] == ':' && cs[k + 1] == '/' && cs[k + 2] == '/' {
            assert(cs@.subrange(k as int, k + 3) =~= scheme_mark());
            assert(mark_at(cs@, k as int));
            if k == 0 {
                assert forall|j: int| #[trigger] mark_at(cs@, j) implies (j == 0 || exists|m: int|
                    0 <= m < j && mark_at(cs@, m)) by {
                    if j > 0 {
                        assert(mark_at(cs@, 0));
                    }
                }
                return true;
            }
            return false;
        }
        proof {
            let w = cs@.subrange(k as int, k + 3);
            assert(w[0] == cs@[k as int] && w[1] == cs@[k + 1] && w[2] == cs@[k + 2]);
        }
        k = k + 1;
    }
    assert forall|j: int| #[trigger] mark_at(cs@, j) implies (j == 0 || exists|m: int|
        0 <= m < j && mark_at(cs@, m)) by {
        assert(j < k);
    }
    true
}

/// Whether the bundle has a file at a path-valued field's `path`.
pub open spec fn names_file(b: Bundle, path: Seq<char>) -> bool {
    b.asset_seq().contains(without_leading_slashes(path)) || (concept_id_of(
        without_leading_slashes(path),
    ) matches Some(x) && ids(b.entry_seq()).contains(x))
}

/// A finding for each bundle path naming no file in the bundle.
pub open spec fn path_findings_of(b: Bundle, paths: Seq<(Seq<char>, Span)>, file: Seq<char>) -> Seq<Finding>
    decreases paths.len(),
{
    if paths.len() == 0 {
        seq![]
    } else {
        let rest = path_findings_of(b, paths.drop_last(), file);
        let (p, s) = paths.last();
        if bundle_path(p) && !names_file(b, p) {
            rest.push(
                lint_finding(
                    "unreachable-path"@,
                    file,
                    Some(s),
                    "`"@ + p + "` does not name a file in the bundle"@,
                    "path-valued fields accept a URL, a `/`-rooted path, or a relative path (§6.2)"@,
                ),
            )
        } else {
            rest
        }
    }
}

fn check_paths(bundle: &Bundle, entry: &Entry, frontmatter: &Frontmatter, out: &mut Vec<Diagnostic>)
    ensures
        findings(final(out)@) == findings(old(out)@) + path_findings_of(
            *bundle,
            path_models(frontmatter.entries@),
            entry.path@,
        ),
{
    proof {
        lemma_registered_codes();
        assert(rule_table()[15].code@ == "unreachable-path"@);
    }
    let ghost before = findings(out@);
    let paths = frontmatter.path_fields();
    let ghost model = path_models(frontmatter.entries@);
    let mut i: usize = 0;
    while i < paths.len()
        invariant
            paths@.len() == model.len(),
            forall|j: int|
                0 <= j < paths@.len() ==> (#[trigger] paths@[j]).0@ == model[j].0 && paths@[j].1
                    == model[j].1,
            i <= paths@.len(),
            is_registered("unreachable-path"@),
            findings(out@) == before + path_findings_of(*bundle, model.take(i as int), entry.path@),
        decreases paths@.len() - i,
    {
        assert(model.take(i + 1).drop_last() =~= model.take(i as int));
        assert(paths@[i as int].0@ == model[i as int].0);
        let (path, span) = paths[i];
        if is_bundle_path(path) && !bundle.contains_path(path) {
            let mut message = "`".to_owned();
            push_str(&mut message, path);
            push_str(&mut message, "` does not name a file in the bundle");
            push_finding(
                out,
                "unreachable-path",
                entry.path.as_str(),
                Some(span),
                message.as_str(),
                "path-valued fields accept a URL, a `/`-rooted path, or a relative path (§6.2)",
            );
        }
        i = i + 1;
    }
    assert(model.take(i as int) =~= model);
}

// ----- indexes -----

/// Whether some entry of `kind` sits in `dir`.
pub open spec fn has_entry_in(entries: Seq<Entry>, kind: EntryKind, dir: Seq<char>) -> bool {
    exists|i: int| 0 <= i < entries.len() && (#[trigger] entries[i]).kind == kind && directory_of(entries[i].id@) == dir
}

/// `dir` joined with `index.md`, as `Path::join` does.
pub open spec fn index_path(dir: Seq<char>) -> Seq<char> {
    if dir.len() == 0 {
        "index.md"@
    } else if dir.last() == '/' {
        dir + "index.md"@
    } else {
        dir + "/index.md"@
    }
}

/// The finding for a directory that holds concepts but no `index.md`.
pub open spec fn missing_index(d: Seq<char>) -> Finding {
    lint_finding(
        "missing-index"@,
        index_path(d),
        None,
        (if d.len() == 0 {
            "the bundle root"@
        } else {
            d
        }) + " has no `index.md`"@,
        "an index lets agents see what exists before opening documents (§8)"@,
    )
}

/// A finding for each directory holding concepts but no `index.md`.
pub open spec fn index_findings_of(entries: Seq<Entry>, dirs: Seq<Seq<char>>) -> Seq<Finding>
    decreases dirs.len(),
{
    if dirs.len() == 0 {
        seq![]
    } else {
        let rest = index_findings_of(entries, dirs.drop_last());
        let d = dirs.last();
        if has_entry_in(entries, EntryKind::Concept, d) && !has_entry_in(entries, EntryKind::Index, d) {
            rest.push(missing_index(d))
        } else {
            rest
        }
    }
}

fn has_kind_in(entries: &[Entry], kind: EntryKind, dir: &str) -> (b: bool)
    ensures
        b == has_entry_in(entries@, kind, dir@),
{
    let mut i: usize = 0;
    while i < entries.len()
        invariant
            i <= entries@.len(),
            forall|j: int|
                0 <= j < i ==> !((#[trigger] entries@[j]).kind == kind && directory_of(entries@[j].id@)
                    == dir@),
        decreases entries@.len() - i,
    {
        if entries[i].kind == kind && str_eq(entries[i].directory(), dir) {
            return true;
        }
        i = i + 1;
    }
    false
}

fn check_indexes(bundle: &Bundle, out: &mut Vec<Diagnostic>) -> (dirs: Ghost<Seq<Seq<char>>>)
    ensures
        strictly_sorted(dirs@),
        dirs@.to_set() == directory_set(bundle.entry_seq()),
        findings(final(out)@) == findings(old(out)@) + index_findings_of(bundle.entry_seq(), dirs@),
{
    proof {
        lemma_registered_codes();
        assert(rule_table()[14].code@ == "missing-index"@);
        reveal_strlit("index.md");
        reveal_strlit("/index.md");
    }
    let ghost before = findings(out@);
    let entries = bundle.entries();
    let directories = bundle.directories();
    let ghost all = texts(directories@);
    let mut i: usize = 0;
    while i < directories.len()
        invariant
            entries@ == bundle.entry_seq(),
            all == texts(directories@),
            i <= directories@.len(),
            is_registered("missing-index"@),
            findings(out@) == before + index_findings_of(entries@, all.take(i as int)),
        decreases directories@.len() - i,
    {
        assert(all.take(i + 1).drop_last() =~= all.take(i as int));
        assert(all.take(i + 1).last() == directories@[i as int]@);
        let directory = directories[i].as_str();
        if has_kind_in(entries, EntryKind::Concept, directory) && !has_kind_in(
            entries,
            EntryKind::Index,
            directory,
        ) {
            let dir_chars = chars_of(directory);
            let mut path = directory.to_owned();
            if dir_chars.len() == 0 {
                path = "index.md".to_owned();
            } else if dir_chars[dir_chars.len() - 1] == '/' {
                push_str(&mut path, "index.md");
            } else {
                push_str(&mut path, "/index.md");
            }
            let mut message = if dir_chars.len() == 0 {
                "the bundle root".to_owned()
            } else {
                directory.to_owned()
            };
            push_str(&mut message, " has no `index.md`");
            push_finding(
                out,
                "missing-index",
                path.as_str(),
                None,
                message.as_str(),
                "an index lets agents see what exists before opening documents (§8)",
            );
        }
        i = i + 1;
    }
    assert(all.take(i as int) =~= all);
    Ghost(all)
}

// ----- the whole run -----

/// What the field, staleness, superseded-construct and actor rules find.
pub open spec fn metadata_findings(e: Entry, fm: Frontmatter, today: Date) -> Seq<Finding> {
    field_findings(e, fm) + stale_findings(e, fm, today) + legacy_findings(e, fm) + actor_findings_of(
        actor_models(fm.entries@),
        e.path@,
    )
}

/// What the source, footnote, computation and path rules find.
pub open spec fn reference_findings(b: Bundle, e: Entry, fm: Frontmatter) -> Seq<Finding> {
    source_findings_of(sources_of(fm), e.path@) + footnote_findings_of(
        e.body.footnotes@,
        declared_ids(sources_of(fm)),
        e.path@,
    ) + computation_findings(e, fm) + path_findings_of(b, path_models(fm.entries@), e.path@)
}

/// What the frontmatter rules find in a concept whose block parsed.
pub open spec fn frontmatter_findings(b: Bundle, e: Entry, fm: Frontmatter, today: Date) -> Seq<Finding> {
    metadata_findings(e, fm, today) + reference_findings(b, e, fm)
}

/// What the concept-level rules find in one concept.
pub open spec fn concept_findings(b: Bundle, e: Entry, today: Date) -> Seq<Finding> {
    broken_links(e.body.links@, e.id@, ids(b.entry_seq()), e.path@) + orphan_findings(
        b.entry_seq(),
        e,
    ) + match e.document.frontmatter {
        FrontmatterState::Parsed(fm) => frontmatter_findings(b, e, fm, today),
        _ => seq![],
    }
}

/// What the concept-level rules find in the concepts among `entries`.
pub open spec fn concepts_findings(b: Bundle, entries: Seq<Entry>, today: Date) -> Seq<Finding>
    decreases entries.len(),
{
    if entries.len() == 0 {
        seq![]
    } else {
        let rest = concepts_findings(b, entries.drop_last(), today);
        if entries.last().kind == EntryKind::Concept {
            rest + concept_findings(b, entries.last(), today)
        } else {
            rest
        }
    }
}

fn check_metadata(entry: &Entry, frontmatter: &Frontmatter, today: Date, out: &mut Vec<Diagnostic>)
    ensures
        findings(final(out)@) == findings(old(out)@) + metadata_findings(*entry, *frontmatter, today),
{
    let ghost s0 = findings(out@);
    check_recommended_fields(entry, frontmatter, out);
    let ghost s1 = findings(out@);
    check_staleness(entry, frontmatter, today, out);
    let ghost s2 = findings(out@);
    assert(s2 =~= s0 + (field_findings(*entry, *frontmatter) + stale_findings(
        *entry,
        *frontmatter,
        today,
    )));
    check_legacy_fields(entry, frontmatter, out);
    let ghost s3 = findings(out@);
    assert(s3 =~= s0 + (field_findings(*entry, *frontmatter) + stale_findings(
        *entry,
        *frontmatter,
        today,
    ) + legacy_findings(*entry, *frontmatter)));
    check_actors(entry, frontmatter, out);
    assert(findings(out@) =~= s0 + metadata_findings(*entry, *frontmatter, today));
}

fn check_references(bundle: &Bundle, entry: &Entry, frontmatter: &Frontmatter, out: &mut Vec<Diagnostic>)
    ensures
        findings(final(out)@) == findings(old(out)@) + reference_findings(
            *bundle,
            *entry,
            *frontmatter,
        ),
{
    let ghost s0 = findings(out@);
    check_sources(entry, frontmatter, out);
    check_footnotes(entry, frontmatter, out);
    let ghost s2 = findings(out@);
    assert(s2 =~= s0 + (source_findings_of(sources_of(*frontmatter), entry.path@)
        + footnote_findings_of(
        entry.body.footnotes@,
        declared_ids(sources_of(*frontmatter)),
        entry.path@,
    )));
    check_computation(entry, frontmatter, out);
    let ghost s3 = findings(out@);
    assert(s3 =~= s0 + (source_findings_of(sources_of(*frontmatter), entry.path@)
        + footnote_findings_of(
        entry.body.footnotes@,
        declared_ids(sources_of(*frontmatter)),
        entry.path@,
    ) + computation_findings(*entry, *frontmatter)));
    check_paths(bundle, entry, frontmatter, out);
    assert(findings(out@) =~= s0 + reference_findings(*bundle, *entry, *frontmatter));
}

fn check_concept(bundle: &Bundle, entry: &Entry, today: Date, out: &mut Vec<Diagnostic>)
    ensures
        findings(final(out)@) == findings(old(out)@) + concept_findings(*bundle, *entry, today),
{
    let ghost before = findings(out@);
    check_links(bundle, entry, out);
    let ghost mid = findings(out@);
    check_orphan(bundle, entry, out);
    let ghost after_orphan = findings(out@);
    if let Some(frontmatter) = entry.document.frontmatter.parsed() {
        let ghost s0 = findings(out@);
        check_metadata(entry, frontmatter, today, out);
        check_references(bundle, entry, frontmatter, out);
        assert(findings(out@) =~= s0 + frontmatter_findings(*bundle, *entry, *frontmatter, today));
    }
    assert(findings(out@) =~= before + concept_findings(*bundle, *entry, today));
}

/// Runs every advisory rule over a bundle: the concept rules for each
/// concept in ID order, then the index rule for each directory in order.
pub fn lint(bundle: &Bundle, options: &LintOptions) -> (r: Vec<Diagnostic>)
    ensures
        exists|dirs: Seq<Seq<char>>|
            strictly_sorted(dirs) && #[trigger] dirs.to_set() == directory_set(bundle.entry_seq())
                && findings(r@) == concepts_findings(*bundle, bundle.entry_seq(), options.today)
                + index_findings_of(bundle.entry_seq(), dirs),
{
    let entries = bundle.entries();
    let mut out: Vec<Diagnostic> = Vec::new();
    let mut i: usize = 0;
    assert(findings(out@) =~= concepts_findings(*bundle, entries@.take(0), options.today));
    while i < entries.len()
        invariant
            entries@ == bundle.entry_seq(),
            i <= entries@.len(),
            findings(out@) == concepts_findings(*bundle, entries@.take(i as int), options.today),
        decreases entries@.len() - i,
    {
        assert(entries@.take(i + 1).drop_last() =~= entries@.take(i as int));
        assert(entries@.take(i + 1).last() == entries@[i as int]);
        let entry = &entries[i];
        if entry.is_concept() {
            check_concept(bundle, entry, options.today, &mut out);
        }
        i = i + 1;
    }
    assert(entries@.take(i as int) =~= entries@);
    let dirs = check_indexes(bundle, &mut out);
    assert(dirs@.to_set() == directory_set(bundle.entry_seq()));
    out
}

} // verus!

verus! {

/// Whether a finding is advisory: under a lint rule, at that rule's default
/// severity, which is never an error.
pub open spec fn is_advisory(f: Finding) -> bool {
    &&& rule_for(f.code) matches Some(r) && r.kind == RuleKind::Lint
    &&& f.severity != Severity::Error
}

/// Whether every finding in `s` is advisory.
pub open spec fn all_advisory(s: Seq<Finding>) -> bool {
    forall|i: int| 0 <= i < s.len() ==> is_advisory(#[trigger] s[i])
}

proof fn lemma_concat(a: Seq<Finding>, b: Seq<Finding>)
    requires
        all_advisory(a),
        all_advisory(b),
    ensures
        all_advisory(a + b),
{
    assert forall|i: int| 0 <= i < (a + b).len() implies is_advisory(#[trigger] (a + b)[i]) by {
        if i < a.len() {
            assert((a + b)[i] == a[i]);
        } else {
            assert((a + b)[i] == b[i - a.len()]);
        }
    }
}

proof fn lemma_push(a: Seq<Finding>, f: Finding)
    requires
        all_advisory(a),
        is_advisory(f),
    ensures
        all_advisory(a.push(f)),
{
    assert forall|i: int| 0 <= i < a.push(f).len() implies is_advisory(#[trigger] a.push(f)[i]) by {
        if i < a.len() {
            assert(a.push(f)[i] == a[i]);
        }
    }
}

/// A finding under the registered lint rule at `k` is advisory.
proof fn lemma_lint_code(k: int, path: Seq<char>, span: Option<Span>, message: Seq<char>, help: Seq<char>)
    requires
        3 <= k < 16,
    ensures
        is_advisory(lint_finding(rule_table()[k].code@, path, span, message, help)),
{
    lemma_registered_codes();
    crate::diagnostic::lemma_exactly_three_conformance_rules();
    crate::diagnostic::lemma_only_conformance_defaults_to_error();
    assert(rule_table()[k].kind == RuleKind::Lint);
}

proof fn lemma_codes()
    ensures
        rule_table()[3].code@ == "broken-link"@,
        rule_table()[4].code@ == "missing-description"@,
        rule_table()[5].code@ == "missing-title"@,
        rule_table()[6].code@ == "stale-concept"@,
        rule_table()[7].code@ == "legacy-timestamp"@,
        rule_table()[8].code@ == "legacy-citations"@,
        rule_table()[9].code@ == "unknown-actor"@,
        rule_table()[10].code@ == "unresolved-footnote"@,
        rule_table()[11].code@ == "computation-missing-runtime"@,
        rule_table()[12].code@ == "source-missing-resource"@,
        rule_table()[13].code@ == "orphan-concept"@,
        rule_table()[14].code@ == "missing-index"@,
        rule_table()[15].code@ == "unreachable-path"@,
{
}

proof fn lemma_broken_links(links: Seq<Link>, from: Seq<char>, known: Seq<Seq<char>>, path: Seq<char>)
    ensures
        all_advisory(broken_links(links, from, known, path)),
    decreases links.len(),
{
    lemma_codes();
    if links.len() > 0 {
        lemma_broken_links(links.drop_last(), from, known, path);
        let l = links.last();
        lemma_lint_code(3, path, Some(l.span), "link target `"@ + l.target@ + "` does not exist in the bundle"@, broken_link_help());
        if let Some(t) = resolve_link(l.target@, l.kind, from) {
            if !known.contains(t) {
                lemma_push(broken_links(links.drop_last(), from, known, path), lint_finding(
                    "broken-link"@,
                    path,
                    Some(l.span),
                    "link target `"@ + l.target@ + "` does not exist in the bundle"@,
                    broken_link_help(),
                ));
            }
        }
    }
}

proof fn lemma_citations(hs: Seq<Heading>, path: Seq<char>)
    ensures
        all_advisory(citation_findings(hs, path)),
    decreases hs.len(),
{
    lemma_codes();
    if hs.len() > 0 {
        lemma_citations(hs.drop_last(), path);
        let h = hs.last();
        let f = lint_finding(
            "legacy-citations"@,
            path,
            Some(h.span),
            "a body `# Citations` list is a v0.1 construct"@,
            "move the citations into frontmatter `sources` (§13.1)"@,
        );
        lemma_lint_code(8, path, Some(h.span), "a body `# Citations` list is a v0.1 construct"@, "move the citations into frontmatter `sources` (§13.1)"@);
        lemma_push(citation_findings(hs.drop_last(), path), f);
    }
}

proof fn lemma_actors(actors: Seq<(Seq<char>, Span)>, path: Seq<char>)
    ensures
        all_advisory(actor_findings_of(actors, path)),
    decreases actors.len(),
{
    lemma_codes();
    if actors.len() > 0 {
        lemma_actors(actors.drop_last(), path);
        let (a, s) = actors.last();
        let m = "`"@ + a + "` does not match the actor conventions"@;
        lemma_lint_code(9, path, Some(s), m, actor_help());
        lemma_push(actor_findings_of(actors.drop_last(), path), lint_finding("unknown-actor"@, path, Some(s), m, actor_help()));
    }
}

proof fn lemma_sources(sources: Seq<SourceModel>, path: Seq<char>)
    ensures
        all_advisory(source_findings_of(sources, path)),
    decreases sources.len(),
{
    lemma_codes();
    if sources.len() > 0 {
        lemma_sources(sources.drop_last(), path);
        let s = sources.last();
        let m = "`sources` entry has no `resource`"@;
        let h = "`resource` is required within a `sources` entry (§5.1)"@;
        lemma_lint_code(12, path, Some(s.span), m, h);
        lemma_push(source_findings_of(sources.drop_last(), path), lint_finding("source-missing-resource"@, path, Some(s.span), m, h));
    }
}

proof fn lemma_footnotes(notes: Seq<FootnoteReference>, known: Seq<Seq<char>>, path: Seq<char>)
    ensures
        all_advisory(footnote_findings_of(notes, known, path)),
    decreases notes.len(),
{
    lemma_codes();
    if notes.len() > 0 {
        lemma_footnotes(notes.drop_last(), known, path);
        let n = notes.last();
        let m = "footnote `[^"@ + n.label@ + "]` matches no `sources[].id`"@;
        let h = "give the source an `id` equal to the footnote label (§5.1)"@;
        lemma_lint_code(10, path, Some(n.span), m, h);
        lemma_push(footnote_findings_of(notes.drop_last(), known, path), lint_finding("unresolved-footnote"@, path, Some(n.span), m, h));
    }
}

proof fn lemma_paths(b: Bundle, paths: Seq<(Seq<char>, Span)>, file: Seq<char>)
    ensures
        all_advisory(path_findings_of(b, paths, file)),
    decreases paths.len(),
{
    lemma_codes();
    if paths.len() > 0 {
        lemma_paths(b, paths.drop_last(), file);
        let (p, s) = paths.last();
        let m = "`"@ + p + "` does not name a file in the bundle"@;
        let h = "path-valued fields accept a URL, a `/`-rooted path, or a relative path (§6.2)"@;
        lemma_lint_code(15, file, Some(s), m, h);
        lemma_push(path_findings_of(b, paths.drop_last(), file), lint_finding("unreachable-path"@, file, Some(s), m, h));
    }
}

proof fn lemma_indexes(entries: Seq<Entry>, dirs: Seq<Seq<char>>)
    ensures
        all_advisory(index_findings_of(entries, dirs)),
    decreases dirs.len(),
{
    lemma_codes();
    if dirs.len() > 0 {
        lemma_indexes(entries, dirs.drop_last());
        let d = dirs.last();
        let m = (if d.len() == 0 {
            "the bundle root"@
        } else {
            d
        }) + " has no `index.md`"@;
        let h = "an index lets agents see what exists before opening documents (§8)"@;
        lemma_lint_code(14, index_path(d), None, m, h);
        lemma_push(index_findings_of(entries, dirs.drop_last()), lint_finding("missing-index"@, index_path(d), None, m, h));
    }
}

proof fn lemma_concept(b: Bundle, e: Entry, today: Date)
    ensures
        all_advisory(concept_findings(b, e, today)),
{
    lemma_codes();
    lemma_broken_links(e.body.links@, e.id@, ids(b.entry_seq()), e.path@);
    let o = orphan_findings(b.entry_seq(), e);
    lemma_lint_code(13, e.path@, None, "no concept links to `"@ + e.id@ + "`"@, "link it from a neighbouring concept or the directory's `index.md`"@);
    assert(all_advisory(o));
    lemma_concat(broken_links(e.body.links@, e.id@, ids(b.entry_seq()), e.path@), o);
    if let FrontmatterState::Parsed(fm) = e.document.frontmatter {
        lemma_lint_code(4, e.path@, Some(fm.span), "concept has no `description`"@, "index generators and search previews use `description` (§4.1)"@);
        lemma_lint_code(5, e.path@, Some(fm.span), "concept has no `title`"@, "without `title`, consumers fall back to the filename (§4.1)"@);
        let d1 = if text_field(fm.entries@, "description"@) is None {
            seq![lint_finding("missing-description"@, e.path@, Some(fm.span), "concept has no `description`"@, "index generators and search previews use `description` (§4.1)"@)]
        } else {
            seq![]
        };
        let d2 = if text_field(fm.entries@, "title"@) is None {
            seq![lint_finding("missing-title"@, e.path@, Some(fm.span), "concept has no `title`"@, "without `title`, consumers fall back to the filename (§4.1)"@)]
        } else {
            seq![]
        };
        assert(all_advisory(d1));
        assert(all_advisory(d2));
        lemma_concat(d1, d2);
        let st = stale_findings(e, fm, today);
        if let Some(t) = text_field(fm.entries@, "stale_after"@) {
            if let Some(d) = date_from_text(t) {
                lemma_lint_code(6, e.path@, Some(match lookup(fm.entries@, "stale_after"@) {
                    Some(n) => n.span,
                    None => fm.span,
                }), "concept went stale on "@ + date_text(d), "re-verify the content and move `stale_after` forward (§5.5)"@);
            }
        }
        assert(all_advisory(st));
        let ts = match lookup(fm.entries@, "timestamp"@) {
            Some(n) => seq![
                lint_finding("legacy-timestamp"@, e.path@, Some(n.span), "`timestamp` is a v0.1 field"@, "replace it with `generated: { by, at }` (§13.1)"@),
            ],
            None => seq![],
        };
        if let Some(n) = lookup(fm.entries@, "timestamp"@) {
            lemma_lint_code(7, e.path@, Some(n.span), "`timestamp` is a v0.1 field"@, "replace it with `generated: { by, at }` (§13.1)"@);
        }
        assert(all_advisory(ts));
        lemma_citations(headings_at_level(e.body.headings@, 1), e.path@);
        lemma_concat(ts, citation_findings(headings_at_level(e.body.headings@, 1), e.path@));
        lemma_actors(actor_models(fm.entries@), e.path@);
        lemma_concat(d1 + d2, st);
        lemma_concat(d1 + d2 + st, legacy_findings(e, fm));
        lemma_concat(d1 + d2 + st + legacy_findings(e, fm), actor_findings_of(actor_models(fm.entries@), e.path@));
        assert(metadata_findings(e, fm, today) == d1 + d2 + st + legacy_findings(e, fm) + actor_findings_of(actor_models(fm.entries@), e.path@));
        lemma_sources(sources_of(fm), e.path@);
        lemma_footnotes(e.body.footnotes@, declared_ids(sources_of(fm)), e.path@);
        let c = computation_findings(e, fm);
        lemma_lint_code(11, e.path@, Some(fm.span), "Attested Computation has no `runtime`"@, "`runtime` defines what `parameters` mean, e.g. `runtime: bigquery` (§10.2)"@);
        assert(all_advisory(c));
        lemma_paths(b, path_models(fm.entries@), e.path@);
        let s1 = source_findings_of(sources_of(fm), e.path@);
        let s2 = footnote_findings_of(e.body.footnotes@, declared_ids(sources_of(fm)), e.path@);
        lemma_concat(s1, s2);
        lemma_concat(s1 + s2, c);
        lemma_concat(s1 + s2 + c, path_findings_of(b, path_models(fm.entries@), e.path@));
        lemma_concat(metadata_findings(e, fm, today), reference_findings(b, e, fm));
        lemma_concat(broken_links(e.body.links@, e.id@, ids(b.entry_seq()), e.path@) + o, frontmatter_findings(b, e, fm, today));
    } else {
        assert(concept_findings(b, e, today) =~= broken_links(e.body.links@, e.id@, ids(b.entry_seq()), e.path@) + o);
    }
}

proof fn lemma_concepts(b: Bundle, entries: Seq<Entry>, today: Date)
    ensures
        all_advisory(concepts_findings(b, entries, today)),
    decreases entries.len(),
{
    if entries.len() > 0 {
        lemma_concepts(b, entries.drop_last(), today);
        if entries.last().kind == EntryKind::Concept {
            lemma_concept(b, entries.last(), today);
            lemma_concat(concepts_findings(b, entries.drop_last(), today), concept_findings(b, entries.last(), today));
        }
    }
}

/// No lint finding is ever an error, and every one is under an advisory
/// rule: a lint run can only warn or inform.
pub proof fn lemma_lint_is_advisory(b: Bundle, today: Date, dirs: Seq<Seq<char>>)
    ensures
        all_advisory(concepts_findings(b, b.entry_seq(), today) + index_findings_of(b.entry_seq(), dirs)),
{
    lemma_concepts(b, b.entry_seq(), today);
    lemma_indexes(b.entry_seq(), dirs);
    lemma_concat(concepts_findings(b, b.entry_seq(), today), index_findings_of(b.entry_seq(), dirs));
}


/// The index findings are exactly one `missing-index` finding for each of
/// `dirs` that holds a concept and no index entry, in the order of `dirs`;
/// what other reserved files a directory holds (a `log.md`) plays no part.
pub proof fn lemma_index_findings_are_the_unindexed_dirs(entries: Seq<Entry>, dirs: Seq<Seq<char>>)
    ensures
        index_findings_of(entries, dirs) == dirs.filter(
            |d: Seq<char>|
                has_entry_in(entries, EntryKind::Concept, d) && !has_entry_in(
                    entries,
                    EntryKind::Index,
                    d,
                ),
        ).map_values(|d: Seq<char>| missing_index(d)),
    decreases dirs.len(),
{
    reveal(Seq::filter);
    let pred = |d: Seq<char>|
        has_entry_in(entries, EntryKind::Concept, d) && !has_entry_in(entries, EntryKind::Index, d);
    if dirs.len() == 0 {
        assert(dirs.filter(pred) =~= Seq::<Seq<char>>::empty());
        assert(dirs.filter(pred).map_values(|d: Seq<char>| missing_index(d)) =~= seq![]);
    } else {
        lemma_index_findings_are_the_unindexed_dirs(entries, dirs.drop_last());
        let rest = dirs.drop_last().filter(pred);
        if pred(dirs.last()) {
            assert(dirs.filter(pred) == rest.push(dirs.last()));
            assert(rest.push(dirs.last()).map_values(|d: Seq<char>| missing_index(d))
                =~= rest.map_values(|d: Seq<char>| missing_index(d)).push(missing_index(dirs.last())));
        } else {
            assert(dirs.filter(pred) == rest);
        }
    }
}

/// A directory of `dirs` that holds a concept and no index entry is
/// reported at its `index.md`, whatever else it holds.
pub proof fn lemma_unindexed_dir_is_reported(entries: Seq<Entry>, dirs: Seq<Seq<char>>, d: Seq<char>)
    requires
        dirs.contains(d),
        has_entry_in(entries, EntryKind::Concept, d),
        !has_entry_in(entries, EntryKind::Index, d),
    ensures
        index_findings_of(entries, dirs).contains(missing_index(d)),
        missing_index(d).code == "missing-index"@,
        missing_index(d).path == index_path(d),
    decreases dirs.len(),
{
    let rest = index_findings_of(entries, dirs.drop_last());
    if dirs.last() == d {
        assert(index_findings_of(entries, dirs)[rest.len() as int] == missing_index(d));
    } else {
        let j = choose|j: int| 0 <= j < dirs.len() && dirs[j] == d;
        assert(dirs.drop_last()[j] == d);
        lemma_unindexed_dir_is_reported(entries, dirs.drop_last(), d);
        let k = choose|k: int| 0 <= k < rest.len() && rest[k] == missing_index(d);
        let last = dirs.last();
        if has_entry_in(entries, EntryKind::Concept, last) && !has_entry_in(entries, EntryKind::Index, last) {
            assert(rest.push(missing_index(last))[k] == missing_index(d));
        }
        assert(index_findings_of(entries, dirs)[k] == missing_index(d));
    }
}

} // verus!
