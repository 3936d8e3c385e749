//! What a bundle answers to AI agents over the Model Context Protocol.
//!
//! Concepts are published twice: as resources under `okf://<concept-id>`, and
//! through tools (`search`, `list`, `read`, `related`, `trust`). Many clients
//! never show resources to the model without a user's action, so the tools
//! are what makes the bundle useful in practice. This module computes every
//! answer as text; the program speaks the protocol.

use vstd::prelude::*;
use vstd::string::*;

use crate::bundle::{
    first_occurrences, ids, linking_ids, resolved_targets, Bundle, Entry, EntryKind,
};
use crate::concept_id::{concept_id_of, name_of, ConceptId};
use crate::date::{date_from_text, date_text, Date};
use crate::diagnostic::opt_string;
use crate::document::{Frontmatter, FrontmatterState};
use crate::frontmatter::{
    declared_type, generated_of, opt_text, sequence_field, source_models, string_items, text_field,
    tier_of, verifications, SourceModel, StampModel,
};
use crate::graph::{concepts_of, names_concept, or_empty};
use crate::sorted::texts;
use crate::text::{chars_of, decimal, is_white, is_white_char, push_char, push_number, push_str, string_of};
use crate::trust::{status_of, status_text, tier_text, Status};

verus! {

/// The URI scheme of concept resources.
pub const URI_SCHEME: &'static str = "okf://";

/// The Unicode lowercase form of `s`, as `str::to_lowercase` gives it: a
/// function of `s` alone, whose tables are Unicode's.
pub uninterp spec fn lowercase(s: Seq<char>) -> Seq<char>;

/// `str::to_lowercase`. Its result is named `lowercase`; nothing more about
/// the mapping is stated.
#[verifier::external_body]
fn to_lowercase(s: &str) -> (r: String)
    ensures
        r@ == lowercase(s@),
{
    s.to_lowercase()
}

/// `s` as `str`'s `Debug` writes it: quoted, with quotes, backslashes and
/// control characters escaped. A function of `s` alone.
pub uninterp spec fn debug_quoted(s: Seq<char>) -> Seq<char>;

/// `format!("{:?}", s)`, that is `str`'s `Debug`. Its result is named
/// `debug_quoted`; the escaping rules are not written out.
#[verifier::external_body]
fn quoted(s: &str) -> (r: String)
    ensures
        r@ == debug_quoted(s@),
{
    format!("{:?}", s)
}

/// Whether `needle` occurs in `hay` starting at `i`.
pub open spec fn occurs_at(hay: Seq<char>, needle: Seq<char>, i: int) -> bool {
    0 <= i && i + needle.len() <= hay.len() && hay.subrange(i, i + needle.len()) == needle
}

/// Whether `needle` occurs anywhere in `hay`, as `str::contains` tests it.
pub open spec fn has_part(hay: Seq<char>, needle: Seq<char>) -> bool {
    exists|i: int| occurs_at(hay, needle, i)
}

/// Whether `needle` occurs in `hay`.
pub fn contains_text(hay: &str, needle: &str) -> (b: bool)
    ensures
        b == has_part(hay@, needle@),
{
    let h = chars_of(hay);
    let n = chars_of(needle);
    if n.len() > h.len() {
        proof {
            if has_part(hay@, needle@) {
                let i = choose|i: int| occurs_at(hay@, needle@, i);
            }
        }
        return false;
    }
    let last = h.len() - n.len();
    let mut i: usize = 0;
    while i <= last
        invariant
            h@ == hay@,
            n@ == needle@,
            last == h@.len() - n@.len(),
            h@.len() <= usize::MAX,
            i <= last + 1,
            forall|k: int| 0 <= k < i ==> !#[trigger] occurs_at(hay@, needle@, k),
        decreases last + 1 - i,
    {
        let mut j: usize = 0;
        let mut same = true;
        while j < n.len()
            invariant
                h@ == hay@,
                n@ == needle@,
                i <= last,
                last == h@.len() - n@.len(),
                n@.len() <= h@.len(),
                h@.len() <= usize::MAX,
                j <= n@.len(),
                same == (forall|q: int| 0 <= q < j ==> h@[i + q] == n@[q]),
            decreases n@.len() - j,
        {
            assert(i + j < h@.len());
            let at: usize = i + j;
            if h[at] != n[j] {
                same = false;
            }
            j = j + 1;
        }
        if same {
            assert(hay@.subrange(i as int, i + needle@.len()) =~= needle@);
            assert(occurs_at(hay@, needle@, i as int));
            return true;
        }
        proof {
            if occurs_at(hay@, needle@, i as int) {
                assert forall|q: int| 0 <= q < n@.len() implies h@[i + q] == n@[q] by {
                    assert(hay@.subrange(i as int, i + needle@.len())[q] == needle@[q]);
                }
            }
        }
        i = i + 1;
    }
    proof {
        if has_part(hay@, needle@) {
            let k = choose|k: int| occurs_at(hay@, needle@, k);
            assert(occurs_at(hay@, needle@, k));
        }
    }
    false
}

/// The whitespace-separated words of `s`, as `str::split_whitespace` yields
/// them: the maximal runs of characters that are not whitespace.
pub open spec fn words(s: Seq<char>) -> Seq<Seq<char>>
    decreases s.len(),
{
    if s.len() == 0 {
        seq![]
    } else {
        let rest = words(s.drop_last());
        let c = s.last();
        if is_white(c) {
            rest
        } else if s.len() > 1 && !is_white(s[s.len() - 2]) {
            rest.update(rest.len() - 1, rest.last().push(c))
        } else {
            rest.push(seq![c])
        }
    }
}

/// The words of `text`.
fn split_words(text: &str) -> (r: Vec<String>)
    ensures
        texts(r@) == words(text@),
{
    let cs = chars_of(text);
    let mut out: Vec<String> = Vec::new();
    let mut cur: Vec<char> = Vec::new();
    let mut i: usize = 0;
    assert(cs@.take(0) =~= Seq::<char>::empty());
    while i < cs.len()
        invariant
            cs@ == text@,
            i <= cs@.len(),
            cur@.len() > 0 <==> (i > 0 && !is_white(cs@[i - 1])),
            words(cs@.take(i as int)) == if cur@.len() > 0 {
                texts(out@).push(cur@)
            } else {
                texts(out@)
            },
        decreases cs@.len() - i,
    {
        let c = cs[i];
        let ghost prefix = cs@.take(i as int);
        assert(cs@.take(i + 1).drop_last() =~= prefix);
        assert(cs@.take(i + 1).last() == c);
        if is_white_char(c) {
            if cur.len() > 0 {
                let ghost before = texts(out@);
                out.push(string_of(cur.as_slice()));
                assert(texts(out@) =~= before.push(cur@));
                cur = Vec::new();
            }
        } else {
            if i > 0 {
                assert(cs@.take(i + 1)[i - 1] == cs@[i - 1]);
            }
            let ghost old_cur = cur@;
            cur.push(c);
            proof {
                if old_cur.len() > 0 {
                    assert(texts(out@).push(old_cur).update(
                        texts(out@).len() as int,
                        old_cur.push(c),
                    ) =~= texts(out@).push(cur@));
                } else {
                    assert(cur@ =~= seq![c]);
                }
            }
        }
        i = i + 1;
    }
    assert(cs@.take(i as int) =~= cs@);
    if cur.len() > 0 {
        let ghost before = texts(out@);
        out.push(string_of(cur.as_slice()));
        assert(texts(out@) =~= before.push(cur@));
    }
    out
}

/// The type an agent is shown for a concept: its declared type, or
/// `untyped`.
pub open spec fn shown_type_of(state: FrontmatterState) -> Seq<char> {
    match state {
        FrontmatterState::Parsed(fm) => match declared_type(fm.entries@) {
            Some(t) => t,
            None => "untyped"@,
        },
        _ => "untyped"@,
    }
}

/// The type of a concept, `untyped` when it declares none or its
/// frontmatter did not parse.
pub fn concept_type(entry: &Entry) -> (t: &str)
    ensures
        t@ == shown_type_of(entry.document.frontmatter),
{
    match entry.document.frontmatter.parsed() {
        Some(f) => match f.concept_type() {
            Some(t) => t,
            None => "untyped",
        },
        None => "untyped",
    }
}

/// The listing of `ids`, one per line, or `(none)`.
pub open spec fn ids_text(ids: Seq<Seq<char>>) -> Seq<char> {
    if ids.len() == 0 {
        "  (none)\n"@
    } else {
        id_lines(ids)
    }
}

/// One `  - id` line per ID.
pub open spec fn id_lines(ids: Seq<Seq<char>>) -> Seq<char>
    decreases ids.len(),
{
    if ids.len() == 0 {
        seq![]
    } else {
        id_lines(ids.drop_last()) + "  - "@ + ids.last() + "\n"@
    }
}

/// Lists concept IDs for an agent.
pub fn render_ids(ids: &[ConceptId]) -> (r: String)
    ensures
        r@ == ids_text(ids@.map_values(|c: ConceptId| c@)),
{
    let ghost v = ids@.map_values(|c: ConceptId| c@);
    if ids.len() == 0 {
        return "  (none)\n".to_owned();
    }
    let mut out = String::new();
    let mut i: usize = 0;
    while i < ids.len()
        invariant
            i <= ids@.len(),
            v == ids@.map_values(|c: ConceptId| c@),
            out@ == id_lines(v.take(i as int)),
        decreases ids@.len() - i,
    {
        assert(v.take(i + 1).drop_last() =~= v.take(i as int));
        push_str(&mut out, "  - ");
        push_str(&mut out, ids[i].as_str());
        push_str(&mut out, "\n");
        i = i + 1;
    }
    assert(v.take(i as int) =~= v);
    out
}

/// `parts` joined with `, ` between them.
pub open spec fn comma_joined(parts: Seq<Seq<char>>) -> Seq<char>
    decreases parts.len(),
{
    if parts.len() == 0 {
        seq![]
    } else if parts.len() == 1 {
        parts[0]
    } else {
        comma_joined(parts.drop_last()) + ", "@ + parts.last()
    }
}

/// A `key: value` line when the value is there.
pub open spec fn field_line(key: Seq<char>, value: Option<Seq<char>>) -> Seq<char> {
    match value {
        Some(v) => key + ": "@ + v + "\n"@,
        None => seq![],
    }
}

/// The frontmatter part of how an agent reads a concept: the main fields
/// and the trust tier, when the frontmatter parsed.
pub open spec fn front_lines(e: Entry) -> Seq<char> {
    match e.document.frontmatter {
        FrontmatterState::Parsed(fm) => {
            let m = fm.entries@;
            "type: "@ + shown_type_of(e.document.frontmatter) + "\n"@ + field_line(
                "title"@,
                text_field(m, "title"@),
            ) + field_line("description"@, text_field(m, "description"@)) + field_line(
                "resource"@,
                text_field(m, "resource"@),
            ) + tags_line(string_items(sequence_field(m, "tags"@))) + "trust: "@ + tier_text(
                tier_of(verifications(m)),
            ) + "\n"@
        },
        _ => seq![],
    }
}

/// The `tags:` line, absent when there are no tags.
pub open spec fn tags_line(tags: Seq<Seq<char>>) -> Seq<char> {
    if tags.len() > 0 {
        "tags: "@ + comma_joined(tags) + "\n"@
    } else {
        seq![]
    }
}

/// A concept as an agent reads it: its ID, the main frontmatter fields and
/// trust tier when the frontmatter parsed, then the body as written.
pub open spec fn rendered(e: Entry) -> Seq<char> {
    "# "@ + e.id@ + "\n\n"@ + front_lines(e) + "\n"@ + e.document.body.text@
}

fn tags_text(tags: &Vec<&str>) -> (r: String)
    ensures
        r@ == tags_line(tags@.map_values(|t: &str| t@)),
{
    let ghost tv = tags@.map_values(|t: &str| t@);
    let mut out = String::new();
    if tags.len() == 0 {
        return out;
    }
    push_str(&mut out, "tags: ");
    let ghost start = out@;
    let mut k: usize = 0;
    while k < tags.len()
        invariant
            k <= tags@.len(),
            tv == tags@.map_values(|t: &str| t@),
            out@ == start + comma_joined(tv.take(k as int)),
        decreases tags@.len() - k,
    {
        assert(tv.take(k + 1).drop_last() =~= tv.take(k as int));
        if k > 0 {
            push_str(&mut out, ", ");
        } else {
            assert(tv.take(1) =~= seq![tv[0]]);
            assert(comma_joined(tv.take(0)) =~= Seq::<char>::empty());
        }
        push_str(&mut out, tags[k]);
        assert(tv.take(k + 1).last() == tv[k as int]);
        assert(out@ =~= start + comma_joined(tv.take(k + 1)));
        k = k + 1;
    }
    assert(tv.take(k as int) =~= tv);
    push_str(&mut out, "\n");
    out
}

fn front_text(entry: &Entry) -> (r: String)
    ensures
        r@ == front_lines(*entry),
{
    let mut out = String::new();
    match entry.document.frontmatter.parsed() {
        Some(f) => {
            push_str(&mut out, "type: ");
            push_str(&mut out, concept_type(entry));
            push_str(&mut out, "\n");
            push_field(&mut out, "title", f.title());
            push_field(&mut out, "description", f.description());
            push_field(&mut out, "resource", f.resource());
            let tags = f.tags();
            assert(tags@.map_values(|t: &str| t@) =~= string_items(
                sequence_field(f.entries@, "tags"@),
            ));
            let line = tags_text(&tags);
            push_str(&mut out, line.as_str());
            push_str(&mut out, "trust: ");
            push_str(&mut out, f.trust_tier().as_str());
            push_str(&mut out, "\n");
            assert(out@ =~= front_lines(*entry));
        },
        None => {},
    }
    out
}

fn push_field(out: &mut String, key: &str, value: Option<&str>)
    ensures
        final(out)@ == old(out)@ + field_line(key@, opt_text(value)),
{
    match value {
        Some(v) => {
            push_str(out, key);
            push_str(out, ": ");
            push_str(out, v);
            push_str(out, "\n");
        },
        None => {
            assert(old(out)@ + Seq::<char>::empty() =~= old(out)@);
        },
    }
}

/// Renders a concept the way an agent should see it.
pub fn render(entry: &Entry) -> (r: String)
    ensures
        r@ == rendered(*entry),
{
    let mut out = "# ".to_owned();
    push_str(&mut out, entry.id.as_str());
    push_str(&mut out, "\n\n");
    let front = front_text(entry);
    push_str(&mut out, front.as_str());
    push_str(&mut out, "\n");
    push_str(&mut out, entry.document.body.text.as_str());
    assert(out@ =~= rendered(*entry));
    out
}

/// The title an agent is shown for a concept: its `title`, or the last
/// segment of its ID.
pub open spec fn title_of(e: Entry) -> Seq<char> {
    match e.document.frontmatter {
        FrontmatterState::Parsed(fm) => match text_field(fm.entries@, "title"@) {
            Some(t) => t,
            None => name_of(e.id@),
        },
        _ => name_of(e.id@),
    }
}

/// The description an agent is shown for a concept, empty when it has none.
pub open spec fn description_of(e: Entry) -> Seq<char> {
    match e.document.frontmatter {
        FrontmatterState::Parsed(fm) => or_empty(text_field(fm.entries@, "description"@)),
        _ => seq![],
    }
}

/// The two-line summary of a concept in search and list results.
pub open spec fn summary(e: Entry) -> Seq<char> {
    "- "@ + e.id@ + " ["@ + shown_type_of(e.document.frontmatter) + "] "@ + title_of(e) + "\n  "@
        + description_of(e) + "\n"@
}

/// The summaries of `es`, in order.
pub open spec fn summaries(es: Seq<Entry>) -> Seq<char>
    decreases es.len(),
{
    if es.len() == 0 {
        seq![]
    } else {
        summaries(es.drop_last()) + summary(es.last())
    }
}

/// At most the first `n` elements of `s`.
pub open spec fn first_n<A>(s: Seq<A>, n: nat) -> Seq<A> {
    if s.len() <= n {
        s
    } else {
        s.take(n as int)
    }
}

fn summarize(entry: &Entry) -> (r: String)
    ensures
        r@ == summary(*entry),
{
    let title = match entry.document.frontmatter.parsed() {
        Some(f) => match f.title() {
            Some(t) => t,
            None => entry.id.name(),
        },
        None => entry.id.name(),
    };
    let description = match entry.document.frontmatter.parsed() {
        Some(f) => match f.description() {
            Some(d) => d,
            None => "",
        },
        None => "",
    };
    proof {
        reveal_strlit("");
    }
    let mut out = "- ".to_owned();
    push_str(&mut out, entry.id.as_str());
    push_str(&mut out, " [");
    push_str(&mut out, concept_type(entry));
    push_str(&mut out, "] ");
    push_str(&mut out, title);
    push_str(&mut out, "\n  ");
    push_str(&mut out, description);
    push_str(&mut out, "\n");
    assert(out@ =~= summary(*entry));
    out
}

/// Appends the provenance line for a stamp.
fn push_stamp(out: &mut String, label: &str, by: Option<&str>, at: Option<&str>)
    ensures
        final(out)@ == old(out)@ + stamp_line(
            label@,
            StampModel { by: opt_text(by), at: opt_text(at), span: arbitrary() },
        ),
{
    push_str(out, "  ");
    push_str(out, label);
    push_str(out, ": ");
    match by {
        Some(b) => push_str(out, b),
        None => push_str(out, "(unknown)"),
    }
    push_str(out, " at ");
    match at {
        Some(a) => push_str(out, a),
        None => push_str(out, "(unknown)"),
    }
    push_str(out, "\n");
}

/// The `verified` lines of the trust answer.
fn verified_lines(f: &crate::document::Frontmatter) -> (r: String)
    ensures
        r@ == stamp_lines("verified"@, verifications(f.entries@)),
{
    let mut text = String::new();
    let events = f.verified();
    let ghost vs = verifications(f.entries@);
    let mut k: usize = 0;
    while k < events.len()
        invariant
            k <= events@.len(),
            vs == verifications(f.entries@),
            events@.len() == vs.len(),
            forall|j: int| 0 <= j < events@.len() ==> #[trigger] events@[j]@ == vs[j],
            text@ == stamp_lines("verified"@, vs.take(k as int)),
        decreases events@.len() - k,
    {
        assert(vs.take(k + 1).drop_last() =~= vs.take(k as int));
        assert(events@[k as int]@ == vs[k as int]);
        push_stamp(&mut text, "verified", events[k].by, events[k].at);
        assert(text@ =~= stamp_lines("verified"@, vs.take(k + 1)));
        k = k + 1;
    }
    assert(vs.take(k as int) =~= vs);
    text
}

/// The `stale_after` line of the trust answer, empty without a date.
fn stale_line(f: &crate::document::Frontmatter, today: Date) -> (r: String)
    ensures
        r@ == match (match text_field(f.entries@, "stale_after"@) {
            Some(t) => date_from_text(t),
            None => None,
        }) {
            Some(d) => "  stale_after: "@ + date_text(d) + " ("@ + (if !today.before(d) {
                "STALE"@
            } else {
                "fresh"@
            }) + " as of "@ + date_text(today) + ")\n"@,
            None => seq![],
        },
{
    let mut text = String::new();
    match f.stale_after() {
        Some(d) => {
            let state = if f.is_stale_on(today) {
                "STALE"
            } else {
                "fresh"
            };
            push_str(&mut text, "  stale_after: ");
            let shown = d.to_string();
            push_str(&mut text, shown.as_str());
            push_str(&mut text, " (");
            push_str(&mut text, state);
            push_str(&mut text, " as of ");
            let day = today.to_string();
            push_str(&mut text, day.as_str());
            push_str(&mut text, ")\n");
            assert(text@ =~= "  stale_after: "@ + date_text(d) + " ("@ + (if !today.before(d) {
                "STALE"@
            } else {
                "fresh"@
            }) + " as of "@ + date_text(today) + ")\n"@);
        },
        None => {},
    }
    text
}

/// The `source` lines of the trust answer.
fn sources_text(f: &crate::document::Frontmatter) -> (r: String)
    ensures
        r@ == source_lines(source_models(sequence_field(f.entries@, "sources"@))),
{
    let mut text = String::new();
    let sources = f.sources();
    let ghost ss = source_models(sequence_field(f.entries@, "sources"@));
    let mut k: usize = 0;
    while k < sources.len()
        invariant
            k <= sources@.len(),
            ss == source_models(sequence_field(f.entries@, "sources"@)),
            sources@.len() == ss.len(),
            forall|j: int| 0 <= j < sources@.len() ==> #[trigger] sources@[j]@ == ss[j],
            text@ == source_lines(ss.take(k as int)),
        decreases sources@.len() - k,
    {
        assert(ss.take(k + 1).drop_last() =~= ss.take(k as int));
        assert(sources@[k as int]@ == ss[k as int]);
        let ghost before = text@;
        let s = &sources[k];
        push_str(&mut text, "  source: ");
        match s.title {
            Some(t) => push_str(&mut text, t),
            None => push_str(&mut text, "(untitled)"),
        }
        push_str(&mut text, " (");
        match s.resource {
            Some(r) => push_str(&mut text, r),
            None => push_str(&mut text, "(no resource)"),
        }
        push_str(&mut text, ")\n");
        assert(text@ =~= before + source_line(ss[k as int]));
        k = k + 1;
    }
    assert(ss.take(k as int) =~= ss);
    text
}

/// A tool's answer: its text, and whether it reports a failure.
#[derive(Debug, Clone, PartialEq, Eq)]
pub struct ToolReply {
    pub text: String,
    pub is_error: bool,
}

impl View for ToolReply {
    type V = (Seq<char>, bool);

    open spec fn view(&self) -> (Seq<char>, bool) {
        (self.text@, self.is_error)
    }
}

/// The arguments of `search`.
#[derive(Debug, Clone)]
pub struct SearchRequest {
    /// Case-insensitive text to look for in titles, descriptions, tags, IDs
    /// and bodies.
    pub query: String,
    /// The most concepts to return. Defaults to 10.
    pub limit: Option<u32>,
}

/// The arguments of `read`, `related` and `trust`.
#[derive(Debug, Clone)]
pub struct ConceptRequest {
    /// A concept ID, such as `architecture/okft-core`, or its `okf://` URI.
    pub id: String,
}

/// The arguments of `list`.
#[derive(Debug, Clone)]
pub struct ListRequest {
    /// Only concepts whose `type` matches this, case-insensitively.
    pub concept_type: Option<String>,
}

/// What the server tells a client it offers.
pub const INSTRUCTIONS: &'static str = "This server exposes an Open Knowledge Format (OKF) knowledge bundle. Use `search` to find concepts by text, `list` to enumerate them (optionally by type), `read` to fetch one in full, `related` to follow links between them, and `trust` to check how much a concept should be relied on before quoting it.";

/// The concept ID a requested ID or `okf://` URI names, if any.
pub open spec fn requested_id(id: Seq<char>) -> Option<Seq<char>> {
    concept_id_of(
        if id.len() >= 6 && id.subrange(0, 6) == "okf://"@ {
            id.skip(6)
        } else {
            id
        },
    )
}

/// The position in `entries` of a concept whose ID is `c`.
pub open spec fn concept_index(entries: Seq<Entry>, c: Seq<char>) -> int {
    choose|i: int| 0 <= i < entries.len() && entries[i].id@ == c && entries[i].kind == EntryKind::Concept
}

/// The concept of `entries` whose ID is `c`.
pub open spec fn concept_named(entries: Seq<Entry>, c: Seq<char>) -> Entry {
    entries[concept_index(entries, c)]
}

/// The concept a request names, if the bundle has it.
pub open spec fn looked_up(entries: Seq<Entry>, id: Seq<char>) -> Option<Entry> {
    match requested_id(id) {
        Some(c) => if names_concept(entries, c) {
            Some(concept_named(entries, c))
        } else {
            None
        },
        None => None,
    }
}

/// The answer about an unknown concept: the ID asked for, and up to ten
/// concepts the bundle does have.
pub open spec fn not_found_text(entries: Seq<Entry>, id: Seq<char>) -> Seq<char> {
    "No concept `"@ + id + "` in this bundle. Known concepts include:\n"@ + ids_text(
        first_n(ids(concepts_of(entries)), 10),
    )
}

/// Whether `field` is present and its lowercase form holds `needle`.
fn field_matches(field: Option<&str>, needle: &str) -> (b: bool)
    ensures
        b == field_has(opt_text(field), needle@),
{
    match field {
        Some(f) => {
            let lowered = to_lowercase(f);
            contains_text(lowered.as_str(), needle)
        },
        None => false,
    }
}

/// Whether `field` is present and its lowercase form holds `t`.
pub open spec fn field_has(field: Option<Seq<char>>, t: Seq<char>) -> bool {
    field matches Some(f) && has_part(lowercase(f), t)
}

/// Whether the lowercase form of a concept's ID, body, title, description,
/// type or one of its tags holds `t`.
pub open spec fn entry_matches(e: Entry, t: Seq<char>) -> bool {
    ||| has_part(lowercase(e.id@), t)
    ||| has_part(lowercase(e.document.body.text@), t)
    ||| match e.document.frontmatter {
        FrontmatterState::Parsed(fm) => {
            let m = fm.entries@;
            let tags = string_items(sequence_field(m, "tags"@));
            ||| field_has(text_field(m, "title"@), t)
            ||| field_has(text_field(m, "description"@), t)
            ||| field_has(declared_type(m), t)
            ||| exists|k: int| 0 <= k < tags.len() && has_part(lowercase(#[trigger] tags[k]), t)
        },
        _ => false,
    }
}

/// Whether a concept matches every one of `terms`.
pub open spec fn matches_all(e: Entry, terms: Seq<Seq<char>>) -> bool {
    forall|k: int| 0 <= k < terms.len() ==> entry_matches(e, #[trigger] terms[k])
}

/// The search terms of a query: its words, lowercased.
pub open spec fn search_terms(query: Seq<char>) -> Seq<Seq<char>> {
    words(query).map_values(|w: Seq<char>| lowercase(w))
}

/// The concepts that match every term, when there is at least one term.
pub open spec fn search_hits(concepts: Seq<Entry>, terms: Seq<Seq<char>>) -> Seq<Entry> {
    concepts.filter(|e: Entry| terms.len() > 0 && matches_all(e, terms))
}

/// How many results a search returns at most: the requested limit, at least
/// one, ten by default.
pub open spec fn search_limit(limit: Option<u32>) -> nat {
    match limit {
        Some(n) => if n == 0 {
            1
        } else {
            n as nat
        },
        None => 10,
    }
}

/// The concepts a search returns, in order.
pub open spec fn search_results(entries: Seq<Entry>, query: Seq<char>, limit: Option<u32>) -> Seq<Entry> {
    first_n(search_hits(concepts_of(entries), search_terms(query)), search_limit(limit))
}

/// The answer to a search.
pub open spec fn search_text(entries: Seq<Entry>, query: Seq<char>, limit: Option<u32>) -> Seq<char> {
    let hits = search_results(entries, query, limit);
    if hits.len() == 0 {
        "No concepts match "@ + debug_quoted(query) + "."@
    } else {
        decimal(hits.len()) + " concept(s) matching "@ + debug_quoted(query) + ":\n\n"@ + summaries(
            hits,
        )
    }
}

/// The concepts a list returns: all of them, or those whose shown type has
/// the same lowercase form as `wanted`.
pub open spec fn list_hits(concepts: Seq<Entry>, wanted: Option<Seq<char>>) -> Seq<Entry> {
    match wanted {
        Some(w) => concepts.filter(
            |e: Entry| lowercase(shown_type_of(e.document.frontmatter)) == lowercase(w),
        ),
        None => concepts,
    }
}

/// The answer to a list request.
pub open spec fn list_text(entries: Seq<Entry>, wanted: Option<Seq<char>>) -> Seq<char> {
    let hits = list_hits(concepts_of(entries), wanted);
    if hits.len() == 0 {
        "No concepts match that filter."@
    } else {
        decimal(hits.len()) + " concept(s):\n\n"@ + summaries(hits)
    }
}

/// The answer about a concept's links: where it links, and what links to it.
pub open spec fn related_text(entries: Seq<Entry>, e: Entry) -> Seq<char> {
    e.id@ + "\n\n"@ + "Links to:\n"@ + ids_text(
        first_occurrences(resolved_targets(e.body.links@, e.id@)),
    ) + "\nLinked from:\n"@ + ids_text(linking_ids(entries, e.id@))
}

/// A provenance line: who and when, `(unknown)` for what is missing.
pub open spec fn stamp_line(label: Seq<char>, s: StampModel) -> Seq<char> {
    "  "@ + label + ": "@ + match s.by {
        Some(b) => b,
        None => "(unknown)"@,
    } + " at "@ + match s.at {
        Some(a) => a,
        None => "(unknown)"@,
    } + "\n"@
}

/// One provenance line per stamp.
pub open spec fn stamp_lines(label: Seq<char>, vs: Seq<StampModel>) -> Seq<char>
    decreases vs.len(),
{
    if vs.len() == 0 {
        seq![]
    } else {
        stamp_lines(label, vs.drop_last()) + stamp_line(label, vs.last())
    }
}

/// A source line: its title and resource, with placeholders for what is
/// missing.
pub open spec fn source_line(s: SourceModel) -> Seq<char> {
    "  source: "@ + match s.title {
        Some(t) => t,
        None => "(untitled)"@,
    } + " ("@ + match s.resource {
        Some(r) => r,
        None => "(no resource)"@,
    } + ")\n"@
}

/// One source line per source.
pub open spec fn source_lines(ss: Seq<SourceModel>) -> Seq<char>
    decreases ss.len(),
{
    if ss.len() == 0 {
        seq![]
    } else {
        source_lines(ss.drop_last()) + source_line(ss.last())
    }
}

/// The answer about how far a concept can be trusted on `today`.
pub open spec fn trust_text(e: Entry, today: Date) -> Seq<char> {
    match e.document.frontmatter {
        FrontmatterState::Parsed(fm) => {
            let m = fm.entries@;
            let stale_date = match text_field(m, "stale_after"@) {
                Some(t) => date_from_text(t),
                None => None,
            };
            e.id@ + "\n  trust tier: "@ + tier_text(tier_of(verifications(m))) + "\n  status: "@
                + status_text(
                match text_field(m, "status"@) {
                    Some(t) => status_of(t),
                    None => Status::Stable,
                },
            ) + "\n"@ + match generated_of(m) {
                Some(g) => stamp_line("generated"@, g),
                None => seq![],
            } + stamp_lines("verified"@, verifications(m)) + match stale_date {
                Some(d) => "  stale_after: "@ + date_text(d) + " ("@ + (if !today.before(d) {
                    "STALE"@
                } else {
                    "fresh"@
                }) + " as of "@ + date_text(today) + ")\n"@,
                None => seq![],
            } + source_lines(source_models(sequence_field(m, "sources"@)))
        },
        _ => e.id@ + ": frontmatter could not be parsed, so no trust signals are available."@,
    }
}

/// A tool's answer about the concept `id` names: `answer` of it, or the
/// not-found error.
pub open spec fn about_concept(
    entries: Seq<Entry>,
    id: Seq<char>,
    answer: spec_fn(Entry) -> Seq<char>,
) -> (Seq<char>, bool) {
    match looked_up(entries, id) {
        Some(e) => (answer(e), false),
        None => (not_found_text(entries, id), true),
    }
}

/// A bundle served to agents, with the date staleness is reported against.
///
/// The date is fixed when the server is made, so a long-running server does
/// not change its answers at midnight.
#[derive(Debug)]
pub struct OkfServer {
    bundle: Bundle,
    today: Date,
}

impl OkfServer {
    /// The bundle served.
    pub closed spec fn served(&self) -> Bundle {
        self.bundle
    }

    /// The date staleness is reported against.
    pub closed spec fn as_of(&self) -> Date {
        self.today
    }

    pub fn new(bundle: Bundle, today: Date) -> (s: Self)
        ensures
            s.served() == bundle,
            s.as_of() == today,
    {
        OkfServer { bundle, today }
    }

    pub fn bundle(&self) -> (b: &Bundle)
        ensures
            *b == self.served(),
    {
        &self.bundle
    }

    /// The concept a requested ID or `okf://` URI names, if the bundle has
    /// it; reserved files are not concepts.
    pub fn lookup(&self, id: &str) -> (r: Option<&Entry>)
        ensures
            r matches Some(e) ==> looked_up(self.served().entry_seq(), id@) == Some(*e),
            r is None ==> looked_up(self.served().entry_seq(), id@) is None,
    {
        // Listing the entries brings in that their IDs are strictly increasing.
        let _in_order = self.bundle.entries();
        let ghost entries = self.bundle.entry_seq();
        let cs = chars_of(id);
        proof {
            reveal_strlit("okf://");
        }
        let has_scheme = crate::text::has_prefix(cs.as_slice(), URI_SCHEME);
        let trimmed = if has_scheme {
            crate::text::copy_range(cs.as_slice(), 6, cs.len())
        } else {
            cs
        };
        let text = string_of(trimmed.as_slice());
        proof {
            if has_scheme {
                assert(text@ =~= id@.skip(6));
                assert(id@.subrange(0, 6) =~= "okf://"@);
            } else {
                assert(text@ =~= id@);
            }
        }
        let concept_id = match ConceptId::from_relative_path(text.as_str()) {
            Some(c) => c,
            None => {
                return None;
            },
        };
        assert(requested_id(id@) == Some(concept_id@));
        match self.bundle.get(&concept_id) {
            Some(e) => {
                let ghost k = choose|k: int| 0 <= k < entries.len() && entries[k] == *e;
                if e.is_concept() {
                    proof {
                        assert(names_concept(entries, concept_id@));
                        let i = choose|i: int|
                            0 <= i < entries.len() && entries[i].id@ == concept_id@
                                && entries[i].kind == EntryKind::Concept;
                        crate::bundle::lemma_unique_ids(entries, i, k);
                    }
                    Some(e)
                } else {
                    proof {
                        if names_concept(entries, concept_id@) {
                            let i = choose|i: int|
                                0 <= i < entries.len() && entries[i].id@ == concept_id@
                                    && entries[i].kind == EntryKind::Concept;
                            crate::bundle::lemma_unique_ids(entries, i, k);
                        }
                    }
                    None
                }
            },
            None => {
                proof {
                    if names_concept(entries, concept_id@) {
                        let i = choose|i: int|
                            0 <= i < entries.len() && entries[i].id@ == concept_id@
                                && entries[i].kind == EntryKind::Concept;
                        assert(ids(entries)[i] == concept_id@);
                    }
                }
                None
            },
        }
    }

    /// The error answer for an ID the bundle has no concept for.
    pub fn not_found(&self, id: &str) -> (r: ToolReply)
        ensures
            r@ == (not_found_text(self.served().entry_seq(), id@), true),
    {
        let concepts = self.bundle.concepts();
        let ghost cs = concepts_of(self.bundle.entry_seq());
        let ghost wanted = first_n(ids(cs), 10);
        let mut known: Vec<ConceptId> = Vec::new();
        let mut i: usize = 0;
        while i < concepts.len() && i < 10
            invariant
                i <= concepts@.len(),
                i <= 10,
                concepts@.len() == cs.len(),
                cs == concepts_of(self.bundle.entry_seq()),
                forall|k: int| 0 <= k < concepts@.len() ==> *#[trigger] concepts@[k] == cs[k],
                known@.len() == i,
                forall|k: int| 0 <= k < i ==> (#[trigger] known@[k])@ == cs[k].id@,
            decreases concepts@.len() - i,
        {
            known.push(concepts[i].id.clone());
            i = i + 1;
        }
        assert(known@.map_values(|c: ConceptId| c@) =~= ids(cs).take(i as int));
        proof {
            if cs.len() <= 10 {
                assert(ids(cs).take(i as int) =~= ids(cs));
            }
        }
        assert(known@.map_values(|c: ConceptId| c@) == wanted);
        let listing = render_ids(known.as_slice());
        let mut text = "No concept `".to_owned();
        push_str(&mut text, id);
        push_str(&mut text, "` in this bundle. Known concepts include:\n");
        push_str(&mut text, listing.as_str());
        assert(text@ =~= not_found_text(self.served().entry_seq(), id@));
        ToolReply { text, is_error: true }
    }

    /// Whether the lowercase form of a concept's ID, body, title,
    /// description, type or one of its tags holds `needle`.
    fn matches(entry: &Entry, needle: &str) -> (b: bool)
        ensures
            b == entry_matches(*entry, needle@),
    {
        let id_text = to_lowercase(entry.id.as_str());
        if contains_text(id_text.as_str(), needle) {
            return true;
        }
        let body_text = to_lowercase(entry.document.body.text.as_str());
        if contains_text(body_text.as_str(), needle) {
            return true;
        }
        let f = match entry.document.frontmatter.parsed() {
            Some(f) => f,
            None => {
                return false;
            },
        };
        if field_matches(f.title(), needle) || field_matches(f.description(), needle)
            || field_matches(f.concept_type(), needle) {
            return true;
        }
        let tags = f.tags();
        let ghost tv = string_items(sequence_field(f.entries@, "tags"@));
        let mut k: usize = 0;
        while k < tags.len()
            invariant
                k <= tags@.len(),
                tv == string_items(sequence_field(f.entries@, "tags"@)),
                entry.document.frontmatter == FrontmatterState::Parsed(*f),
                tags@.len() == tv.len(),
                forall|j: int| 0 <= j < tags@.len() ==> #[trigger] tags@[j]@ == tv[j],
                forall|j: int| 0 <= j < k ==> !has_part(lowercase(#[trigger] tv[j]), needle@),
            decreases tags@.len() - k,
        {
            let lowered = to_lowercase(tags[k]);
            if contains_text(lowered.as_str(), needle) {
                proof {
                    let tags_spec = string_items(sequence_field(f.entries@, "tags"@));
                    assert(tags_spec[k as int] == tv[k as int]);
                    assert(has_part(lowercase(tags_spec[k as int]), needle@));
                    assert(exists|q: int|
                        0 <= q < tags_spec.len() && has_part(lowercase(#[trigger] tags_spec[q]), needle@));
                }
                return true;
            }
            k = k + 1;
        }
        false
    }

    /// Whether a concept matches every one of `terms`.
    fn matches_every(entry: &Entry, terms: &Vec<String>) -> (b: bool)
        ensures
            b == matches_all(*entry, texts(terms@)),
    {
        let ghost tv = texts(terms@);
        let mut k: usize = 0;
        while k < terms.len()
            invariant
                k <= terms@.len(),
                tv == texts(terms@),
                forall|j: int| 0 <= j < k ==> entry_matches(*entry, #[trigger] tv[j]),
            decreases terms@.len() - k,
        {
            if !Self::matches(entry, terms[k].as_str()) {
                assert(!entry_matches(*entry, tv[k as int]));
                return false;
            }
            k = k + 1;
        }
        true
    }

    /// Searches the bundle: the concepts in which every word of the query
    /// occurs somewhere, case-insensitively, not necessarily together.
    pub fn search(&self, request: &SearchRequest) -> (r: ToolReply)
        ensures
            r@ == (search_text(self.served().entry_seq(), request.query@, request.limit), false),
    {
        let words_found = split_words(request.query.as_str());
        let mut terms: Vec<String> = Vec::new();
        let mut t: usize = 0;
        while t < words_found.len()
            invariant
                t <= words_found@.len(),
                texts(words_found@) == words(request.query@),
                terms@.len() == t,
                forall|j: int|
                    0 <= j < t ==> (#[trigger] terms@[j])@ == lowercase(words_found@[j]@),
            decreases words_found@.len() - t,
        {
            terms.push(to_lowercase(words_found[t].as_str()));
            t = t + 1;
        }
        let ghost tv = search_terms(request.query@);
        assert(texts(terms@) =~= tv);
        let limit: usize = match request.limit {
            Some(n) => if n == 0 {
                1
            } else {
                n as usize
            },
            None => 10,
        };
        let concepts = self.bundle.concepts();
        let ghost cs = concepts_of(self.bundle.entry_seq());
        let ghost pred = |e: Entry| tv.len() > 0 && matches_all(e, tv);
        let mut hits: Vec<&Entry> = Vec::new();
        let mut i: usize = 0;
        while i < concepts.len()
            invariant
                i <= concepts@.len(),
                concepts@.len() == cs.len(),
                cs == concepts_of(self.bundle.entry_seq()),
                forall|k: int| 0 <= k < concepts@.len() ==> *#[trigger] concepts@[k] == cs[k],
                texts(terms@) == tv,
                pred == (|e: Entry| tv.len() > 0 && matches_all(e, tv)),
                limit as nat == search_limit(request.limit),
                limit >= 1,
                hits@.map_values(|e: &Entry| *e) == first_n(cs.take(i as int).filter(pred), limit as nat),
            decreases concepts@.len() - i,
        {
            let ghost prefix = cs.take(i as int);
            assert(cs.take(i + 1) =~= prefix.push(cs[i as int]));
            proof {
                prefix.lemma_filter_push(cs[i as int], pred);
            }
            let entry = concepts[i];
            if hits.len() < limit && terms.len() > 0 && Self::matches_every(entry, &terms) {
                let ghost before = hits@.map_values(|e: &Entry| *e);
                hits.push(entry);
                assert(hits@.map_values(|e: &Entry| *e) =~= before.push(*entry));
                assert(first_n(cs.take(i + 1).filter(pred), limit as nat) =~= before.push(*entry));
            } else {
                proof {
                    if pred(cs[i as int]) {
                        let f = prefix.filter(pred);
                        assert(cs.take(i + 1).filter(pred) == f.push(cs[i as int]));
                        assert(first_n(f, limit as nat).len() >= limit);
                        assert(first_n(f.push(cs[i as int]), limit as nat) =~= first_n(
                            f,
                            limit as nat,
                        ));
                    }
                }
            }
            i = i + 1;
        }
        assert(cs.take(i as int) =~= cs);
        let ghost found = hits@.map_values(|e: &Entry| *e);
        assert(found == first_n(search_hits(cs, tv), search_limit(request.limit)));
        let query = quoted(request.query.as_str());
        if hits.len() == 0 {
            let mut text = "No concepts match ".to_owned();
            push_str(&mut text, query.as_str());
            push_str(&mut text, ".");
            assert(text@ =~= search_text(self.served().entry_seq(), request.query@, request.limit));
            return ToolReply { text, is_error: false };
        }
        let mut text = String::new();
        push_number(&mut text, hits.len() as u64);
        push_str(&mut text, " concept(s) matching ");
        push_str(&mut text, query.as_str());
        push_str(&mut text, ":\n\n");
        let ghost head = text@;
        let mut k: usize = 0;
        while k < hits.len()
            invariant
                k <= hits@.len(),
                found == hits@.map_values(|e: &Entry| *e),
                text@ == head + summaries(found.take(k as int)),
            decreases hits@.len() - k,
        {
            assert(found.take(k + 1).drop_last() =~= found.take(k as int));
            let line = summarize(hits[k]);
            push_str(&mut text, line.as_str());
            assert(text@ =~= head + summaries(found.take(k + 1)));
            k = k + 1;
        }
        assert(found.take(k as int) =~= found);
        assert(text@ =~= search_text(self.served().entry_seq(), request.query@, request.limit));
        ToolReply { text, is_error: false }
    }

    /// Lists the concepts, all of them or those of one type.
    pub fn list(&self, request: &ListRequest) -> (r: ToolReply)
        ensures
            r@ == (list_text(self.served().entry_seq(), opt_string(request.concept_type)), false),
    {
        let ghost wanted_text = opt_string(request.concept_type);
        let wanted: Option<String> = match &request.concept_type {
            Some(t) => Some(to_lowercase(t.as_str())),
            None => None,
        };
        let concepts = self.bundle.concepts();
        let ghost cs = concepts_of(self.bundle.entry_seq());
        let ghost hits = list_hits(cs, wanted_text);
        let ghost pred = |e: Entry|
            lowercase(shown_type_of(e.document.frontmatter)) == lowercase(wanted_text->0);
        let mut body = String::new();
        let mut count: usize = 0;
        let mut i: usize = 0;
        while i < concepts.len()
            invariant
                i <= concepts@.len(),
                concepts@.len() == cs.len(),
                cs == concepts_of(self.bundle.entry_seq()),
                forall|k: int| 0 <= k < concepts@.len() ==> *#[trigger] concepts@[k] == cs[k],
                wanted matches Some(w) ==> wanted_text is Some && w@ == lowercase(wanted_text->0),
                wanted is None ==> wanted_text is None,
                pred == (|e: Entry|
                    lowercase(shown_type_of(e.document.frontmatter)) == lowercase(wanted_text->0)),
                count <= i,
                count == list_hits(cs.take(i as int), wanted_text).len(),
                body@ == summaries(list_hits(cs.take(i as int), wanted_text)),
            decreases concepts@.len() - i,
        {
            let ghost prefix = cs.take(i as int);
            assert(cs.take(i + 1) =~= prefix.push(cs[i as int]));
            assert(cs.take(i + 1).drop_last() =~= prefix);
            proof {
                prefix.lemma_filter_push(cs[i as int], pred);
            }
            let entry = concepts[i];
            let keep = match &wanted {
                Some(w) => {
                    let shown = to_lowercase(concept_type(entry));
                    crate::text::str_eq(shown.as_str(), w.as_str())
                },
                None => true,
            };
            proof {
                let x = cs[i as int];
                let h0 = list_hits(prefix, wanted_text);
                let h1 = list_hits(cs.take(i + 1), wanted_text);
                if wanted_text is Some {
                    assert(keep == pred(x));
                }
                if keep {
                    assert(h1 =~= h0.push(x));
                    assert(h1.drop_last() =~= h0);
                } else {
                    assert(h1 =~= h0);
                }
            }
            if keep {
                let line = summarize(entry);
                push_str(&mut body, line.as_str());
                count = count + 1;
            }
            i = i + 1;
        }
        assert(cs.take(i as int) =~= cs);
        if count == 0 {
            return ToolReply { text: "No concepts match that filter.".to_owned(), is_error: false };
        }
        let mut text = String::new();
        push_number(&mut text, count as u64);
        push_str(&mut text, " concept(s):\n\n");
        push_str(&mut text, body.as_str());
        assert(text@ =~= list_text(self.served().entry_seq(), wanted_text));
        ToolReply { text, is_error: false }
    }

    /// Reads one concept in full.
    pub fn read(&self, request: &ConceptRequest) -> (r: ToolReply)
        ensures
            r@ == about_concept(self.served().entry_seq(), request.id@, |e: Entry| rendered(e)),
    {
        match self.lookup(request.id.as_str()) {
            Some(entry) => ToolReply { text: render(entry), is_error: false },
            None => self.not_found(request.id.as_str()),
        }
    }

    /// Where a concept links, and what links to it.
    pub fn related(&self, request: &ConceptRequest) -> (r: ToolReply)
        ensures
            r@ == about_concept(
                self.served().entry_seq(),
                request.id@,
                |e: Entry| related_text(self.served().entry_seq(), e),
            ),
    {
        let entry = match self.lookup(request.id.as_str()) {
            Some(entry) => entry,
            None => {
                return self.not_found(request.id.as_str());
            },
        };
        // Listing the entries brings in that their IDs are strictly increasing.
        let _in_order = self.bundle.entries();
        proof {
            let entries = self.bundle.entry_seq();
            let c = requested_id(request.id@)->0;
            let i = concept_index(entries, c);
            assert(*entry == entries[i]);
            self.bundle.lemma_entry_for(i);
        }
        let links = self.bundle.links_from(&entry.id);
        let backlinks = self.bundle.backlinks(&entry.id);
        let mut text = entry.id.to_string();
        push_str(&mut text, "\n\n");
        push_str(&mut text, "Links to:\n");
        let out_links = render_ids(links.as_slice());
        push_str(&mut text, out_links.as_str());
        push_str(&mut text, "\nLinked from:\n");
        let in_links = render_ids(backlinks.as_slice());
        push_str(&mut text, in_links.as_str());
        assert(text@ =~= related_text(self.served().entry_seq(), *entry));
        ToolReply { text, is_error: false }
    }

    /// How far a concept can be trusted: its tier, status, provenance,
    /// staleness as of the server's date, and sources.
    pub fn trust(&self, request: &ConceptRequest) -> (r: ToolReply)
        ensures
            r@ == about_concept(
                self.served().entry_seq(),
                request.id@,
                |e: Entry| trust_text(e, self.as_of()),
            ),
    {
        let entry = match self.lookup(request.id.as_str()) {
            Some(entry) => entry,
            None => {
                return self.not_found(request.id.as_str());
            },
        };
        let f = match entry.document.frontmatter.parsed() {
            Some(f) => f,
            None => {
                let mut text = entry.id.to_string();
                push_str(
                    &mut text,
                    ": frontmatter could not be parsed, so no trust signals are available.",
                );
                return ToolReply { text, is_error: false };
            },
        };
        let mut text = entry.id.to_string();
        push_str(&mut text, "\n  trust tier: ");
        push_str(&mut text, f.trust_tier().as_str());
        push_str(&mut text, "\n  status: ");
        push_str(&mut text, f.status().as_str());
        push_str(&mut text, "\n");
        match f.generated() {
            Some(g) => {
                push_stamp(&mut text, "generated", g.by, g.at);
            },
            None => {},
        }
        let verified = verified_lines(f);
        push_str(&mut text, verified.as_str());
        let stale = stale_line(f, self.today);
        push_str(&mut text, stale.as_str());
        let sources = sources_text(f);
        push_str(&mut text, sources.as_str());
        assert(text@ =~= trust_text(*entry, self.as_of()));
        ToolReply { text, is_error: false }
    }

    /// Every concept as a resource: its `okf://` URI and its title.
    pub fn resources(&self) -> (r: Vec<(String, String)>)
        ensures
            r@.map_values(|p: (String, String)| (p.0@, p.1@)) == concepts_of(
                self.served().entry_seq(),
            ).map_values(|e: Entry| ("okf://"@ + e.id@, title_of(e))),
    {
        let concepts = self.bundle.concepts();
        let ghost cs = concepts_of(self.bundle.entry_seq());
        let mut out: Vec<(String, String)> = Vec::new();
        let mut i: usize = 0;
        while i < concepts.len()
            invariant
                i <= concepts@.len(),
                concepts@.len() == cs.len(),
                forall|k: int| 0 <= k < concepts@.len() ==> *#[trigger] concepts@[k] == cs[k],
                out@.len() == i,
                forall|k: int|
                    0 <= k < i ==> (#[trigger] out@[k]).0@ == "okf://"@ + cs[k].id@ && out@[k].1@
                        == title_of(cs[k]),
            decreases concepts@.len() - i,
        {
            let entry = concepts[i];
            let mut uri = URI_SCHEME.to_owned();
            push_str(&mut uri, entry.id.as_str());
            let title = match entry.document.frontmatter.parsed() {
                Some(f) => match f.title() {
                    Some(t) => t,
                    None => entry.id.name(),
                },
                None => entry.id.name(),
            };
            out.push((uri, title.to_owned()));
            i = i + 1;
        }
        assert(out@.map_values(|p: (String, String)| (p.0@, p.1@)) =~= cs.map_values(
            |e: Entry| ("okf://"@ + e.id@, title_of(e)),
        ));
        out
    }

    /// The document behind a resource URI, if it names a concept.
    pub fn read_resource(&self, uri: &str) -> (r: Option<String>)
        ensures
            match looked_up(self.served().entry_seq(), uri@) {
                Some(e) => r matches Some(t) && t@ == rendered(e),
                None => r is None,
            },
    {
        match self.lookup(uri) {
            Some(entry) => Some(render(entry)),
            None => None,
        }
    }
}

} // verus!

verus! {

/// A concept's `okf://` URI names the same concept as its bare ID.
pub proof fn lemma_uri_names_the_bare_id(entries: Seq<Entry>, id: Seq<char>)
    requires
        !(id.len() >= 6 && id.subrange(0, 6) == "okf://"@),
    ensures
        looked_up(entries, "okf://"@ + id) == looked_up(entries, id),
{
    reveal_strlit("okf://");
    let uri = "okf://"@ + id;
    assert(uri.subrange(0, 6) =~= "okf://"@);
    assert(uri.skip(6) =~= id);
}

/// Whether `e` is a concept of `entries` that every term of `query` matches.
pub open spec fn good_hit(entries: Seq<Entry>, query: Seq<char>, e: Entry) -> bool {
    concepts_of(entries).contains(e) && search_terms(query).len() > 0 && matches_all(
        e,
        search_terms(query),
    )
}

/// A search returns at most its limit of results, each of them a concept
/// that every term of the query matches.
pub proof fn lemma_search_hits(entries: Seq<Entry>, query: Seq<char>, limit: Option<u32>)
    ensures
        search_results(entries, query, limit).len() <= search_limit(limit),
        forall|i: int|
            0 <= i < search_results(entries, query, limit).len() ==> good_hit(
                entries,
                query,
                #[trigger] search_results(entries, query, limit)[i],
            ),
{
    let terms = search_terms(query);
    let cs = concepts_of(entries);
    let pred = |e: Entry| terms.len() > 0 && matches_all(e, terms);
    let all = cs.filter(pred);
    assert(all == search_hits(cs, terms));
    assert(all == search_hits(cs, terms));
    assert forall|i: int| 0 <= i < search_results(entries, query, limit).len() implies good_hit(
        entries,
        query,
        #[trigger] search_results(entries, query, limit)[i],
    ) by {
        assert(search_results(entries, query, limit)[i] == all[i]);
        cs.lemma_filter_pred(pred, i);
        assert(all.contains(all[i]));
        cs.lemma_filter_contains_rev(pred, all[i]);
    }
}

/// A query with no words matches nothing.
pub proof fn lemma_empty_query_matches_nothing(entries: Seq<Entry>, query: Seq<char>, limit: Option<u32>)
    requires
        words(query).len() == 0,
    ensures
        search_text(entries, query, limit) == "No concepts match "@ + debug_quoted(query) + "."@,
{
    let terms = search_terms(query);
    let cs = concepts_of(entries);
    let pred = |e: Entry| terms.len() > 0 && matches_all(e, terms);
    assert(terms.len() == 0);
    cs.lemma_filter_len(pred);
    if cs.filter(pred).len() > 0 {
        cs.lemma_filter_pred(pred, 0);
    }
}


/// A concept matches a term whenever the lowercase form of its ID or body
/// holds it.
pub proof fn lemma_search_reads_id_and_body(e: Entry, t: Seq<char>)
    ensures
        has_part(lowercase(e.id@), t) ==> entry_matches(e, t),
        has_part(lowercase(e.document.body.text@), t) ==> entry_matches(e, t),
{
}

/// A concept with parsed frontmatter matches a term whenever the lowercase
/// form of its title, its description, its declared type or one of its tags
/// holds it.
pub proof fn lemma_search_reads_frontmatter(e: Entry, fm: Frontmatter, t: Seq<char>)
    requires
        e.document.frontmatter == FrontmatterState::Parsed(fm),
    ensures
        text_field(fm.entries@, "title"@) matches Some(x) && has_part(lowercase(x), t) ==> entry_matches(e, t),
        text_field(fm.entries@, "description"@) matches Some(x) && has_part(lowercase(x), t)
            ==> entry_matches(e, t),
        declared_type(fm.entries@) matches Some(x) && has_part(lowercase(x), t) ==> entry_matches(e, t),
        forall|k: int|
            0 <= k < string_items(sequence_field(fm.entries@, "tags"@)).len() && has_part(
                lowercase(#[trigger] string_items(sequence_field(fm.entries@, "tags"@))[k]),
                t,
            ) ==> entry_matches(e, t),
{
}

/// Searching finds every concept whose declared type holds each of the
/// query's terms: such a concept is among the hits whenever the query has a
/// term at all.
pub proof fn lemma_search_finds_by_type(
    concepts: Seq<Entry>,
    terms: Seq<Seq<char>>,
    k: int,
    fm: Frontmatter,
    ty: Seq<char>,
)
    requires
        0 <= k < concepts.len(),
        terms.len() > 0,
        concepts[k].document.frontmatter == FrontmatterState::Parsed(fm),
        declared_type(fm.entries@) == Some(ty),
        forall|j: int| 0 <= j < terms.len() ==> has_part(lowercase(ty), #[trigger] terms[j]),
    ensures
        search_hits(concepts, terms).contains(concepts[k]),
{
    assert forall|j: int| 0 <= j < terms.len() implies entry_matches(concepts[k], #[trigger] terms[j]) by {
        lemma_search_reads_frontmatter(concepts[k], fm, terms[j]);
    }
    concepts.lemma_filter_contains(|e: Entry| terms.len() > 0 && matches_all(e, terms), k);
}

/// The provenance lines of two runs of stamps, one after the other, are the
/// lines of the first followed by the lines of the second.
pub proof fn lemma_stamp_lines_append(label: Seq<char>, a: Seq<StampModel>, b: Seq<StampModel>)
    ensures
        stamp_lines(label, a + b) == stamp_lines(label, a) + stamp_lines(label, b),
    decreases b.len(),
{
    if b.len() == 0 {
        assert(a + b =~= a);
    } else {
        lemma_stamp_lines_append(label, a, b.drop_last());
        assert((a + b).drop_last() =~= a + b.drop_last());
        assert((a + b).last() == b.last());
    }
}

/// Every stamp gets its own provenance line, in order: the lines of `vs`
/// are those of the stamps before `vs[i]`, then the line naming `vs[i]`'s
/// author and time, then those of the stamps after it.
pub proof fn lemma_stamp_lines_each(label: Seq<char>, vs: Seq<StampModel>, i: int)
    requires
        0 <= i < vs.len(),
    ensures
        stamp_lines(label, vs) == stamp_lines(label, vs.take(i)) + stamp_line(label, vs[i])
            + stamp_lines(label, vs.skip(i + 1)),
{
    assert(vs =~= vs.take(i) + seq![vs[i]] + vs.skip(i + 1));
    lemma_stamp_lines_append(label, vs.take(i) + seq![vs[i]], vs.skip(i + 1));
    lemma_stamp_lines_append(label, vs.take(i), seq![vs[i]]);
    let one = seq![vs[i]];
    assert(one.drop_last() =~= Seq::<StampModel>::empty());
    assert(stamp_lines(label, one.drop_last()) == Seq::<char>::empty());
    assert(stamp_lines(label, one) =~= stamp_line(label, vs[i]));
    assert(stamp_lines(label, vs.take(i) + one) =~= stamp_lines(label, vs.take(i)) + stamp_line(
        label,
        vs[i],
    ));
}

} // verus!
