//! The graph a browser viewer draws of a bundle: one node per concept, one
//! edge per link between two distinct concepts, each concept's body, the
//! concept types present, and the colours of the types the viewer knows.
//!
//! The shape follows Cytoscape's element format once serialised; this module
//! decides what goes into it and builds the JSON document the viewer reads.

use vstd::prelude::*;
use vstd::string::*;
use vstd::utf8::encode_utf8;

use crate::bundle::{first_occurrences, ids, resolved_targets, Bundle, Entry, EntryKind};
use crate::concept_id::ConceptId;
use crate::date::{date_from_text, date_text, Date};
use crate::document::{Frontmatter, FrontmatterState};
use crate::frontmatter::{
    declared_type, generated_of, opt_text, sequence_field, source_models, string_items, text_field,
    tier_of, verifications, SourceModel, StampModel,
};
use crate::json::{
    compact_json, items_view, members_view, push_item, push_member, text, to_string, Json,
    JsonModel,
};
use crate::sorted::{insert_sorted, strictly_sorted, texts};
use crate::text::{push_str, str_eq};
use crate::trust::{status_of, status_text, tier_text, Status, TrustTier};

verus! {

/// The colour of a node whose type has no entry in the palette.
pub const DEFAULT_NODE_COLOR: &'static str = "#94a3b8";

/// A generation or verification stamp as the viewer shows it: who and when,
/// each empty when the frontmatter left it out.
#[derive(Debug, Clone)]
pub struct Stamp {
    pub by: String,
    pub at: String,
}

impl View for Stamp {
    type V = (Seq<char>, Seq<char>);

    open spec fn view(&self) -> (Seq<char>, Seq<char>) {
        (self.by@, self.at@)
    }
}

/// A cited source as the viewer shows it.
#[derive(Debug, Clone)]
pub struct SourceCard {
    pub id: String,
    pub resource: String,
    pub title: String,
    pub author: String,
    pub last_modified: String,
    pub usage_count: Option<i64>,
}

/// The text of a source card.
pub struct CardModel {
    pub id: Seq<char>,
    pub resource: Seq<char>,
    pub title: Seq<char>,
    pub author: Seq<char>,
    pub last_modified: Seq<char>,
    pub usage_count: Option<i64>,
}

impl View for SourceCard {
    type V = CardModel;

    open spec fn view(&self) -> CardModel {
        CardModel {
            id: self.id@,
            resource: self.resource@,
            title: self.title@,
            author: self.author@,
            last_modified: self.last_modified@,
            usage_count: self.usage_count,
        }
    }
}

/// Everything the viewer shows of one concept.
#[derive(Debug, Clone)]
pub struct NodeData {
    pub id: String,
    pub label: String,
    pub concept_type: String,
    pub description: String,
    pub resource: String,
    pub tags: Vec<String>,
    pub status: String,
    /// `None` is shown as an empty object.
    pub generated: Option<Stamp>,
    pub verified: Vec<Stamp>,
    pub stale_after: String,
    pub sources: Vec<SourceCard>,
    pub trust_tier: String,
    pub stale: bool,
    pub color: String,
    pub size: usize,
}

/// The text of a node.
pub struct NodeModel {
    pub id: Seq<char>,
    pub label: Seq<char>,
    pub concept_type: Seq<char>,
    pub description: Seq<char>,
    pub resource: Seq<char>,
    pub tags: Seq<Seq<char>>,
    pub status: Seq<char>,
    pub generated: Option<(Seq<char>, Seq<char>)>,
    pub verified: Seq<(Seq<char>, Seq<char>)>,
    pub stale_after: Seq<char>,
    pub sources: Seq<CardModel>,
    pub trust_tier: Seq<char>,
    pub stale: bool,
    pub color: Seq<char>,
    pub size: int,
}

impl View for NodeData {
    type V = NodeModel;

    open spec fn view(&self) -> NodeModel {
        NodeModel {
            id: self.id@,
            label: self.label@,
            concept_type: self.concept_type@,
            description: self.description@,
            resource: self.resource@,
            tags: texts(self.tags@),
            status: self.status@,
            generated: match self.generated {
                Some(g) => Some(g@),
                None => None,
            },
            verified: self.verified@.map_values(|s: Stamp| s@),
            stale_after: self.stale_after@,
            sources: self.sources@.map_values(|c: SourceCard| c@),
            trust_tier: self.trust_tier@,
            stale: self.stale,
            color: self.color@,
            size: self.size as int,
        }
    }
}

/// A link from one concept to another.
#[derive(Debug, Clone)]
pub struct Edge {
    /// `source__target`.
    pub id: String,
    pub source: String,
    pub target: String,
}

impl View for Edge {
    type V = (Seq<char>, Seq<char>, Seq<char>);

    open spec fn view(&self) -> (Seq<char>, Seq<char>, Seq<char>) {
        (self.id@, self.source@, self.target@)
    }
}

/// The whole graph of a bundle.
#[derive(Debug)]
pub struct Graph {
    pub nodes: Vec<NodeData>,
    pub edges: Vec<Edge>,
    /// Each concept's markdown body, by concept ID, in ID order.
    pub bodies: Vec<(String, String)>,
    /// The concept types present, sorted, each once.
    pub types: Vec<String>,
    /// Type name and colour, sorted by type name.
    pub palette: Vec<(String, String)>,
}

/// The characters of an optional string, empty when absent.
pub open spec fn or_empty(o: Option<Seq<char>>) -> Seq<char> {
    match o {
        Some(t) => t,
        None => seq![],
    }
}

/// The types the viewer has colours for, and those colours.
pub open spec fn palette() -> Seq<(Seq<char>, Seq<char>)> {
    seq![
        ("BigQuery Dataset"@, "#8b5cf6"@),
        ("BigQuery Table"@, "#3b82f6"@),
        ("Reference"@, "#10b981"@),
    ]
}

/// The colour of a node of type `t`.
pub open spec fn color_of(t: Seq<char>) -> Seq<char> {
    if t == "BigQuery Dataset"@ {
        "#8b5cf6"@
    } else if t == "BigQuery Table"@ {
        "#3b82f6"@
    } else if t == "Reference"@ {
        "#10b981"@
    } else {
        "#94a3b8"@
    }
}

/// The type shown for a concept: its declared type, or `Unknown`.
pub open spec fn type_label(state: FrontmatterState) -> Seq<char> {
    match state {
        FrontmatterState::Parsed(fm) => match declared_type(fm.entries@) {
            Some(t) => t,
            None => "Unknown"@,
        },
        _ => "Unknown"@,
    }
}

/// Node size for a body of `bytes` bytes: bigger bodies make bigger nodes,
/// up to a cap so one long concept does not dominate the layout.
pub open spec fn node_size(bytes: nat) -> int {
    30 + if bytes / 200 < 60 {
        (bytes / 200) as int
    } else {
        60
    }
}

/// The length in bytes of the UTF-8 encoding of `s`, as `str::len`
/// reports it.
pub open spec fn byte_len(s: Seq<char>) -> nat {
    (encode_utf8(s).len() as usize) as nat
}

/// A stamp's text, absent parts empty.
pub open spec fn stamp_text(s: StampModel) -> (Seq<char>, Seq<char>) {
    (or_empty(s.by), or_empty(s.at))
}

/// A source's card, absent parts empty.
pub open spec fn card_of(s: SourceModel) -> CardModel {
    CardModel {
        id: or_empty(s.id),
        resource: or_empty(s.resource),
        title: or_empty(s.title),
        author: or_empty(s.author),
        last_modified: or_empty(s.last_modified),
        usage_count: s.usage_count,
    }
}

/// The node of concept `e` as of `today`.
pub open spec fn node_model(e: Entry, today: Date) -> NodeModel {
    let size = node_size(byte_len(e.document.body.text@));
    let shown_type = type_label(e.document.frontmatter);
    match e.document.frontmatter {
        FrontmatterState::Parsed(fm) => {
            let m = fm.entries@;
            let stale_date = match text_field(m, "stale_after"@) {
                Some(t) => date_from_text(t),
                None => None,
            };
            NodeModel {
                id: e.id@,
                label: match text_field(m, "title"@) {
                    Some(t) => t,
                    None => e.id@,
                },
                concept_type: shown_type,
                description: or_empty(text_field(m, "description"@)),
                resource: or_empty(text_field(m, "resource"@)),
                tags: string_items(sequence_field(m, "tags"@)),
                status: status_text(
                    match text_field(m, "status"@) {
                        Some(t) => status_of(t),
                        None => Status::Stable,
                    },
                ),
                generated: match generated_of(m) {
                    Some(g) => Some(stamp_text(g)),
                    None => None,
                },
                verified: verifications(m).map_values(|s: StampModel| stamp_text(s)),
                stale_after: match stale_date {
                    Some(d) => date_text(d),
                    None => seq![],
                },
                sources: source_models(sequence_field(m, "sources"@)).map_values(
                    |s: SourceModel| card_of(s),
                ),
                trust_tier: tier_text(tier_of(verifications(m))),
                stale: match stale_date {
                    Some(d) => !today.before(d),
                    None => false,
                },
                color: color_of(shown_type),
                size,
            }
        },
        _ => NodeModel {
            id: e.id@,
            label: e.id@,
            concept_type: shown_type,
            description: seq![],
            resource: seq![],
            tags: seq![],
            status: "stable"@,
            generated: None,
            verified: seq![],
            stale_after: seq![],
            sources: seq![],
            trust_tier: "unverified"@,
            stale: false,
            color: color_of(shown_type),
            size,
        },
    }
}

/// An owned copy of `o`, empty when absent.
fn text_or_empty(o: Option<&str>) -> (r: String)
    ensures
        r@ == or_empty(opt_text(o)),
{
    match o {
        Some(t) => t.to_owned(),
        None => String::new(),
    }
}

/// The colour of a node of type `t`.
fn color_for(t: &str) -> (c: String)
    ensures
        c@ == color_of(t@),
{
    proof {
        reveal_strlit("BigQuery Dataset");
        reveal_strlit("BigQuery Table");
        reveal_strlit("Reference");
        reveal_strlit("#8b5cf6");
        reveal_strlit("#3b82f6");
        reveal_strlit("#10b981");
        reveal_strlit("#94a3b8");
    }
    if str_eq(t, "BigQuery Dataset") {
        "#8b5cf6".to_owned()
    } else if str_eq(t, "BigQuery Table") {
        "#3b82f6".to_owned()
    } else if str_eq(t, "Reference") {
        "#10b981".to_owned()
    } else {
        DEFAULT_NODE_COLOR.to_owned()
    }
}

/// The type shown for a concept.
pub fn concept_type(entry: &Entry) -> (t: &str)
    ensures
        t@ == type_label(entry.document.frontmatter),
{
    proof {
        reveal_strlit("Unknown");
    }
    match entry.document.frontmatter.parsed() {
        Some(f) => match f.concept_type() {
            Some(t) => t,
            None => "Unknown",
        },
        None => "Unknown",
    }
}

/// The size of a node whose body is `bytes` bytes long.
fn size_for(bytes: usize) -> (s: usize)
    ensures
        s as int == node_size(bytes as nat),
{
    let steps = bytes / 200;
    if steps < 60 {
        30 + steps
    } else {
        90
    }
}

fn stamps_shown(events: &Vec<crate::frontmatter::Verification<'_>>) -> (r: Vec<Stamp>)
    ensures
        r@.map_values(|s: Stamp| s@) == events@.map_values(
            |v: crate::frontmatter::Verification<'_>| stamp_text(v@),
        ),
{
    let mut out: Vec<Stamp> = Vec::new();
    let mut i: usize = 0;
    while i < events.len()
        invariant
            i <= events@.len(),
            out@.len() == i,
            forall|j: int| 0 <= j < i ==> (#[trigger] out@[j])@ == stamp_text(events@[j]@),
        decreases events@.len() - i,
    {
        out.push(Stamp { by: text_or_empty(events[i].by), at: text_or_empty(events[i].at) });
        i = i + 1;
    }
    assert(out@.map_values(|s: Stamp| s@) =~= events@.map_values(
        |v: crate::frontmatter::Verification<'_>| stamp_text(v@),
    ));
    out
}

fn cards_shown(sources: &Vec<crate::frontmatter::Source<'_>>) -> (r: Vec<SourceCard>)
    ensures
        r@.map_values(|c: SourceCard| c@) == sources@.map_values(
            |s: crate::frontmatter::Source<'_>| card_of(s@),
        ),
{
    let mut out: Vec<SourceCard> = Vec::new();
    let mut i: usize = 0;
    while i < sources.len()
        invariant
            i <= sources@.len(),
            out@.len() == i,
            forall|j: int| 0 <= j < i ==> (#[trigger] out@[j])@ == card_of(sources@[j]@),
        decreases sources@.len() - i,
    {
        let s = &sources[i];
        out.push(
            SourceCard {
                id: text_or_empty(s.id),
                resource: text_or_empty(s.resource),
                title: text_or_empty(s.title),
                author: text_or_empty(s.author),
                last_modified: text_or_empty(s.last_modified),
                usage_count: s.usage_count,
            },
        );
        i = i + 1;
    }
    assert(out@.map_values(|c: SourceCard| c@) =~= sources@.map_values(
        |s: crate::frontmatter::Source<'_>| card_of(s@),
    ));
    out
}

fn owned_texts(items: &Vec<&str>) -> (r: Vec<String>)
    ensures
        texts(r@) == items@.map_values(|t: &str| t@),
{
    let mut out: Vec<String> = Vec::new();
    let mut i: usize = 0;
    while i < items.len()
        invariant
            i <= items@.len(),
            out@.len() == i,
            forall|j: int| 0 <= j < i ==> (#[trigger] out@[j])@ == items@[j]@,
        decreases items@.len() - i,
    {
        out.push(items[i].to_owned());
        i = i + 1;
    }
    assert(texts(out@) =~= items@.map_values(|t: &str| t@));
    out
}

/// The node the viewer draws for a concept.
pub fn node(entry: &Entry, today: Date) -> (n: NodeData)
    ensures
        n@ == node_model(*entry, today),
{
    proof {
        reveal_strlit("stable");
        reveal_strlit("unverified");
    }
    let shown_type = concept_type(entry);
    let size = size_for(entry.document.body.text.as_str().len());
    let color = color_for(shown_type);
    match entry.document.frontmatter.parsed() {
        Some(f) => {
            let label = match f.title() {
                Some(t) => t.to_owned(),
                None => entry.id.to_string(),
            };
            let tags = f.tags();
            assert(tags@.map_values(|t: &str| t@) =~= string_items(
                sequence_field(f.entries@, "tags"@),
            ));
            let generated = match f.generated() {
                Some(g) => Some(Stamp { by: text_or_empty(g.by), at: text_or_empty(g.at) }),
                None => None,
            };
            let events = f.verified();
            assert(events@.map_values(|v: crate::frontmatter::Verification<'_>| stamp_text(v@))
                =~= verifications(f.entries@).map_values(|s: StampModel| stamp_text(s)));
            let sources = f.sources();
            assert(sources@.map_values(|s: crate::frontmatter::Source<'_>| card_of(s@))
                =~= source_models(sequence_field(f.entries@, "sources"@)).map_values(
                |s: SourceModel| card_of(s),
            ));
            let stale_after = match f.stale_after() {
                Some(d) => d.to_string(),
                None => String::new(),
            };
            NodeData {
                id: entry.id.to_string(),
                label,
                concept_type: shown_type.to_owned(),
                description: text_or_empty(f.description()),
                resource: text_or_empty(f.resource()),
                tags: owned_texts(&tags),
                status: f.status().as_str().to_owned(),
                generated,
                verified: stamps_shown(&events),
                stale_after,
                sources: cards_shown(&sources),
                trust_tier: f.trust_tier().as_str().to_owned(),
                stale: f.is_stale_on(today),
                color,
                size,
            }
        },
        None => {
            let n = NodeData {
            id: entry.id.to_string(),
            label: entry.id.to_string(),
            concept_type: shown_type.to_owned(),
            description: String::new(),
            resource: String::new(),
            tags: Vec::new(),
            status: "stable".to_owned(),
            generated: None,
            verified: Vec::new(),
            stale_after: String::new(),
            sources: Vec::new(),
            trust_tier: "unverified".to_owned(),
            stale: false,
            color,
            size,
            };
            assert(n@.tags =~= Seq::<Seq<char>>::empty());
            assert(n@.verified =~= Seq::<(Seq<char>, Seq<char>)>::empty());
            assert(n@.sources =~= Seq::<CardModel>::empty());
            n
        },
    }
}


/// Whether some entry of `entries` with ID `t` is a concept.
pub open spec fn names_concept(entries: Seq<Entry>, t: Seq<char>) -> bool {
    exists|i: int| 0 <= i < entries.len() && entries[i].id@ == t && entries[i].kind == EntryKind::Concept
}

/// The concept documents among `entries`, in order.
pub open spec fn concepts_of(entries: Seq<Entry>) -> Seq<Entry> {
    entries.filter(|e: Entry| e.kind == EntryKind::Concept)
}

/// The edge from concept `from` to concept `to`.
pub open spec fn edge_of(from: Seq<char>, to: Seq<char>) -> (Seq<char>, Seq<char>, Seq<char>) {
    (from + "__"@ + to, from, to)
}

/// The edges from `from` to each of `targets` that is another concept.
pub open spec fn edges_from(entries: Seq<Entry>, from: Seq<char>, targets: Seq<Seq<char>>) -> Seq<
    (Seq<char>, Seq<char>, Seq<char>),
>
    decreases targets.len(),
{
    if targets.len() == 0 {
        seq![]
    } else {
        let rest = edges_from(entries, from, targets.drop_last());
        let t = targets.last();
        if t != from && names_concept(entries, t) {
            rest.push(edge_of(from, t))
        } else {
            rest
        }
    }
}

/// The edges out of each of `concepts`, concept by concept, each concept's
/// in the order its links first name their targets.
pub open spec fn edges_of(entries: Seq<Entry>, concepts: Seq<Entry>) -> Seq<
    (Seq<char>, Seq<char>, Seq<char>),
>
    decreases concepts.len(),
{
    if concepts.len() == 0 {
        seq![]
    } else {
        let e = concepts.last();
        edges_of(entries, concepts.drop_last()) + edges_from(
            entries,
            e.id@,
            first_occurrences(resolved_targets(e.body.links@, e.id@)),
        )
    }
}

/// Whether the entry the bundle holds under `id` is a concept.
fn is_concept_id(bundle: &Bundle, id: &ConceptId) -> (b: bool)
    requires
        strictly_sorted(ids(bundle.entry_seq())),
    ensures
        b == names_concept(bundle.entry_seq(), id@),
{
    match bundle.get(id) {
        Some(e) => {
            proof {
                let entries = bundle.entry_seq();
                let k = choose|k: int| 0 <= k < entries.len() && entries[k] == *e;
                if e.kind != EntryKind::Concept && names_concept(entries, id@) {
                    let i = choose|i: int|
                        0 <= i < entries.len() && entries[i].id@ == id@ && entries[i].kind
                            == EntryKind::Concept;
                    crate::bundle::lemma_unique_ids(entries, i, k);
                }
                if e.kind == EntryKind::Concept {
                    assert(entries[k].id@ == id@);
                }
            }
            e.is_concept()
        },
        None => {
            proof {
                if names_concept(bundle.entry_seq(), id@) {
                    let i = choose|i: int|
                        0 <= i < bundle.entry_seq().len() && bundle.entry_seq()[i].id@ == id@
                            && bundle.entry_seq()[i].kind == EntryKind::Concept;
                    assert(ids(bundle.entry_seq())[i] == id@);
                }
            }
            false
        },
    }
}

/// The palette as owned strings, sorted by type name.
fn palette_entries() -> (p: Vec<(String, String)>)
    ensures
        p@.map_values(|e: (String, String)| (e.0@, e.1@)) == palette(),
{
    let mut p: Vec<(String, String)> = Vec::new();
    p.push(("BigQuery Dataset".to_owned(), "#8b5cf6".to_owned()));
    p.push(("BigQuery Table".to_owned(), "#3b82f6".to_owned()));
    p.push(("Reference".to_owned(), "#10b981".to_owned()));
    proof {
        reveal_strlit("BigQuery Dataset");
        reveal_strlit("BigQuery Table");
        reveal_strlit("Reference");
        reveal_strlit("#8b5cf6");
        reveal_strlit("#3b82f6");
        reveal_strlit("#10b981");
    }
    assert(p@.map_values(|e: (String, String)| (e.0@, e.1@)) =~= palette());
    p
}

/// Builds the graph of a bundle as of `today`.
///
/// Reserved files are not concept documents, so they are not nodes, and a
/// link to one, to a concept that does not exist, or from a concept to
/// itself is not an edge.
pub fn build(bundle: &Bundle, today: Date) -> (g: Graph)
    ensures
        g.nodes@.map_values(|n: NodeData| n@) == concepts_of(bundle.entry_seq()).map_values(
            |e: Entry| node_model(e, today),
        ),
        g.edges@.map_values(|e: Edge| e@) == edges_of(
            bundle.entry_seq(),
            concepts_of(bundle.entry_seq()),
        ),
        g.bodies@.map_values(|p: (String, String)| (p.0@, p.1@)) == concepts_of(
            bundle.entry_seq(),
        ).map_values(|e: Entry| (e.id@, e.document.body.text@)),
        strictly_sorted(texts(g.types@)),
        texts(g.types@).to_set() == concepts_of(bundle.entry_seq()).map_values(
            |e: Entry| type_label(e.document.frontmatter),
        ).to_set(),
        g.palette@.map_values(|e: (String, String)| (e.0@, e.1@)) == palette(),
{
    // Listing the entries brings in that their IDs are strictly increasing.
    let _in_order = bundle.entries();
    let concepts = bundle.concepts();
    let ghost entries = bundle.entry_seq();
    let ghost pred = |e: Entry| e.kind == EntryKind::Concept;
    let ghost cs = concepts_of(entries);
    assert(cs == entries.filter(pred));
    let mut nodes: Vec<NodeData> = Vec::new();
    let mut edges: Vec<Edge> = Vec::new();
    let mut bodies: Vec<(String, String)> = Vec::new();
    let mut types: Vec<String> = Vec::new();
    assert(texts(types@).to_set() =~= cs.take(0).map_values(
        |e: Entry| type_label(e.document.frontmatter),
    ).to_set());
    let mut i: usize = 0;
    while i < concepts.len()
        invariant
            i <= concepts@.len(),
            concepts@.len() == cs.len(),
            forall|k: int| 0 <= k < concepts@.len() ==> *#[trigger] concepts@[k] == cs[k],
            entries == bundle.entry_seq(),
            cs == concepts_of(entries),
            cs == entries.filter(pred),
            pred == (|e: Entry| e.kind == EntryKind::Concept),
            strictly_sorted(ids(entries)),
            nodes@.len() == i,
            forall|k: int| 0 <= k < i ==> (#[trigger] nodes@[k])@ == node_model(cs[k], today),
            bodies@.len() == i,
            forall|k: int|
                0 <= k < i ==> (#[trigger] bodies@[k]).0@ == cs[k].id@ && bodies@[k].1@
                    == cs[k].document.body.text@,
            strictly_sorted(texts(types@)),
            texts(types@).to_set() == cs.take(i as int).map_values(
                |e: Entry| type_label(e.document.frontmatter),
            ).to_set(),
            edges@.map_values(|e: Edge| e@) == edges_of(entries, cs.take(i as int)),
        decreases concepts@.len() - i,
    {
        let entry = concepts[i];
        nodes.push(node(entry, today));
        bodies.push((entry.id.to_string(), entry.document.body.text.as_str().to_owned()));
        let shown = concept_type(entry).to_owned();
        let ghost shown_text = shown@;
        let ghost before_types = texts(types@).to_set();
        insert_sorted(&mut types, shown);
        proof {
            let f = |e: Entry| type_label(e.document.frontmatter);
            assert(cs.take(i + 1) =~= cs.take(i as int).push(cs[i as int]));
            assert(cs.take(i + 1).map_values(f) =~= cs.take(i as int).map_values(f).push(
                f(cs[i as int]),
            ));
            cs.take(i as int).map_values(f).lemma_push_to_set_commute(f(cs[i as int]));
        }
        proof {
            let x = cs[i as int];
            assert(cs.contains(x));
            entries.lemma_filter_contains_rev(pred, x);
            let k = choose|k: int| 0 <= k < entries.len() && entries[k] == x;
            bundle.lemma_entry_for(k);
        }
        let targets = bundle.links_from(&entry.id);
        let ghost from = entry.id@;
        let ghost tv = targets@.map_values(|c: ConceptId| c@);
        assert(tv == first_occurrences(resolved_targets(entry.body.links@, from)));
        let ghost start = edges@.map_values(|e: Edge| e@);
        let mut j: usize = 0;
        while j < targets.len()
            invariant
                j <= targets@.len(),
                tv == targets@.map_values(|c: ConceptId| c@),
                from == entry.id@,
                strictly_sorted(ids(bundle.entry_seq())),
                entries == bundle.entry_seq(),
                edges@.map_values(|e: Edge| e@) == start + edges_from(
                    entries,
                    from,
                    tv.take(j as int),
                ),
            decreases targets@.len() - j,
        {
            assert(tv.take(j + 1).drop_last() =~= tv.take(j as int));
            let target = &targets[j];
            let ghost before = edges@;
            if !str_eq(target.as_str(), entry.id.as_str()) && is_concept_id(bundle, target) {
                let mut id = entry.id.to_string();
                push_str(&mut id, "__");
                push_str(&mut id, target.as_str());
                edges.push(Edge { id, source: entry.id.to_string(), target: target.to_string() });
                proof {
                    reveal_strlit("__");
                    assert(edges@ =~= before.push(edges@[before.len() as int]));
                    assert(edges@[before.len() as int]@ == edge_of(from, tv[j as int]));
                    assert(edges@.map_values(|e: Edge| e@) =~= before.map_values(|e: Edge| e@).push(
                        edge_of(from, tv[j as int]),
                    ));
                }
            }
            j = j + 1;
        }
        assert(tv.take(j as int) =~= tv);
        assert(cs.take(i + 1).drop_last() =~= cs.take(i as int));
        i = i + 1;
    }
    assert(cs.take(i as int) =~= cs);
    assert(nodes@.map_values(|n: NodeData| n@) =~= cs.map_values(|e: Entry| node_model(e, today)));
    assert(bodies@.map_values(|p: (String, String)| (p.0@, p.1@)) =~= cs.map_values(
        |e: Entry| (e.id@, e.document.body.text@),
    ));
    Graph { nodes, edges, bodies, types, palette: palette_entries() }
}


/// Whether `edge` runs between two different concepts of `entries` and is
/// named after them.
pub open spec fn joins_distinct_concepts(entries: Seq<Entry>, edge: (Seq<char>, Seq<char>, Seq<char>)) -> bool {
    &&& edge.1 != edge.2
    &&& names_concept(entries, edge.1)
    &&& names_concept(entries, edge.2)
    &&& edge.0 == edge.1 + "__"@ + edge.2
}

proof fn lemma_edges_from_join(entries: Seq<Entry>, from: Seq<char>, targets: Seq<Seq<char>>)
    requires
        names_concept(entries, from),
    ensures
        forall|k: int|
            0 <= k < edges_from(entries, from, targets).len() ==> joins_distinct_concepts(
                entries,
                #[trigger] edges_from(entries, from, targets)[k],
            ),
    decreases targets.len(),
{
    if targets.len() > 0 {
        lemma_edges_from_join(entries, from, targets.drop_last());
        let rest = edges_from(entries, from, targets.drop_last());
        let all = edges_from(entries, from, targets);
        assert forall|k: int| 0 <= k < all.len() implies joins_distinct_concepts(
            entries,
            #[trigger] all[k],
        ) by {
            if k < rest.len() {
                assert(all[k] == rest[k]);
            }
        }
    }
}

proof fn lemma_edges_of_join(entries: Seq<Entry>, concepts: Seq<Entry>)
    requires
        forall|c: int| 0 <= c < concepts.len() ==> names_concept(entries, #[trigger] concepts[c].id@),
    ensures
        forall|k: int|
            0 <= k < edges_of(entries, concepts).len() ==> joins_distinct_concepts(
                entries,
                #[trigger] edges_of(entries, concepts)[k],
            ),
    decreases concepts.len(),
{
    if concepts.len() > 0 {
        let e = concepts.last();
        assert(names_concept(entries, concepts[concepts.len() - 1].id@));
        lemma_edges_of_join(entries, concepts.drop_last());
        let targets = first_occurrences(resolved_targets(e.body.links@, e.id@));
        lemma_edges_from_join(entries, e.id@, targets);
        let left = edges_of(entries, concepts.drop_last());
        let right = edges_from(entries, e.id@, targets);
        assert forall|k: int| 0 <= k < edges_of(entries, concepts).len() implies joins_distinct_concepts(
            entries,
            #[trigger] edges_of(entries, concepts)[k],
        ) by {
            if k < left.len() {
                assert(edges_of(entries, concepts)[k] == left[k]);
            } else {
                assert(edges_of(entries, concepts)[k] == right[k - left.len()]);
            }
        }
    }
}

/// Every edge of a bundle's graph runs from one concept of the bundle to a
/// different concept of the bundle, and is named `source__target`: self-links
/// and links to reserved files or to missing concepts are never edges.
pub proof fn lemma_edges_join_distinct_concepts(bundle: Bundle)
    ensures
        forall|k: int|
            0 <= k < edges_of(bundle.entry_seq(), concepts_of(bundle.entry_seq())).len()
                ==> joins_distinct_concepts(
                bundle.entry_seq(),
                #[trigger] edges_of(bundle.entry_seq(), concepts_of(bundle.entry_seq()))[k],
            ),
{
    let entries = bundle.entry_seq();
    let pred = |e: Entry| e.kind == EntryKind::Concept;
    let cs = entries.filter(pred);
    assert forall|c: int| 0 <= c < cs.len() implies names_concept(entries, #[trigger] cs[c].id@) by {
        let x = cs[c];
        assert(cs.contains(x));
        entries.lemma_filter_contains_rev(pred, x);
        entries.lemma_filter_pred(pred, c);
        let k = choose|k: int| 0 <= k < entries.len() && entries[k] == x;
        assert(entries[k].id@ == x.id@ && entries[k].kind == EntryKind::Concept);
    }
    lemma_edges_of_join(entries, cs);
}

/// A node is never smaller than 30 nor larger than 90, and a longer body
/// never makes a smaller node.
pub proof fn lemma_node_size_bounded_and_monotone(a: nat, b: nat)
    ensures
        30 <= node_size(a) <= 90,
        a <= b ==> node_size(a) <= node_size(b),
{
    if a <= b {
        assert(a / 200 <= b / 200) by (nonlinear_arith)
            requires
                a <= b,
        ;
    }
}

/// The palette gives each of its types the colour a node of that type is
/// drawn in.
pub proof fn lemma_palette_matches_node_colors()
    ensures
        forall|k: int| 0 <= k < palette().len() ==> color_of(#[trigger] palette()[k].0) == palette()[k].1,
{
    assert forall|k: int| 0 <= k < palette().len() implies color_of(#[trigger] palette()[k].0)
        == palette()[k].1 by {
        if k == 0 {
        } else if k == 1 {
            assert("BigQuery Table"@ != "BigQuery Dataset"@) by {
                reveal_strlit("BigQuery Table");
                reveal_strlit("BigQuery Dataset");
                assert("BigQuery Table"@[9] != "BigQuery Dataset"@[9]);
            }
        } else {
            assert("Reference"@ != "BigQuery Dataset"@ && "Reference"@ != "BigQuery Table"@) by {
                reveal_strlit("Reference");
                reveal_strlit("BigQuery Table");
                reveal_strlit("BigQuery Dataset");
                assert("Reference"@.len() != "BigQuery Table"@.len());
                assert("Reference"@.len() != "BigQuery Dataset"@.len());
            }
        }
    }
}


proof fn lemma_edges_from_targets(entries: Seq<Entry>, from: Seq<char>, targets: Seq<Seq<char>>)
    ensures
        forall|k: int|
            0 <= k < edges_from(entries, from, targets).len() ==> targets.contains(
                (#[trigger] edges_from(entries, from, targets)[k]).2,
            ) && edges_from(entries, from, targets)[k] == edge_of(
                from,
                edges_from(entries, from, targets)[k].2,
            ),
    decreases targets.len(),
{
    if targets.len() > 0 {
        lemma_edges_from_targets(entries, from, targets.drop_last());
        let rest = edges_from(entries, from, targets.drop_last());
        let all = edges_from(entries, from, targets);
        assert forall|k: int| 0 <= k < all.len() implies targets.contains((#[trigger] all[k]).2)
            && all[k] == edge_of(from, all[k].2) by {
            if k < rest.len() {
                assert(all[k] == rest[k]);
                let j = choose|j: int| 0 <= j < targets.drop_last().len() && targets.drop_last()[j] == rest[k].2;
                assert(targets[j] == rest[k].2);
            } else {
                assert(targets[targets.len() - 1] == all[k].2);
            }
        }
    }
}

proof fn lemma_edges_from_distinct(entries: Seq<Entry>, from: Seq<char>, targets: Seq<Seq<char>>)
    requires
        targets.no_duplicates(),
    ensures
        edges_from(entries, from, targets).no_duplicates(),
    decreases targets.len(),
{
    if targets.len() > 0 {
        let init = targets.drop_last();
        assert(init.no_duplicates()) by {
            assert forall|i: int, j: int| 0 <= i < init.len() && 0 <= j < init.len() && i != j implies init[i]
                != init[j] by {
                assert(init[i] == targets[i] && init[j] == targets[j]);
            }
        }
        lemma_edges_from_distinct(entries, from, init);
        lemma_edges_from_targets(entries, from, init);
        let rest = edges_from(entries, from, init);
        let t = targets.last();
        if t != from && names_concept(entries, t) {
            let all = rest.push(edge_of(from, t));
            assert forall|i: int, j: int| 0 <= i < all.len() && 0 <= j < all.len() && i != j implies all[i]
                != all[j] by {
                if i < rest.len() && j < rest.len() {
                } else {
                    let k = if i < rest.len() { i } else { j };
                    assert(all[k] == rest[k]);
                    if rest[k] == edge_of(from, t) {
                        let q = choose|q: int| 0 <= q < init.len() && init[q] == rest[k].2;
                        assert(targets[q] == targets[targets.len() - 1]);
                    }
                }
            }
        }
    }
}

/// A concept has one edge to each concept it links to, however often it
/// links there.
pub proof fn lemma_one_edge_per_target(entries: Seq<Entry>, e: Entry)
    ensures
        edges_from(entries, e.id@, first_occurrences(resolved_targets(e.body.links@, e.id@))).no_duplicates(),
{
    crate::bundle::lemma_first_occurrences_distinct(resolved_targets(e.body.links@, e.id@));
    lemma_edges_from_distinct(
        entries,
        e.id@,
        first_occurrences(resolved_targets(e.body.links@, e.id@)),
    );
}

} // verus!

verus! {

/// A stamp in the viewer's data: who and when.
pub open spec fn stamp_json(s: (Seq<char>, Seq<char>)) -> JsonModel {
    JsonModel::Object(seq![("by"@, JsonModel::Text(s.0)), ("at"@, JsonModel::Text(s.1))])
}

/// A cited source in the viewer's data.
pub open spec fn card_json(c: CardModel) -> JsonModel {
    JsonModel::Object(
        seq![
            ("id"@, JsonModel::Text(c.id)),
            ("resource"@, JsonModel::Text(c.resource)),
            ("title"@, JsonModel::Text(c.title)),
            ("author"@, JsonModel::Text(c.author)),
            ("last_modified"@, JsonModel::Text(c.last_modified)),
            (
                "usage_count"@,
                match c.usage_count {
                    Some(n) => JsonModel::Int(n as int),
                    None => JsonModel::Null,
                },
            ),
        ],
    )
}

/// Texts as a JSON array.
pub open spec fn text_items(ts: Seq<Seq<char>>) -> Seq<JsonModel> {
    ts.map_values(|t: Seq<char>| JsonModel::Text(t))
}

/// Pairs of texts as the members of a JSON object.
pub open spec fn text_members(ps: Seq<(Seq<char>, Seq<char>)>) -> Seq<(Seq<char>, JsonModel)> {
    ps.map_values(|p: (Seq<char>, Seq<char>)| (p.0, JsonModel::Text(p.1)))
}

/// A node as a Cytoscape element: its fields under `data`. A concept with no
/// generation stamp has an empty object there.
pub open spec fn node_json(n: NodeModel) -> JsonModel {
    JsonModel::Object(
        seq![
            (
                "data"@,
                JsonModel::Object(
                    seq![
                        ("id"@, JsonModel::Text(n.id)),
                        ("label"@, JsonModel::Text(n.label)),
                        ("type"@, JsonModel::Text(n.concept_type)),
                        ("description"@, JsonModel::Text(n.description)),
                        ("resource"@, JsonModel::Text(n.resource)),
                        ("tags"@, JsonModel::Array(text_items(n.tags))),
                        ("status"@, JsonModel::Text(n.status)),
                        (
                            "generated"@,
                            match n.generated {
                                Some(g) => stamp_json(g),
                                None => JsonModel::Object(seq![]),
                            },
                        ),
                        (
                            "verified"@,
                            JsonModel::Array(
                                n.verified.map_values(|v: (Seq<char>, Seq<char>)| stamp_json(v)),
                            ),
                        ),
                        ("stale_after"@, JsonModel::Text(n.stale_after)),
                        (
                            "sources"@,
                            JsonModel::Array(n.sources.map_values(|c: CardModel| card_json(c))),
                        ),
                        ("trust_tier"@, JsonModel::Text(n.trust_tier)),
                        ("stale"@, JsonModel::Bool(n.stale)),
                        ("color"@, JsonModel::Text(n.color)),
                        ("size"@, JsonModel::Int(n.size)),
                    ],
                ),
            ),
        ],
    )
}

/// An edge as a Cytoscape element.
pub open spec fn edge_json(e: (Seq<char>, Seq<char>, Seq<char>)) -> JsonModel {
    JsonModel::Object(
        seq![
            (
                "data"@,
                JsonModel::Object(
                    seq![
                        ("id"@, JsonModel::Text(e.0)),
                        ("source"@, JsonModel::Text(e.1)),
                        ("target"@, JsonModel::Text(e.2)),
                    ],
                ),
            ),
        ],
    )
}

impl Graph {
    /// The graph as the viewer script reads it: `{ nodes, edges, bodies,
    /// types, palette }`, nodes and edges in Cytoscape's element format.
    pub open spec fn document(&self) -> JsonModel {
        JsonModel::Object(
            seq![
                ("nodes"@, self.nodes_doc()),
                ("edges"@, self.edges_doc()),
                ("bodies"@, self.bodies_doc()),
                ("types"@, self.types_doc()),
                ("palette"@, self.palette_doc()),
            ],
        )
    }

    /// The nodes, as Cytoscape elements.
    pub open spec fn nodes_doc(&self) -> JsonModel {
        JsonModel::Array(self.nodes@.map_values(|n: NodeData| node_json(n@)))
    }

    /// The edges, as Cytoscape elements.
    pub open spec fn edges_doc(&self) -> JsonModel {
        JsonModel::Array(self.edges@.map_values(|e: Edge| edge_json(e@)))
    }

    /// Each concept's body, keyed by concept ID.
    pub open spec fn bodies_doc(&self) -> JsonModel {
        JsonModel::Object(text_members(self.bodies@.map_values(|p: (String, String)| (p.0@, p.1@))))
    }

    /// The concept types present.
    pub open spec fn types_doc(&self) -> JsonModel {
        JsonModel::Array(text_items(texts(self.types@)))
    }

    /// Each known type's colour, keyed by type name.
    pub open spec fn palette_doc(&self) -> JsonModel {
        JsonModel::Object(
            text_members(self.palette@.map_values(|p: (String, String)| (p.0@, p.1@))),
        )
    }

    /// The viewer's data as printed: the graph's five members in the order
    /// the graph declares them, `nodes`, `edges`, `bodies`, `types`,
    /// `palette`, each value printed compactly.
    pub open spec fn data_text(&self) -> Seq<char> {
        "{\"nodes\":"@ + compact_json(self.nodes_doc()) + ",\"edges\":"@ + compact_json(
            self.edges_doc(),
        ) + ",\"bodies\":"@ + compact_json(self.bodies_doc()) + ",\"types\":"@ + compact_json(
            self.types_doc(),
        ) + ",\"palette\":"@ + compact_json(self.palette_doc()) + "}"@
    }
}

fn stamp_object(s: &Stamp) -> (j: Json)
    ensures
        j@ == stamp_json(s@),
{
    let mut m: Vec<(String, Json)> = Vec::new();
    push_member(&mut m, "by", text(s.by.as_str()));
    push_member(&mut m, "at", text(s.at.as_str()));
    proof {
        assert(members_view(Seq::<(String, Json)>::empty()) =~= seq![]);
    }
    assert(members_view(m@) =~= seq![("by"@, JsonModel::Text(s.by@)), ("at"@, JsonModel::Text(s.at@))]);
    Json::Object(m)
}

fn card_object(c: &SourceCard) -> (j: Json)
    ensures
        j@ == card_json(c@),
{
    let usage = match c.usage_count {
        Some(n) => Json::Int(n),
        None => Json::Null,
    };
    let mut m: Vec<(String, Json)> = Vec::new();
    push_member(&mut m, "id", text(c.id.as_str()));
    push_member(&mut m, "resource", text(c.resource.as_str()));
    push_member(&mut m, "title", text(c.title.as_str()));
    push_member(&mut m, "author", text(c.author.as_str()));
    push_member(&mut m, "last_modified", text(c.last_modified.as_str()));
    push_member(&mut m, "usage_count", usage);
    proof {
        assert(members_view(Seq::<(String, Json)>::empty()) =~= seq![]);
    }
    assert(members_view(m@) =~= match card_json(c@) {
        JsonModel::Object(ms) => ms,
        _ => seq![],
    });
    Json::Object(m)
}

/// Texts as a JSON array.
fn text_array(v: &Vec<String>) -> (j: Json)
    ensures
        j@ == JsonModel::Array(text_items(texts(v@))),
{
    let mut items: Vec<Json> = Vec::new();
    let mut i: usize = 0;
    proof {
        assert(items_view(Seq::<Json>::empty()) =~= seq![]);
    }
    while i < v.len()
        invariant
            i <= v@.len(),
            items_view(items@) == text_items(texts(v@.take(i as int))),
        decreases v@.len() - i,
    {
        push_item(&mut items, text(v[i].as_str()));
        assert(text_items(texts(v@.take(i + 1))) =~= text_items(texts(v@.take(i as int))).push(
            JsonModel::Text(v@[i as int]@),
        ));
        i = i + 1;
    }
    assert(v@.take(i as int) =~= v@);
    Json::Array(items)
}

/// Pairs of texts as a JSON object.
fn text_object(v: &Vec<(String, String)>) -> (j: Json)
    ensures
        j@ == JsonModel::Object(
            text_members(v@.map_values(|p: (String, String)| (p.0@, p.1@))),
        ),
{
    let ghost pairs = v@.map_values(|p: (String, String)| (p.0@, p.1@));
    let mut m: Vec<(String, Json)> = Vec::new();
    let mut i: usize = 0;
    proof {
        assert(members_view(Seq::<(String, Json)>::empty()) =~= seq![]);
    }
    while i < v.len()
        invariant
            i <= v@.len(),
            pairs == v@.map_values(|p: (String, String)| (p.0@, p.1@)),
            members_view(m@) == text_members(pairs.take(i as int)),
        decreases v@.len() - i,
    {
        push_member(&mut m, v[i].0.as_str(), text(v[i].1.as_str()));
        assert(text_members(pairs.take(i + 1)) =~= text_members(pairs.take(i as int)).push(
            (v@[i as int].0@, JsonModel::Text(v@[i as int].1@)),
        ));
        i = i + 1;
    }
    assert(pairs.take(i as int) =~= pairs);
    Json::Object(m)
}

fn node_object(n: &NodeData) -> (j: Json)
    ensures
        j@ == node_json(n@),
{
    let generated = match &n.generated {
        Some(g) => stamp_object(g),
        None => Json::Object(Vec::new()),
    };
    proof {
        assert(members_view(Seq::<(String, Json)>::empty()) =~= seq![]);
        assert(items_view(Seq::<Json>::empty()) =~= seq![]);
    }
    let ghost nv = n@;
    let mut verified: Vec<Json> = Vec::new();
    let mut i: usize = 0;
    while i < n.verified.len()
        invariant
            nv == n@,
            i <= n.verified@.len(),
            items_view(verified@) == nv.verified.take(i as int).map_values(
                |v: (Seq<char>, Seq<char>)| stamp_json(v),
            ),
        decreases n.verified@.len() - i,
    {
        push_item(&mut verified, stamp_object(&n.verified[i]));
        assert(nv.verified.take(i + 1).map_values(|v: (Seq<char>, Seq<char>)| stamp_json(v))
            =~= nv.verified.take(i as int).map_values(|v: (Seq<char>, Seq<char>)| stamp_json(v)).push(
            stamp_json(n.verified@[i as int]@),
        ));
        i = i + 1;
    }
    assert(nv.verified.take(i as int) =~= nv.verified);
    let mut sources: Vec<Json> = Vec::new();
    let mut k: usize = 0;
    while k < n.sources.len()
        invariant
            nv == n@,
            k <= n.sources@.len(),
            items_view(sources@) == nv.sources.take(k as int).map_values(|c: CardModel| card_json(c)),
        decreases n.sources@.len() - k,
    {
        push_item(&mut sources, card_object(&n.sources[k]));
        assert(nv.sources.take(k + 1).map_values(|c: CardModel| card_json(c)) =~= nv.sources.take(
            k as int,
        ).map_values(|c: CardModel| card_json(c)).push(card_json(n.sources@[k as int]@)));
        k = k + 1;
    }
    assert(nv.sources.take(k as int) =~= nv.sources);
    let mut m: Vec<(String, Json)> = Vec::new();
    push_member(&mut m, "id", text(n.id.as_str()));
    push_member(&mut m, "label", text(n.label.as_str()));
    push_member(&mut m, "type", text(n.concept_type.as_str()));
    push_member(&mut m, "description", text(n.description.as_str()));
    push_member(&mut m, "resource", text(n.resource.as_str()));
    push_member(&mut m, "tags", text_array(&n.tags));
    push_member(&mut m, "status", text(n.status.as_str()));
    push_member(&mut m, "generated", generated);
    push_member(&mut m, "verified", Json::Array(verified));
    push_member(&mut m, "stale_after", text(n.stale_after.as_str()));
    push_member(&mut m, "sources", Json::Array(sources));
    push_member(&mut m, "trust_tier", text(n.trust_tier.as_str()));
    push_member(&mut m, "stale", Json::Bool(n.stale));
    push_member(&mut m, "color", text(n.color.as_str()));
    push_member(&mut m, "size", crate::json::count(n.size));
    let ghost inner = match node_json(nv) {
        JsonModel::Object(ms) => ms[0].1,
        _ => JsonModel::Null,
    };
    assert(members_view(m@) =~= match inner {
        JsonModel::Object(ms) => ms,
        _ => seq![],
    });
    let data = Json::Object(m);
    crate::json::object1("data", data)
}

fn edge_object(e: &Edge) -> (j: Json)
    ensures
        j@ == edge_json(e@),
{
    let mut m: Vec<(String, Json)> = Vec::new();
    push_member(&mut m, "id", text(e.id.as_str()));
    push_member(&mut m, "source", text(e.source.as_str()));
    push_member(&mut m, "target", text(e.target.as_str()));
    proof {
        assert(members_view(Seq::<(String, Json)>::empty()) =~= seq![]);
    }
    assert(members_view(m@) =~= seq![
        ("id"@, JsonModel::Text(e.id@)),
        ("source"@, JsonModel::Text(e.source@)),
        ("target"@, JsonModel::Text(e.target@)),
    ]);
    crate::json::object1("data", Json::Object(m))
}

impl Graph {
    /// The nodes as a JSON array.
    fn nodes_array(&self) -> (j: Json)
        ensures
            j@ == self.nodes_doc(),
    {
        proof {
            assert(items_view(Seq::<Json>::empty()) =~= seq![]);
        }
        let mut nodes: Vec<Json> = Vec::new();
        let mut i: usize = 0;
        while i < self.nodes.len()
            invariant
                i <= self.nodes@.len(),
                items_view(nodes@) == self.nodes@.take(i as int).map_values(
                    |n: NodeData| node_json(n@),
                ),
            decreases self.nodes@.len() - i,
        {
            push_item(&mut nodes, node_object(&self.nodes[i]));
            assert(self.nodes@.take(i + 1).map_values(|n: NodeData| node_json(n@))
                =~= self.nodes@.take(i as int).map_values(|n: NodeData| node_json(n@)).push(
                node_json(self.nodes@[i as int]@),
            ));
            i = i + 1;
        }
        assert(self.nodes@.take(i as int) =~= self.nodes@);
        Json::Array(nodes)
    }

    /// The edges as a JSON array.
    fn edges_array(&self) -> (j: Json)
        ensures
            j@ == self.edges_doc(),
    {
        proof {
            assert(items_view(Seq::<Json>::empty()) =~= seq![]);
        }
        let mut edges: Vec<Json> = Vec::new();
        let mut k: usize = 0;
        while k < self.edges.len()
            invariant
                k <= self.edges@.len(),
                items_view(edges@) == self.edges@.take(k as int).map_values(
                    |e: Edge| edge_json(e@),
                ),
            decreases self.edges@.len() - k,
        {
            push_item(&mut edges, edge_object(&self.edges[k]));
            assert(self.edges@.take(k + 1).map_values(|e: Edge| edge_json(e@))
                =~= self.edges@.take(k as int).map_values(|e: Edge| edge_json(e@)).push(
                edge_json(self.edges@[k as int]@),
            ));
            k = k + 1;
        }
        assert(self.edges@.take(k as int) =~= self.edges@);
        Json::Array(edges)
    }

    /// The graph as the viewer script reads it.
    pub fn to_json(&self) -> (j: Json)
        ensures
            j@ == self.document(),
    {
        let mut m: Vec<(String, Json)> = Vec::new();
        push_member(&mut m, "nodes", self.nodes_array());
        push_member(&mut m, "edges", self.edges_array());
        push_member(&mut m, "bodies", text_object(&self.bodies));
        push_member(&mut m, "types", text_array(&self.types));
        push_member(&mut m, "palette", text_object(&self.palette));
        proof {
            assert(members_view(Seq::<(String, Json)>::empty()) =~= seq![]);
        }
        assert(members_view(m@) =~= match self.document() {
            JsonModel::Object(ms) => ms,
            _ => seq![],
        });
        Json::Object(m)
    }

    /// The viewer's data, printed compactly for embedding in its page, its
    /// members in the order the graph declares them.
    pub fn render_data(&self) -> (s: String)
        ensures
            s@ == self.data_text(),
    {
        let mut out = String::new();
        push_str(&mut out, "{\"nodes\":");
        push_str(&mut out, to_string(&self.nodes_array()).as_str());
        push_str(&mut out, ",\"edges\":");
        push_str(&mut out, to_string(&self.edges_array()).as_str());
        push_str(&mut out, ",\"bodies\":");
        push_str(&mut out, to_string(&text_object(&self.bodies)).as_str());
        push_str(&mut out, ",\"types\":");
        push_str(&mut out, to_string(&text_array(&self.types)).as_str());
        push_str(&mut out, ",\"palette\":");
        push_str(&mut out, to_string(&text_object(&self.palette)).as_str());
        push_str(&mut out, "}");
        assert(out@ =~= self.data_text());
        out
    }
}

/// A text as a JSON string literal, quoted and escaped, for embedding in the
/// viewer's page.
pub fn json_string(t: &str) -> (s: String)
    ensures
        s@ == compact_json(JsonModel::Text(t@)),
{
    to_string(&text(t))
}


/// A node shows the status its concept declares, in the trust model's
/// wording, and `stable` when none is declared.
pub proof fn lemma_node_shows_declared_status(e: Entry, today: Date, fm: Frontmatter)
    requires
        e.document.frontmatter == FrontmatterState::Parsed(fm),
    ensures
        text_field(fm.entries@, "status"@) matches Some(t) ==> node_model(e, today).status
            == status_text(status_of(t)),
        text_field(fm.entries@, "status"@) is None ==> node_model(e, today).status == "stable"@,
{
}

/// A declared `draft`, `stable` or `deprecated` is shown on the node just as
/// the frontmatter writes it.
pub proof fn lemma_node_shows_status_as_written(e: Entry, today: Date, fm: Frontmatter, t: Seq<char>)
    requires
        e.document.frontmatter == FrontmatterState::Parsed(fm),
        text_field(fm.entries@, "status"@) == Some(t),
        t == "draft"@ || t == "stable"@ || t == "deprecated"@,
    ensures
        node_model(e, today).status == t,
{
}

/// A concept whose frontmatter did not parse is shown as `stable`.
pub proof fn lemma_unparsed_node_is_stable(e: Entry, today: Date)
    requires
        !(e.document.frontmatter is Parsed),
    ensures
        node_model(e, today).status == "stable"@,
{
}

} // verus!
