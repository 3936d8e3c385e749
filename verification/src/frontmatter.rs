//! Typed accessors over frontmatter.
//!
//! Every accessor is tolerant by design: a concept may not be rejected for a
//! missing or oddly-shaped optional field, so a field of the wrong type reads
//! as absent rather than as an error.

use vstd::prelude::*;
use vstd::string::*;

use crate::date::{date_from_text, timestamp_cuts_a_char, timestamp_of, Date, Timestamp};
use crate::document::Frontmatter;
use crate::span::Span;
use crate::text::{chars_of, is_white, is_white_char, str_eq};
use crate::trust::{actor_of, status_of, Actor, ActorModel, Status, TrustTier};
use crate::value::{lookup, Node, Value};

verus! {

/// The `type` value that makes a concept an Attested Computation.
pub const ATTESTED_COMPUTATION: &'static str = "Attested Computation";

/// `generated: { by, at }`.
#[derive(Debug, Clone, Copy)]
pub struct Generated<'a> {
    pub by: Option<&'a str>,
    pub at: Option<&'a str>,
    pub span: Span,
}

/// One entry of `verified`.
#[derive(Debug, Clone, Copy)]
pub struct Verification<'a> {
    pub by: Option<&'a str>,
    pub at: Option<&'a str>,
    pub span: Span,
}

/// One entry of `sources`.
#[derive(Debug, Clone, Copy)]
pub struct Source<'a> {
    pub id: Option<&'a str>,
    pub resource: Option<&'a str>,
    pub title: Option<&'a str>,
    pub author: Option<&'a str>,
    pub usage_count: Option<i64>,
    pub last_modified: Option<&'a str>,
    pub span: Span,
}

/// An actor or timestamp pair as plain text: `by`, `at`, and the span to blame.
pub struct StampModel {
    pub by: Option<Seq<char>>,
    pub at: Option<Seq<char>>,
    pub span: Span,
}

/// A `sources` entry as plain text.
pub struct SourceModel {
    pub id: Option<Seq<char>>,
    pub resource: Option<Seq<char>>,
    pub title: Option<Seq<char>>,
    pub author: Option<Seq<char>>,
    pub usage_count: Option<i64>,
    pub last_modified: Option<Seq<char>>,
    pub span: Span,
}

impl<'a> View for Generated<'a> {
    type V = StampModel;

    open spec fn view(&self) -> StampModel {
        StampModel { by: opt_text(self.by), at: opt_text(self.at), span: self.span }
    }
}

impl<'a> View for Verification<'a> {
    type V = StampModel;

    open spec fn view(&self) -> StampModel {
        StampModel { by: opt_text(self.by), at: opt_text(self.at), span: self.span }
    }
}

impl<'a> View for Source<'a> {
    type V = SourceModel;

    open spec fn view(&self) -> SourceModel {
        SourceModel {
            id: opt_text(self.id),
            resource: opt_text(self.resource),
            title: opt_text(self.title),
            author: opt_text(self.author),
            usage_count: self.usage_count,
            last_modified: opt_text(self.last_modified),
            span: self.span,
        }
    }
}

/// The `type` a frontmatter mapping declares, a blank value counting as none.
pub open spec fn declared_type(entries: Seq<(Node, Node)>) -> Option<Seq<char>> {
    match text_field(entries, "type"@) {
        Some(t) => if blank(t) {
            None
        } else {
            Some(t)
        },
        None => None,
    }
}

/// Whether a stamp's `at`, if any, can be read as a timestamp without
/// cutting a character in two.
pub open spec fn stamp_time_readable(v: StampModel) -> bool {
    match v.at {
        Some(a) => !timestamp_cuts_a_char(a),
        None => true,
    }
}

/// The characters of an optional string.
pub open spec fn opt_text(o: Option<&str>) -> Option<Seq<char>> {
    match o {
        Some(s) => Some(s@),
        None => None,
    }
}

/// The text of a node, when it is a string.
pub open spec fn node_text(n: Node) -> Option<Seq<char>> {
    match n.value {
        Value::String(s) => Some(s@),
        _ => None,
    }
}

/// The string value of `key` in `entries`, when there is one.
pub open spec fn text_field(entries: Seq<(Node, Node)>, key: Seq<char>) -> Option<Seq<char>> {
    match lookup(entries, key) {
        Some(n) => node_text(n),
        None => None,
    }
}

/// Whether `t` is empty once trimmed.
pub open spec fn blank(t: Seq<char>) -> bool {
    forall|i: int| 0 <= i < t.len() ==> is_white(#[trigger] t[i])
}

/// Whether `text` is empty once trimmed.
pub fn is_blank(text: &str) -> (b: bool)
    ensures
        b == blank(text@),
{
    let cs = chars_of(text);
    let mut i: usize = 0;
    while i < cs.len()
        invariant
            cs@ == text@,
            i <= cs@.len(),
            forall|j: int| 0 <= j < i ==> is_white(#[trigger] cs@[j]),
        decreases cs@.len() - i,
    {
        if !is_white_char(cs[i]) {
            return false;
        }
        i = i + 1;
    }
    true
}

/// The string items of `items`, in order.
pub open spec fn string_items(items: Seq<Node>) -> Seq<Seq<char>>
    decreases items.len(),
{
    if items.len() == 0 {
        seq![]
    } else {
        let rest = string_items(items.drop_last());
        match node_text(items.last()) {
            Some(t) => rest.push(t),
            None => rest,
        }
    }
}

/// The items of the sequence under `key`, or none.
pub open spec fn sequence_field(entries: Seq<(Node, Node)>, key: Seq<char>) -> Seq<Node> {
    match lookup(entries, key) {
        Some(n) => match n.value {
            Value::Sequence(items) => items@,
            _ => seq![],
        },
        None => seq![],
    }
}

/// The `by` and `at` of a mapping node, with the node's span.
pub open spec fn stamp_of(n: Node) -> Option<StampModel> {
    match n.value {
        Value::Mapping(m) => Some(
            StampModel {
                by: text_field(m@, "by"@),
                at: text_field(m@, "at"@),
                span: n.span,
            },
        ),
        _ => None,
    }
}

/// The stamps of the mapping nodes among `nodes`, in order.
pub open spec fn stamps(nodes: Seq<Node>) -> Seq<StampModel>
    decreases nodes.len(),
{
    if nodes.len() == 0 {
        seq![]
    } else {
        let rest = stamps(nodes.drop_last());
        match stamp_of(nodes.last()) {
            Some(s) => rest.push(s),
            None => rest,
        }
    }
}

/// The nodes `verified` lists: its items, or the node itself when it is a
/// single mapping.
pub open spec fn verified_nodes(entries: Seq<(Node, Node)>) -> Seq<Node> {
    match lookup(entries, "verified"@) {
        Some(n) => match n.value {
            Value::Sequence(items) => items@,
            Value::Mapping(_) => seq![n],
            _ => seq![],
        },
        None => seq![],
    }
}

/// The verification events a frontmatter records.
pub open spec fn verifications(entries: Seq<(Node, Node)>) -> Seq<StampModel> {
    stamps(verified_nodes(entries))
}

/// The `sources` entry a mapping node describes.
pub open spec fn source_of(n: Node) -> Option<SourceModel> {
    match n.value {
        Value::Mapping(m) => Some(
            SourceModel {
                id: text_field(m@, "id"@),
                resource: text_field(m@, "resource"@),
                title: text_field(m@, "title"@),
                author: text_field(m@, "author"@),
                usage_count: match lookup(m@, "usage_count"@) {
                    Some(c) => match c.value {
                        Value::Int(i) => Some(i),
                        _ => None,
                    },
                    None => None,
                },
                last_modified: text_field(m@, "last_modified"@),
                span: n.span,
            },
        ),
        _ => None,
    }
}

/// The sources described by the mapping nodes among `nodes`, in order.
pub open spec fn source_models(nodes: Seq<Node>) -> Seq<SourceModel>
    decreases nodes.len(),
{
    if nodes.len() == 0 {
        seq![]
    } else {
        let rest = source_models(nodes.drop_last());
        match source_of(nodes.last()) {
            Some(s) => rest.push(s),
            None => rest,
        }
    }
}

/// Whether some event in `vs` was verified by a human.
pub open spec fn some_human(vs: Seq<StampModel>) -> bool {
    exists|i: int|
        0 <= i < vs.len() && ((#[trigger] vs[i]).by matches Some(b) && actor_of(b) is Human)
}

/// The trust tier implied by a list of verification events: none means
/// unverified, any human verifier means human-reviewed, and otherwise the
/// concept is machine-confirmed.
pub open spec fn tier_of(vs: Seq<StampModel>) -> TrustTier {
    if vs.len() == 0 {
        TrustTier::Unverified
    } else if some_human(vs) {
        TrustTier::HumanReviewed
    } else {
        TrustTier::MachineConfirmed
    }
}

/// The timestamp an event's `at` parses to.
pub open spec fn stamp_time(v: StampModel) -> Option<Timestamp> {
    match v.at {
        Some(t) => timestamp_of(t),
        None => None,
    }
}

/// The latest parseable `at` among `vs`; among equal ones, the last.
pub open spec fn latest(vs: Seq<StampModel>) -> Option<Timestamp>
    decreases vs.len(),
{
    if vs.len() == 0 {
        None
    } else {
        let prev = latest(vs.drop_last());
        match (prev, stamp_time(vs.last())) {
            (Some(p), Some(h)) => if h.earlier(p) {
                Some(p)
            } else {
                Some(h)
            },
            (None, h) => h,
            (p, None) => p,
        }
    }
}

/// The path-valued fields: `computation`, then `executor.resource` and
/// `attester.resource`, each with the span of its value.
pub open spec fn path_models(entries: Seq<(Node, Node)>) -> Seq<(Seq<char>, Span)> {
    computation_path(entries) + resource_path(entries, "executor"@) + resource_path(
        entries,
        "attester"@,
    )
}

/// The `computation` string, with its span.
pub open spec fn computation_path(entries: Seq<(Node, Node)>) -> Seq<(Seq<char>, Span)> {
    match lookup(entries, "computation"@) {
        Some(n) => match node_text(n) {
            Some(t) => seq![(t, n.span)],
            None => seq![],
        },
        None => seq![],
    }
}

/// The `resource` string of the mapping under `key`, with its span.
pub open spec fn resource_path(entries: Seq<(Node, Node)>, key: Seq<char>) -> Seq<(Seq<char>, Span)> {
    match lookup(entries, key) {
        Some(n) => match n.value {
            Value::Mapping(m) => match lookup(m@, "resource"@) {
                Some(r) => match node_text(r) {
                    Some(t) => seq![(t, r.span)],
                    None => seq![],
                },
                None => seq![],
            },
            _ => seq![],
        },
        None => seq![],
    }
}

/// The `generated` stamp, when `generated` is a mapping.
pub open spec fn generated_of(entries: Seq<(Node, Node)>) -> Option<StampModel> {
    match lookup(entries, "generated"@) {
        Some(n) => stamp_of(n),
        None => None,
    }
}

/// Every actor string: `generated.by`, then each `verified[].by`, each with
/// the span of the entry it came from.
pub open spec fn actor_models(entries: Seq<(Node, Node)>) -> Seq<(Seq<char>, Span)> {
    generator_actor(entries) + verifier_actors(verifications(entries))
}

/// `generated.by`, with the span of `generated`.
pub open spec fn generator_actor(entries: Seq<(Node, Node)>) -> Seq<(Seq<char>, Span)> {
    match generated_of(entries) {
        Some(g) => match g.by {
            Some(b) => seq![(b, g.span)],
            None => seq![],
        },
        None => seq![],
    }
}

/// The `by` of each event that has one, with the event's span.
pub open spec fn verifier_actors(vs: Seq<StampModel>) -> Seq<(Seq<char>, Span)>
    decreases vs.len(),
{
    if vs.len() == 0 {
        seq![]
    } else {
        let rest = verifier_actors(vs.drop_last());
        match vs.last().by {
            Some(b) => rest.push((b, vs.last().span)),
            None => rest,
        }
    }
}

/// The stamp of a mapping node, read through its accessors.
fn read_stamp<'a>(node: &'a Node) -> (r: Option<Verification<'a>>)
    ensures
        r matches Some(v) ==> stamp_of(*node) == Some(v@),
        r is None ==> stamp_of(*node) is None,
{
    match node.as_mapping() {
        Some(map) => {
            let by = match map.get("by") {
                Some(n) => n.as_str(),
                None => None,
            };
            let at = match map.get("at") {
                Some(n) => n.as_str(),
                None => None,
            };
            Some(Verification { by, at, span: node.span })
        },
        None => None,
    }
}

/// The string under `key` in a mapping node's value.
fn text_in<'a>(map: &'a crate::value::Mapping, key: &str) -> (r: Option<&'a str>)
    ensures
        opt_text(r) == text_field(map@, key@),
{
    match map.get(key) {
        Some(n) => n.as_str(),
        None => None,
    }
}

impl Frontmatter {
    fn string(&self, key: &str) -> (r: Option<&str>)
        ensures
            opt_text(r) == text_field(self.entries@, key@),
    {
        text_in(&self.entries, key)
    }

    /// The required `type` field, empty values treated as absent.
    pub fn concept_type(&self) -> (r: Option<&str>)
        ensures
            opt_text(r) == declared_type(self.entries@),
    {
        match self.string("type") {
            Some(t) => if is_blank(t) {
                None
            } else {
                Some(t)
            },
            None => None,
        }
    }

    pub fn title(&self) -> (r: Option<&str>)
        ensures
            opt_text(r) == text_field(self.entries@, "title"@),
    {
        self.string("title")
    }

    pub fn description(&self) -> (r: Option<&str>)
        ensures
            opt_text(r) == text_field(self.entries@, "description"@),
    {
        self.string("description")
    }

    pub fn resource(&self) -> (r: Option<&str>)
        ensures
            opt_text(r) == text_field(self.entries@, "resource"@),
    {
        self.string("resource")
    }

    /// `okf_version`, permitted only in a bundle-root `index.md`.
    pub fn okf_version(&self) -> (r: Option<&str>)
        ensures
            opt_text(r) == text_field(self.entries@, "okf_version"@),
    {
        self.string("okf_version")
    }

    pub fn tags(&self) -> (r: Vec<&str>)
        ensures
            r@.len() == string_items(sequence_field(self.entries@, "tags"@)).len(),
            forall|i: int|
                0 <= i < r@.len() ==> #[trigger] r@[i]@ == string_items(
                    sequence_field(self.entries@, "tags"@),
                )[i],
    {
        let mut out: Vec<&str> = Vec::new();
        let items: &[Node] = match self.entries.get("tags") {
            Some(n) => match n.as_sequence() {
                Some(items) => items,
                None => &[],
            },
            None => &[],
        };
        assert(items@ == sequence_field(self.entries@, "tags"@));
        let mut i: usize = 0;
        while i < items.len()
            invariant
                i <= items@.len(),
                out@.len() == string_items(items@.take(i as int)).len(),
                forall|j: int|
                    0 <= j < out@.len() ==> #[trigger] out@[j]@ == string_items(
                        items@.take(i as int),
                    )[j],
            decreases items@.len() - i,
        {
            assert(items@.take(i + 1).drop_last() =~= items@.take(i as int));
            match items[i].as_str() {
                Some(t) => out.push(t),
                None => {},
            }
            i = i + 1;
        }
        assert(items@.take(i as int) =~= items@);
        out
    }

    pub fn status(&self) -> (s: Status)
        ensures
            s == match text_field(self.entries@, "status"@) {
                Some(t) => status_of(t),
                None => Status::Stable,
            },
    {
        match self.string("status") {
            Some(t) => Status::parse(t),
            None => Status::Stable,
        }
    }

    pub fn stale_after(&self) -> (r: Option<Date>)
        ensures
            r == match text_field(self.entries@, "stale_after"@) {
                Some(t) => date_from_text(t),
                None => None,
            },
    {
        match self.string("stale_after") {
            Some(t) => Date::parse(t),
            None => None,
        }
    }

    /// The raw `stale_after` value, for reporting a malformed date.
    pub fn stale_after_raw(&self) -> (r: Option<&Node>)
        ensures
            r matches Some(n) ==> lookup(self.entries@, "stale_after"@) == Some(*n),
            r is None ==> lookup(self.entries@, "stale_after"@) is None,
    {
        self.entries.get("stale_after")
    }

    /// The older `timestamp` field, superseded by `generated.at`.
    pub fn legacy_timestamp(&self) -> (r: Option<&Node>)
        ensures
            r matches Some(n) ==> lookup(self.entries@, "timestamp"@) == Some(*n),
            r is None ==> lookup(self.entries@, "timestamp"@) is None,
    {
        self.entries.get("timestamp")
    }

    pub fn generated(&self) -> (r: Option<Generated<'_>>)
        ensures
            r matches Some(g) ==> generated_of(self.entries@) == Some(g@),
            r is None ==> generated_of(self.entries@) is None,
    {
        match self.entries.get("generated") {
            Some(node) => match read_stamp(node) {
                Some(v) => Some(Generated { by: v.by, at: v.at, span: v.span }),
                None => None,
            },
            None => None,
        }
    }

    /// Verification events, always as a list: a single verifier written as a
    /// bare mapping reads as a one-element list.
    pub fn verified(&self) -> (r: Vec<Verification<'_>>)
        ensures
            r@.len() == verifications(self.entries@).len(),
            forall|i: int| 0 <= i < r@.len() ==> #[trigger] r@[i]@ == verifications(self.entries@)[i],
    {
        let mut out: Vec<Verification<'_>> = Vec::new();
        let node = match self.entries.get("verified") {
            Some(n) => n,
            None => {
                return out;
            },
        };
        match &node.value {
            Value::Mapping(_) => {
                if let Some(v) = read_stamp(node) {
                    out.push(v);
                }
                proof {
                    let nodes = verified_nodes(self.entries@);
                    assert(nodes == seq![*node]);
                    assert(nodes.drop_last() =~= Seq::<Node>::empty());
                    assert(stamps(Seq::<Node>::empty()) =~= Seq::<StampModel>::empty());
                    assert(nodes.last() == *node);
                }
                out
            },
            Value::Sequence(items) => {
                let mut i: usize = 0;
                while i < items.len()
                    invariant
                        items@ == verified_nodes(self.entries@),
                        i <= items@.len(),
                        out@.len() == stamps(items@.take(i as int)).len(),
                        forall|j: int|
                            0 <= j < out@.len() ==> #[trigger] out@[j]@ == stamps(
                                items@.take(i as int),
                            )[j],
                    decreases items@.len() - i,
                {
                    assert(items@.take(i + 1).drop_last() =~= items@.take(i as int));
                    if let Some(v) = read_stamp(&items[i]) {
                        out.push(v);
                    }
                    i = i + 1;
                }
                assert(items@.take(i as int) =~= items@);
                out
            },
            _ => {
                assert(stamps(Seq::<Node>::empty()) =~= Seq::<StampModel>::empty());
                out
            },
        }
    }

    pub fn sources(&self) -> (r: Vec<Source<'_>>)
        ensures
            r@.len() == source_models(sequence_field(self.entries@, "sources"@)).len(),
            forall|i: int|
                0 <= i < r@.len() ==> #[trigger] r@[i]@ == source_models(
                    sequence_field(self.entries@, "sources"@),
                )[i],
    {
        let mut out: Vec<Source<'_>> = Vec::new();
        let items: &[Node] = match self.entries.get("sources") {
            Some(n) => match n.as_sequence() {
                Some(items) => items,
                None => &[],
            },
            None => &[],
        };
        assert(items@ == sequence_field(self.entries@, "sources"@));
        let mut i: usize = 0;
        while i < items.len()
            invariant
                i <= items@.len(),
                out@.len() == source_models(items@.take(i as int)).len(),
                forall|j: int|
                    0 <= j < out@.len() ==> #[trigger] out@[j]@ == source_models(
                        items@.take(i as int),
                    )[j],
            decreases items@.len() - i,
        {
            assert(items@.take(i + 1).drop_last() =~= items@.take(i as int));
            let entry = &items[i];
            if let Some(map) = entry.as_mapping() {
                let usage_count = match map.get("usage_count") {
                    Some(c) => c.as_int(),
                    None => None,
                };
                out.push(
                    Source {
                        id: text_in(map, "id"),
                        resource: text_in(map, "resource"),
                        title: text_in(map, "title"),
                        author: text_in(map, "author"),
                        usage_count,
                        last_modified: text_in(map, "last_modified"),
                        span: entry.span,
                    },
                );
            }
            i = i + 1;
        }
        assert(items@.take(i as int) =~= items@);
        out
    }

    /// The trust tier implied by `verified`.
    pub fn trust_tier(&self) -> (t: TrustTier)
        ensures
            t == tier_of(verifications(self.entries@)),
    {
        let events = self.verified();
        let ghost vs = verifications(self.entries@);
        if events.len() == 0 {
            return TrustTier::Unverified;
        }
        let mut i: usize = 0;
        while i < events.len()
            invariant
                vs == verifications(self.entries@),
                events@.len() == vs.len(),
                forall|j: int| 0 <= j < events@.len() ==> #[trigger] events@[j]@ == vs[j],
                i <= events@.len(),
                forall|j: int|
                    0 <= j < i ==> !((#[trigger] vs[j]).by matches Some(b) && actor_of(b) is Human),
            decreases events@.len() - i,
        {
            assert(events@[i as int]@ == vs[i as int]);
            if let Some(by) = events[i].by {
                let actor = Actor::parse(by);
                if actor.is_human() {
                    assert(actor@ is Human);
                    assert(actor_of(by@) is Human);
                    assert(vs[i as int].by == Some(by@));
                    assert(some_human(vs));
                    return TrustTier::HumanReviewed;
                }
            }
            i = i + 1;
        }
        TrustTier::MachineConfirmed
    }

    /// The most recent parseable `verified[].at`.
    pub fn last_verified_at(&self) -> (r: Option<Timestamp>)
        requires
            forall|i: int|
                0 <= i < verifications(self.entries@).len() ==> stamp_time_readable(
                    #[trigger] verifications(self.entries@)[i],
                ),
        ensures
            r == latest(verifications(self.entries@)),
    {
        let events = self.verified();
        let ghost vs = verifications(self.entries@);
        let mut best: Option<Timestamp> = None;
        let mut i: usize = 0;
        while i < events.len()
            invariant
                events@.len() == vs.len(),
                forall|j: int| 0 <= j < events@.len() ==> #[trigger] events@[j]@ == vs[j],
                i <= events@.len(),
                best == latest(vs.take(i as int)),
                vs == verifications(self.entries@),
                forall|j: int|
                    0 <= j < vs.len() ==> stamp_time_readable(#[trigger] vs[j]),
            decreases events@.len() - i,
        {
            assert(vs.take(i + 1).drop_last() =~= vs.take(i as int));
            assert(events@[i as int]@ == vs[i as int]);
            let here = match events[i].at {
                Some(t) => Timestamp::parse(t),
                None => None,
            };
            best = match (best, here) {
                (Some(p), Some(h)) => if h.is_before(&p) {
                    Some(p)
                } else {
                    Some(h)
                },
                (None, h) => h,
                (p, None) => p,
            };
            i = i + 1;
        }
        assert(vs.take(i as int) =~= vs);
        best
    }

    /// Whether every `verified[].at` can be read as a timestamp without
    /// cutting a character in two, as `last_verified_at` needs.
    pub fn verified_times_readable(&self) -> (b: bool)
        ensures
            b == forall|i: int|
                0 <= i < verifications(self.entries@).len() ==> stamp_time_readable(
                    #[trigger] verifications(self.entries@)[i],
                ),
    {
        let events = self.verified();
        let ghost vs = verifications(self.entries@);
        let mut i: usize = 0;
        while i < events.len()
            invariant
                i <= events@.len(),
                vs == verifications(self.entries@),
                events@.len() == vs.len(),
                forall|j: int| 0 <= j < events@.len() ==> #[trigger] events@[j]@ == vs[j],
                forall|j: int| 0 <= j < i ==> stamp_time_readable(#[trigger] vs[j]),
            decreases events@.len() - i,
        {
            assert(events@[i as int]@ == vs[i as int]);
            match events[i].at {
                Some(t) => {
                    if !crate::date::timestamp_readable(t) {
                        assert(!stamp_time_readable(vs[i as int]));
                        return false;
                    }
                },
                None => {},
            }
            i = i + 1;
        }
        true
    }

    /// Whether the concept is stale on `today`, i.e. on or after `stale_after`.
    pub fn is_stale_on(&self, today: Date) -> (b: bool)
        ensures
            b == match text_field(self.entries@, "stale_after"@) {
                Some(t) => match date_from_text(t) {
                    Some(d) => !today.before(d),
                    None => false,
                },
                None => false,
            },
    {
        match self.stale_after() {
            Some(d) => !today.is_before(&d),
            None => false,
        }
    }

    /// Whether this concept is an Attested Computation.
    pub fn is_attested_computation(&self) -> (b: bool)
        ensures
            b == match text_field(self.entries@, "type"@) {
                Some(t) => !blank(t) && t == ATTESTED_COMPUTATION@,
                None => false,
            },
    {
        match self.concept_type() {
            Some(t) => str_eq(t, ATTESTED_COMPUTATION),
            None => false,
        }
    }

    /// `runtime`, required for an Attested Computation.
    pub fn runtime(&self) -> (r: Option<&str>)
        ensures
            opt_text(r) == text_field(self.entries@, "runtime"@),
    {
        self.string("runtime")
    }

    /// Every path-valued field, paired with the span to blame.
    ///
    /// `sources[].resource` is excluded: it may be a scope descriptor rather
    /// than a path, so it cannot be checked as one.
    pub fn path_fields(&self) -> (r: Vec<(&str, Span)>)
        ensures
            r@.len() == path_models(self.entries@).len(),
            forall|i: int|
                0 <= i < r@.len() ==> (#[trigger] r@[i]).0@ == path_models(self.entries@)[i].0
                    && r@[i].1 == path_models(self.entries@)[i].1,
    {
        let mut paths: Vec<(&str, Span)> = Vec::new();
        if let Some(node) = self.entries.get("computation") {
            if let Some(text) = node.as_str() {
                paths.push((text, node.span));
            }
        }
        let ghost first = paths@;
        self.push_resource(&mut paths, "executor");
        let ghost second = paths@;
        self.push_resource(&mut paths, "attester");
        proof {
            let m = path_models(self.entries@);
            let c = computation_path(self.entries@);
            let e = resource_path(self.entries@, "executor"@);
            let a = resource_path(self.entries@, "attester"@);
            assert(first.len() == c.len());
            assert forall|i: int| 0 <= i < paths@.len() implies (#[trigger] paths@[i]).0@ == m[i].0
                && paths@[i].1 == m[i].1 by {
                if i < first.len() {
                    assert(paths@[i] == second[i]);
                    assert(second[i] == first[i]);
                } else if i < second.len() {
                    assert(paths@[i] == second[i]);
                    assert(second[first.len() + (i - first.len())] == second[i]);
                } else {
                    assert(paths@[second.len() + (i - second.len())] == paths@[i]);
                }
            }
        }
        paths
    }

    /// Appends the `resource` string of the mapping under `key`.
    fn push_resource<'a>(&'a self, paths: &mut Vec<(&'a str, Span)>, key: &str)
        ensures
            final(paths)@.len() == old(paths)@.len() + resource_path(self.entries@, key@).len(),
            forall|i: int|
                0 <= i < old(paths)@.len() ==> #[trigger] final(paths)@[i] == old(paths)@[i],
            forall|i: int|
                0 <= i < resource_path(self.entries@, key@).len() ==> (#[trigger] final(paths)@[old(paths)@.len() + i]).0@
                    == resource_path(self.entries@, key@)[i].0 && final(paths)@[old(paths)@.len() + i].1
                    == resource_path(self.entries@, key@)[i].1,
    {
        if let Some(node) = self.entries.get(key) {
            if let Some(map) = node.as_mapping() {
                if let Some(resource) = map.get("resource") {
                    if let Some(text) = resource.as_str() {
                        paths.push((text, resource.span));
                    }
                }
            }
        }
    }

    /// Every actor string in the concept, with the span to blame for each.
    pub fn actors(&self) -> (r: Vec<(&str, Span)>)
        ensures
            r@.len() == actor_models(self.entries@).len(),
            forall|i: int|
                0 <= i < r@.len() ==> (#[trigger] r@[i]).0@ == actor_models(self.entries@)[i].0
                    && r@[i].1 == actor_models(self.entries@)[i].1,
    {
        let mut actors: Vec<(&str, Span)> = Vec::new();
        if let Some(generated) = self.generated() {
            if let Some(by) = generated.by {
                actors.push((by, generated.span));
            }
        }
        let ghost head = actors@;
        let events = self.verified();
        let ghost vs = verifications(self.entries@);
        let mut i: usize = 0;
        while i < events.len()
            invariant
                events@.len() == vs.len(),
                forall|j: int| 0 <= j < events@.len() ==> #[trigger] events@[j]@ == vs[j],
                i <= events@.len(),
                actors@.len() == head.len() + verifier_actors(vs.take(i as int)).len(),
                forall|j: int| 0 <= j < head.len() ==> #[trigger] actors@[j] == head[j],
                forall|j: int|
                    0 <= j < verifier_actors(vs.take(i as int)).len() ==> (#[trigger] actors@[head.len()
                        + j]).0@ == verifier_actors(vs.take(i as int))[j].0 && actors@[head.len()
                        + j].1 == verifier_actors(vs.take(i as int))[j].1,
            decreases events@.len() - i,
        {
            assert(vs.take(i + 1).drop_last() =~= vs.take(i as int));
            assert(events@[i as int]@ == vs[i as int]);
            if let Some(by) = events[i].by {
                actors.push((by, events[i].span));
            }
            i = i + 1;
        }
        assert(vs.take(i as int) =~= vs);
        proof {
            let m = actor_models(self.entries@);
            let g = generator_actor(self.entries@);
            assert(head.len() == g.len());
            assert forall|j: int| 0 <= j < actors@.len() implies (#[trigger] actors@[j]).0@ == m[j].0
                && actors@[j].1 == m[j].1 by {
                if j < head.len() {
                    assert(actors@[j] == head[j]);
                } else {
                    assert(actors@[head.len() + (j - head.len())] == actors@[j]);
                }
            }
        }
        actors
    }
}

/// A concept verified by anyone is at least machine-confirmed, and it is
/// human-reviewed exactly when one of its verifiers is a human.
pub proof fn lemma_tier_follows_verifiers(vs: Seq<StampModel>)
    ensures
        (tier_of(vs) == TrustTier::Unverified) <==> vs.len() == 0,
        (tier_of(vs) == TrustTier::HumanReviewed) <==> some_human(vs),
{
}

/// No parseable `at` is later than the one `latest` picks, and it picks one
/// whenever any `at` parses.
pub proof fn lemma_latest_is_latest(vs: Seq<StampModel>)
    ensures
        forall|i: int|
            0 <= i < vs.len() && #[trigger] stamp_time(vs[i]) is Some ==> (latest(vs) matches Some(
                l,
            ) && !l.earlier(stamp_time(vs[i])->0)),
        latest(vs) matches Some(l) ==> exists|i: int|
            0 <= i < vs.len() && #[trigger] stamp_time(vs[i]) == Some(l),
    decreases vs.len(),
{
    if vs.len() > 0 {
        let init = vs.drop_last();
        lemma_latest_is_latest(init);
        assert forall|i: int| 0 <= i < init.len() implies #[trigger] init[i] == vs[i] by {}
        if let Some(l) = latest(vs) {
            if stamp_time(vs.last()) == Some(l) {
                assert(stamp_time(vs[vs.len() - 1]) == Some(l));
            } else {
                let i = choose|i: int| 0 <= i < init.len() && #[trigger] stamp_time(init[i]) == Some(l);
                assert(stamp_time(vs[i]) == Some(l));
            }
        }
        assert forall|i: int|
            0 <= i < vs.len() && #[trigger] stamp_time(vs[i]) is Some implies (latest(vs) matches Some(
                l,
            ) && !l.earlier(stamp_time(vs[i])->0)) by {
            if i < init.len() {
                assert(stamp_time(init[i]) is Some);
            }
        }
    }
}

/// Once a concept is stale it stays stale: staleness on `a` implies
/// staleness on any later `b`.
pub proof fn lemma_staleness_persists(stale_after: Date, a: Date, b: Date)
    requires
        !a.before(stale_after),
        !b.before(a),
    ensures
        !b.before(stale_after),
{
}

} // verus!
