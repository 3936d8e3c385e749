//! Cross-link and footnote extraction from a document body.
//!
//! Markdown is read by `pulldown-cmark`: its event stream is copied into
//! [`MdEvent`]s, and what a body links to, cites and titles is computed from
//! those events here.

use vstd::prelude::*;
use vstd::string::*;
use vstd::utf8::*;

use pulldown_cmark::{Event, Options, Parser, Tag, TagEnd};

use crate::concept_id::{concept_id_of, is_kept_segment, parent_of, ConceptId};
use crate::document::{on_boundary, position_in, Body};
use crate::span::Span;
use crate::text::{
    chars_of, copy_range, find_first_either, find_last_either, first_index_where, is_char,
    is_either, join_chars, join_with, last_index_where, lemma_first_index_where, split_chars,
    split_on, starts_with, string_of, trim_chars, trim_white, views,
};

verus! {

/// Which of the two link forms a link uses, or an external target.
#[derive(Debug, Clone, Copy, PartialEq, Eq, Structural)]
pub enum LinkKind {
    /// Begins with `/`; resolved against the bundle root. The recommended form.
    BundleAbsolute,
    /// A normal markdown relative path, resolved against the document.
    Relative,
    /// Anything with a URI scheme; never resolved against the bundle.
    External,
}

/// A markdown link found in a document body.
#[derive(Debug, Clone, PartialEq, Eq)]
pub struct Link {
    /// The destination exactly as written, fragment included.
    pub target: String,
    pub kind: LinkKind,
    pub span: Span,
}

/// A `[^label]` reference, whose label joins to `sources[].id`.
#[derive(Debug, Clone, PartialEq, Eq)]
pub struct FootnoteReference {
    pub label: String,
    pub span: Span,
}

/// A markdown heading, with the level needed by the `log.md` rules.
#[derive(Debug, Clone, PartialEq, Eq)]
pub struct Heading {
    pub level: u8,
    pub text: String,
    pub span: Span,
}

/// Everything extracted from one body in a single parse.
#[derive(Debug, Clone, Default)]
pub struct BodyLinks {
    pub links: Vec<Link>,
    pub footnotes: Vec<FootnoteReference>,
    /// Labels of `[^label]:` definitions present in the body.
    pub footnote_definitions: Vec<String>,
    pub headings: Vec<Heading>,
}

impl View for Link {
    type V = (Seq<char>, LinkKind, Span);

    open spec fn view(&self) -> (Seq<char>, LinkKind, Span) {
        (self.target@, self.kind, self.span)
    }
}

impl View for FootnoteReference {
    type V = (Seq<char>, Span);

    open spec fn view(&self) -> (Seq<char>, Span) {
        (self.label@, self.span)
    }
}

impl View for Heading {
    type V = (u8, Seq<char>, Span);

    open spec fn view(&self) -> (u8, Seq<char>, Span) {
        (self.level, self.text@, self.span)
    }
}

/// The headings of `hs` at `level`, in order.
pub open spec fn headings_at_level(hs: Seq<Heading>, level: u8) -> Seq<Heading> {
    hs.filter(|h: Heading| h.level == level)
}

impl BodyLinks {
    /// Headings at a given level, in document order.
    pub fn headings_at(&self, level: u8) -> (r: Vec<&Heading>)
        ensures
            r@.len() == headings_at_level(self.headings@, level).len(),
            forall|i: int|
                0 <= i < r@.len() ==> *#[trigger] r@[i] == headings_at_level(self.headings@, level)[i],
    {
        let ghost pred = |h: Heading| h.level == level;
        let mut out: Vec<&Heading> = Vec::new();
        let mut i: usize = 0;
        while i < self.headings.len()
            invariant
                i <= self.headings@.len(),
                pred == (|h: Heading| h.level == level),
                out@.len() == self.headings@.take(i as int).filter(pred).len(),
                forall|j: int|
                    0 <= j < out@.len() ==> *#[trigger] out@[j] == self.headings@.take(
                        i as int,
                    ).filter(pred)[j],
            decreases self.headings@.len() - i,
        {
            let ghost prefix = self.headings@.take(i as int);
            assert(self.headings@.take(i + 1) =~= prefix.push(self.headings@[i as int]));
            proof {
                prefix.lemma_filter_push(self.headings@[i as int], pred);
            }
            if self.headings[i].level == level {
                out.push(&self.headings[i]);
            }
            i = i + 1;
        }
        assert(self.headings@.take(i as int) =~= self.headings@);
        out
    }
}

/// Whether `c` is an ASCII letter.
pub open spec fn ascii_alpha(c: char) -> bool {
    ('a' <= c && c <= 'z') || ('A' <= c && c <= 'Z')
}

/// Whether `c` may appear in a URI scheme.
pub open spec fn scheme_char(c: char) -> bool {
    ascii_alpha(c) || ('0' <= c && c <= '9') || c == '+' || c == '-' || c == '.'
}

/// Whether `t` begins with a URI scheme: letters first, then letters, digits,
/// `+`, `-` or `.`, up to the first `:`. A one-letter scheme counts only
/// before `//`, so that a drive letter such as `C:/` does not.
pub open spec fn uri_scheme(t: Seq<char>) -> bool {
    match first_index_where(t, is_char(':')) {
        None => false,
        Some(i) => {
            let scheme = t.take(i);
            let rest = t.skip(i + 1);
            &&& scheme.len() > 0
            &&& ascii_alpha(scheme[0])
            &&& forall|k: int| 0 <= k < scheme.len() ==> scheme_char(#[trigger] scheme[k])
            &&& (scheme.len() > 1 || starts_with(rest, seq!['/', '/']))
        },
    }
}

/// The form a link target takes.
pub open spec fn kind_of(t: Seq<char>) -> LinkKind {
    if t.len() > 0 && t[0] == '/' {
        LinkKind::BundleAbsolute
    } else if uri_scheme(t) {
        LinkKind::External
    } else {
        LinkKind::Relative
    }
}

fn is_ascii_alpha(c: char) -> (b: bool)
    ensures
        b == ascii_alpha(c),
{
    ('a' <= c && c <= 'z') || ('A' <= c && c <= 'Z')
}

/// Detects a URI scheme without treating a Windows drive letter or a bare
/// `path:with:colons` as one.
pub fn has_uri_scheme(target: &str) -> (b: bool)
    ensures
        b == uri_scheme(target@),
{
    let cs = chars_of(target);
    let n = cs.len();
    assert(cs@.subrange(0, n as int) =~= cs@);
    let colon = match find_first_either(cs.as_slice(), 0, n, ':', ':') {
        Some(i) => i,
        None => {
            assert(is_either(':', ':') =~= is_char(':'));
            return false;
        },
    };
    assert(is_either(':', ':') =~= is_char(':'));
    assert(first_index_where(cs@, is_char(':')) == Some(colon as int));
    assert(cs@.take(colon as int).len() == colon);
    if colon > 0 {
        assert(cs@.take(colon as int)[0] == cs@[0]);
    }
    if colon == 0 || !is_ascii_alpha(cs[0]) {
        return false;
    }
    let mut k: usize = 0;
    while k < colon
        invariant
            colon < n == cs@.len(),
            cs@ == target@,
            first_index_where(cs@, is_char(':')) == Some(colon as int),
            colon > 0 && ascii_alpha(cs@[0]),
            k <= colon,
            forall|j: int| 0 <= j < k ==> scheme_char(#[trigger] cs@.take(colon as int)[j]),
        decreases colon - k,
    {
        let c = cs[k];
        assert(cs@.take(colon as int)[k as int] == c);
        if !(is_ascii_alpha(c) || ('0' <= c && c <= '9') || c == '+' || c == '-' || c == '.') {
            assert(!scheme_char(cs@.take(colon as int)[k as int]));
            return false;
        }
        k = k + 1;
    }
    if colon > 1 {
        return true;
    }
    let rest_ok = n - colon > 2 && cs[colon + 1] == '/' && cs[colon + 2] == '/';
    proof {
        let rest = cs@.skip(colon + 1);
        if rest.len() >= 2 {
            assert(rest.subrange(0, 2)[0] == cs@[colon + 1]);
            assert(rest.subrange(0, 2)[1] == cs@[colon + 2]);
            if rest_ok {
                assert(rest.subrange(0, 2) =~= seq!['/', '/']);
            }
        }
    }
    rest_ok
}

fn classify(target: &str) -> (k: LinkKind)
    ensures
        k == kind_of(target@),
{
    let cs = chars_of(target);
    if cs.len() > 0 && cs[0] == '/' {
        LinkKind::BundleAbsolute
    } else if has_uri_scheme(target) {
        LinkKind::External
    } else {
        LinkKind::Relative
    }
}

/// `t` up to its first `#` or `?`: the path, without fragment or query.
pub open spec fn link_path(t: Seq<char>) -> Seq<char> {
    match first_index_where(t, is_either('#', '?')) {
        Some(i) => t.take(i),
        None => t,
    }
}

/// The last path component that is neither empty nor `.`.
pub open spec fn last_kept(parts: Seq<Seq<char>>) -> Option<Seq<char>>
    decreases parts.len(),
{
    if parts.len() == 0 {
        None
    } else if is_kept_segment(parts.last()) {
        Some(parts.last())
    } else {
        last_kept(parts.drop_last())
    }
}

/// The final component of a path, as `Path::file_name` finds it: none when
/// the path ends in `..` or has no component at all.
pub open spec fn file_name(path: Seq<char>) -> Option<Seq<char>> {
    match last_kept(split_on(path, '/')) {
        Some(name) => if name == seq!['.', '.'] {
            None
        } else {
            Some(name)
        },
        None => None,
    }
}

/// A file name's extension, as `Path::extension` finds it: what follows the
/// last `.`, unless that `.` is the name's first character.
pub open spec fn extension_of(name: Seq<char>) -> Option<Seq<char>> {
    match last_index_where(name, is_either('.', '.')) {
        Some(j) => if j > 0 {
            Some(name.skip(j + 1))
        } else {
            None
        },
        None => None,
    }
}

/// Whether a path names a `.md` file (case-sensitively).
pub open spec fn is_markdown_path(path: Seq<char>) -> bool {
    file_name(path) matches Some(name) && extension_of(name) == Some(seq!['m', 'd'])
}

/// `p` without its leading slashes.
pub open spec fn without_leading_slashes(p: Seq<char>) -> Seq<char>
    decreases p.len(),
{
    if p.len() > 0 && p[0] == '/' {
        without_leading_slashes(p.drop_first())
    } else {
        p
    }
}

/// The path segments a link resolves through: from the bundle root for a
/// bundle-absolute link, after the linking document's directory otherwise.
pub open spec fn link_segments(path: Seq<char>, kind: LinkKind, from: Seq<char>) -> Seq<Seq<char>> {
    match kind {
        LinkKind::BundleAbsolute => split_on(without_leading_slashes(path), '/'),
        _ => base_segments(from) + split_on(path, '/'),
    }
}

/// The directory segments of the concept `from`, none at the bundle root.
pub open spec fn base_segments(from: Seq<char>) -> Seq<Seq<char>> {
    match parent_of(from) {
        Some(p) => split_on(p, '/'),
        None => seq![],
    }
}

/// `segments` with `.` and empty segments dropped and each `..` removing the
/// segment before it; `None` when a `..` has nothing left to remove.
pub open spec fn normalize(segments: Seq<Seq<char>>) -> Option<Seq<Seq<char>>>
    decreases segments.len(),
{
    if segments.len() == 0 {
        Some(seq![])
    } else {
        match normalize(segments.drop_last()) {
            None => None,
            Some(acc) => {
                let s = segments.last();
                if s.len() == 0 || s == seq!['.'] {
                    Some(acc)
                } else if s == seq!['.', '.'] {
                    if acc.len() == 0 {
                        None
                    } else {
                        Some(acc.drop_last())
                    }
                } else {
                    Some(acc.push(s))
                }
            },
        }
    }
}

/// The concept a link resolves to from the concept `from`, if any.
pub open spec fn resolve_link(target: Seq<char>, kind: LinkKind, from: Seq<char>) -> Option<Seq<char>> {
    let path = link_path(target);
    if !is_markdown_path(path) || kind == LinkKind::External {
        None
    } else {
        match normalize(link_segments(path, kind, from)) {
            None => None,
            Some(resolved) => concept_id_of(join_with(resolved, '/')),
        }
    }
}

fn is_kept(segment: &Vec<char>) -> (b: bool)
    ensures
        b == is_kept_segment(segment@),
{
    if segment.len() == 0 {
        false
    } else if segment.len() == 1 && segment[0] == '.' {
        assert(segment@ =~= seq!['.']);
        false
    } else {
        assert(segment@ != seq!['.']);
        true
    }
}

fn is_dot_dot(segment: &Vec<char>) -> (b: bool)
    ensures
        b == (segment@ == seq!['.', '.']),
{
    if segment.len() == 2 && segment[0] == '.' && segment[1] == '.' {
        assert(segment@ =~= seq!['.', '.']);
        true
    } else {
        false
    }
}

/// Whether `path` names a `.md` file.
pub fn markdown_path(path: &[char]) -> (b: bool)
    ensures
        b == is_markdown_path(path@),
{
    let parts = split_chars(path, '/');
    let mut i: usize = parts.len();
    assert(views(parts@).take(parts@.len() as int) =~= views(parts@));
    while i > 0 && !is_kept(&parts[i - 1])
        invariant
            i <= parts@.len(),
            views(parts@) == split_on(path@, '/'),
            last_kept(views(parts@)) == last_kept(views(parts@).take(i as int)),
        decreases i,
    {
        assert(views(parts@).take(i as int).drop_last() =~= views(parts@).take(i - 1));
        i = i - 1;
    }
    if i == 0 {
        return false;
    }
    let name = &parts[i - 1];
    assert(views(parts@).take(i as int).last() == name@);
    if is_dot_dot(name) {
        return false;
    }
    let len = name.len();
    assert(name@.subrange(0, len as int) =~= name@);
    match find_last_either(name.as_slice(), 0, len, '.', '.') {
        Some(j) => {
            if j == 0 || len - j != 3 {
                proof {
                    if j > 0 {
                        assert(name@.skip(j + 1).len() != 2);
                    }
                }
                false
            } else {
                let ok = name[j + 1] == 'm' && name[j + 2] == 'd';
                proof {
                    let ext = name@.skip(j + 1);
                    assert(ext[0] == name@[j + 1] && ext[1] == name@[j + 2]);
                    if ok {
                        assert(ext =~= seq!['m', 'd']);
                    }
                }
                ok
            }
        },
        None => false,
    }
}

/// Once a prefix climbs out of the root, the whole does.
proof fn lemma_normalize_prefix_none(s: Seq<Seq<char>>, k: int)
    requires
        0 <= k <= s.len(),
        normalize(s.take(k)) is None,
    ensures
        normalize(s) is None,
    decreases s.len() - k,
{
    if k < s.len() {
        assert(s.take(k + 1).drop_last() =~= s.take(k));
        lemma_normalize_prefix_none(s, k + 1);
    } else {
        assert(s.take(k) =~= s);
    }
}

/// Applies `.` and `..` segments.
fn normalize_segments(segments: &Vec<Vec<char>>) -> (r: Option<Vec<Vec<char>>>)
    ensures
        r matches Some(v) ==> normalize(views(segments@)) == Some(views(v@)),
        r is None ==> normalize(views(segments@)) is None,
{
    let mut stack: Vec<Vec<char>> = Vec::new();
    let mut i: usize = 0;
    while i < segments.len()
        invariant
            i <= segments@.len(),
            normalize(views(segments@).take(i as int)) == Some(views(stack@)),
        decreases segments@.len() - i,
    {
        let ghost before = views(stack@);
        assert(views(segments@).take(i + 1).drop_last() =~= views(segments@).take(i as int));
        assert(views(segments@).take(i + 1).last() == segments@[i as int]@);
        let segment = &segments[i];
        if segment.len() == 0 || !is_kept(segment) {
            proof {
                if segment@.len() != 0 {
                    assert(segment@ == seq!['.']);
                }
            }
        } else if is_dot_dot(segment) {
            if stack.len() == 0 {
                proof {
                    lemma_normalize_prefix_none(views(segments@), i + 1);
                }
                return None;
            }
            stack.pop();
            assert(views(stack@) =~= before.drop_last());
        } else {
            stack.push(copy_range(segment.as_slice(), 0, segment.len()));
            assert(segment@.subrange(0, segment@.len() as int) =~= segment@);
            assert(views(stack@) =~= before.push(segment@));
        }
        i = i + 1;
    }
    assert(views(segments@).take(i as int) =~= views(segments@));
    Some(stack)
}

impl Link {
    /// Resolves the link to a concept in the bundle.
    ///
    /// `from` is the linking document's own ID, used as the base for relative
    /// paths. Returns `None` for external links, non-`.md` targets, and paths
    /// that climb out of the bundle root.
    pub fn resolve(&self, from: &ConceptId) -> (r: Option<ConceptId>)
        ensures
            r matches Some(id) ==> resolve_link(self.target@, self.kind, from@) == Some(id@),
            r is None ==> resolve_link(self.target@, self.kind, from@) is None,
    {
        let cs = chars_of(self.target.as_str());
        let n = cs.len();
        assert(cs@.subrange(0, n as int) =~= cs@);
        let end = match find_first_either(cs.as_slice(), 0, n, '#', '?') {
            Some(i) => i,
            None => n,
        };
        let path = copy_range(cs.as_slice(), 0, end);
        assert(path@ == link_path(self.target@));
        if !markdown_path(path.as_slice()) {
            return None;
        }
        let segments: Vec<Vec<char>> = match self.kind {
            LinkKind::External => {
                return None;
            },
            LinkKind::BundleAbsolute => {
                let mut lo: usize = 0;
                assert(path@.skip(0) =~= path@);
                while lo < path.len() && path[lo] == '/'
                    invariant
                        lo <= path@.len(),
                        without_leading_slashes(path@) == without_leading_slashes(
                            path@.skip(lo as int),
                        ),
                    decreases path@.len() - lo,
                {
                    assert(path@.skip(lo as int).drop_first() =~= path@.skip(lo + 1));
                    lo = lo + 1;
                }
                let trimmed = copy_range(path.as_slice(), lo, path.len());
                assert(trimmed@ =~= path@.skip(lo as int));
                split_chars(trimmed.as_slice(), '/')
            },
            LinkKind::Relative => {
                let mut base: Vec<Vec<char>> = match from.parent() {
                    Some(p) => {
                        let pc = chars_of(p);
                        split_chars(pc.as_slice(), '/')
                    },
                    None => Vec::new(),
                };
                let mut tail = split_chars(path.as_slice(), '/');
                let ghost b = base@;
                let ghost t = tail@;
                base.append(&mut tail);
                assert(views(base@) =~= views(b) + views(t));
                base
            },
        };
        assert(views(segments@) == link_segments(path@, self.kind, from@));
        let resolved = match normalize_segments(&segments) {
            Some(v) => v,
            None => {
                return None;
            },
        };
        let joined = join_chars(&resolved, '/');
        let text = string_of(joined.as_slice());
        ConceptId::from_relative_path(text.as_str())
    }
}

/// One event of the markdown parser, reduced to what extraction reads.
/// Offsets are byte offsets into the parsed text.
#[derive(Debug)]
pub enum MdEvent {
    LinkStart { dest: String, start: usize, end: usize },
    FootnoteReference { label: String, start: usize, end: usize },
    FootnoteDefinition { label: String },
    HeadingStart { level: u8, start: usize, end: usize },
    HeadingEnd,
    Text(String),
    Code(String),
    Other,
}

/// A markdown event as the parser emits it.
#[verifier::external_type_specification]
#[verifier::external_body]
pub struct ExEvent<'a>(Event<'a>);

/// The events `pulldown-cmark` emits for `text` with the given extensions.
pub uninterp spec fn markdown_events(
    text: Seq<char>,
    footnotes: bool,
    tables: bool,
    strikethrough: bool,
) -> Seq<MdEvent>;

/// Whether every offset range in `events` lies within `text`'s UTF-8
/// encoding, in order, and on character boundaries.
pub open spec fn events_in_bounds(events: Seq<MdEvent>, text: Seq<char>) -> bool {
    forall|i: int|
        0 <= i < events.len() ==> match #[trigger] events[i] {
            MdEvent::LinkStart { start, end, .. } => range_in(text, start, end),
            MdEvent::FootnoteReference { start, end, .. } => range_in(text, start, end),
            MdEvent::HeadingStart { start, end, .. } => range_in(text, start, end),
            _ => true,
        }
}

/// Whether `start..end` is an in-order range of `text`'s UTF-8 encoding
/// whose ends fall on character boundaries.
pub open spec fn range_in(text: Seq<char>, start: usize, end: usize) -> bool {
    &&& start <= end <= encode_utf8(text).len()
    &&& is_char_boundary(encode_utf8(text), start as int)
    &&& is_char_boundary(encode_utf8(text), end as int)
}

/// Parses `text` with `pulldown-cmark` (`Parser::new_ext` with the
/// footnote, table and strikethrough extensions as asked, and
/// `into_offset_iter`), copying each event and its source range. The
/// contract names the event stream, and states that each source range the
/// parser reports lies within the text, in order, on character boundaries.
#[verifier::external_body]
fn parse_markdown(text: &str, footnotes: bool, tables: bool, strikethrough: bool) -> (r: Vec<MdEvent>)
    ensures
        r@ == markdown_events(text@, footnotes, tables, strikethrough),
        events_in_bounds(r@, text@),
{
    let mut options = Options::empty();
    options.set(Options::ENABLE_FOOTNOTES, footnotes);
    options.set(Options::ENABLE_TABLES, tables);
    options.set(Options::ENABLE_STRIKETHROUGH, strikethrough);
    Parser::new_ext(text, options)
        .into_offset_iter()
        .map(|(event, range)| md_event(event, range.start, range.end))
        .collect()
}

/// Copies one parser event. Part of the copying that `parse_markdown` does.
#[verifier::external_body]
fn md_event(event: Event<'_>, start: usize, end: usize) -> MdEvent {
    match event {
        Event::Start(Tag::Link { dest_url, .. }) => MdEvent::LinkStart { dest: dest_url.into_string(), start, end },
        Event::FootnoteReference(label) => MdEvent::FootnoteReference { label: label.into_string(), start, end },
        Event::Start(Tag::FootnoteDefinition(label)) => MdEvent::FootnoteDefinition { label: label.into_string() },
        Event::Start(Tag::Heading { level, .. }) => MdEvent::HeadingStart { level: level as u8, start, end },
        Event::End(TagEnd::Heading(_)) => MdEvent::HeadingEnd,
        Event::Text(text) => MdEvent::Text(text.into_string()),
        Event::Code(text) => MdEvent::Code(text.into_string()),
        _ => MdEvent::Other,
    }
}

/// What extraction has gathered after some events: links, footnote
/// references, footnote definitions, finished headings, the heading being
/// read, and its text so far.
pub struct ExtractModel {
    pub links: Seq<(Seq<char>, LinkKind, Span)>,
    pub footnotes: Seq<(Seq<char>, Span)>,
    pub definitions: Seq<Seq<char>>,
    pub headings: Seq<(u8, Seq<char>, Span)>,
    pub open: Option<(u8, Span)>,
    pub text: Seq<char>,
}

/// The file span of bytes `start..end` of a body.
pub open spec fn span_in(text: Seq<char>, line: usize, start: usize, end: usize) -> Span {
    Span { start: position_in(text, line, start), end: position_in(text, line, end) }
}

/// What one event adds to the extraction so far.
pub open spec fn step(text: Seq<char>, line: usize, m: ExtractModel, e: MdEvent) -> ExtractModel {
    match e {
        MdEvent::LinkStart { dest, start, end } => ExtractModel {
            links: m.links.push((dest@, kind_of(dest@), span_in(text, line, start, end))),
            ..m
        },
        MdEvent::FootnoteReference { label, start, end } => ExtractModel {
            footnotes: m.footnotes.push((label@, span_in(text, line, start, end))),
            ..m
        },
        MdEvent::FootnoteDefinition { label } => ExtractModel {
            definitions: m.definitions.push(label@),
            ..m
        },
        MdEvent::HeadingStart { level, start, end } => ExtractModel {
            open: Some((level, span_in(text, line, start, end))),
            text: seq![],
            ..m
        },
        MdEvent::HeadingEnd => match m.open {
            Some((level, span)) => ExtractModel {
                headings: m.headings.push((level, trim_white(m.text), span)),
                open: None,
                text: seq![],
                ..m
            },
            None => ExtractModel { text: seq![], ..m },
        },
        MdEvent::Text(t) => if m.open is Some {
            ExtractModel { text: m.text + t@, ..m }
        } else {
            m
        },
        MdEvent::Code(t) => if m.open is Some {
            ExtractModel { text: m.text + t@, ..m }
        } else {
            m
        },
        MdEvent::Other => m,
    }
}

/// The extraction after all of `events`.
pub open spec fn extracted(text: Seq<char>, line: usize, events: Seq<MdEvent>) -> ExtractModel
    decreases events.len(),
{
    if events.len() == 0 {
        ExtractModel {
            links: seq![],
            footnotes: seq![],
            definitions: seq![],
            headings: seq![],
            open: None,
            text: seq![],
        }
    } else {
        step(text, line, extracted(text, line, events.drop_last()), events.last())
    }
}

/// Whether `found` holds exactly the links, footnotes, definitions and
/// headings of `m`.
pub open spec fn holds(found: BodyLinks, m: ExtractModel) -> bool {
    &&& found.links@.map_values(|l: Link| l@) == m.links
    &&& found.footnotes@.map_values(|f: FootnoteReference| f@) == m.footnotes
    &&& found.footnote_definitions@.map_values(|d: String| d@) == m.definitions
    &&& found.headings@.map_values(|h: Heading| h@) == m.headings
}

fn copy_text(s: &String) -> (r: String)
    ensures
        r@ == s@,
{
    s.as_str().to_owned()
}

/// Extracts links, footnotes and headings from a body's parser events.
pub fn extract_from_events(body: &Body, events: &Vec<MdEvent>) -> (found: BodyLinks)
    requires
        events_in_bounds(events@, body.text@),
    ensures
        holds(found, extracted(body.text@, body.start_line, events@)),
{
    let mut found = BodyLinks {
        links: Vec::new(),
        footnotes: Vec::new(),
        footnote_definitions: Vec::new(),
        headings: Vec::new(),
    };
    let mut open_heading: Option<(u8, Span)> = None;
    let mut heading_text: Vec<char> = Vec::new();
    let ghost text = body.text@;
    let ghost line = body.start_line;
    let mut i: usize = 0;
    assert(events@.take(0) =~= Seq::<MdEvent>::empty());
    assert(found.links@.map_values(|l: Link| l@) =~= Seq::<(Seq<char>, LinkKind, Span)>::empty());
    assert(found.footnotes@.map_values(|f: FootnoteReference| f@) =~= Seq::<(Seq<char>, Span)>::empty());
    assert(found.footnote_definitions@.map_values(|d: String| d@) =~= Seq::<Seq<char>>::empty());
    assert(found.headings@.map_values(|h: Heading| h@) =~= Seq::<(u8, Seq<char>, Span)>::empty());
    while i < events.len()
        invariant
            text == body.text@,
            line == body.start_line,
            events_in_bounds(events@, text),
            i <= events@.len(),
            holds(found, extracted(text, line, events@.take(i as int))),
            open_heading == extracted(text, line, events@.take(i as int)).open,
            heading_text@ == extracted(text, line, events@.take(i as int)).text,
        decreases events@.len() - i,
    {
        let ghost before = extracted(text, line, events@.take(i as int));
        assert(events@.take(i + 1).drop_last() =~= events@.take(i as int));
        assert(events@.take(i + 1).last() == events@[i as int]);
        let ghost after = step(text, line, before, events@[i as int]);
        assert(extracted(text, line, events@.take(i + 1)) == after);
        let ghost e = events@[i as int];
        match &events[i] {
            MdEvent::LinkStart { dest, start, end } => {
                assert(range_in(text, *start, *end));
                let span = Span::new(body.position_at(*start), body.position_at(*end));
                let link = Link { target: copy_text(dest), kind: classify(dest.as_str()), span };
                found.links.push(link);
                assert(found.links@.map_values(|l: Link| l@) =~= before.links.push(
                    (dest@, kind_of(dest@), span_in(text, line, *start, *end)),
                ));
            },
            MdEvent::FootnoteReference { label, start, end } => {
                assert(range_in(text, *start, *end));
                let span = Span::new(body.position_at(*start), body.position_at(*end));
                found.footnotes.push(FootnoteReference { label: copy_text(label), span });
                assert(found.footnotes@.map_values(|f: FootnoteReference| f@) =~= before.footnotes.push(
                    (label@, span_in(text, line, *start, *end)),
                ));
            },
            MdEvent::FootnoteDefinition { label } => {
                found.footnote_definitions.push(copy_text(label));
                assert(found.footnote_definitions@.map_values(|d: String| d@) =~= before.definitions.push(
                    label@,
                ));
            },
            MdEvent::HeadingStart { level, start, end } => {
                assert(range_in(text, *start, *end));
                let span = Span::new(body.position_at(*start), body.position_at(*end));
                heading_text = Vec::new();
                open_heading = Some((*level, span));
                assert(heading_text@ =~= Seq::<char>::empty());
            },
            MdEvent::HeadingEnd => {
                match open_heading {
                    Some((level, span)) => {
                        let trimmed = trim_chars(heading_text.as_slice());
                        found.headings.push(
                            Heading { level, text: string_of(trimmed.as_slice()), span },
                        );
                        assert(found.headings@.map_values(|h: Heading| h@) =~= before.headings.push(
                            (level, trim_white(before.text), span),
                        ));
                    },
                    None => {},
                }
                open_heading = None;
                heading_text = Vec::new();
                assert(heading_text@ =~= Seq::<char>::empty());
            },
            MdEvent::Text(t) | MdEvent::Code(t) => {
                if open_heading.is_some() {
                    let piece = chars_of(t.as_str());
                    let ghost head = heading_text@;
                    let mut k: usize = 0;
                    while k < piece.len()
                        invariant
                            k <= piece@.len(),
                            heading_text@ == head + piece@.take(k as int),
                        decreases piece@.len() - k,
                    {
                        heading_text.push(piece[k]);
                        k = k + 1;
                        assert(heading_text@ =~= head + piece@.take(k as int));
                    }
                    assert(piece@.take(piece@.len() as int) =~= piece@);
                }
            },
            MdEvent::Other => {},
        }
        i = i + 1;
    }
    assert(events@.take(i as int) =~= events@);
    found
}

/// Whether `found` is what a body's markdown yields: its events parsed with
/// footnotes, tables and strikethrough enabled.
pub open spec fn links_of(body: Body, found: BodyLinks) -> bool {
    holds(found, extracted(body.text@, body.start_line, markdown_events(body.text@, true, true, true)))
}

/// Extracts links, footnotes, and headings from a body in one pass.
pub fn extract(body: &Body) -> (found: BodyLinks)
    ensures
        links_of(*body, found),
{
    let events = parse_markdown(body.text.as_str(), true, true, true);
    extract_from_events(body, &events)
}

} // verus!
