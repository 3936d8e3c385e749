//! Splitting a markdown file into YAML frontmatter and a markdown body.

use vstd::prelude::*;
use vstd::string::*;
use vstd::utf8::*;

use crate::span::{Position, Span};
use crate::text::{
    chars_of, copy_range, find_first_either, first_index_where, is_char, is_either,
    lemma_first_index_where, push_str, starts_with, string_of,
};
use crate::value::{parsed_from, yaml_load, Mapping, Node, ParseError, Value};

verus! {

/// A parsed markdown file: YAML frontmatter plus a markdown body.
#[derive(Debug)]
pub struct Document {
    pub frontmatter: FrontmatterState,
    pub body: Body,
}

/// Why a document has no usable frontmatter.
///
/// Kept distinct from "absent" because concept documents need a parseable
/// block, while reserved files legitimately have none.
#[derive(Debug, PartialEq, Eq)]
pub enum FrontmatterError {
    /// An opening `---` with no closing `---`.
    Unterminated { span: Span },
    /// The block is present but is not valid YAML.
    Invalid { message: String, span: Span },
    /// The block parsed, but its top level is not a key/value mapping.
    NotAMapping { span: Span },
}

/// The span each frontmatter error blames.
pub open spec fn error_span(e: FrontmatterError) -> Span {
    match e {
        FrontmatterError::Unterminated { span } => span,
        FrontmatterError::Invalid { span, .. } => span,
        FrontmatterError::NotAMapping { span } => span,
    }
}

/// The message each frontmatter error reads as.
pub open spec fn error_message(e: FrontmatterError) -> Seq<char> {
    match e {
        FrontmatterError::Unterminated { .. } => "frontmatter block is opened with `---` but never closed"@,
        FrontmatterError::Invalid { message, .. } => "frontmatter is not valid YAML: "@ + message@,
        FrontmatterError::NotAMapping { .. } => "frontmatter must be a mapping of keys to values"@,
    }
}

impl FrontmatterError {
    pub fn span(&self) -> (s: Span)
        ensures
            s == error_span(*self),
    {
        match self {
            FrontmatterError::Unterminated { span } => *span,
            FrontmatterError::Invalid { span, .. } => *span,
            FrontmatterError::NotAMapping { span } => *span,
        }
    }

    pub fn message(&self) -> (m: String)
        ensures
            m@ == error_message(*self),
    {
        match self {
            FrontmatterError::Unterminated { .. } => {
                "frontmatter block is opened with `---` but never closed".to_owned()
            },
            FrontmatterError::Invalid { message, .. } => {
                let mut m = "frontmatter is not valid YAML: ".to_owned();
                push_str(&mut m, message.as_str());
                m
            },
            FrontmatterError::NotAMapping { .. } => {
                "frontmatter must be a mapping of keys to values".to_owned()
            },
        }
    }
}

/// The three frontmatter outcomes a validator must tell apart.
#[derive(Debug)]
pub enum FrontmatterState {
    /// No opening `---`; the file is body-only.
    Absent,
    Parsed(Frontmatter),
    Malformed(FrontmatterError),
}

impl FrontmatterState {
    pub fn parsed(&self) -> (r: Option<&Frontmatter>)
        ensures
            r matches Some(f) ==> *self == FrontmatterState::Parsed(*f),
            r is None <==> !(*self is Parsed),
    {
        match self {
            FrontmatterState::Parsed(frontmatter) => Some(frontmatter),
            _ => None,
        }
    }

    pub fn error(&self) -> (r: Option<&FrontmatterError>)
        ensures
            r matches Some(e) ==> *self == FrontmatterState::Malformed(*e),
            r is None <==> !(*self is Malformed),
    {
        match self {
            FrontmatterState::Malformed(error) => Some(error),
            _ => None,
        }
    }

    pub fn is_absent(&self) -> (b: bool)
        ensures
            b == *self is Absent,
    {
        match self {
            FrontmatterState::Absent => true,
            _ => false,
        }
    }
}

/// A parsed frontmatter mapping and the source range it occupied.
#[derive(Debug)]
pub struct Frontmatter {
    pub entries: Mapping,
    pub span: Span,
}

/// A document body, retaining the line it starts on so spans map to the file.
#[derive(Debug, Clone, PartialEq, Eq)]
pub struct Body {
    pub text: String,
    pub start_line: usize,
}

/// The number of newline bytes in `b`.
pub open spec fn count_newlines(b: Seq<u8>) -> nat
    decreases b.len(),
{
    if b.len() == 0 {
        0
    } else {
        count_newlines(b.drop_last()) + if b.last() == 10u8 {
            1nat
        } else {
            0nat
        }
    }
}

/// The index of the last newline byte in `b`.
pub open spec fn last_newline(b: Seq<u8>) -> Option<int>
    decreases b.len(),
{
    if b.len() == 0 {
        None
    } else if b.last() == 10u8 {
        Some(b.len() - 1)
    } else {
        last_newline(b.drop_last())
    }
}

/// `offset`, clamped to the length of `text`'s UTF-8 encoding.
pub open spec fn clamped(text: Seq<char>, offset: usize) -> int {
    if offset < encode_utf8(text).len() {
        offset as int
    } else {
        encode_utf8(text).len() as int
    }
}

/// `a + b`, or `usize::MAX` when that does not fit.
pub open spec fn sat_add(a: int, b: int) -> usize {
    if a + b <= usize::MAX {
        (a + b) as usize
    } else {
        usize::MAX
    }
}

/// The file position of byte `offset` of a body that starts on `start_line`
/// (line and column stop at `usize::MAX` rather than overflow).
pub open spec fn position_in(text: Seq<char>, start_line: usize, offset: usize) -> Position {
    let c = clamped(text, offset);
    let before = encode_utf8(text).take(c);
    Position {
        line: sat_add(start_line as int, count_newlines(before) as int),
        column: sat_add(
            match last_newline(before) {
                Some(i) => c - i - 1,
                None => c,
            },
            1,
        ),
    }
}

/// Whether byte `offset`, once clamped, falls on a character boundary of `text`.
pub open spec fn on_boundary(text: Seq<char>, offset: usize) -> bool {
    is_char_boundary(encode_utf8(text), clamped(text, offset))
}

impl Body {
    /// Converts a byte offset within [`Body::text`] into a file position.
    pub fn position_at(&self, offset: usize) -> (p: Position)
        requires
            on_boundary(self.text@, offset),
        ensures
            p == position_in(self.text@, self.start_line, offset),
    {
        let bytes = self.text.as_str().as_bytes();
        let limit: usize = if offset < bytes.len() {
            offset
        } else {
            bytes.len()
        };
        let mut i: usize = 0;
        let mut newlines: usize = 0;
        let mut last: Option<usize> = None;
        while i < limit
            invariant
                bytes@ == encode_utf8(self.text@),
                limit == clamped(self.text@, offset),
                i <= limit <= bytes@.len(),
                newlines == count_newlines(bytes@.take(i as int)),
                newlines <= i,
                last matches Some(k) ==> last_newline(bytes@.take(i as int)) == Some(k as int)
                    && k < i,
                last is None ==> last_newline(bytes@.take(i as int)) is None,
            decreases limit - i,
        {
            assert(bytes@.take(i + 1).drop_last() =~= bytes@.take(i as int));
            if bytes[i] == 10u8 {
                newlines = newlines + 1;
                last = Some(i);
            }
            i = i + 1;
        }
        let column = match last {
            Some(k) => limit - k - 1,
            None => limit,
        };
        Position::new(self.start_line.saturating_add(newlines), column.saturating_add(1))
    }

    /// Converts a byte range within [`Body::text`] into a file span.
    pub fn span_at(&self, range: std::ops::Range<usize>) -> (s: Span)
        requires
            on_boundary(self.text@, range.start),
            on_boundary(self.text@, range.end),
        ensures
            s.start == position_in(self.text@, self.start_line, range.start),
            s.end == position_in(self.text@, self.start_line, range.end),
    {
        Span::new(self.position_at(range.start), self.position_at(range.end))
    }
}

/// The characters `---`.
pub open spec fn dashes() -> Seq<char> {
    seq!['-', '-', '-']
}

/// `s` without a leading byte-order mark.
pub open spec fn without_bom(s: Seq<char>) -> Seq<char> {
    if s.len() > 0 && s[0] == '\u{feff}' {
        s.drop_first()
    } else {
        s
    }
}

/// What follows the opening `---` line, if `s` opens with one. A file of
/// exactly `---` opens a block that never closes.
pub open spec fn after_opening(s: Seq<char>) -> Option<Seq<char>> {
    if starts_with(s, dashes()) {
        let rest = s.skip(3);
        if starts_with(rest, seq!['\r', '\n']) {
            Some(rest.skip(2))
        } else if starts_with(rest, seq!['\n']) {
            Some(rest.skip(1))
        } else if rest.len() == 0 {
            Some(rest)
        } else {
            None
        }
    } else {
        None
    }
}

/// The end of the line starting at `start`: just past its `\n`, or the end of `s`.
pub open spec fn line_end(s: Seq<char>, start: int) -> int {
    match first_index_where(s.skip(start), is_char('\n')) {
        Some(i) => start + i + 1,
        None => s.len() as int,
    }
}

/// `t` without its trailing `\r` and `\n` characters.
pub open spec fn trim_breaks(t: Seq<char>) -> Seq<char>
    decreases t.len(),
{
    if t.len() > 0 && (t.last() == '\r' || t.last() == '\n') {
        trim_breaks(t.drop_last())
    } else {
        t
    }
}

proof fn lemma_line_end(s: Seq<char>, start: int)
    requires
        0 <= start < s.len(),
    ensures
        start < line_end(s, start) <= s.len(),
{
    lemma_first_index_where(s.skip(start), is_char('\n'));
}

/// The closing `---` line at or after `start`, which is line `line` of the
/// file: where it starts, where the body after it starts, and the body's
/// first line number.
pub open spec fn closing_from(s: Seq<char>, start: int, line: int) -> Option<(int, int, int)>
    decreases s.len() - start,
{
    if 0 <= start < s.len() {
        let end = line_end(s, start);
        if trim_breaks(s.subrange(start, end)) == dashes() {
            Some((start, end, line + 1))
        } else if start < end <= s.len() {
            closing_from(s, end, line + 1)
        } else {
            None
        }
    } else {
        None
    }
}

/// How a file splits into frontmatter and body.
pub enum SplitModel {
    /// No opening delimiter: all of it is body.
    Absent(Seq<char>),
    /// An opening delimiter that is never closed.
    Unterminated,
    /// The YAML between the delimiters, the body, and the body's first line.
    Block(Seq<char>, Seq<char>, int),
}

/// How `source` splits into frontmatter and body.
pub open spec fn split_of(source: Seq<char>) -> SplitModel {
    let s = without_bom(source);
    match after_opening(s) {
        None => SplitModel::Absent(s),
        Some(after) => match closing_from(after, 0, 2) {
            None => SplitModel::Unterminated,
            Some((yaml_end, body_start, line)) => SplitModel::Block(
                after.take(yaml_end),
                after.skip(body_start),
                line,
            ),
        },
    }
}

/// The number of `\n` characters in `y`.
pub open spec fn newline_total(y: Seq<char>) -> nat
    decreases y.len(),
{
    if y.len() == 0 {
        0
    } else {
        newline_total(y.drop_last()) + if y.last() == '\n' {
            1nat
        } else {
            0nat
        }
    }
}

/// How many lines `str::lines` finds in `y`.
pub open spec fn line_count(y: Seq<char>) -> nat {
    newline_total(y) + if y.len() > 0 && y.last() != '\n' {
        1nat
    } else {
        0nat
    }
}

/// The span of a frontmatter block whose YAML is `yaml`: from the opening
/// `---` to the end of the closing one.
pub open spec fn block_span(yaml: Seq<char>) -> Span {
    Span {
        start: Position { line: 1, column: 1 },
        end: Position { line: (line_count(yaml) + 2) as usize, column: 4 },
    }
}

/// `n + 1`, or `n` at the limit of `usize`.
pub open spec fn bump(n: usize) -> usize {
    if n < usize::MAX {
        (n + 1) as usize
    } else {
        n
    }
}

/// A span moved one line down, past the opening `---`.
pub open spec fn shift_down(s: Span) -> Span {
    Span {
        start: Position { line: bump(s.start.line), column: s.start.column },
        end: Position { line: bump(s.end.line), column: s.end.column },
    }
}

/// `b` is `a` with every span, its own and those of the nodes inside it,
/// moved one line down.
pub open spec fn shifted_node(a: Node, b: Node) -> bool
    decreases a,
{
    b.span == shift_down(a.span) && match a.value {
        Value::Sequence(xs) => b.value matches Value::Sequence(ys) && ys@.len() == xs@.len()
            && forall|i: int| 0 <= i < xs@.len() ==> shifted_node(#[trigger] xs@[i], ys@[i]),
        Value::Mapping(m) => b.value matches Value::Mapping(n) && n.entries@.len()
            == m.entries@.len() && forall|i: int|
            0 <= i < m.entries@.len() ==> shifted_node(#[trigger] m.entries@[i].0, n.entries@[i].0)
                && shifted_node(m.entries@[i].1, n.entries@[i].1),
        Value::String(s) => b.value matches Value::String(t) && t@ == s@,
        Value::Float(s) => b.value matches Value::Float(t) && t@ == s@,
        Value::Null => b.value is Null,
        Value::Bool(x) => b.value == Value::Bool(x),
        Value::Int(x) => b.value == Value::Int(x),
    }
}

/// Every entry of `b` is the matching entry of `a`, shifted one line down.
pub open spec fn shifted_entries(a: Seq<(Node, Node)>, b: Seq<(Node, Node)>) -> bool {
    b.len() == a.len() && forall|i: int|
        0 <= i < a.len() ==> shifted_node(#[trigger] a[i].0, b[i].0) && shifted_node(a[i].1, b[i].1)
}

/// The frontmatter state a parse outcome gives for a block spanning `span`.
pub open spec fn state_from(r: Result<Node, ParseError>, span: Span, state: FrontmatterState) -> bool {
    match r {
        Err(p) => state matches FrontmatterState::Malformed(FrontmatterError::Invalid { message, span: at })
            && message@ == p.message@ && at == (Span {
            start: Position { line: bump(p.position.line), column: p.position.column },
            end: Position { line: bump(p.position.line), column: p.position.column },
        }),
        Ok(n) => match n.value {
            Value::Null => state matches FrontmatterState::Parsed(f) && f.entries@.len() == 0
                && f.span == span,
            Value::Mapping(m) => state matches FrontmatterState::Parsed(f) && f.span == span
                && shifted_entries(m@, f.entries@),
            _ => state == FrontmatterState::Malformed(
                FrontmatterError::NotAMapping { span: shift_down(n.span) },
            ),
        },
    }
}

fn bump_line(n: usize) -> (r: usize)
    ensures
        r == bump(n),
{
    n.saturating_add(1)
}

fn shift_span(s: Span) -> (r: Span)
    ensures
        r == shift_down(s),
{
    Span::new(
        Position::new(bump_line(s.start.line), s.start.column),
        Position::new(bump_line(s.end.line), s.end.column),
    )
}

fn copy_text(s: &String) -> (r: String)
    ensures
        r@ == s@,
{
    s.as_str().to_owned()
}

/// Re-anchors a node's spans, and those inside it, one line further down.
fn shift_node(node: &Node) -> (b: Node)
    ensures
        shifted_node(*node, b),
    decreases node,
{
    let value = match &node.value {
        Value::Sequence(items) => {
            let mut out: Vec<Node> = Vec::new();
            let mut i: usize = 0;
            while i < items.len()
                invariant
                    node.value == Value::Sequence(*items),
                    i <= items@.len(),
                    out@.len() == i,
                    forall|j: int| 0 <= j < i ==> shifted_node(#[trigger] items@[j], out@[j]),
                decreases items@.len() - i,
            {
                proof {
                    assert(decreases_to!(*node => node.value));
                    assert(decreases_to!(node.value => node.value->Sequence_0));
                    assert(decreases_to!(*items => items[i as int]));
                }
                out.push(shift_node(&items[i]));
                i = i + 1;
            }
            Value::Sequence(out)
        },
        Value::Mapping(map) => Value::Mapping(shift_mapping(map)),
        Value::String(s) => Value::String(copy_text(s)),
        Value::Float(s) => Value::Float(copy_text(s)),
        Value::Null => Value::Null,
        Value::Bool(b) => Value::Bool(*b),
        Value::Int(i) => Value::Int(*i),
    };
    Node { value, span: shift_span(node.span) }
}

/// Re-anchors every entry of a mapping one line further down.
fn shift_mapping(map: &Mapping) -> (r: Mapping)
    ensures
        shifted_entries(map@, r@),
    decreases map,
{
    let mut out: Vec<(Node, Node)> = Vec::new();
    let mut i: usize = 0;
    while i < map.entries.len()
        invariant
            i <= map.entries@.len(),
            out@.len() == i,
            forall|j: int|
                0 <= j < i ==> shifted_node(#[trigger] map.entries@[j].0, out@[j].0)
                    && shifted_node(map.entries@[j].1, out@[j].1),
        decreases map.entries@.len() - i,
    {
        proof {
            assert(decreases_to!(*map => map.entries));
            assert(decreases_to!(map.entries => map.entries[i as int]));
            assert(decreases_to!(map.entries[i as int] => map.entries[i as int].0));
            assert(decreases_to!(map.entries[i as int] => map.entries[i as int].1));
        }
        let k = shift_node(&map.entries[i].0);
        let v = shift_node(&map.entries[i].1);
        out.push((k, v));
        i = i + 1;
    }
    Mapping::from_entries(out)
}

/// The frontmatter state that parsing a block's YAML gives: an invalid block
/// reports the parser's message one line down (past the opening `---`), an
/// empty block is an empty mapping, a mapping is re-anchored onto the file,
/// and anything else is not a mapping.
pub fn frontmatter_state(parsed: Result<Node, ParseError>, span: Span) -> (state: FrontmatterState)
    ensures
        state_from(parsed, span, state),
{
    match parsed {
        Err(p) => {
            let at = Position::new(bump_line(p.position.line), p.position.column);
            FrontmatterState::Malformed(
                FrontmatterError::Invalid { message: p.message, span: Span::at(at) },
            )
        },
        Ok(node) => match &node.value {
            Value::Null => FrontmatterState::Parsed(
                Frontmatter { entries: Mapping::default(), span },
            ),
            Value::Mapping(map) => FrontmatterState::Parsed(
                Frontmatter { entries: shift_mapping(map), span },
            ),
            _ => FrontmatterState::Malformed(
                FrontmatterError::NotAMapping { span: shift_span(node.span) },
            ),
        },
    }
}

/// Finds the closing `---` line of a block whose content is `after`.
fn split_at_closing_delimiter(after: &[char]) -> (r: Option<(usize, usize, usize)>)
    requires
        after@.len() + 3 <= usize::MAX,
    ensures
        r matches Some((y, b, l)) ==> closing_from(after@, 0, 2) == Some((y as int, b as int, l as int))
            && y + 3 <= b <= after@.len(),
        r is None ==> closing_from(after@, 0, 2) is None,
{
    let mut start: usize = 0;
    let mut line: usize = 2;
    while start < after.len()
        invariant
            start <= after@.len(),
            after@.len() + 3 <= usize::MAX,
            line <= start + 2,
            closing_from(after@, 0, 2) == closing_from(after@, start as int, line as int),
        decreases after@.len() - start,
    {
        proof {
            lemma_line_end(after@, start as int);
            lemma_first_index_where(after@.skip(start as int), is_char('\n'));
        }
        let end = match find_first_either(after, start, after.len(), '\n', '\n') {
            Some(i) => i + 1,
            None => after.len(),
        };
        proof {
            assert(after@.subrange(start as int, after@.len() as int) =~= after@.skip(start as int));
            assert(is_either('\n', '\n') =~= is_char('\n'));
            assert(end == line_end(after@, start as int));
        }
        let mut t: usize = end;
        while t > start && (after[t - 1] == '\r' || after[t - 1] == '\n')
            invariant
                start < t <= end <= after@.len() || (start == t && t <= end),
                trim_breaks(after@.subrange(start as int, end as int)) == trim_breaks(
                    after@.subrange(start as int, t as int),
                ),
            decreases t,
        {
            assert(after@.subrange(start as int, t as int).drop_last() =~= after@.subrange(
                start as int,
                t - 1,
            ));
            t = t - 1;
        }
        let ghost trimmed = after@.subrange(start as int, t as int);
        assert(trim_breaks(trimmed) == trimmed);
        if t - start == 3 && after[start] == '-' && after[start + 1] == '-' && after[start + 2]
            == '-' {
            assert(trimmed =~= dashes());
            return Some((start, end, line + 1));
        }
        assert(trimmed != dashes());
        start = end;
        line = line + 1;
    }
    None
}

proof fn lemma_newline_total_bound(y: Seq<char>)
    ensures
        newline_total(y) <= y.len(),
    decreases y.len(),
{
    if y.len() > 0 {
        lemma_newline_total_bound(y.drop_last());
    }
}

/// Counts the lines `str::lines` would find in `y`.
fn count_lines(y: &[char]) -> (n: usize)
    ensures
        n == line_count(y@),
        n <= y@.len(),
{
    let mut i: usize = 0;
    let mut n: usize = 0;
    while i < y.len()
        invariant
            i <= y@.len(),
            n == newline_total(y@.take(i as int)),
            n <= i,
        decreases y@.len() - i,
    {
        assert(y@.take(i + 1).drop_last() =~= y@.take(i as int));
        if y[i] == '\n' {
            n = n + 1;
        }
        i = i + 1;
    }
    assert(y@.take(i as int) =~= y@);
    proof {
        if y@.len() > 0 {
            lemma_newline_total_bound(y@.drop_last());
        }
    }
    if y.len() > 0 && y[y.len() - 1] != '\n' {
        n + 1
    } else {
        n
    }
}

/// Whether `doc` is what parsing the file text `source` gives.
pub open spec fn document_of(source: Seq<char>, doc: Document) -> bool {
    match split_of(source) {
        SplitModel::Absent(s) => doc.frontmatter is Absent && doc.body.text@ == s
            && doc.body.start_line == 1,
        SplitModel::Unterminated => doc.frontmatter == FrontmatterState::Malformed(
            FrontmatterError::Unterminated {
                span: Span {
                    start: Position { line: 1, column: 1 },
                    end: Position { line: 1, column: 1 },
                },
            },
        ) && doc.body.text@.len() == 0 && doc.body.start_line == 1,
        SplitModel::Block(yaml, body, line) => doc.body.text@ == body && doc.body.start_line
            == line && exists|r: Result<Node, ParseError>|
            #[trigger] parsed_from(yaml_load(yaml), r) && state_from(
                r,
                block_span(yaml),
                doc.frontmatter,
            ),
    }
}

impl Document {
    /// Splits `source` into frontmatter and body.
    ///
    /// Never fails: a malformed block is reported through
    /// [`FrontmatterState::Malformed`] so callers still get the body, and so a
    /// single file can produce several diagnostics rather than only the first.
    pub fn parse(source: &str) -> (doc: Self)
        ensures
            document_of(source@, doc),
    {
        let all = chars_of(source);
        let from: usize = if all.len() > 0 && all[0] == '\u{feff}' {
            1
        } else {
            0
        };
        let s = copy_range(all.as_slice(), from, all.len());
        assert(s@ =~= without_bom(source@));
        let opens = s.len() >= 3 && s[0] == '-' && s[1] == '-' && s[2] == '-';
        proof {
            if opens {
                assert(s@.subrange(0, 3) =~= dashes());
            } else if s@.len() >= 3 {
                let head = s@.subrange(0, 3);
                assert(head[0] == s@[0] && head[1] == s@[1] && head[2] == s@[2]);
                assert(dashes()[0] == '-' && dashes()[1] == '-' && dashes()[2] == '-');
            }
        }
        assert(opens == starts_with(s@, dashes()));
        let skip: Option<usize> = if !opens {
            None
        } else if s.len() >= 5 && s[3] == '\r' && s[4] == '\n' {
            Some(5)
        } else if s.len() >= 4 && s[3] == '\n' {
            Some(4)
        } else if s.len() == 3 {
            Some(3)
        } else {
            None
        };
        proof {
            if opens {
                let rest = s@.skip(3);
                if rest.len() >= 2 {
                    let two = rest.subrange(0, 2);
                    assert(two[0] == s@[3] && two[1] == s@[4]);
                    if s@[3] == '\r' && s@[4] == '\n' {
                        assert(two =~= seq!['\r', '\n']);
                    }
                }
                if rest.len() >= 1 {
                    let one = rest.subrange(0, 1);
                    assert(one[0] == s@[3]);
                    if s@[3] == '\n' {
                        assert(one =~= seq!['\n']);
                    }
                }
                assert(starts_with(rest, seq!['\r', '\n']) == (s@.len() >= 5 && s@[3] == '\r'
                    && s@[4] == '\n'));
                assert(starts_with(rest, seq!['\n']) == (s@.len() >= 4 && s@[3] == '\n'));
            }
        }
        let skip = match skip {
            None => {
                return Document {
                    frontmatter: FrontmatterState::Absent,
                    body: Body { text: string_of(s.as_slice()), start_line: 1 },
                };
            },
            Some(k) => k,
        };
        let after = copy_range(s.as_slice(), skip, s.len());
        proof {
            let rest = s@.skip(3);
            if skip == 5 {
                assert(rest.skip(2) =~= after@);
            } else if skip == 4 {
                assert(rest.skip(1) =~= after@);
            } else {
                assert(rest =~= after@);
            }
            assert(after_opening(s@) == Some(after@));
        }
        let (yaml_end, body_start, body_line) = match split_at_closing_delimiter(after.as_slice()) {
            None => {
                return Document {
                    frontmatter: FrontmatterState::Malformed(
                        FrontmatterError::Unterminated { span: Span::at(Position::new(1, 1)) },
                    ),
                    body: Body { text: String::new(), start_line: 1 },
                };
            },
            Some(found) => found,
        };
        let yaml_chars = copy_range(after.as_slice(), 0, yaml_end);
        let body_chars = copy_range(after.as_slice(), body_start, after.len());
        assert(yaml_chars@ =~= after@.take(yaml_end as int));
        assert(body_chars@ =~= after@.skip(body_start as int));
        let count = count_lines(yaml_chars.as_slice());
        let span = Span::new(Position::new(1, 1), Position::new(count + 2, 4));
        let yaml = string_of(yaml_chars.as_slice());
        let parsed = Node::parse(yaml.as_str());
        let ghost witness = parsed;
        let frontmatter = frontmatter_state(parsed, span);
        assert(parsed_from(yaml_load(yaml_chars@), witness) && state_from(
            witness,
            block_span(yaml_chars@),
            frontmatter,
        ));
        Document {
            frontmatter,
            body: Body { text: string_of(body_chars.as_slice()), start_line: body_line },
        }
    }
}

} // verus!
