//! An order-preserving, span-annotated YAML value model.
//!
//! Frontmatter may carry arbitrary keys, so it is modelled as a generic tree
//! rather than a fixed struct. Mappings keep their source order so that
//! diagnostics can point at the exact entry that caused them.
//!
//! YAML itself is read by `saphyr`. Its loader hands back a tree that is
//! copied, variant for variant, into [`RawNode`]; turning that raw tree into
//! a [`Node`] (tags dropped, unbuildable scalars read as null, columns made
//! 1-indexed) is verified here.

use vstd::prelude::*;
use vstd::string::*;

use saphyr::{MarkedYamlOwned, Marker, ScalarOwned, YamlDataOwned, YamlLoader};
use saphyr_parser::Parser;

use crate::span::{Position, Span};
use crate::text::{chars_eq, chars_of, decimal, decimal_chars, push_char};

verus! {

/// A position as the YAML loader reports it: 1-indexed line, 0-indexed column.
#[derive(Debug, Clone, Copy, PartialEq, Eq, Structural)]
pub struct RawMark {
    pub line: usize,
    pub col: usize,
}

/// What the YAML loader built for one node, variant for variant.
#[derive(Debug)]
pub enum RawData {
    Null,
    Bool(bool),
    Int(i64),
    /// A floating-point scalar, as its shortest decimal rendering.
    Float(String),
    Str(String),
    /// A scalar the loader kept unparsed.
    Representation(String),
    Sequence(Vec<RawNode>),
    Mapping(Vec<(RawNode, RawNode)>),
    /// A node carrying an explicit tag.
    Tagged(Box<RawNode>),
    /// An alias the loader did not resolve.
    Alias(usize),
    /// A scalar the loader could not build.
    BadValue,
}

/// A loaded node with the loader's markers for where it starts and ends.
#[derive(Debug)]
pub struct RawNode {
    pub data: RawData,
    pub start: RawMark,
    pub end: RawMark,
}

/// A loader failure: its message and where it happened.
#[derive(Debug, Clone)]
pub struct RawError {
    pub message: String,
    pub at: RawMark,
}

/// A node of the tree `saphyr`'s loader builds.
#[verifier::external_type_specification]
#[verifier::external_body]
pub struct ExMarkedYamlOwned(MarkedYamlOwned);

/// A scalar as `saphyr`'s loader resolved it.
#[verifier::external_type_specification]
#[verifier::external_body]
pub struct ExScalarOwned(ScalarOwned);

/// A position in the loader's input.
#[verifier::external_type_specification]
#[verifier::external_body]
pub struct ExMarker(Marker);

/// The documents `saphyr` loads from `source`, or the error it reports.
pub uninterp spec fn yaml_load(source: Seq<char>) -> Result<Seq<RawNode>, RawError>;

/// Reads `source` with `saphyr`'s loader, which resolves scalars, aliases
/// and anchors and keeps the last value of a repeated key, and copies each
/// loaded document into a [`RawNode`] tree. The contract only names the
/// outcome: what the loader builds for a given text is not restated here.
#[verifier::external_body]
fn load_yaml(source: &str) -> (r: Result<Vec<RawNode>, RawError>)
    ensures
        loaded_view(r) == yaml_load(source@),
{
    let mut loader = YamlLoader::<MarkedYamlOwned>::default();
    loader.allow_duplicate_keys(true);
    let scanned = Parser::new_from_str(source).load(&mut loader, true);
    match scanned.err().or_else(|| loader.error().cloned()) {
        Some(e) => Err(RawError { message: e.to_string(), at: raw_mark(e.marker()) }),
        None => Ok(loader.into_documents().iter().map(raw_node).collect()),
    }
}

/// Copies a loader marker. Part of the copying that `load_yaml` does.
#[verifier::external_body]
fn raw_mark(m: &Marker) -> RawMark {
    RawMark { line: m.line(), col: m.col() }
}

/// Copies one loaded node, variant for variant. Part of the copying that
/// `load_yaml` does.
#[verifier::external_body]
fn raw_node(node: &MarkedYamlOwned) -> RawNode {
    let data = match &node.data {
        YamlDataOwned::Value(scalar) => raw_scalar(scalar),
        YamlDataOwned::Representation(text, ..) => RawData::Representation(text.clone()),
        YamlDataOwned::Sequence(items) => RawData::Sequence(items.iter().map(raw_node).collect()),
        YamlDataOwned::Mapping(map) => RawData::Mapping(
            map.iter().map(|(k, v)| (raw_node(k), raw_node(v))).collect(),
        ),
        YamlDataOwned::Tagged(_, inner) => RawData::Tagged(Box::new(raw_node(inner))),
        YamlDataOwned::Alias(id) => RawData::Alias(*id),
        YamlDataOwned::BadValue => RawData::BadValue,
    };
    RawNode { data, start: raw_mark(&node.span.start), end: raw_mark(&node.span.end) }
}

/// Copies one loaded scalar. Part of the copying that `load_yaml` does.
#[verifier::external_body]
fn raw_scalar(scalar: &ScalarOwned) -> RawData {
    match scalar {
        ScalarOwned::Null => RawData::Null,
        ScalarOwned::Boolean(b) => RawData::Bool(*b),
        ScalarOwned::Integer(i) => RawData::Int(*i),
        ScalarOwned::FloatingPoint(f) => RawData::Float(f.to_string()),
        ScalarOwned::String(s) => RawData::Str(s.clone()),
    }
}

/// A YAML value.
#[derive(Debug, PartialEq)]
pub enum Value {
    Null,
    Bool(bool),
    Int(i64),
    /// A floating-point scalar, held as its decimal rendering.
    Float(String),
    String(String),
    Sequence(Vec<Node>),
    Mapping(Mapping),
}

/// A [`Value`] together with the source range it was parsed from.
#[derive(Debug, PartialEq)]
pub struct Node {
    pub value: Value,
    pub span: Span,
}

/// A mapping that preserves its source key order.
///
/// Repeated keys are collapsed by the YAML loader before they reach here
/// (last value wins, first position kept); lookups scan in order.
#[derive(Debug, PartialEq)]
pub struct Mapping {
    pub entries: Vec<(Node, Node)>,
}

impl View for Mapping {
    type V = Seq<(Node, Node)>;

    open spec fn view(&self) -> Seq<(Node, Node)> {
        self.entries@
    }
}

impl Default for Mapping {
    fn default() -> (m: Self)
        ensures
            m@ == Seq::<(Node, Node)>::empty(),
    {
        Mapping { entries: Vec::new() }
    }
}

/// Failure to parse a YAML document.
#[derive(Debug, Clone, PartialEq, Eq)]
pub struct ParseError {
    pub message: String,
    pub position: Position,
}

/// Whether `n` is the string `key`.
pub open spec fn is_key(n: Node, key: Seq<char>) -> bool {
    n.value matches Value::String(s) && s@ == key
}

/// The index of the first entry whose key is the string `key`.
pub open spec fn key_index(entries: Seq<(Node, Node)>, key: Seq<char>) -> Option<int>
    decreases entries.len(),
{
    if entries.len() == 0 {
        None
    } else {
        match key_index(entries.drop_last(), key) {
            Some(i) => Some(i),
            None => if is_key(entries.last().0, key) {
                Some(entries.len() - 1)
            } else {
                None
            },
        }
    }
}

/// The value of the first entry whose key is the string `key`.
pub open spec fn lookup(entries: Seq<(Node, Node)>, key: Seq<char>) -> Option<Node> {
    match key_index(entries, key) {
        Some(i) => Some(entries[i].1),
        None => None,
    }
}

/// The string keys of `entries`, in order, skipping the others.
pub open spec fn string_keys(entries: Seq<(Node, Node)>) -> Seq<Seq<char>>
    decreases entries.len(),
{
    if entries.len() == 0 {
        seq![]
    } else {
        let rest = string_keys(entries.drop_last());
        match entries.last().0.value {
            Value::String(s) => rest.push(s@),
            _ => rest,
        }
    }
}

pub proof fn lemma_key_index(entries: Seq<(Node, Node)>, key: Seq<char>)
    ensures
        key_index(entries, key) matches Some(i) ==> 0 <= i < entries.len() && is_key(
            entries[i].0,
            key,
        ) && (forall|j: int| 0 <= j < i ==> !is_key(#[trigger] entries[j].0, key)),
        key_index(entries, key) is None ==> forall|j: int|
            0 <= j < entries.len() ==> !is_key(#[trigger] entries[j].0, key),
    decreases entries.len(),
{
    if entries.len() > 0 {
        lemma_key_index(entries.drop_last(), key);
        assert forall|j: int| 0 <= j < entries.len() - 1 implies entries.drop_last()[j]
            == entries[j] by {}
    }
}

/// A first match found in a prefix is the first match of the whole.
pub proof fn lemma_key_index_prefix(entries: Seq<(Node, Node)>, k: int, key: Seq<char>)
    requires
        0 <= k <= entries.len(),
        key_index(entries.take(k), key) is Some,
    ensures
        key_index(entries, key) == key_index(entries.take(k), key),
    decreases entries.len() - k,
{
    if k < entries.len() {
        assert(entries.take(k + 1).drop_last() =~= entries.take(k));
        lemma_key_index_prefix(entries, k + 1, key);
    } else {
        assert(entries.take(k) =~= entries);
    }
}

impl Mapping {
    pub fn from_entries(entries: Vec<(Node, Node)>) -> (m: Self)
        ensures
            m@ == entries@,
    {
        Mapping { entries }
    }

    pub fn entries(&self) -> (r: &[(Node, Node)])
        ensures
            r@ == self@,
    {
        self.entries.as_slice()
    }

    pub fn is_empty(&self) -> (b: bool)
        ensures
            b == (self@.len() == 0),
    {
        self.entries.len() == 0
    }

    pub fn len(&self) -> (n: usize)
        ensures
            n == self@.len(),
    {
        self.entries.len()
    }

    /// The index of the first entry whose key is the string `key`.
    fn position_of(&self, key: &str) -> (r: Option<usize>)
        ensures
            r matches Some(i) ==> key_index(self@, key@) == Some(i as int) && i < self@.len(),
            r is None ==> key_index(self@, key@) is None,
    {
        proof {
            lemma_key_index(self@, key@);
        }
        let wanted = chars_of(key);
        let mut i: usize = 0;
        while i < self.entries.len()
            invariant
                i <= self@.len(),
                self@ == self.entries@,
                wanted@ == key@,
                key_index(self@.take(i as int), key@) is None,
            decreases self@.len() - i,
        {
            let ghost next = self@.take(i + 1);
            assert(next.drop_last() =~= self@.take(i as int));
            let is_match = match &self.entries[i].0.value {
                Value::String(s) => {
                    let found = chars_of(s.as_str());
                    chars_eq(found.as_slice(), wanted.as_slice())
                },
                _ => false,
            };
            if is_match {
                proof {
                    lemma_key_index_prefix(self@, i + 1, key@);
                }
                return Some(i);
            }
            i = i + 1;
        }
        assert(self@.take(i as int) =~= self@);
        None
    }

    /// Returns the first value whose key is the string `key`.
    pub fn get(&self, key: &str) -> (r: Option<&Node>)
        ensures
            r matches Some(n) ==> lookup(self@, key@) == Some(*n),
            r is None ==> lookup(self@, key@) is None,
    {
        match self.position_of(key) {
            Some(i) => Some(&self.entries[i].1),
            None => None,
        }
    }

    /// Returns the first key/value pair whose key is the string `key`.
    ///
    /// The key node is what diagnostics anchor to when the problem is the
    /// presence or name of a field rather than its value.
    pub fn entry(&self, key: &str) -> (r: Option<(&Node, &Node)>)
        ensures
            r matches Some(kv) ==> key_index(self@, key@) matches Some(i) && *kv.0
                == self@[i].0 && *kv.1 == self@[i].1,
            r is None ==> key_index(self@, key@) is None,
    {
        match self.position_of(key) {
            Some(i) => Some((&self.entries[i].0, &self.entries[i].1)),
            None => None,
        }
    }

    pub fn contains_key(&self, key: &str) -> (b: bool)
        ensures
            b == key_index(self@, key@) is Some,
    {
        self.position_of(key).is_some()
    }

    /// Keys in source order, skipping any that are not strings.
    pub fn keys(&self) -> (r: Vec<&str>)
        ensures
            r@.len() == string_keys(self@).len(),
            forall|i: int| 0 <= i < r@.len() ==> #[trigger] r@[i]@ == string_keys(self@)[i],
    {
        let mut out: Vec<&str> = Vec::new();
        let mut i: usize = 0;
        while i < self.entries.len()
            invariant
                i <= self@.len(),
                self@ == self.entries@,
                out@.len() == string_keys(self@.take(i as int)).len(),
                forall|j: int|
                    0 <= j < out@.len() ==> #[trigger] out@[j]@ == string_keys(
                        self@.take(i as int),
                    )[j],
            decreases self@.len() - i,
        {
            assert(self@.take(i + 1).drop_last() =~= self@.take(i as int));
            match &self.entries[i].0.value {
                Value::String(s) => {
                    out.push(s.as_str());
                },
                _ => {},
            }
            i = i + 1;
        }
        assert(self@.take(i as int) =~= self@);
        out
    }
}

/// The decimal rendering of a signed integer.
pub open spec fn int_text(i: int) -> Seq<char> {
    if i < 0 {
        seq!['-'] + decimal((-i) as nat)
    } else {
        decimal(i as nat)
    }
}

/// Renders `i` in decimal.
pub fn render_int(i: i64) -> (s: String)
    ensures
        s@ == int_text(i as int),
{
    let mut out = String::new();
    let magnitude: u64 = if i < 0 {
        push_char(&mut out, '-');
        (0i128 - i as i128) as u64
    } else {
        i as u64
    };
    let digits = decimal_chars(magnitude);
    let mut i2: usize = 0;
    let ghost head = out@;
    while i2 < digits.len()
        invariant
            i2 <= digits@.len(),
            out@ == head + digits@.take(i2 as int),
        decreases digits@.len() - i2,
    {
        push_char(&mut out, digits[i2]);
        i2 = i2 + 1;
        assert(out@ =~= head + digits@.take(i2 as int));
    }
    assert(digits@.take(digits@.len() as int) =~= digits@);
    assert(out@ =~= int_text(i as int));
    out
}

/// The one-line rendering of a scalar, as it appeared in the source.
pub open spec fn scalar_text_of(v: Value) -> Option<Seq<char>> {
    match v {
        Value::Null => Some("null"@),
        Value::Bool(b) => Some(if b {
            "true"@
        } else {
            "false"@
        }),
        Value::Int(i) => Some(int_text(i as int)),
        Value::Float(t) => Some(t@),
        Value::String(s) => Some(s@),
        Value::Sequence(_) => None,
        Value::Mapping(_) => None,
    }
}

/// The position a loader marker stands for: columns become 1-indexed (a
/// column at the very limit of `usize` stays where it is).
pub open spec fn mark_position(m: RawMark) -> Position {
    Position {
        line: m.line,
        column: if m.col < usize::MAX {
            (m.col + 1) as usize
        } else {
            m.col
        },
    }
}

/// The span a loaded node occupies.
pub open spec fn raw_span(raw: RawNode) -> Span {
    Span { start: mark_position(raw.start), end: mark_position(raw.end) }
}

/// `node` is what the loaded node `raw` stands for.
pub open spec fn converted(raw: RawNode, node: Node) -> bool
    decreases raw, 1int,
{
    node.span == raw_span(raw) && converted_value(raw, node.value)
}

/// `value` is the value the loaded node `raw` stands for: tags carry no
/// meaning, unparsed scalars are strings, and aliases or scalars the loader
/// could not build read as null.
pub open spec fn converted_value(raw: RawNode, value: Value) -> bool
    decreases raw, 0int,
{
    match raw.data {
        RawData::Null => value is Null,
        RawData::Alias(_) => value is Null,
        RawData::BadValue => value is Null,
        RawData::Bool(b) => value == Value::Bool(b),
        RawData::Int(i) => value == Value::Int(i),
        RawData::Float(t) => value matches Value::Float(u) && u@ == t@,
        RawData::Str(t) => value matches Value::String(u) && u@ == t@,
        RawData::Representation(t) => value matches Value::String(u) && u@ == t@,
        RawData::Sequence(items) => value matches Value::Sequence(ns) && ns@.len() == items@.len()
            && forall|i: int|
            0 <= i < items@.len() ==> converted(#[trigger] items@[i], ns@[i]),
        RawData::Mapping(pairs) => value matches Value::Mapping(m) && m@.len() == pairs@.len()
            && forall|i: int|
            0 <= i < pairs@.len() ==> converted(#[trigger] pairs@[i].0, m@[i].0) && converted(
                pairs@[i].1,
                m@[i].1,
            ),
        RawData::Tagged(inner) => converted_value(*inner, value),
    }
}

/// Whether `r` is what parsing gives for the loader outcome `loaded`: the
/// first document (an empty stream is a null at the default span), or the
/// loader's error with a 1-indexed column.
pub open spec fn parsed_from(loaded: Result<Seq<RawNode>, RawError>, r: Result<Node, ParseError>) -> bool {
    match loaded {
        Ok(docs) => r matches Ok(n) && if docs.len() > 0 {
            converted(docs[0], n)
        } else {
            n.value is Null && n.span == (Span {
                start: Position { line: 1, column: 1 },
                end: Position { line: 1, column: 1 },
            })
        },
        Err(e) => r matches Err(p) && p.message@ == e.message@ && p.position == mark_position(
            e.at,
        ),
    }
}

/// The view of a loader outcome.
pub open spec fn loaded_view(loaded: Result<Vec<RawNode>, RawError>) -> Result<Seq<RawNode>, RawError> {
    match loaded {
        Ok(docs) => Ok(docs@),
        Err(e) => Err(e),
    }
}

fn position_of_mark(m: RawMark) -> (p: Position)
    ensures
        p == mark_position(m),
{
    Position::new(m.line, m.col.saturating_add(1))
}

fn copy_text(s: &String) -> (r: String)
    ensures
        r@ == s@,
{
    s.as_str().to_owned()
}

/// Builds the value the loaded node `raw` stands for.
pub fn convert_value(raw: &RawNode) -> (v: Value)
    ensures
        converted_value(*raw, v),
    decreases raw, 0int,
{
    match &raw.data {
        RawData::Null => Value::Null,
        RawData::Alias(_) => Value::Null,
        RawData::BadValue => Value::Null,
        RawData::Bool(b) => Value::Bool(*b),
        RawData::Int(i) => Value::Int(*i),
        RawData::Float(t) => Value::Float(copy_text(t)),
        RawData::Str(t) => Value::String(copy_text(t)),
        RawData::Representation(t) => Value::String(copy_text(t)),
        RawData::Sequence(items) => {
            let mut out: Vec<Node> = Vec::new();
            let mut i: usize = 0;
            while i < items.len()
                invariant
                    raw.data == RawData::Sequence(*items),
                    i <= items@.len(),
                    out@.len() == i,
                    forall|j: int| 0 <= j < i ==> converted(#[trigger] items@[j], out@[j]),
                decreases items@.len() - i,
            {
                proof {
                    assert(decreases_to!(*raw => raw.data));
                    assert(decreases_to!(raw.data => raw.data->Sequence_0));
                    assert(decreases_to!(*items => items[i as int]));
                }
                let n = convert(&items[i]);
                out.push(n);
                i = i + 1;
            }
            Value::Sequence(out)
        },
        RawData::Mapping(pairs) => {
            let mut out: Vec<(Node, Node)> = Vec::new();
            let mut i: usize = 0;
            while i < pairs.len()
                invariant
                    raw.data == RawData::Mapping(*pairs),
                    i <= pairs@.len(),
                    out@.len() == i,
                    forall|j: int|
                        0 <= j < i ==> converted(#[trigger] pairs@[j].0, out@[j].0) && converted(
                            pairs@[j].1,
                            out@[j].1,
                        ),
                decreases pairs@.len() - i,
            {
                proof {
                    assert(decreases_to!(*raw => raw.data));
                    assert(decreases_to!(raw.data => raw.data->Mapping_0));
                    assert(decreases_to!(*pairs => pairs[i as int]));
                    assert(decreases_to!(pairs[i as int] => pairs[i as int].0));
                    assert(decreases_to!(pairs[i as int] => pairs[i as int].1));
                }
                let k = convert(&pairs[i].0);
                let v = convert(&pairs[i].1);
                out.push((k, v));
                i = i + 1;
            }
            let m = Mapping::from_entries(out);
            Value::Mapping(m)
        },
        RawData::Tagged(inner) => convert_value(inner),
    }
}

/// Builds the node the loaded node `raw` stands for.
pub fn convert(raw: &RawNode) -> (n: Node)
    ensures
        converted(*raw, n),
    decreases raw, 1int,
{
    let value = convert_value(raw);
    Node { value, span: Span::new(position_of_mark(raw.start), position_of_mark(raw.end)) }
}

/// What parsing makes of a loader outcome: its first document, a null node
/// at the default span for an empty stream, or the loader's error.
pub fn node_from_load(loaded: Result<Vec<RawNode>, RawError>) -> (r: Result<Node, ParseError>)
    ensures
        parsed_from(loaded_view(loaded), r),
{
    match loaded {
        Ok(docs) => {
            if docs.len() > 0 {
                Ok(convert(&docs[0]))
            } else {
                Ok(Node { value: Value::Null, span: Span::default() })
            }
        },
        Err(e) => Err(
            ParseError { message: copy_text(&e.message), position: position_of_mark(e.at) },
        ),
    }
}

impl Node {
    pub fn new(value: Value, span: Span) -> (n: Self)
        ensures
            n.value == value,
            n.span == span,
    {
        Node { value, span }
    }

    pub fn as_str(&self) -> (r: Option<&str>)
        ensures
            r matches Some(s) ==> self.value matches Value::String(t) && s@ == t@,
            r is None <==> !(self.value is String),
    {
        match &self.value {
            Value::String(s) => Some(s.as_str()),
            _ => None,
        }
    }

    pub fn as_bool(&self) -> (r: Option<bool>)
        ensures
            r matches Some(b) ==> self.value == Value::Bool(b),
            r is None <==> !(self.value is Bool),
    {
        match &self.value {
            Value::Bool(b) => Some(*b),
            _ => None,
        }
    }

    pub fn as_int(&self) -> (r: Option<i64>)
        ensures
            r matches Some(i) ==> self.value == Value::Int(i),
            r is None <==> !(self.value is Int),
    {
        match &self.value {
            Value::Int(i) => Some(*i),
            _ => None,
        }
    }

    pub fn as_sequence(&self) -> (r: Option<&[Node]>)
        ensures
            r matches Some(s) ==> self.value matches Value::Sequence(items) && s@ == items@,
            r is None <==> !(self.value is Sequence),
    {
        match &self.value {
            Value::Sequence(items) => Some(items.as_slice()),
            _ => None,
        }
    }

    pub fn as_mapping(&self) -> (r: Option<&Mapping>)
        ensures
            r matches Some(m) ==> self.value == Value::Mapping(*m),
            r is None <==> !(self.value is Mapping),
    {
        match &self.value {
            Value::Mapping(map) => Some(map),
            _ => None,
        }
    }

    pub fn is_null(&self) -> (b: bool)
        ensures
            b == self.value is Null,
    {
        match &self.value {
            Value::Null => true,
            _ => false,
        }
    }

    /// Renders a scalar the way it appeared in the source.
    ///
    /// Used by messages that quote a field's value back to the reader; returns
    /// `None` for collections, which have no meaningful one-line rendering.
    pub fn scalar_text(&self) -> (r: Option<String>)
        ensures
            r matches Some(s) ==> scalar_text_of(self.value) == Some(s@),
            r is None ==> scalar_text_of(self.value) is None,
    {
        match &self.value {
            Value::Null => Some("null".to_owned()),
            Value::Bool(b) => Some(
                if *b {
                    "true".to_owned()
                } else {
                    "false".to_owned()
                },
            ),
            Value::Int(i) => Some(render_int(*i)),
            Value::Float(t) => Some(copy_text(t)),
            Value::String(s) => Some(copy_text(s)),
            Value::Sequence(_) => None,
            Value::Mapping(_) => None,
        }
    }

    /// Parses a single YAML document.
    ///
    /// An empty document yields [`Value::Null`], matching YAML's own reading of
    /// a blank stream and letting callers treat "no frontmatter keys" as an
    /// empty mapping rather than an error.
    pub fn parse(source: &str) -> (r: Result<Self, ParseError>)
        ensures
            parsed_from(yaml_load(source@), r),
    {
        node_from_load(load_yaml(source))
    }
}

} // verus!
