//! A bundle: a directory tree of markdown files, held in memory.
//!
//! Reading the tree from disk lives with the command-line program; here a
//! bundle is built from `(relative path, source)` pairs.

use vstd::prelude::*;
use vstd::string::*;

use crate::concept_id::{concept_id_of, name_of, parent_of, ConceptId};
use crate::document::{document_of, Document};
use crate::links::{extract, is_markdown_path, links_of, resolve_link, BodyLinks, Link};
use crate::sorted::{
    chars_less, holds_text, insert_sorted, lemma_less_asymmetric, lemma_less_irreflexive,
    lemma_less_total, lemma_less_transitive, lemma_push_contains, less_than, strictly_sorted, texts,
};
use crate::text::{chars_of, copy_range, push_str, str_eq, string_of};

verus! {

/// Filenames with defined meaning that are never concept documents.
pub const RESERVED_FILENAMES: [&'static str; 2] = ["index.md", "log.md"];

/// The role a file plays in the bundle.
#[derive(Debug, Clone, Copy, PartialEq, Eq, Structural)]
pub enum EntryKind {
    /// A concept document: any non-reserved `.md` file.
    Concept,
    /// A directory listing.
    Index,
    /// An update history.
    Log,
}

/// The kind of a file whose concept-ID name is `stem`.
pub open spec fn kind_for(stem: Seq<char>) -> EntryKind {
    if stem == "index"@ {
        EntryKind::Index
    } else if stem == "log"@ {
        EntryKind::Log
    } else {
        EntryKind::Concept
    }
}

impl EntryKind {
    /// Classifies by concept-ID name, i.e. the filename minus `.md`.
    fn for_stem(stem: &str) -> (k: Self)
        ensures
            k == kind_for(stem@),
    {
        if str_eq(stem, "index") {
            EntryKind::Index
        } else if str_eq(stem, "log") {
            EntryKind::Log
        } else {
            EntryKind::Concept
        }
    }
}

/// Why a bundle could not be read from disk.
#[derive(Debug, Clone, PartialEq, Eq)]
pub enum LoadError {
    /// The path given is not a directory.
    NotADirectory(String),
    /// A file or directory under the root could not be read, for `reason`.
    Io { path: String, reason: String },
}

/// How a load error reads.
pub open spec fn load_error_text(e: LoadError) -> Seq<char> {
    match e {
        LoadError::NotADirectory(path) => path@ + " is not a directory"@,
        LoadError::Io { path, reason } => "cannot read "@ + path@ + ": "@ + reason@,
    }
}

impl LoadError {
    /// The error as a message for the user.
    pub fn to_string(&self) -> (s: String)
        ensures
            s@ == load_error_text(*self),
    {
        match self {
            LoadError::NotADirectory(path) => {
                let mut s = path.as_str().to_owned();
                push_str(&mut s, " is not a directory");
                s
            },
            LoadError::Io { path, reason } => {
                let mut s = "cannot read ".to_owned();
                push_str(&mut s, path.as_str());
                push_str(&mut s, ": ");
                push_str(&mut s, reason.as_str());
                s
            },
        }
    }
}

/// One markdown file in a bundle, parsed.
#[derive(Debug)]
pub struct Entry {
    pub id: ConceptId,
    pub kind: EntryKind,
    /// Path relative to the bundle root, always slash-separated.
    pub path: String,
    pub document: Document,
    pub body: BodyLinks,
}

/// Whether `e` is the entry built from the file at `path` holding `source`.
pub open spec fn entry_from(path: Seq<char>, source: Seq<char>, e: Entry) -> bool {
    &&& concept_id_of(path) == Some(e.id@)
    &&& e.kind == kind_for(name_of(e.id@))
    &&& e.path@ == path
    &&& document_of(source, e.document)
    &&& links_of(e.document.body, e.body)
}

/// The directory an ID sits in, the empty string at the bundle root.
pub open spec fn directory_of(id: Seq<char>) -> Seq<char> {
    match parent_of(id) {
        Some(p) => p,
        None => seq![],
    }
}

impl Entry {
    /// Builds an entry from already-loaded source text.
    pub fn from_source(relative_path: &str, source: &str) -> (r: Option<Self>)
        ensures
            r matches Some(e) ==> entry_from(relative_path@, source@, e),
            r is None <==> concept_id_of(relative_path@) is None,
    {
        let id = match ConceptId::from_relative_path(relative_path) {
            Some(id) => id,
            None => {
                return None;
            },
        };
        let document = Document::parse(source);
        let body = extract(&document.body);
        let kind = EntryKind::for_stem(id.name());
        Some(Entry { id, kind, path: relative_path.to_owned(), document, body })
    }

    pub fn is_concept(&self) -> (b: bool)
        ensures
            b == (self.kind == EntryKind::Concept),
    {
        match self.kind {
            EntryKind::Concept => true,
            _ => false,
        }
    }

    /// The directory this entry sits in, relative to the bundle root.
    pub fn directory(&self) -> (d: &str)
        ensures
            d@ == directory_of(self.id@),
    {
        proof {
            reveal_strlit("");
        }
        match self.id.parent() {
            Some(p) => p,
            None => {
                assert(""@ =~= Seq::<char>::empty());
                ""
            },
        }
    }
}

/// The IDs of `entries`, in order.
pub open spec fn ids(entries: Seq<Entry>) -> Seq<Seq<char>> {
    entries.map_values(|e: Entry| e.id@)
}

/// A loaded bundle: its entries in ID order, and the paths of every file
/// that is not markdown.
#[derive(Debug)]
pub struct Bundle {
    root: String,
    entries: Vec<Entry>,
    /// Every non-markdown file, for resolving path-valued fields.
    assets: Vec<String>,
}

impl Bundle {
    #[verifier::type_invariant]
    spec fn sorted(&self) -> bool {
        strictly_sorted(ids(self.entries@)) && strictly_sorted(texts(self.assets@))
    }

    /// The entries, in ID order.
    pub closed spec fn entry_seq(&self) -> Seq<Entry> {
        self.entries@
    }

    /// The non-markdown paths, in order.
    pub closed spec fn asset_seq(&self) -> Seq<Seq<char>> {
        texts(self.assets@)
    }

    /// The bundle root as given when loading.
    pub closed spec fn root_text(&self) -> Seq<char> {
        self.root@
    }
}

/// The concept a source file contributes, if it is markdown with a valid ID.
pub open spec fn source_id(path: Seq<char>) -> Option<Seq<char>> {
    if is_markdown_path(path) {
        concept_id_of(path)
    } else {
        None
    }
}

/// A path with its backslashes turned into slashes.
pub open spec fn slashed(path: Seq<char>) -> Seq<char> {
    path.map_values(|c: char| if c == '\\' {
        '/'
    } else {
        c
    })
}

/// The index of the last source contributing the concept `id`.
pub open spec fn last_source(sources: Seq<(Seq<char>, Seq<char>)>, id: Seq<char>) -> Option<int>
    decreases sources.len(),
{
    if sources.len() == 0 {
        None
    } else if source_id(sources.last().0) == Some(id) {
        Some(sources.len() - 1)
    } else {
        last_source(sources.drop_last(), id)
    }
}

proof fn lemma_last_source(sources: Seq<(Seq<char>, Seq<char>)>, id: Seq<char>)
    ensures
        last_source(sources, id) matches Some(m) ==> 0 <= m < sources.len() && source_id(
            sources[m].0,
        ) == Some(id),
    decreases sources.len(),
{
    if sources.len() > 0 {
        lemma_last_source(sources.drop_last(), id);
    }
}

/// The asset paths `sources` contribute.
pub open spec fn asset_set(sources: Seq<(Seq<char>, Seq<char>)>) -> Set<Seq<char>> {
    Set::new(
        |x: Seq<char>|
            exists|k: int|
                0 <= k < sources.len() && !is_markdown_path(#[trigger] sources[k].0) && x == slashed(
                    sources[k].0,
                ),
    )
}

/// Whether `entries` and `assets` are what inserting `sources` in order
/// builds: one entry per concept, built from the last source naming it, in
/// ID order, and every non-markdown path as an asset.
pub open spec fn loaded_from(
    sources: Seq<(Seq<char>, Seq<char>)>,
    entries: Seq<Entry>,
    assets: Seq<Seq<char>>,
) -> bool {
    &&& strictly_sorted(ids(entries))
    &&& forall|x: Seq<char>| ids(entries).contains(x) <==> last_source(sources, x) is Some
    &&& forall|i: int|
        0 <= i < entries.len() ==> (last_source(sources, (#[trigger] entries[i]).id@) matches Some(
            k,
        ) && entry_from(sources[k].0, sources[k].1, entries[i]))
    &&& assets.to_set() == asset_set(sources)
}

/// The text of a list of `(path, source)` pairs.
pub open spec fn source_texts(sources: Seq<(&str, &str)>) -> Seq<(Seq<char>, Seq<char>)> {
    sources.map_values(|p: (&str, &str)| (p.0@, p.1@))
}

fn slash_path(path: &str) -> (r: String)
    ensures
        r@ == slashed(path@),
{
    let cs = chars_of(path);
    let mut out: Vec<char> = Vec::new();
    let mut i: usize = 0;
    while i < cs.len()
        invariant
            i <= cs@.len(),
            out@ == slashed(cs@.take(i as int)),
        decreases cs@.len() - i,
    {
        out.push(
            if cs[i] == '\\' {
                '/'
            } else {
                cs[i]
            },
        );
        i = i + 1;
        assert(out@ =~= slashed(cs@.take(i as int)));
    }
    assert(cs@.take(i as int) =~= cs@);
    string_of(out.as_slice())
}

impl Default for Bundle {
    fn default() -> (b: Self)
        ensures
            b.entry_seq().len() == 0,
            b.asset_seq().len() == 0,
            b.root_text().len() == 0,
    {
        Bundle { root: String::new(), entries: Vec::new(), assets: Vec::new() }
    }
}

impl Bundle {
    /// An empty bundle read from `root`.
    pub fn at_root(root: &str) -> (b: Self)
        ensures
            b.entry_seq().len() == 0,
            b.asset_seq().len() == 0,
            b.root_text() == root@,
    {
        Bundle { root: root.to_owned(), entries: Vec::new(), assets: Vec::new() }
    }

    /// The index at which an entry with ID `key` belongs: the first entry
    /// whose ID does not sort before it.
    fn slot(&self, key: &[char]) -> (p: usize)
        ensures
            p <= self.entry_seq().len(),
            forall|i: int| 0 <= i < p ==> chars_less(#[trigger] ids(self.entry_seq())[i], key@),
            p < self.entry_seq().len() ==> !chars_less(ids(self.entry_seq())[p as int], key@),
    {
        let mut p: usize = 0;
        while p < self.entries.len() && less_than(
            chars_of(self.entries[p].id.as_str()).as_slice(),
            key,
        )
            invariant
                p <= self.entries@.len(),
                forall|i: int| 0 <= i < p ==> chars_less(#[trigger] ids(self.entries@)[i], key@),
            decreases self.entries@.len() - p,
        {
            p = p + 1;
        }
        p
    }

    /// Records a file: a markdown file becomes an entry (replacing any with
    /// the same ID) unless its path escapes the bundle root; any other file
    /// is recorded as an asset.
    pub fn insert(&mut self, relative: &str, source: &str)
        ensures
            source_id(relative@) matches Some(x) ==> {
                &&& ids(final(self).entry_seq()).to_set() == ids(old(self).entry_seq()).to_set().insert(x)
                &&& forall|i: int|
                    0 <= i < final(self).entry_seq().len() ==> if (#[trigger] final(self).entry_seq()[i]).id@ == x {
                        entry_from(relative@, source@, final(self).entry_seq()[i])
                    } else {
                        old(self).entry_seq().contains(final(self).entry_seq()[i])
                    }
                &&& final(self).asset_seq() == old(self).asset_seq()
            },
            source_id(relative@) is None && is_markdown_path(relative@) ==> final(self).entry_seq()
                == old(self).entry_seq() && final(self).asset_seq() == old(self).asset_seq(),
            !is_markdown_path(relative@) ==> final(self).entry_seq() == old(self).entry_seq()
                && final(self).asset_seq().to_set() == old(self).asset_seq().to_set().insert(
                slashed(relative@),
            ),
            final(self).root_text() == old(self).root_text(),
    {
        proof {
            use_type_invariant(&*self);
        }
        let path = chars_of(relative);
        if crate::links::markdown_path(path.as_slice()) {
            let entry = match Entry::from_source(relative, source) {
                Some(e) => e,
                None => {
                    return;
                },
            };
            let key = chars_of(entry.id.as_str());
            let ghost added = entry;
            let p = self.slot(key.as_slice());
            let ghost before = self.entries@;
            let ghost x = key@;
            if p < self.entries.len() && str_eq(self.entries[p].id.as_str(), entry.id.as_str()) {
                let ghost old_id = ids(before)[p as int];
                let mut entries: Vec<Entry> = Vec::new();
                std::mem::swap(&mut entries, &mut self.entries);
                entries.remove(p);
                entries.insert(p, entry);
                proof {
                    assert(ids(entries@) =~= ids(before).update(p as int, x));
                    assert(ids(entries@) =~= ids(before));
                }
                self.entries = entries;
            } else {
                proof {
                    if p < before.len() {
                        lemma_less_total(ids(before)[p as int], x);
                    }
                }
                let mut entries: Vec<Entry> = Vec::new();
                std::mem::swap(&mut entries, &mut self.entries);
                entries.insert(p, entry);
                let ghost after = ids(entries@);
                assert(after =~= ids(before).take(p as int).push(x) + ids(before).skip(p as int));
                assert forall|i: int, j: int| 0 <= i < j < after.len() implies chars_less(
                    #[trigger] after[i],
                    #[trigger] after[j],
                ) by {
                    let b = ids(before);
                    if j < p {
                        assert(after[i] == b[i] && after[j] == b[j]);
                    } else if j == p {
                        assert(after[i] == b[i]);
                    } else if i == p {
                        assert(after[j] == b[j - 1]);
                        assert(chars_less(x, b[p as int]));
                        if j - 1 > p {
                            lemma_less_transitive(x, b[p as int], b[j - 1]);
                        }
                    } else if i < p {
                        assert(after[i] == b[i] && after[j] == b[j - 1]);
                    } else {
                        assert(after[i] == b[i - 1] && after[j] == b[j - 1]);
                    }
                }
                self.entries = entries;
            }
            proof {
                let now = self.entries@;
                assert forall|i: int|
                    0 <= i < now.len() implies if (#[trigger] now[i]).id@ == x {
                    entry_from(relative@, source@, now[i])
                } else {
                    before.contains(now[i])
                } by {
                    if i == p {
                        assert(now[i] == added);
                    } else if now[i].id@ == x {
                        let (a, b) = if i < p { (i, p as int) } else { (p as int, i) };
                        assert(chars_less(ids(now)[a], ids(now)[b]));
                        lemma_less_irreflexive(x);
                    }
                    if now[i].id@ != x {
                        if i < p {
                            assert(now[i] == before[i]);
                        } else if i > p {
                            if now.len() == before.len() {
                                assert(now[i] == before[i]);
                            } else {
                                assert(now[i] == before[i - 1]);
                            }
                        }
                    }
                }
                assert forall|y: Seq<char>| ids(now).to_set().contains(y) <==> ids(
                    before,
                ).to_set().insert(x).contains(y) by {
                    if ids(now).to_set().contains(y) {
                        let k = choose|k: int| 0 <= k < ids(now).len() && ids(now)[k] == y;
                        if y != x {
                            if now.len() == before.len() {
                                assert(ids(before)[k] == y);
                            } else if k < p {
                                assert(ids(before)[k] == y);
                            } else {
                                assert(ids(before)[k - 1] == y);
                            }
                        }
                    }
                    if ids(before).to_set().contains(y) {
                        let k = choose|k: int| 0 <= k < ids(before).len() && ids(before)[k] == y;
                        if now.len() == before.len() {
                            assert(ids(now)[k] == y);
                        } else if k < p {
                            assert(ids(now)[k] == y);
                        } else {
                            assert(ids(now)[k + 1] == y);
                        }
                    }
                    if y == x {
                        assert(ids(now)[p as int] == y);
                    }
                }
                assert(ids(now).to_set() =~= ids(before).to_set().insert(x));
            }
        } else {
            let mut assets: Vec<String> = Vec::new();
            std::mem::swap(&mut assets, &mut self.assets);
            insert_sorted(&mut assets, slash_path(relative));
            self.assets = assets;
        }
    }

    /// Builds a bundle from in-memory sources, keyed by bundle-relative path.
    pub fn from_sources(sources: &[(&str, &str)]) -> (b: Self)
        ensures
            loaded_from(source_texts(sources@), b.entry_seq(), b.asset_seq()),
            b.root_text().len() == 0,
    {
        let mut bundle = Bundle::default();
        let ghost all = source_texts(sources@);
        let mut i: usize = 0;
        assert(all.take(0) =~= Seq::<(Seq<char>, Seq<char>)>::empty());
        assert(bundle.asset_seq().to_set() =~= asset_set(all.take(0)));
        while i < sources.len()
            invariant
                all == source_texts(sources@),
                i <= sources@.len(),
                loaded_from(all.take(i as int), bundle.entry_seq(), bundle.asset_seq()),
                bundle.root_text().len() == 0,
            decreases sources@.len() - i,
        {
            proof {
                use_type_invariant(&bundle);
            }
            let (path, source) = sources[i];
            let ghost prev = all.take(i as int);
            let ghost next = all.take(i + 1);
            let ghost old_entries = bundle.entry_seq();
            let ghost old_assets = bundle.asset_seq();
            assert(next.drop_last() =~= prev);
            assert(next.last() == (path@, source@));
            bundle.insert(path, source);
            proof {
                use_type_invariant(&bundle);
                let now = bundle.entry_seq();
                assert forall|y: Seq<char>| ids(now).contains(y) <==> last_source(next, y) is Some by {
                    assert(ids(now).contains(y) <==> ids(now).to_set().contains(y));
                    assert(ids(old_entries).contains(y) <==> ids(old_entries).to_set().contains(y));
                }
                assert forall|j: int| 0 <= j < now.len() implies (last_source(
                    next,
                    (#[trigger] now[j]).id@,
                ) matches Some(k) && entry_from(next[k].0, next[k].1, now[j])) by {
                    let e = now[j];
                    if source_id(path@) == Some(e.id@) {
                        assert(last_source(next, e.id@) == Some(i as int));
                    } else {
                        assert(last_source(next, e.id@) == last_source(prev, e.id@));
                        if source_id(path@) is None {
                            assert(e == old_entries[j]);
                        }
                        assert(old_entries.contains(e));
                        let k = choose|k: int| 0 <= k < old_entries.len() && old_entries[k] == e;
                        assert(last_source(prev, old_entries[k].id@) is Some);
                        lemma_last_source(prev, e.id@);
                        let m = last_source(prev, e.id@)->0;
                        assert(next[m] == prev[m]);
                    }
                }
                assert forall|y: Seq<char>| asset_set(next).contains(y) <==> bundle.asset_seq().to_set().contains(y) by {
                    if asset_set(next).contains(y) {
                        let k = choose|k: int|
                            0 <= k < next.len() && !is_markdown_path(#[trigger] next[k].0) && y
                                == slashed(next[k].0);
                        if k < prev.len() {
                            assert(prev[k] == next[k]);
                            assert(asset_set(prev).contains(y));
                        }
                    }
                    if asset_set(prev).contains(y) {
                        let k = choose|k: int|
                            0 <= k < prev.len() && !is_markdown_path(#[trigger] prev[k].0) && y
                                == slashed(prev[k].0);
                        assert(next[k] == prev[k]);
                    }
                    if !is_markdown_path(path@) && y == slashed(path@) {
                        assert(next[next.len() - 1] == (path@, source@));
                    }
                }
                assert(bundle.asset_seq().to_set() =~= asset_set(next));
            }
            i = i + 1;
        }
        assert(all.take(i as int) =~= all);
        bundle
    }

    pub fn root(&self) -> (r: &str)
        ensures
            r@ == self.root_text(),
    {
        self.root.as_str()
    }

    pub fn len(&self) -> (n: usize)
        ensures
            n == self.entry_seq().len(),
    {
        self.entries.len()
    }

    pub fn is_empty(&self) -> (b: bool)
        ensures
            b == (self.entry_seq().len() == 0),
    {
        self.entries.len() == 0
    }

    /// Every markdown file, including reserved ones, in ID order.
    pub fn entries(&self) -> (r: &[Entry])
        ensures
            r@ == self.entry_seq(),
            strictly_sorted(ids(r@)),
    {
        proof {
            use_type_invariant(self);
        }
        self.entries.as_slice()
    }

    /// Concept documents only, excluding `index.md` and `log.md`.
    pub fn concepts(&self) -> (r: Vec<&Entry>)
        ensures
            r@.len() == self.entry_seq().filter(|e: Entry| e.kind == EntryKind::Concept).len(),
            forall|i: int|
                0 <= i < r@.len() ==> *#[trigger] r@[i] == self.entry_seq().filter(
                    |e: Entry| e.kind == EntryKind::Concept,
                )[i],
    {
        let ghost pred = |e: Entry| e.kind == EntryKind::Concept;
        let mut out: Vec<&Entry> = Vec::new();
        let mut i: usize = 0;
        while i < self.entries.len()
            invariant
                i <= self.entries@.len(),
                pred == (|e: Entry| e.kind == EntryKind::Concept),
                out@.len() == self.entries@.take(i as int).filter(pred).len(),
                forall|j: int|
                    0 <= j < out@.len() ==> *#[trigger] out@[j] == self.entries@.take(
                        i as int,
                    ).filter(pred)[j],
            decreases self.entries@.len() - i,
        {
            let ghost prefix = self.entries@.take(i as int);
            assert(self.entries@.take(i + 1) =~= prefix.push(self.entries@[i as int]));
            proof {
                prefix.lemma_filter_push(self.entries@[i as int], pred);
            }
            if self.entries[i].is_concept() {
                out.push(&self.entries[i]);
            }
            i = i + 1;
        }
        assert(self.entries@.take(i as int) =~= self.entries@);
        out
    }

    fn index_of(&self, id: &str) -> (r: Option<usize>)
        ensures
            r matches Some(i) ==> i < self.entry_seq().len() && self.entry_seq()[i as int].id@ == id@,
            r is None ==> !ids(self.entry_seq()).contains(id@),
    {
        let mut i: usize = 0;
        while i < self.entries.len()
            invariant
                i <= self.entries@.len(),
                forall|j: int| 0 <= j < i ==> #[trigger] ids(self.entries@)[j] != id@,
            decreases self.entries@.len() - i,
        {
            if str_eq(self.entries[i].id.as_str(), id) {
                return Some(i);
            }
            i = i + 1;
        }
        None
    }

    pub fn get(&self, id: &ConceptId) -> (r: Option<&Entry>)
        ensures
            r matches Some(e) ==> self.entry_seq().contains(*e) && e.id@ == id@,
            r is None <==> !ids(self.entry_seq()).contains(id@),
    {
        match self.index_of(id.as_str()) {
            Some(i) => {
                assert(ids(self.entries@)[i as int] == id@);
                Some(&self.entries[i])
            },
            None => None,
        }
    }

    pub fn contains(&self, id: &ConceptId) -> (b: bool)
        ensures
            b == ids(self.entry_seq()).contains(id@),
    {
        match self.index_of(id.as_str()) {
            Some(i) => {
                assert(ids(self.entries@)[i as int] == id@);
                true
            },
            None => false,
        }
    }

    /// Whether a bundle-relative path names a file that exists.
    pub fn contains_path(&self, path: &str) -> (b: bool)
        ensures
            b == (self.asset_seq().contains(crate::links::without_leading_slashes(path@)) || (
            concept_id_of(crate::links::without_leading_slashes(path@)) matches Some(x) && ids(
                self.entry_seq(),
            ).contains(x))),
    {
        let cs = chars_of(path);
        let mut lo: usize = 0;
        assert(cs@.skip(0) =~= cs@);
        while lo < cs.len() && cs[lo] == '/'
            invariant
                lo <= cs@.len(),
                cs@ == path@,
                crate::links::without_leading_slashes(path@) == crate::links::without_leading_slashes(
                    cs@.skip(lo as int),
                ),
            decreases cs@.len() - lo,
        {
            assert(cs@.skip(lo as int).drop_first() =~= cs@.skip(lo + 1));
            lo = lo + 1;
        }
        let rest = copy_range(cs.as_slice(), lo, cs.len());
        assert(rest@ =~= cs@.skip(lo as int));
        let normalized = string_of(rest.as_slice());
        if holds_text(&self.assets, normalized.as_str()) {
            return true;
        }
        match ConceptId::from_relative_path(normalized.as_str()) {
            Some(id) => self.contains(&id),
            None => false,
        }
    }

    /// Concepts that `id` links to, in document order, deduplicated.
    pub fn links_from(&self, id: &ConceptId) -> (r: Vec<ConceptId>)
        ensures
            r@.map_values(|c: ConceptId| c@) == match self.entry_for(id@) {
                Some(e) => first_occurrences(resolved_targets(e.body.links@, id@)),
                None => seq![],
            },
    {
        proof {
            use_type_invariant(self);
        }
        let entry = match self.index_of(id.as_str()) {
            Some(i) => {
                proof {
                    let c = choose|c: int| 0 <= c < self.entries@.len() && self.entries@[c].id@ == id@;
                    if c != i {
                        let (a, b) = if c < i { (c, i as int) } else { (i as int, c) };
                        assert(chars_less(ids(self.entries@)[a], ids(self.entries@)[b]));
                        lemma_less_irreflexive(id@);
                    }
                }
                &self.entries[i]
            },
            None => {
                proof {
                    if exists|c: int| 0 <= c < self.entries@.len() && self.entries@[c].id@ == id@ {
                        let c = choose|c: int| 0 <= c < self.entries@.len() && self.entries@[c].id@ == id@;
                        assert(ids(self.entries@)[c] == id@);
                    }
                }
                return Vec::new();
            },
        };
        assert(entry.id@ == id@);
        links_in(&entry.body.links, id)
    }

    /// Concepts that link to `id`, in ID order.
    pub fn backlinks(&self, id: &ConceptId) -> (r: Vec<ConceptId>)
        ensures
            r@.map_values(|c: ConceptId| c@) == linking_ids(self.entry_seq(), id@),
    {
        let mut out: Vec<ConceptId> = Vec::new();
        let mut i: usize = 0;
        while i < self.entries.len()
            invariant
                i <= self.entries@.len(),
                out@.map_values(|c: ConceptId| c@) == linking_ids(self.entries@.take(i as int), id@),
            decreases self.entries@.len() - i,
        {
            assert(self.entries@.take(i + 1).drop_last() =~= self.entries@.take(i as int));
            let entry = &self.entries[i];
            if !str_eq(entry.id.as_str(), id.as_str()) {
                let targets = links_in(&entry.body.links, &entry.id);
                let mut found = false;
                let mut k: usize = 0;
                while k < targets.len()
                    invariant
                        k <= targets@.len(),
                        found == targets@.map_values(|c: ConceptId| c@).take(k as int).contains(id@),
                    decreases targets@.len() - k,
                {
                    assert(targets@.map_values(|c: ConceptId| c@).take(k + 1) =~= targets@.map_values(
                        |c: ConceptId| c@,
                    ).take(k as int).push(targets@[k as int]@));
                    proof {
                        lemma_push_contains(
                            targets@.map_values(|c: ConceptId| c@).take(k as int),
                            targets@[k as int]@,
                            id@,
                        );
                    }
                    if str_eq(targets[k].as_str(), id.as_str()) {
                        found = true;
                    }
                    k = k + 1;
                }
                assert(targets@.map_values(|c: ConceptId| c@).take(k as int) =~= targets@.map_values(
                    |c: ConceptId| c@,
                ));
                proof {
                    lemma_first_occurrences_contains(
                        resolved_targets(entry.body.links@, entry.id@),
                        id@,
                    );
                }
                if found {
                    let ghost before = out@.map_values(|c: ConceptId| c@);
                    out.push(entry.id.clone());
                    assert(out@.map_values(|c: ConceptId| c@) =~= before.push(entry.id@));
                }
            }
            i = i + 1;
        }
        assert(self.entries@.take(i as int) =~= self.entries@);
        out
    }

    /// The entry with ID `id`, if any.
    pub closed spec fn entry_for(&self, id: Seq<char>) -> Option<Entry> {
        if exists|i: int| 0 <= i < self.entries@.len() && self.entries@[i].id@ == id {
            Some(self.entries@[self.entry_index(id)])
        } else {
            None
        }
    }

    /// The position of an entry with ID `id`, when there is one.
    closed spec fn entry_index(&self, id: Seq<char>) -> int {
        choose|i: int| 0 <= i < self.entries@.len() && self.entries@[i].id@ == id
    }

    /// The link graph read in both directions agrees: `from` is among the
    /// backlinks of a different concept `to` exactly when `to` is among the
    /// links of `from`.
    pub proof fn lemma_backlinks_mirror_links(&self, from: Seq<char>, to: Seq<char>)
        requires
            strictly_sorted(ids(self.entry_seq())),
            from != to,
        ensures
            linking_ids(self.entry_seq(), to).contains(from) <==> (self.entry_for(from) matches Some(
                e,
            ) && first_occurrences(resolved_targets(e.body.links@, from)).contains(to)),
    {
        let entries = self.entries@;
        if exists|k: int| 0 <= k < entries.len() && entries[k].id@ == from {
            let k = choose|k: int| 0 <= k < entries.len() && entries[k].id@ == from;
            self.lemma_entry_for(k);
            lemma_linking_ids_contains(entries, to, k);
            lemma_first_occurrences_contains(resolved_targets(entries[k].body.links@, from), to);
        } else {
            lemma_linking_ids_from(entries, to, from);
        }
    }

    /// With distinct IDs, the entry found for an entry's ID is that entry.
    pub proof fn lemma_entry_for(&self, k: int)
        requires
            strictly_sorted(ids(self.entry_seq())),
            0 <= k < self.entry_seq().len(),
        ensures
            self.entry_for(self.entry_seq()[k].id@) == Some(self.entry_seq()[k]),
    {
        let id = self.entries@[k].id@;
        assert(ids(self.entries@)[k] == id);
        assert(0 <= k < self.entries@.len() && self.entries@[k].id@ == id);
        let c = self.entry_index(id);
        lemma_unique_ids(self.entries@, c, k);
    }

    /// Directories that contain at least one markdown file, with all their
    /// ancestors and the root, in order.
    pub fn directories(&self) -> (r: Vec<String>)
        ensures
            strictly_sorted(texts(r@)),
            texts(r@).to_set() == directory_set(self.entry_seq()),
    {
        let mut out: Vec<String> = Vec::new();
        insert_sorted(&mut out, String::new());
        assert(texts(out@).to_set() =~= set![Seq::<char>::empty()]);
        let mut i: usize = 0;
        while i < self.entries.len()
            invariant
                i <= self.entries@.len(),
                strictly_sorted(texts(out@)),
                texts(out@).to_set() == directory_set(self.entries@.take(i as int)),
            decreases self.entries@.len() - i,
        {
            let d = chars_of(self.entries[i].directory());
            let ghost dir = d@;
            let ghost before = texts(out@).to_set();
            insert_sorted(&mut out, string_of(d.as_slice()));
            let mut k: usize = 0;
            while k < d.len()
                invariant
                    k <= d@.len(),
                    dir == d@,
                    strictly_sorted(texts(out@)),
                    texts(out@).to_set() == before.insert(dir).union(
                        Set::new(|p: Seq<char>| exists|j: int| 0 <= j < k && dir[j] == '/' && p == dir.take(j)),
                    ),
                decreases d@.len() - k,
            {
                let ghost prev = texts(out@).to_set();
                if d[k] == '/' {
                    insert_sorted(&mut out, string_of(copy_range(d.as_slice(), 0, k).as_slice()));
                }
                assert(texts(out@).to_set() =~= before.insert(dir).union(
                    Set::new(|p: Seq<char>| exists|j: int| 0 <= j < k + 1 && dir[j] == '/' && p == dir.take(j)),
                ));
                k = k + 1;
            }
            proof {
                let next = self.entries@.take(i + 1);
                assert(next.drop_last() =~= self.entries@.take(i as int));
                assert(texts(out@).to_set() =~= directory_set(next));
            }
            i = i + 1;
        }
        assert(self.entries@.take(i as int) =~= self.entries@);
        out
    }
}

/// The directories holding `entries`, with every ancestor and the root.
pub open spec fn directory_set(entries: Seq<Entry>) -> Set<Seq<char>>
    decreases entries.len(),
{
    if entries.len() == 0 {
        set![Seq::<char>::empty()]
    } else {
        let dir = directory_of(entries.last().id@);
        directory_set(entries.drop_last()).insert(dir).union(
            Set::new(|p: Seq<char>| exists|j: int| 0 <= j < dir.len() && dir[j] == '/' && p == dir.take(j)),
        )
    }
}

/// In a list of entries whose IDs are strictly sorted, an ID names one entry.
pub proof fn lemma_unique_ids(entries: Seq<Entry>, i: int, j: int)
    requires
        strictly_sorted(ids(entries)),
        0 <= i < entries.len(),
        0 <= j < entries.len(),
        entries[i].id@ == entries[j].id@,
    ensures
        i == j,
{
    if i != j {
        let (a, b) = if i < j { (i, j) } else { (j, i) };
        assert(chars_less(ids(entries)[a], ids(entries)[b]));
        lemma_less_irreflexive(entries[i].id@);
    }
}

/// The concepts `links` resolve to from the concept `from`, in order.
pub open spec fn resolved_targets(links: Seq<Link>, from: Seq<char>) -> Seq<Seq<char>>
    decreases links.len(),
{
    if links.len() == 0 {
        seq![]
    } else {
        let rest = resolved_targets(links.drop_last(), from);
        match resolve_link(links.last().target@, links.last().kind, from) {
            Some(t) => rest.push(t),
            None => rest,
        }
    }
}

/// `s` with every repeat of an earlier element removed.
pub open spec fn first_occurrences(s: Seq<Seq<char>>) -> Seq<Seq<char>>
    decreases s.len(),
{
    if s.len() == 0 {
        seq![]
    } else {
        let rest = first_occurrences(s.drop_last());
        if rest.contains(s.last()) {
            rest
        } else {
            rest.push(s.last())
        }
    }
}

proof fn lemma_first_occurrences_contains(s: Seq<Seq<char>>, x: Seq<char>)
    ensures
        first_occurrences(s).contains(x) <==> s.contains(x),
    decreases s.len(),
{
    if s.len() > 0 {
        lemma_first_occurrences_contains(s.drop_last(), x);
        lemma_first_occurrences_contains(s.drop_last(), s.last());
        assert(s =~= s.drop_last().push(s.last()));
        lemma_push_contains(s.drop_last(), s.last(), x);
        let rest = first_occurrences(s.drop_last());
        lemma_push_contains(rest, s.last(), x);
    }
}

/// `first_occurrences` never holds an element twice.
pub proof fn lemma_first_occurrences_distinct(s: Seq<Seq<char>>)
    ensures
        first_occurrences(s).no_duplicates(),
    decreases s.len(),
{
    if s.len() > 0 {
        lemma_first_occurrences_distinct(s.drop_last());
        let rest = first_occurrences(s.drop_last());
        if !rest.contains(s.last()) {
            let out = rest.push(s.last());
            assert forall|i: int, j: int| 0 <= i < out.len() && 0 <= j < out.len() && i != j implies out[i]
                != out[j] by {
                if i < rest.len() && j < rest.len() {
                } else if i == rest.len() {
                    assert(out[j] == rest[j]);
                } else {
                    assert(out[i] == rest[i]);
                }
            }
        }
    }
}

/// The concepts a concept links to are listed once each, and are exactly
/// the concepts its links resolve to.
pub proof fn lemma_links_listed_once(links: Seq<Link>, from: Seq<char>, target: Seq<char>)
    ensures
        first_occurrences(resolved_targets(links, from)).no_duplicates(),
        first_occurrences(resolved_targets(links, from)).contains(target) <==> resolved_targets(
            links,
            from,
        ).contains(target),
{
    lemma_first_occurrences_distinct(resolved_targets(links, from));
    lemma_first_occurrences_contains(resolved_targets(links, from), target);
}

proof fn lemma_linking_ids_contains(entries: Seq<Entry>, id: Seq<char>, k: int)
    requires
        strictly_sorted(ids(entries)),
        0 <= k < entries.len(),
        entries[k].id@ != id,
    ensures
        linking_ids(entries, id).contains(entries[k].id@) <==> resolved_targets(
            entries[k].body.links@,
            entries[k].id@,
        ).contains(id),
    decreases entries.len(),
{
    let last = entries.len() - 1;
    let rest = linking_ids(entries.drop_last(), id);
    assert(ids(entries.drop_last()) =~= ids(entries).drop_last());
    if k < last {
        lemma_linking_ids_contains(entries.drop_last(), id, k);
        assert(entries.drop_last()[k] == entries[k]);
        let e = entries.last();
        if e.id@ != id && resolved_targets(e.body.links@, e.id@).contains(id) {
            lemma_push_contains(rest, e.id@, entries[k].id@);
            if e.id@ == entries[k].id@ {
                lemma_unique_ids(entries, k, last);
            }
        }
    } else {
        lemma_linking_ids_from(entries.drop_last(), id, entries[k].id@);
        if rest.contains(entries[k].id@) {
            let i = choose|i: int|
                0 <= i < entries.drop_last().len() && #[trigger] entries.drop_last()[i].id@ == entries[k].id@;
            assert(entries[i].id@ == entries[k].id@);
            lemma_unique_ids(entries, i, k);
        }
        let e = entries.last();
        if e.id@ != id && resolved_targets(e.body.links@, e.id@).contains(id) {
            lemma_push_contains(rest, e.id@, entries[k].id@);
        }
    }
}

proof fn lemma_linking_ids_from(entries: Seq<Entry>, id: Seq<char>, x: Seq<char>)
    ensures
        linking_ids(entries, id).contains(x) ==> exists|i: int|
            0 <= i < entries.len() && #[trigger] entries[i].id@ == x,
    decreases entries.len(),
{
    if entries.len() > 0 {
        lemma_linking_ids_from(entries.drop_last(), id, x);
        let rest = linking_ids(entries.drop_last(), id);
        let e = entries.last();
        if e.id@ != id && resolved_targets(e.body.links@, e.id@).contains(id) {
            lemma_push_contains(rest, e.id@, x);
        }
        if rest.contains(x) {
            let i = choose|i: int| 0 <= i < entries.drop_last().len() && #[trigger] entries.drop_last()[i].id@ == x;
            assert(entries[i].id@ == x);
        }
        if e.id@ == x {
            assert(entries[entries.len() - 1].id@ == x);
        }
    }
}

/// The IDs of the entries, other than `id` itself, that link to `id`.
pub open spec fn linking_ids(entries: Seq<Entry>, id: Seq<char>) -> Seq<Seq<char>>
    decreases entries.len(),
{
    if entries.len() == 0 {
        seq![]
    } else {
        let rest = linking_ids(entries.drop_last(), id);
        let e = entries.last();
        if e.id@ != id && resolved_targets(e.body.links@, e.id@).contains(id) {
            rest.push(e.id@)
        } else {
            rest
        }
    }
}

/// The concepts `links` resolve to from `from`, each once, in order.
fn links_in(links: &Vec<Link>, from: &ConceptId) -> (r: Vec<ConceptId>)
    ensures
        r@.map_values(|c: ConceptId| c@) == first_occurrences(resolved_targets(links@, from@)),
{
    let mut out: Vec<ConceptId> = Vec::new();
    let mut i: usize = 0;
    while i < links.len()
        invariant
            i <= links@.len(),
            out@.map_values(|c: ConceptId| c@) == first_occurrences(
                resolved_targets(links@.take(i as int), from@),
            ),
        decreases links@.len() - i,
    {
        assert(links@.take(i + 1).drop_last() =~= links@.take(i as int));
        assert(links@.take(i + 1).last() == links@[i as int]);
        let ghost r0 = resolved_targets(links@.take(i as int), from@);
        if let Some(target) = links[i].resolve(from) {
            assert(resolved_targets(links@.take(i + 1), from@) == r0.push(target@));
            assert(r0.push(target@).drop_last() =~= r0);
            let ghost seen = out@.map_values(|c: ConceptId| c@);
            let mut k: usize = 0;
            let mut present = false;
            while k < out.len()
                invariant
                    k <= out@.len(),
                    seen == out@.map_values(|c: ConceptId| c@),
                    present == seen.take(k as int).contains(target@),
                decreases out@.len() - k,
            {
                assert(seen.take(k + 1) =~= seen.take(k as int).push(out@[k as int]@));
                proof {
                    lemma_push_contains(seen.take(k as int), out@[k as int]@, target@);
                }
                if str_eq(out[k].as_str(), target.as_str()) {
                    present = true;
                }
                k = k + 1;
            }
            assert(seen.take(k as int) =~= seen);
            if !present {
                out.push(target);
                assert(out@.map_values(|c: ConceptId| c@) =~= seen.push(target@));
            }
        } else {
            assert(resolved_targets(links@.take(i + 1), from@) == r0);
        }
        i = i + 1;
    }
    assert(links@.take(i as int) =~= links@);
    out
}


/// A concept is never its own backlink: whatever links a concept's body
/// holds, the concepts listed as linking to `id` never include `id` itself.
pub proof fn lemma_no_self_backlink(entries: Seq<Entry>, id: Seq<char>)
    ensures
        !linking_ids(entries, id).contains(id),
    decreases entries.len(),
{
    if entries.len() > 0 {
        lemma_no_self_backlink(entries.drop_last(), id);
        let rest = linking_ids(entries.drop_last(), id);
        let e = entries.last();
        if e.id@ != id && resolved_targets(e.body.links@, e.id@).contains(id) {
            lemma_push_contains(rest, e.id@, id);
        }
    }
}

/// The backlinks of `id` are exactly the other entries whose links resolve
/// to `id`: `x` is listed if and only if `x` is not `id` and the entry with
/// ID `x` links to `id`.
pub proof fn lemma_backlinks_are_the_linking_entries(entries: Seq<Entry>, id: Seq<char>, x: Seq<char>)
    requires
        strictly_sorted(ids(entries)),
    ensures
        linking_ids(entries, id).contains(x) <==> x != id && exists|k: int|
            0 <= k < entries.len() && #[trigger] entries[k].id@ == x && resolved_targets(
                entries[k].body.links@,
                entries[k].id@,
            ).contains(id),
{
    lemma_no_self_backlink(entries, id);
    lemma_linking_ids_from(entries, id, x);
    if linking_ids(entries, id).contains(x) {
        let k = choose|k: int| 0 <= k < entries.len() && #[trigger] entries[k].id@ == x;
        lemma_linking_ids_contains(entries, id, k);
    }
    if x != id && exists|k: int|
        0 <= k < entries.len() && #[trigger] entries[k].id@ == x && resolved_targets(
            entries[k].body.links@,
            entries[k].id@,
        ).contains(id) {
        let k = choose|k: int|
            0 <= k < entries.len() && #[trigger] entries[k].id@ == x && resolved_targets(
                entries[k].body.links@,
                entries[k].id@,
            ).contains(id);
        lemma_linking_ids_contains(entries, id, k);
    }
}

} // verus!
