//! Concept identifiers: a concept's path within the bundle, minus `.md`.

use vstd::prelude::*;
use vstd::std_specs::cmp::PartialEqSpecImpl;
use vstd::string::*;

use crate::text::{chars_of, ends_with, find_last, join_with, last_index_of, lemma_last_index_of, lemma_split_on_nonempty, split_on, string_of};

verus! {

/// The characters `.md`.
pub open spec fn md_suffix() -> Seq<char> {
    seq!['.', 'm', 'd']
}

/// `s` with one trailing `.md` removed, like `str::strip_suffix(".md")`.
pub open spec fn strip_md(s: Seq<char>) -> Seq<char> {
    if ends_with(s, md_suffix()) {
        s.subrange(0, s.len() - 3)
    } else {
        s
    }
}

/// A path segment that survives normalisation: not empty, not `.`.
pub open spec fn is_kept_segment(segment: Seq<char>) -> bool {
    segment.len() > 0 && segment != seq!['.']
}

/// [`is_kept_segment`] as a predicate value, for filtering.
pub open spec fn kept_pred() -> spec_fn(Seq<char>) -> bool {
    |s: Seq<char>| is_kept_segment(s)
}

/// Whether a relative path stays inside the bundle: no root, no `..`.
pub open spec fn stays_inside(path: Seq<char>) -> bool {
    !(path.len() > 0 && path[0] == '/') && !split_on(path, '/').contains(seq!['.', '.'])
}

/// The concept ID a bundle-relative path names, if any.
///
/// Empty and `.` segments are dropped, a leading `/` or any `..` segment
/// escapes the bundle, and one trailing `.md` is removed.
pub open spec fn concept_id_of(path: Seq<char>) -> Option<Seq<char>> {
    if !stays_inside(path) {
        None
    } else {
        let id = strip_md(join_with(split_on(path, '/').filter(kept_pred()), '/'));
        if id.len() == 0 {
            None
        } else {
            Some(id)
        }
    }
}

/// A concept's path within its bundle with the `.md` suffix removed.
///
/// Always slash-separated regardless of host platform, so IDs written on
/// Windows match the links inside documents.
#[derive(Debug, PartialOrd, Ord, Hash)]
pub struct ConceptId(String);

impl View for ConceptId {
    type V = Seq<char>;

    closed spec fn view(&self) -> Seq<char> {
        self.0@
    }
}

impl PartialEq for ConceptId {
    fn eq(&self, other: &Self) -> (r: bool) {
        self.0 == other.0
    }
}

impl Eq for ConceptId {}

impl Clone for ConceptId {
    fn clone(&self) -> (r: Self)
        ensures
            r@ == self@,
    {
        ConceptId(self.0.clone())
    }
}

impl PartialEqSpecImpl for ConceptId {
    open spec fn obeys_eq_spec() -> bool {
        true
    }

    open spec fn eq_spec(&self, other: &Self) -> bool {
        self@ == other@
    }
}

} // verus!

verus! {

/// The final segment of an ID.
pub open spec fn name_of(id: Seq<char>) -> Seq<char> {
    match last_index_of(id, '/') {
        Some(i) => id.subrange(i + 1, id.len() as int),
        None => id,
    }
}

/// The directory part of an ID, or `None` at the bundle root.
pub open spec fn parent_of(id: Seq<char>) -> Option<Seq<char>> {
    match last_index_of(id, '/') {
        Some(i) => Some(id.subrange(0, i)),
        None => None,
    }
}

/// The bundle-relative file path for an ID: the ID with `.md` appended.
pub open spec fn relative_path_of(id: Seq<char>) -> Seq<char> {
    id + md_suffix()
}

proof fn lemma_contains_push(s: Seq<Seq<char>>, a: Seq<char>, x: Seq<char>)
    ensures
        s.push(a).contains(x) <==> (s.contains(x) || a == x),
{
    if s.push(a).contains(x) {
        let k = choose|k: int| 0 <= k < s.push(a).len() && s.push(a)[k] == x;
        if k < s.len() {
            assert(s[k] == x);
        }
    }
    if s.contains(x) {
        let k = choose|k: int| 0 <= k < s.len() && s[k] == x;
        assert(s.push(a)[k] == x);
    }
    if a == x {
        assert(s.push(a)[s.len() as int] == x);
    }
}

fn is_dot_dot(segment: &Vec<char>) -> (b: bool)
    ensures
        b == (segment@ == seq!['.', '.']),
{
    if segment.len() == 2 && segment[0] == '.' && segment[1] == '.' {
        assert(segment@ =~= seq!['.', '.']);
        true
    } else {
        false
    }
}

fn is_kept(segment: &Vec<char>) -> (b: bool)
    ensures
        b == is_kept_segment(segment@),
{
    if segment.len() == 0 {
        false
    } else if segment.len() == 1 && segment[0] == '.' {
        assert(segment@ =~= seq!['.']);
        false
    } else {
        assert(segment@.len() != 1 || segment@[0] != '.');
        assert(segment@ != seq!['.']);
        true
    }
}

proof fn lemma_join_empty(parts: Seq<Seq<char>>)
    requires
        forall|k: int| 0 <= k < parts.len() ==> #[trigger] parts[k].len() > 0,
    ensures
        (join_with(parts, '/').len() == 0) <==> (parts.len() == 0),
    decreases parts.len(),
{
    if parts.len() > 1 {
        lemma_join_empty(parts.drop_last());
    }
}

/// Appends `segment` to a join under construction.
fn append_segment(out: &mut Vec<char>, segment: &Vec<char>, Ghost(parts): Ghost<Seq<Seq<char>>>)
    requires
        old(out)@ == join_with(parts, '/'),
        forall|k: int| 0 <= k < parts.len() ==> #[trigger] parts[k].len() > 0,
    ensures
        final(out)@ == join_with(parts.push(segment@), '/'),
{
    let ghost pushed = parts.push(segment@);
    assert(pushed.drop_last() =~= parts);
    proof {
        lemma_join_empty(parts);
    }
    if out.len() > 0 {
        out.push('/');
    }
    let mut k: usize = 0;
    let ghost start = out@;
    while k < segment.len()
        invariant
            k <= segment@.len(),
            out@ == start + segment@.take(k as int),
        decreases segment@.len() - k,
    {
        out.push(segment[k]);
        k = k + 1;
        assert(out@ =~= start + segment@.take(k as int));
    }
    assert(segment@.take(segment@.len() as int) =~= segment@);
    proof {
        if parts.len() == 0 {
            assert(out@ =~= segment@);
        }
    }
}

} // verus!

verus! {

/// The length-3 suffix check used when stripping `.md`.
fn strip_md_exec(v: Vec<char>) -> (r: Vec<char>)
    ensures
        r@ == strip_md(v@),
{
    let n = v.len();
    if n >= 3 && v[n - 3] == '.' && v[n - 2] == 'm' && v[n - 1] == 'd' {
        assert(v@.subrange(n - 3, n as int) =~= md_suffix());
        let mut r: Vec<char> = Vec::new();
        let mut i: usize = 0;
        while i < n - 3
            invariant
                n == v@.len(),
                n >= 3,
                i <= n - 3,
                r@ == v@.take(i as int),
            decreases n - 3 - i,
        {
            r.push(v[i]);
            i = i + 1;
            assert(r@ =~= v@.take(i as int));
        }
        assert(r@ =~= v@.subrange(0, n - 3));
        r
    } else {
        proof {
            if ends_with(v@, md_suffix()) {
                let tail = v@.subrange(n - 3, n as int);
                assert(tail[0] == '.' && tail[1] == 'm' && tail[2] == 'd');
            }
        }
        v
    }
}

impl ConceptId {
    /// Builds an ID from a bundle-relative path, dropping any `.md` suffix.
    ///
    /// Returns `None` for paths that escape the bundle root or are empty.
    pub fn from_relative_path(path: &str) -> (r: Option<Self>)
        ensures
            r matches Some(id) ==> concept_id_of(path@) == Some(id@),
            r is None ==> concept_id_of(path@) is None,
    {
        let cs = chars_of(path);
        let n = cs.len();
        let leading_root = n > 0 && cs[0] == '/';
        let ghost pred = kept_pred();
        let mut out: Vec<char> = Vec::new();
        let mut current: Vec<char> = Vec::new();
        let mut escapes = false;
        let ghost mut kept: Seq<Seq<char>> = Seq::empty();
        let mut i: usize = 0;
        assert(cs@.take(0) =~= Seq::<char>::empty());
        while i < n
            invariant
                n == cs@.len(),
                i <= n,
                pred == kept_pred(),
                split_on(cs@.take(i as int), '/').len() >= 1,
                split_on(cs@.take(i as int), '/').last() == current@,
                kept == split_on(cs@.take(i as int), '/').drop_last().filter(pred),
                forall|k: int| 0 <= k < kept.len() ==> #[trigger] kept[k].len() > 0,
                out@ == join_with(kept, '/'),
                escapes == split_on(cs@.take(i as int), '/').drop_last().contains(seq!['.', '.']),
            decreases n - i,
        {
            let c = cs[i];
            let ghost parts = split_on(cs@.take(i as int), '/');
            assert(cs@.take(i + 1).drop_last() =~= cs@.take(i as int));
            if c == '/' {
                let ghost next = parts.push(Seq::<char>::empty());
                assert(next.drop_last() =~= parts);
                assert(split_on(cs@.take(i + 1), '/') == next);
                assert(parts =~= parts.drop_last().push(current@));
                proof {
                    lemma_contains_push(parts.drop_last(), current@, seq!['.', '.']);
                    parts.drop_last().lemma_filter_push(current@, pred);
                }
                assert(pred(current@) == is_kept_segment(current@));
                assert(parts.drop_last().push(current@).filter(pred) == parts.filter(pred));
                assert(parts.filter(pred) == if is_kept_segment(current@) {
                    parts.drop_last().filter(pred).push(current@)
                } else {
                    parts.drop_last().filter(pred)
                });
                if is_dot_dot(&current) {
                    escapes = true;
                }
                if is_kept(&current) {
                    append_segment(&mut out, &current, Ghost(kept));
                    proof {
                        kept = kept.push(current@);
                    }
                }
                assert(kept == next.drop_last().filter(pred));
                current = Vec::new();
            } else {
                let ghost next = parts.update(parts.len() - 1, parts.last().push(c));
                assert(next.drop_last() =~= parts.drop_last());
                assert(split_on(cs@.take(i + 1), '/') == next);
                assert(kept == next.drop_last().filter(pred));
                current.push(c);
            }
            i = i + 1;
        }
        assert(cs@.take(n as int) =~= cs@);
        let ghost parts = split_on(cs@, '/');
        assert(parts =~= parts.drop_last().push(current@));
        proof {
            lemma_contains_push(parts.drop_last(), current@, seq!['.', '.']);
            parts.drop_last().lemma_filter_push(current@, pred);
        }
        if leading_root || escapes || is_dot_dot(&current) {
            return None;
        }
        if is_kept(&current) {
            append_segment(&mut out, &current, Ghost(kept));
        }
        let id = strip_md_exec(out);
        if id.len() == 0 {
            None
        } else {
            Some(ConceptId(string_of(id.as_slice())))
        }
    }
}

} // verus!

verus! {

impl ConceptId {
    pub fn as_str(&self) -> (s: &str)
        ensures
            s@ == self@,
    {
        self.0.as_str()
    }

    /// The ID as an owned string, as `Display` renders it.
    pub fn to_string(&self) -> (s: String)
        ensures
            s@ == self@,
    {
        self.0.clone()
    }

    /// The final path segment.
    pub fn name(&self) -> (s: &str)
        ensures
            s@ == name_of(self@),
    {
        let text = self.0.as_str();
        let cs = chars_of(text);
        proof {
            lemma_last_index_of(cs@, '/');
        }
        match find_last(cs.as_slice(), '/') {
            Some(i) => text.substring_char(i + 1, cs.len()),
            None => text,
        }
    }

    /// The parent directory, or `None` for a concept at the bundle root.
    pub fn parent(&self) -> (p: Option<&str>)
        ensures
            p matches Some(s) ==> parent_of(self@) == Some(s@),
            p is None ==> parent_of(self@) is None,
    {
        let text = self.0.as_str();
        let cs = chars_of(text);
        proof {
            lemma_last_index_of(cs@, '/');
        }
        match find_last(cs.as_slice(), '/') {
            Some(i) => Some(text.substring_char(0, i)),
            None => None,
        }
    }

    /// The path this ID corresponds to, relative to the bundle root.
    pub fn to_relative_path(&self) -> (p: String)
        ensures
            p@ == relative_path_of(self@),
    {
        let mut out = self.0.as_str().to_owned();
        crate::text::push_str(&mut out, ".md");
        proof {
            reveal_strlit(".md");
            assert(".md"@ =~= md_suffix());
        }
        out
    }
}

} // verus!
