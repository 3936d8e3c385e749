//! Ordered, duplicate-free lists of strings.
//!
//! Strings are ordered character by character, which for UTF-8 text is the
//! byte order that `str`'s `Ord` uses.

use vstd::prelude::*;
use vstd::string::*;

use crate::text::chars_of;

verus! {

/// Whether `a` sorts strictly before `b`, character by character.
pub open spec fn chars_less(a: Seq<char>, b: Seq<char>) -> bool
    decreases a.len(),
{
    if a.len() == 0 {
        b.len() > 0
    } else if b.len() == 0 {
        false
    } else if a[0] != b[0] {
        a[0] < b[0]
    } else {
        chars_less(a.drop_first(), b.drop_first())
    }
}

pub proof fn lemma_less_irreflexive(a: Seq<char>)
    ensures
        !chars_less(a, a),
    decreases a.len(),
{
    if a.len() > 0 {
        lemma_less_irreflexive(a.drop_first());
    }
}

pub proof fn lemma_less_transitive(a: Seq<char>, b: Seq<char>, c: Seq<char>)
    requires
        chars_less(a, b),
        chars_less(b, c),
    ensures
        chars_less(a, c),
    decreases a.len(),
{
    if a.len() > 0 && b.len() > 0 && c.len() > 0 && a[0] == b[0] && b[0] == c[0] {
        lemma_less_transitive(a.drop_first(), b.drop_first(), c.drop_first());
    }
}

pub proof fn lemma_less_total(a: Seq<char>, b: Seq<char>)
    ensures
        a == b || chars_less(a, b) || chars_less(b, a),
    decreases a.len(),
{
    if a.len() > 0 && b.len() > 0 && a[0] == b[0] {
        lemma_less_total(a.drop_first(), b.drop_first());
        if a.drop_first() == b.drop_first() {
            assert(a =~= seq![a[0]] + a.drop_first());
            assert(b =~= seq![b[0]] + b.drop_first());
        }
    } else if a.len() == 0 && b.len() == 0 {
        assert(a =~= b);
    }
}

pub proof fn lemma_less_asymmetric(a: Seq<char>, b: Seq<char>)
    requires
        chars_less(a, b),
    ensures
        !chars_less(b, a),
{
    if chars_less(b, a) {
        lemma_less_transitive(a, b, a);
        lemma_less_irreflexive(a);
    }
}

/// Whether `a` sorts strictly before `b`.
pub fn less_than(a: &[char], b: &[char]) -> (r: bool)
    ensures
        r == chars_less(a@, b@),
{
    let mut i: usize = 0;
    assert(a@.skip(0) =~= a@ && b@.skip(0) =~= b@);
    while i < a.len() && i < b.len() && a[i] == b[i]
        invariant
            i <= a@.len(),
            i <= b@.len(),
            chars_less(a@, b@) == chars_less(a@.skip(i as int), b@.skip(i as int)),
        decreases a@.len() - i,
    {
        assert(a@.skip(i as int).drop_first() =~= a@.skip(i + 1));
        assert(b@.skip(i as int).drop_first() =~= b@.skip(i + 1));
        i = i + 1;
    }
    if i == a.len() {
        i < b.len()
    } else if i == b.len() {
        false
    } else {
        assert(a@.skip(i as int)[0] == a@[i as int]);
        assert(b@.skip(i as int)[0] == b@[i as int]);
        a[i] < b[i]
    }
}

/// Whether every element of `s` sorts strictly before every later one.
pub open spec fn strictly_sorted(s: Seq<Seq<char>>) -> bool {
    forall|i: int, j: int| 0 <= i < j < s.len() ==> chars_less(#[trigger] s[i], #[trigger] s[j])
}

/// The characters of each string.
pub open spec fn texts(v: Seq<String>) -> Seq<Seq<char>> {
    v.map_values(|s: String| s@)
}

/// Adds `item` to a sorted, duplicate-free list, keeping it so.
pub fn insert_sorted(v: &mut Vec<String>, item: String)
    requires
        strictly_sorted(texts(old(v)@)),
    ensures
        strictly_sorted(texts(final(v)@)),
        texts(final(v)@).to_set() == texts(old(v)@).to_set().insert(item@),
{
    let key = chars_of(item.as_str());
    let mut p: usize = 0;
    while p < v.len() && less_than(chars_of(v[p].as_str()).as_slice(), key.as_slice())
        invariant
            p <= v@.len(),
            key@ == item@,
            forall|i: int| 0 <= i < p ==> chars_less(#[trigger] texts(v@)[i], item@),
        decreases v@.len() - p,
    {
        p = p + 1;
    }
    let ghost before = texts(v@);
    if p < v.len() && crate::text::str_eq(v[p].as_str(), item.as_str()) {
        assert(before[p as int] == item@);
        assert(before.to_set() =~= before.to_set().insert(item@));
        return;
    }
    proof {
        if p < before.len() {
            lemma_less_total(before[p as int], item@);
        }
    }
    v.insert(p, item);
    let ghost after = texts(v@);
    assert(after =~= before.take(p as int).push(item@) + before.skip(p as int));
    assert forall|i: int, j: int| 0 <= i < j < after.len() implies chars_less(
        #[trigger] after[i],
        #[trigger] after[j],
    ) by {
        if j < p {
            assert(after[i] == before[i] && after[j] == before[j]);
        } else if j == p {
            assert(after[i] == before[i]);
        } else if i == p {
            assert(after[j] == before[j - 1]);
            assert(chars_less(item@, before[p as int]));
            if j - 1 > p {
                lemma_less_transitive(item@, before[p as int], before[j - 1]);
            }
        } else if i < p {
            assert(after[i] == before[i] && after[j] == before[j - 1]);
        } else {
            assert(after[i] == before[i - 1] && after[j] == before[j - 1]);
        }
    }
    assert forall|x: Seq<char>| after.to_set().contains(x) <==> before.to_set().insert(
        item@,
    ).contains(x) by {
        if after.to_set().contains(x) {
            let k = choose|k: int| 0 <= k < after.len() && after[k] == x;
            if k < p {
                assert(before[k] == x);
            } else if k > p {
                assert(before[k - 1] == x);
            }
        }
        if before.to_set().contains(x) {
            let k = choose|k: int| 0 <= k < before.len() && before[k] == x;
            if k < p {
                assert(after[k] == x);
            } else {
                assert(after[k + 1] == x);
            }
        }
        if x == item@ {
            assert(after[p as int] == x);
        }
    }
    assert(after.to_set() =~= before.to_set().insert(item@));
}

/// Whether a sorted list holds `item`.
pub fn holds_text(v: &Vec<String>, item: &str) -> (b: bool)
    ensures
        b == texts(v@).contains(item@),
{
    let mut i: usize = 0;
    while i < v.len()
        invariant
            i <= v@.len(),
            forall|j: int| 0 <= j < i ==> #[trigger] texts(v@)[j] != item@,
        decreases v@.len() - i,
    {
        if crate::text::str_eq(v[i].as_str(), item) {
            assert(texts(v@)[i as int] == item@);
            return true;
        }
        i = i + 1;
    }
    false
}

} // verus!

verus! {

/// An element is in `s.push(a)` exactly when it is in `s` or is `a`.
pub proof fn lemma_push_contains<A>(s: Seq<A>, a: A, x: A)
    ensures
        s.push(a).contains(x) <==> (s.contains(x) || a == x),
{
    if s.push(a).contains(x) && x != a {
        let k = choose|k: int| 0 <= k < s.push(a).len() && s.push(a)[k] == x;
        assert(s[k] == x);
    }
    if s.contains(x) {
        let k = choose|k: int| 0 <= k < s.len() && s[k] == x;
        assert(s.push(a)[k] == x);
    }
    if a == x {
        assert(s.push(a)[s.len() as int] == x);
    }
}

} // verus!
