//! The self-contained page of the offline graph viewer.
//!
//! The page is a template with placeholders for the viewer's script and
//! styles, the libraries it uses, the bundle's name and the graph data. All
//! of them are filled in here, so opening the page fetches nothing.

use vstd::prelude::*;

use crate::text::{chars_of, push_char, string_of};

verus! {

/// `s` with every occurrence of `from` replaced by `to`, scanning left to
/// right and not overlapping, as `str::replace` does for a non-empty `from`.
pub open spec fn replaced(s: Seq<char>, from: Seq<char>, to: Seq<char>) -> Seq<char>
    recommends
        from.len() > 0,
    decreases s.len(),
{
    if from.len() == 0 || s.len() == 0 {
        s
    } else if from.len() <= s.len() && s.subrange(0, from.len() as int) == from {
        to + replaced(s.skip(from.len() as int), from, to)
    } else {
        seq![s[0]] + replaced(s.skip(1), from, to)
    }
}

/// Replaces every occurrence of the non-empty `from` in `s` by `to`.
fn replace_all(s: &str, from: &str, to: &str) -> (r: String)
    requires
        from@.len() > 0,
    ensures
        r@ == replaced(s@, from@, to@),
{
    let cs = chars_of(s);
    let pat = chars_of(from);
    let rep = chars_of(to);
    let mut out = String::new();
    let total = cs.len();
    assert(total == cs@.len());
    let mut i: usize = 0;
    assert(cs@.skip(0) =~= cs@);
    while i < cs.len()
        invariant
            cs@ == s@,
            pat@ == from@,
            rep@ == to@,
            pat@.len() > 0,
            cs@.len() <= usize::MAX,
            i <= cs@.len(),
            out@ + replaced(cs@.skip(i as int), from@, to@) == replaced(s@, from@, to@),
        decreases cs@.len() - i,
    {
        let ghost rest = cs@.skip(i as int);
        let mut here = pat.len() <= cs.len() - i;
        if here {
            let mut j: usize = 0;
            while j < pat.len()
                invariant
                    cs@ == s@,
                    pat@ == from@,
                    i + pat@.len() <= cs@.len(),
                    cs@.len() <= usize::MAX,
                    j <= pat@.len(),
                    here == (forall|q: int| 0 <= q < j ==> cs@[i + q] == pat@[q]),
                decreases pat@.len() - j,
            {
                let at: usize = i + j;
                if cs[at] != pat[j] {
                    here = false;
                }
                j = j + 1;
            }
        }
        proof {
            if here {
                assert(rest.subrange(0, from@.len() as int) =~= from@);
            } else if from@.len() <= rest.len() {
                if rest.subrange(0, from@.len() as int) == from@ {
                    assert forall|q: int| 0 <= q < pat@.len() implies cs@[i + q] == pat@[q] by {
                        assert(rest.subrange(0, from@.len() as int)[q] == from@[q]);
                    }
                }
            }
        }
        let ghost before = out@;
        if here {
            let mut k: usize = 0;
            while k < rep.len()
                invariant
                    rep@ == to@,
                    k <= rep@.len(),
                    out@ == before + rep@.take(k as int),
                decreases rep@.len() - k,
            {
                push_char(&mut out, rep[k]);
                k = k + 1;
                assert(out@ =~= before + rep@.take(k as int));
            }
            assert(rep@.take(k as int) =~= rep@);
            assert(rest.skip(from@.len() as int) =~= cs@.skip(i + pat.len()));
            assert(out@ + replaced(cs@.skip(i + pat.len()), from@, to@) =~= before + replaced(
                rest,
                from@,
                to@,
            ));
            i = i + pat.len();
        } else {
            push_char(&mut out, cs[i]);
            assert(rest.skip(1) =~= cs@.skip(i + 1));
            assert(out@ + replaced(cs@.skip(i + 1), from@, to@) =~= before + replaced(
                rest,
                from@,
                to@,
            ));
            i = i + 1;
        }
    }
    assert(cs@.skip(i as int) =~= Seq::<char>::empty());
    assert(out@ + Seq::<char>::empty() =~= out@);
    out
}

/// The pieces a viewer page is made of.
pub struct PageParts<'a> {
    /// The page, with its placeholders.
    pub template: &'a str,
    pub cytoscape_js: &'a str,
    pub marked_js: &'a str,
    pub viewer_css: &'a str,
    pub viewer_js: &'a str,
    /// The bundle's name as a JSON string literal.
    pub bundle_name: &'a str,
    /// The graph as a JSON document.
    pub bundle_data: &'a str,
}

/// The page made of `p`: each placeholder replaced in turn, the libraries
/// and the viewer's own script and styles first, the bundle's name and data
/// last.
pub open spec fn page_of(p: PageParts) -> Seq<char> {
    replaced(
        replaced(
            replaced(
                replaced(
                    replaced(
                        replaced(p.template@, "/*__CYTOSCAPE_JS__*/"@, p.cytoscape_js@),
                        "/*__MARKED_JS__*/"@,
                        p.marked_js@,
                    ),
                    "/*__VIZ_CSS__*/"@,
                    p.viewer_css@,
                ),
                "/*__VIZ_JS__*/"@,
                p.viewer_js@,
            ),
            "__BUNDLE_NAME__"@,
            p.bundle_name@,
        ),
        "__BUNDLE_DATA__"@,
        p.bundle_data@,
    )
}

/// Everything the viewer needs, as one self-contained page.
#[derive(Debug, Clone)]
pub struct Viewer {
    html: String,
}

impl Viewer {
    /// The page served.
    pub closed spec fn page(&self) -> Seq<char> {
        self.html@
    }

    /// Assembles the page from its parts.
    pub fn assemble(parts: &PageParts) -> (v: Self)
        ensures
            v.page() == page_of(*parts),
    {
        proof {
            reveal_strlit("/*__CYTOSCAPE_JS__*/");
            reveal_strlit("/*__MARKED_JS__*/");
            reveal_strlit("/*__VIZ_CSS__*/");
            reveal_strlit("/*__VIZ_JS__*/");
            reveal_strlit("__BUNDLE_NAME__");
            reveal_strlit("__BUNDLE_DATA__");
        }
        let html = replace_all(parts.template, "/*__CYTOSCAPE_JS__*/", parts.cytoscape_js);
        let html = replace_all(html.as_str(), "/*__MARKED_JS__*/", parts.marked_js);
        let html = replace_all(html.as_str(), "/*__VIZ_CSS__*/", parts.viewer_css);
        let html = replace_all(html.as_str(), "/*__VIZ_JS__*/", parts.viewer_js);
        let html = replace_all(html.as_str(), "__BUNDLE_NAME__", parts.bundle_name);
        let html = replace_all(html.as_str(), "__BUNDLE_DATA__", parts.bundle_data);
        Viewer { html }
    }

    pub fn html(&self) -> (h: &str)
        ensures
            h@ == self.page(),
    {
        self.html.as_str()
    }
}

} // verus!
