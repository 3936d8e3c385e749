//! Per-rule severity overrides: strict mode, denied rules and allowed rules.
//!
//! Allowing a rule wins over denying it and over strict mode: silencing a
//! rule is the most specific instruction a caller can give.

use vstd::prelude::*;
use vstd::string::*;

use crate::diagnostic::{findings, rule, rule_for, Diagnostic, Finding, RuleKind, Severity};
use crate::sorted::{holds_text, insert_sorted, lemma_push_contains, strictly_sorted, texts};
use crate::text::push_str;

verus! {

/// Rule codes to promote, rule codes to silence, and whether warnings count
/// as errors.
#[derive(Debug)]
pub struct SeverityOverrides {
    denied: Vec<String>,
    allowed: Vec<String>,
    strict: bool,
}

impl SeverityOverrides {
    #[verifier::type_invariant]
    spec fn sorted(&self) -> bool {
        strictly_sorted(texts(self.denied@)) && strictly_sorted(texts(self.allowed@))
    }

    /// The rule codes promoted to errors.
    pub closed spec fn denied_codes(&self) -> Set<Seq<char>> {
        texts(self.denied@).to_set()
    }

    /// The rule codes silenced.
    pub closed spec fn allowed_codes(&self) -> Set<Seq<char>> {
        texts(self.allowed@).to_set()
    }

    /// Whether warnings are promoted to errors.
    pub closed spec fn is_strict(&self) -> bool {
        self.strict
    }
}

impl Default for SeverityOverrides {
    fn default() -> (o: Self)
        ensures
            o.denied_codes() == Set::<Seq<char>>::empty(),
            o.allowed_codes() == Set::<Seq<char>>::empty(),
            !o.is_strict(),
    {
        let o = SeverityOverrides { denied: Vec::new(), allowed: Vec::new(), strict: false };
        assert(texts(o.denied@).to_set() =~= Set::<Seq<char>>::empty());
        assert(texts(o.allowed@).to_set() =~= Set::<Seq<char>>::empty());
        o
    }
}

/// The first code in `codes` that names no rule.
pub open spec fn first_unknown(codes: Seq<Seq<char>>) -> Option<Seq<char>>
    decreases codes.len(),
{
    if codes.len() == 0 {
        None
    } else {
        match first_unknown(codes.drop_last()) {
            Some(c) => Some(c),
            None => if rule_for(codes.last()) is None {
                Some(codes.last())
            } else {
                None
            },
        }
    }
}

/// The message for an unknown rule code.
pub open spec fn unknown_rule_message(code: Seq<char>) -> Seq<char> {
    "unknown rule `"@ + code + "`; run `okf rules` to list the available codes"@
}

/// What the overrides make of one finding: conformance findings pass
/// unchanged; an allowed rule is dropped; a denied rule, or a warning in
/// strict mode, becomes an error; anything else passes unchanged.
pub open spec fn overridden(
    denied: Set<Seq<char>>,
    allowed: Set<Seq<char>>,
    strict: bool,
    f: Finding,
) -> Option<Finding> {
    if rule_for(f.code) matches Some(r) && r.kind == RuleKind::Conformance {
        Some(f)
    } else if allowed.contains(f.code) {
        None
    } else if denied.contains(f.code) || (strict && f.severity == Severity::Warning) {
        Some(Finding { severity: Severity::Error, ..f })
    } else {
        Some(f)
    }
}

/// What the overrides make of a list of findings, in order.
pub open spec fn overridden_all(
    denied: Set<Seq<char>>,
    allowed: Set<Seq<char>>,
    strict: bool,
    fs: Seq<Finding>,
) -> Seq<Finding>
    decreases fs.len(),
{
    if fs.len() == 0 {
        seq![]
    } else {
        let rest = overridden_all(denied, allowed, strict, fs.drop_last());
        match overridden(denied, allowed, strict, fs.last()) {
            Some(f) => rest.push(f),
            None => rest,
        }
    }
}

fn collect_codes(codes: &[String]) -> (r: Vec<String>)
    ensures
        strictly_sorted(texts(r@)),
        texts(r@).to_set() == texts(codes@).to_set(),
{
    let mut out: Vec<String> = Vec::new();
    let mut i: usize = 0;
    assert(texts(out@).to_set() =~= texts(codes@.take(0)).to_set());
    while i < codes.len()
        invariant
            i <= codes@.len(),
            strictly_sorted(texts(out@)),
            texts(out@).to_set() == texts(codes@.take(i as int)).to_set(),
        decreases codes@.len() - i,
    {
        insert_sorted(&mut out, codes[i].as_str().to_owned());
        assert(texts(codes@.take(i + 1)) =~= texts(codes@.take(i as int)).push(codes@[i as int]@));
        proof {
            let s = texts(codes@.take(i as int));
            let x = codes@[i as int]@;
            assert forall|y: Seq<char>| s.push(x).to_set().contains(y) <==> s.to_set().insert(x).contains(y) by {
                lemma_push_contains(s, x, y);
            }
            assert(s.push(x).to_set() =~= s.to_set().insert(x));
        }
        i = i + 1;
    }
    assert(codes@.take(i as int) =~= codes@);
    out
}

impl SeverityOverrides {
    /// Validates rule codes up front so a typo fails loudly instead of
    /// silently doing nothing.
    ///
    /// # Errors
    ///
    /// Returns a message naming the first unknown rule code.
    pub fn new(deny: &[String], allow: &[String], strict: bool) -> (r: Result<Self, String>)
        ensures
            match first_unknown(texts(deny@) + texts(allow@)) {
                Some(code) => r matches Err(m) && m@ == unknown_rule_message(code),
                None => r matches Ok(o) && o.denied_codes() == texts(deny@).to_set()
                    && o.allowed_codes() == texts(allow@).to_set() && o.is_strict() == strict,
            },
    {
        let ghost all = texts(deny@) + texts(allow@);
        let mut i: usize = 0;
        assert(all.take(0) =~= Seq::<Seq<char>>::empty());
        while i < deny.len()
            invariant
                all == texts(deny@) + texts(allow@),
                i <= deny@.len(),
                first_unknown(all.take(i as int)) is None,
            decreases deny@.len() - i,
        {
            assert(all[i as int] == deny@[i as int]@);
            assert(all.take(i + 1).drop_last() =~= all.take(i as int));
            if rule(deny[i].as_str()).is_none() {
                proof {
                    lemma_first_unknown_prefix(all, i + 1);
                }
                let mut m = "unknown rule `".to_owned();
                push_str(&mut m, deny[i].as_str());
                push_str(&mut m, "`; run `okf rules` to list the available codes");
                return Err(m);
            }
            i = i + 1;
        }
        let mut j: usize = 0;
        while j < allow.len()
            invariant
                all == texts(deny@) + texts(allow@),
                j <= allow@.len(),
                first_unknown(all.take(deny@.len() + j)) is None,
            decreases allow@.len() - j,
        {
            assert(all[deny@.len() + j] == allow@[j as int]@);
            assert(all.take(deny@.len() + j + 1).drop_last() =~= all.take(deny@.len() + j));
            if rule(allow[j].as_str()).is_none() {
                proof {
                    lemma_first_unknown_prefix(all, deny@.len() + j + 1);
                }
                let mut m = "unknown rule `".to_owned();
                push_str(&mut m, allow[j].as_str());
                push_str(&mut m, "`; run `okf rules` to list the available codes");
                return Err(m);
            }
            j = j + 1;
        }
        assert(all.take(deny@.len() + j) =~= all);
        Ok(
            SeverityOverrides {
                denied: collect_codes(deny),
                allowed: collect_codes(allow),
                strict,
            },
        )
    }

    /// Applies the overrides, dropping silenced diagnostics.
    ///
    /// Conformance diagnostics are never downgraded or dropped: they are
    /// requirements, so allowing `okf-type` must not make a broken bundle look
    /// conformant.
    pub fn apply(&self, diagnostics: Vec<Diagnostic>) -> (r: Vec<Diagnostic>)
        ensures
            findings(r@) == overridden_all(
                self.denied_codes(),
                self.allowed_codes(),
                self.is_strict(),
                findings(diagnostics@),
            ),
    {
        let ghost all = findings(diagnostics@);
        let ghost denied = self.denied_codes();
        let ghost allowed = self.allowed_codes();
        let mut input = diagnostics;
        let mut out: Vec<Diagnostic> = Vec::new();
        let mut done: usize = 0;
        let count = input.len();
        assert(all.len() == count);
        while input.len() > 0
            invariant
                all.len() == done + input@.len(),
                all.len() <= usize::MAX,
                findings(input@) == all.skip(done as int),
                denied == self.denied_codes(),
                allowed == self.allowed_codes(),
                findings(out@) == overridden_all(denied, allowed, self.strict, all.take(done as int)),
            decreases input@.len(),
        {
            let ghost prev_input = input@;
            let mut d = input.remove(0);
            assert(input@ == prev_input.remove(0));
            assert(findings(prev_input)[0] == all.skip(done as int)[0]);
            assert forall|k: int| 0 <= k < input@.len() implies #[trigger] findings(input@)[k]
                == all.skip(done + 1)[k] by {
                assert(input@[k] == prev_input[k + 1]);
                assert(findings(prev_input)[k + 1] == all.skip(done as int)[k + 1]);
            }
            assert(findings(input@) =~= all.skip(done + 1));
            assert(d@ == all[done as int]);
            assert(all.take(done + 1).drop_last() =~= all.take(done as int));
            assert(all.take(done + 1).last() == all[done as int]);
            let ghost f = d@;
            let is_conformance = match rule(d.code) {
                Some(r) => match r.kind {
                    RuleKind::Conformance => true,
                    RuleKind::Lint => false,
                },
                None => false,
            };
            let ghost before = findings(out@);
            if is_conformance {
                out.push(d);
                assert(findings(out@) =~= before.push(f));
            } else if holds_text(&self.allowed, d.code) {
            } else {
                let promote = holds_text(&self.denied, d.code) || (self.strict && match d.severity {
                    Severity::Warning => true,
                    _ => false,
                });
                if promote {
                    d.severity = Severity::Error;
                    out.push(d);
                    assert(findings(out@) =~= before.push(Finding { severity: Severity::Error, ..f }));
                } else {
                    out.push(d);
                    assert(findings(out@) =~= before.push(f));
                }
            }
            done = done + 1;
        }
        assert(all.take(done as int) =~= all);
        out
    }
}

proof fn lemma_first_unknown_prefix(s: Seq<Seq<char>>, k: int)
    requires
        0 <= k <= s.len(),
        first_unknown(s.take(k)) is Some,
    ensures
        first_unknown(s) == first_unknown(s.take(k)),
    decreases s.len() - k,
{
    if k < s.len() {
        assert(s.take(k + 1).drop_last() =~= s.take(k));
        lemma_first_unknown_prefix(s, k + 1);
    } else {
        assert(s.take(k) =~= s);
    }
}

/// Conformance findings are never dropped or downgraded, whatever the
/// overrides say.
pub proof fn lemma_conformance_untouched(
    denied: Set<Seq<char>>,
    allowed: Set<Seq<char>>,
    strict: bool,
    f: Finding,
)
    requires
        rule_for(f.code) matches Some(r) && r.kind == RuleKind::Conformance,
    ensures
        overridden(denied, allowed, strict, f) == Some(f),
{
}

/// Allowing an advisory rule silences it, even when it is also denied and
/// strict mode is on.
pub proof fn lemma_allow_beats_deny_and_strict(
    denied: Set<Seq<char>>,
    allowed: Set<Seq<char>>,
    strict: bool,
    f: Finding,
)
    requires
        !(rule_for(f.code) matches Some(r) && r.kind == RuleKind::Conformance),
        allowed.contains(f.code),
    ensures
        overridden(denied, allowed, strict, f) is None,
{
}

/// Strict mode promotes warnings to errors but leaves infos alone.
pub proof fn lemma_strict_promotes_only_warnings(
    denied: Set<Seq<char>>,
    allowed: Set<Seq<char>>,
    f: Finding,
)
    requires
        !(rule_for(f.code) matches Some(r) && r.kind == RuleKind::Conformance),
        !allowed.contains(f.code),
        !denied.contains(f.code),
    ensures
        f.severity == Severity::Warning ==> overridden(denied, allowed, true, f) == Some(
            Finding { severity: Severity::Error, ..f },
        ),
        f.severity == Severity::Info ==> overridden(denied, allowed, true, f) == Some(f),
{
}

} // verus!

verus! {

/// Without any override, applying the overrides changes nothing.
pub proof fn lemma_no_overrides_change_nothing(fs: Seq<Finding>)
    ensures
        overridden_all(Set::empty(), Set::empty(), false, fs) == fs,
    decreases fs.len(),
{
    if fs.len() > 0 {
        lemma_no_overrides_change_nothing(fs.drop_last());
        assert(fs.drop_last().push(fs.last()) =~= fs);
    }
}

/// Whether `a` is `b` with perhaps another severity.
pub open spec fn same_but_severity(a: Finding, b: Finding) -> bool {
    a == (Finding { severity: a.severity, ..b })
}

/// The overrides never add a finding: what they keep comes from the input,
/// with only its severity perhaps changed.
pub proof fn lemma_overrides_only_drop_or_promote(
    denied: Set<Seq<char>>,
    allowed: Set<Seq<char>>,
    strict: bool,
    fs: Seq<Finding>,
)
    ensures
        overridden_all(denied, allowed, strict, fs).len() <= fs.len(),
        forall|i: int|
            0 <= i < overridden_all(denied, allowed, strict, fs).len() ==> exists|j: int|
                0 <= j < fs.len() && same_but_severity(
                    #[trigger] overridden_all(denied, allowed, strict, fs)[i],
                    fs[j],
                ),
    decreases fs.len(),
{
    if fs.len() > 0 {
        lemma_overrides_only_drop_or_promote(denied, allowed, strict, fs.drop_last());
        let rest = overridden_all(denied, allowed, strict, fs.drop_last());
        let all = overridden_all(denied, allowed, strict, fs);
        assert forall|i: int| 0 <= i < all.len() implies exists|j: int|
            0 <= j < fs.len() && same_but_severity(#[trigger] all[i], fs[j]) by {
            if i < rest.len() {
                let j = choose|j: int|
                    0 <= j < fs.drop_last().len() && same_but_severity(
                        #[trigger] rest[i],
                        fs.drop_last()[j],
                    );
                assert(all[i] == rest[i]);
                assert(fs[j] == fs.drop_last()[j]);
            } else {
                let j = fs.len() - 1;
                assert(same_but_severity(all[i], fs[j]));
            }
        }
    }
}

} // verus!

verus! {

/// Findings under conformance rules pass through any overrides unchanged.
pub proof fn lemma_overrides_keep_conformance(
    denied: Set<Seq<char>>,
    allowed: Set<Seq<char>>,
    strict: bool,
    fs: Seq<Finding>,
)
    requires
        forall|i: int|
            0 <= i < fs.len() ==> (rule_for((#[trigger] fs[i]).code) matches Some(r) && r.kind
                == RuleKind::Conformance),
    ensures
        overridden_all(denied, allowed, strict, fs) == fs,
    decreases fs.len(),
{
    if fs.len() > 0 {
        assert(rule_for(fs[fs.len() - 1].code) matches Some(r) && r.kind == RuleKind::Conformance);
        lemma_overrides_keep_conformance(denied, allowed, strict, fs.drop_last());
        assert(fs.drop_last().push(fs.last()) =~= fs);
    }
}

/// A denied advisory rule is reported as an error, unless it is allowed.
pub proof fn lemma_deny_promotes_to_error(
    denied: Set<Seq<char>>,
    allowed: Set<Seq<char>>,
    strict: bool,
    f: Finding,
)
    requires
        !(rule_for(f.code) matches Some(r) && r.kind == RuleKind::Conformance),
        !allowed.contains(f.code),
        denied.contains(f.code),
    ensures
        overridden(denied, allowed, strict, f) == Some(Finding { severity: Severity::Error, ..f }),
{
}

} // verus!
