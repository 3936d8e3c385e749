//! Diagnostics and the rule registry.
//!
//! Only the three conformance rules ever produce an error by default; every
//! other rule is advisory, and a caller opts in to treating it as an error.

use vstd::prelude::*;
use vstd::string::*;

use crate::span::Span;
use crate::text::str_eq;

verus! {

/// How serious a finding is. Ordered `Info < Warning < Error`.
#[derive(Debug, Clone, Copy, PartialEq, Eq, Structural, PartialOrd, Ord, Hash)]
pub enum Severity {
    Info,
    Warning,
    Error,
}

/// The position of a severity in the order `Info < Warning < Error`.
pub open spec fn severity_rank(s: Severity) -> int {
    match s {
        Severity::Info => 0,
        Severity::Warning => 1,
        Severity::Error => 2,
    }
}

/// The wording of each severity.
pub open spec fn severity_text(s: Severity) -> Seq<char> {
    match s {
        Severity::Info => "info"@,
        Severity::Warning => "warning"@,
        Severity::Error => "error"@,
    }
}

impl Severity {
    pub fn as_str(self) -> (s: &'static str)
        ensures
            s@ == severity_text(self),
    {
        match self {
            Severity::Info => "info",
            Severity::Warning => "warning",
            Severity::Error => "error",
        }
    }

    /// The severity as an owned string, as `Display` renders it.
    pub fn to_string(self) -> (s: String)
        ensures
            s@ == severity_text(self),
    {
        self.as_str().to_owned()
    }

    /// Whether `self` is strictly more severe than `other`.
    pub fn exceeds(self, other: Severity) -> (b: bool)
        ensures
            b == (severity_rank(self) > severity_rank(other)),
    {
        match (self, other) {
            (Severity::Error, Severity::Warning) => true,
            (Severity::Error, Severity::Info) => true,
            (Severity::Warning, Severity::Info) => true,
            _ => false,
        }
    }
}

/// Whether a rule states a conformance requirement or a hygiene opinion.
#[derive(Debug, Clone, Copy, PartialEq, Eq, Structural)]
pub enum RuleKind {
    /// One of the three conformance requirements. Always an error.
    Conformance,
    /// Advisory. Never an error unless the caller opts in.
    Lint,
}

/// A registered rule. Every code the crate can emit appears in [`rules`].
#[derive(Debug, Clone, Copy)]
pub struct Rule {
    pub code: &'static str,
    pub kind: RuleKind,
    pub default_severity: Severity,
    pub description: &'static str,
    /// The section of the format's specification the rule derives from.
    pub spec_section: &'static str,
}

/// Every rule this crate can emit, in registry order.
pub open spec fn rule_table() -> Seq<Rule> {
    seq![
        Rule {
            code: "okf-parse",
            kind: RuleKind::Conformance,
            default_severity: Severity::Error,
            description: "concept documents must contain a parseable YAML frontmatter block",
            spec_section: "§11.1",
        },
        Rule {
            code: "okf-type",
            kind: RuleKind::Conformance,
            default_severity: Severity::Error,
            description: "every frontmatter block must contain a non-empty `type` field",
            spec_section: "§11.2",
        },
        Rule {
            code: "okf-reserved",
            kind: RuleKind::Conformance,
            default_severity: Severity::Error,
            description: "`index.md` and `log.md` must follow their specified structure",
            spec_section: "§11.3",
        },
        Rule {
            code: "broken-link",
            kind: RuleKind::Lint,
            default_severity: Severity::Warning,
            description: "a markdown link points at a concept that does not exist in the bundle",
            spec_section: "§6.1",
        },
        Rule {
            code: "missing-description",
            kind: RuleKind::Lint,
            default_severity: Severity::Warning,
            description: "concepts should carry a one-line `description`",
            spec_section: "§4.1",
        },
        Rule {
            code: "missing-title",
            kind: RuleKind::Lint,
            default_severity: Severity::Info,
            description: "concepts should carry a human-readable `title`",
            spec_section: "§4.1",
        },
        Rule {
            code: "stale-concept",
            kind: RuleKind::Lint,
            default_severity: Severity::Warning,
            description: "the concept is on or past its `stale_after` date",
            spec_section: "§5.5",
        },
        Rule {
            code: "legacy-timestamp",
            kind: RuleKind::Lint,
            default_severity: Severity::Warning,
            description: "`timestamp` is superseded by `generated.at`",
            spec_section: "§13.1",
        },
        Rule {
            code: "legacy-citations",
            kind: RuleKind::Lint,
            default_severity: Severity::Warning,
            description: "a body `# Citations` list is superseded by frontmatter `sources`",
            spec_section: "§13.1",
        },
        Rule {
            code: "unknown-actor",
            kind: RuleKind::Lint,
            default_severity: Severity::Warning,
            description: "actor fields should use `<producer>/<version>`, `human:<id>`, or `process:<id>`",
            spec_section: "§7",
        },
        Rule {
            code: "unresolved-footnote",
            kind: RuleKind::Lint,
            default_severity: Severity::Warning,
            description: "a footnote label does not match any `sources[].id`",
            spec_section: "§5.1",
        },
        Rule {
            code: "computation-missing-runtime",
            kind: RuleKind::Lint,
            default_severity: Severity::Warning,
            description: "an Attested Computation must declare a `runtime`",
            spec_section: "§10.2",
        },
        Rule {
            code: "source-missing-resource",
            kind: RuleKind::Lint,
            default_severity: Severity::Warning,
            description: "every `sources` entry requires a `resource`",
            spec_section: "§5.1",
        },
        Rule {
            code: "orphan-concept",
            kind: RuleKind::Lint,
            default_severity: Severity::Info,
            description: "no other concept links to this one",
            spec_section: "§6.1",
        },
        Rule {
            code: "missing-index",
            kind: RuleKind::Lint,
            default_severity: Severity::Info,
            description: "a directory of concepts has no `index.md`",
            spec_section: "§8",
        },
        Rule {
            code: "unreachable-path",
            kind: RuleKind::Lint,
            default_severity: Severity::Info,
            description: "a path-valued field points outside the bundle or at a missing file",
            spec_section: "§6.2",
        },
    ]
}

/// The first rule of `table` whose code is `code`.
pub open spec fn rule_in(table: Seq<Rule>, code: Seq<char>) -> Option<Rule>
    decreases table.len(),
{
    if table.len() == 0 {
        None
    } else if table[0].code@ == code {
        Some(table[0])
    } else {
        rule_in(table.drop_first(), code)
    }
}

/// The registered rule with code `code`, if any.
pub open spec fn rule_for(code: Seq<char>) -> Option<Rule> {
    rule_in(rule_table(), code)
}

/// Whether `code` is a registered rule code.
pub open spec fn is_registered(code: Seq<char>) -> bool {
    rule_for(code) is Some
}

/// Every rule this crate can emit, in registry order.
pub fn rules() -> (v: Vec<Rule>)
    ensures
        v@ == rule_table(),
{
    let mut v: Vec<Rule> = Vec::new();
    v.push(Rule {
        code: "okf-parse",
        kind: RuleKind::Conformance,
        default_severity: Severity::Error,
        description: "concept documents must contain a parseable YAML frontmatter block",
        spec_section: "§11.1",
    });
    v.push(Rule {
        code: "okf-type",
        kind: RuleKind::Conformance,
        default_severity: Severity::Error,
        description: "every frontmatter block must contain a non-empty `type` field",
        spec_section: "§11.2",
    });
    v.push(Rule {
        code: "okf-reserved",
        kind: RuleKind::Conformance,
        default_severity: Severity::Error,
        description: "`index.md` and `log.md` must follow their specified structure",
        spec_section: "§11.3",
    });
    v.push(Rule {
        code: "broken-link",
        kind: RuleKind::Lint,
        default_severity: Severity::Warning,
        description: "a markdown link points at a concept that does not exist in the bundle",
        spec_section: "§6.1",
    });
    v.push(Rule {
        code: "missing-description",
        kind: RuleKind::Lint,
        default_severity: Severity::Warning,
        description: "concepts should carry a one-line `description`",
        spec_section: "§4.1",
    });
    v.push(Rule {
        code: "missing-title",
        kind: RuleKind::Lint,
        default_severity: Severity::Info,
        description: "concepts should carry a human-readable `title`",
        spec_section: "§4.1",
    });
    v.push(Rule {
        code: "stale-concept",
        kind: RuleKind::Lint,
        default_severity: Severity::Warning,
        description: "the concept is on or past its `stale_after` date",
        spec_section: "§5.5",
    });
    v.push(Rule {
        code: "legacy-timestamp",
        kind: RuleKind::Lint,
        default_severity: Severity::Warning,
        description: "`timestamp` is superseded by `generated.at`",
        spec_section: "§13.1",
    });
    v.push(Rule {
        code: "legacy-citations",
        kind: RuleKind::Lint,
        default_severity: Severity::Warning,
        description: "a body `# Citations` list is superseded by frontmatter `sources`",
        spec_section: "§13.1",
    });
    v.push(Rule {
        code: "unknown-actor",
        kind: RuleKind::Lint,
        default_severity: Severity::Warning,
        description: "actor fields should use `<producer>/<version>`, `human:<id>`, or `process:<id>`",
        spec_section: "§7",
    });
    v.push(Rule {
        code: "unresolved-footnote",
        kind: RuleKind::Lint,
        default_severity: Severity::Warning,
        description: "a footnote label does not match any `sources[].id`",
        spec_section: "§5.1",
    });
    v.push(Rule {
        code: "computation-missing-runtime",
        kind: RuleKind::Lint,
        default_severity: Severity::Warning,
        description: "an Attested Computation must declare a `runtime`",
        spec_section: "§10.2",
    });
    v.push(Rule {
        code: "source-missing-resource",
        kind: RuleKind::Lint,
        default_severity: Severity::Warning,
        description: "every `sources` entry requires a `resource`",
        spec_section: "§5.1",
    });
    v.push(Rule {
        code: "orphan-concept",
        kind: RuleKind::Lint,
        default_severity: Severity::Info,
        description: "no other concept links to this one",
        spec_section: "§6.1",
    });
    v.push(Rule {
        code: "missing-index",
        kind: RuleKind::Lint,
        default_severity: Severity::Info,
        description: "a directory of concepts has no `index.md`",
        spec_section: "§8",
    });
    v.push(Rule {
        code: "unreachable-path",
        kind: RuleKind::Lint,
        default_severity: Severity::Info,
        description: "a path-valued field points outside the bundle or at a missing file",
        spec_section: "§6.2",
    });
    assert(v@ =~= rule_table());
    v
}

/// A lookup in `table` finds a rule with the code asked for, one of the
/// table's own, and finds nothing only when no rule has that code.
pub proof fn lemma_rule_in(table: Seq<Rule>, code: Seq<char>)
    ensures
        rule_in(table, code) matches Some(r) ==> r.code@ == code && table.contains(r),
        rule_in(table, code) is None <==> (forall|i: int|
            0 <= i < table.len() ==> #[trigger] table[i].code@ != code),
    decreases table.len(),
{
    if table.len() > 0 {
        lemma_rule_in(table.drop_first(), code);
        if rule_in(table, code) is Some && table[0].code@ != code {
            let r = rule_in(table, code)->0;
            let k = choose|k: int| 0 <= k < table.drop_first().len() && table.drop_first()[k] == r;
            assert(table[k + 1] == r);
        }
        if table[0].code@ != code {
            assert forall|i: int| 0 <= i < table.len() && (forall|j: int|
                0 <= j < table.drop_first().len() ==> #[trigger] table.drop_first()[j].code@
                    != code) implies #[trigger] table[i].code@ != code by {
                if i > 0 {
                    assert(table[i] == table.drop_first()[i - 1]);
                }
            }
        }
    }
}

/// Looks up a rule by code.
pub fn rule(code: &str) -> (r: Option<Rule>)
    ensures
        r == rule_for(code@),
        r matches Some(x) ==> x.code@ == code@ && rule_table().contains(x),
        r is None <==> (forall|i: int|
            0 <= i < rule_table().len() ==> #[trigger] rule_table()[i].code@ != code@),
{
    proof {
        lemma_rule_in(rule_table(), code@);
    }
    let table = rules();
    assert(table@.subrange(0, table@.len() as int) =~= table@);
    let mut i: usize = 0;
    while i < table.len()
        invariant
            table@ == rule_table(),
            0 <= i <= table@.len(),
            rule_in(table@, code@) == rule_in(table@.subrange(i as int, table@.len() as int), code@),
        decreases table.len() - i,
    {
        let candidate = table[i];
        let ghost rest = table@.subrange(i as int, table@.len() as int);
        assert(rest[0] == candidate);
        if str_eq(candidate.code, code) {
            return Some(candidate);
        }
        assert(rest.drop_first() =~= table@.subrange(i + 1, table@.len() as int));
        i = i + 1;
    }
    None
}

/// Exactly the first three rules are conformance rules: `okf-parse`,
/// `okf-type` and `okf-reserved`, in that order.
pub proof fn lemma_exactly_three_conformance_rules()
    ensures
        rule_table().len() == 16,
        forall|i: int|
            0 <= i < rule_table().len() ==> (#[trigger] rule_table()[i].kind == RuleKind::Conformance
                <==> i < 3),
        rule_table()[0].code@ == "okf-parse"@,
        rule_table()[1].code@ == "okf-type"@,
        rule_table()[2].code@ == "okf-reserved"@,
{
}

/// Every conformance rule defaults to an error, and no advisory rule does.
pub proof fn lemma_only_conformance_defaults_to_error()
    ensures
        forall|i: int|
            0 <= i < rule_table().len() ==> (#[trigger] rule_table()[i].default_severity
                == Severity::Error <==> rule_table()[i].kind == RuleKind::Conformance),
{
}

/// No two rules share a code.
pub proof fn lemma_rule_codes_unique()
    ensures
        forall|i: int, j: int|
            0 <= i < j < rule_table().len() ==> #[trigger] rule_table()[i].code@
                != #[trigger] rule_table()[j].code@,
{
    reveal_strlit("okf-parse");
    reveal_strlit("okf-type");
    reveal_strlit("okf-reserved");
    reveal_strlit("broken-link");
    reveal_strlit("missing-description");
    reveal_strlit("missing-title");
    reveal_strlit("stale-concept");
    reveal_strlit("legacy-timestamp");
    reveal_strlit("legacy-citations");
    reveal_strlit("unknown-actor");
    reveal_strlit("unresolved-footnote");
    reveal_strlit("computation-missing-runtime");
    reveal_strlit("source-missing-resource");
    reveal_strlit("orphan-concept");
    reveal_strlit("missing-index");
    reveal_strlit("unreachable-path");
    let t = rule_table();
    assert(t[0].code@.len() == 9);
    assert(t[1].code@.len() == 8);
    assert(t[2].code@.len() == 12);
    assert(t[3].code@.len() == 11);
    assert(t[4].code@.len() == 19);
    assert(t[5].code@.len() == 13);
    assert(t[6].code@.len() == 13);
    assert(t[7].code@.len() == 16);
    assert(t[8].code@.len() == 16);
    assert(t[9].code@.len() == 13);
    assert(t[10].code@.len() == 19);
    assert(t[11].code@.len() == 27);
    assert(t[12].code@.len() == 23);
    assert(t[13].code@.len() == 14);
    assert(t[14].code@.len() == 13);
    assert(t[15].code@.len() == 16);
    assert(t[4].code@[0] != t[10].code@[0]);
    assert(t[5].code@[0] != t[6].code@[0]);
    assert(t[5].code@[0] != t[9].code@[0]);
    assert(t[5].code@[8] != t[14].code@[8]);
    assert(t[6].code@[0] != t[9].code@[0]);
    assert(t[6].code@[0] != t[14].code@[0]);
    assert(t[7].code@[7] != t[8].code@[7]);
    assert(t[7].code@[0] != t[15].code@[0]);
    assert(t[8].code@[0] != t[15].code@[0]);
    assert(t[9].code@[0] != t[14].code@[0]);
}

/// A single finding against a bundle.
#[derive(Debug, Clone, PartialEq, Eq)]
pub struct Diagnostic {
    pub code: &'static str,
    pub severity: Severity,
    /// Bundle-relative path of the file the finding is in.
    pub path: String,
    pub span: Option<Span>,
    pub message: String,
    pub help: Option<String>,
}

impl Diagnostic {
    /// Builds a diagnostic at the rule's default severity. `code` must be a
    /// registered rule code.
    pub fn new(code: &'static str, path: &str, message: &str) -> (d: Self)
        requires
            is_registered(code@),
        ensures
            d.code == code,
            d.severity == rule_for(code@)->0.default_severity,
            d.path@ == path@,
            d.span is None,
            d.message@ == message@,
            d.help is None,
    {
        let severity = match rule(code) {
            Some(registered) => registered.default_severity,
            None => Severity::Error,
        };
        Diagnostic {
            code,
            severity,
            path: path.to_owned(),
            span: None,
            message: message.to_owned(),
            help: None,
        }
    }

    pub fn with_span(self, span: Span) -> (d: Self)
        ensures
            d.code == self.code,
            d.severity == self.severity,
            d.path@ == self.path@,
            d.span == Some(span),
            d.message@ == self.message@,
            d.help == self.help,
    {
        let mut d = self;
        d.span = Some(span);
        d
    }

    pub fn with_help(self, help: &str) -> (d: Self)
        ensures
            d.code == self.code,
            d.severity == self.severity,
            d.path@ == self.path@,
            d.span == self.span,
            d.message@ == self.message@,
            d.help matches Some(h) && h@ == help@,
    {
        let mut d = self;
        d.help = Some(help.to_owned());
        d
    }

    /// Whether the diagnostic's code names a conformance rule.
    pub fn is_conformance(&self) -> (b: bool)
        ensures
            b == (rule_for(self.code@) matches Some(r) && r.kind == RuleKind::Conformance),
    {
        match rule(self.code) {
            Some(r) => match r.kind {
                RuleKind::Conformance => true,
                RuleKind::Lint => false,
            },
            None => false,
        }
    }
}

} // verus!

verus! {

/// A finding as plain values.
pub struct Finding {
    pub code: Seq<char>,
    pub severity: Severity,
    pub path: Seq<char>,
    pub span: Option<Span>,
    pub message: Seq<char>,
    pub help: Option<Seq<char>>,
}

/// The characters of an optional owned string.
pub open spec fn opt_string(o: Option<String>) -> Option<Seq<char>> {
    match o {
        Some(s) => Some(s@),
        None => None,
    }
}

impl View for Diagnostic {
    type V = Finding;

    open spec fn view(&self) -> Finding {
        Finding {
            code: self.code@,
            severity: self.severity,
            path: self.path@,
            span: self.span,
            message: self.message@,
            help: opt_string(self.help),
        }
    }
}

/// The findings a list of diagnostics holds.
pub open spec fn findings(ds: Seq<Diagnostic>) -> Seq<Finding> {
    ds.map_values(|d: Diagnostic| d@)
}

/// The registry entries for the three conformance codes.
pub proof fn lemma_conformance_codes()
    ensures
        rule_for("okf-parse"@) == Some(rule_table()[0]),
        rule_for("okf-type"@) == Some(rule_table()[1]),
        rule_for("okf-reserved"@) == Some(rule_table()[2]),
{
    reveal_strlit("okf-parse");
    reveal_strlit("okf-type");
    reveal_strlit("okf-reserved");
    let t = rule_table();
    assert(t[0].code@ == "okf-parse"@);
    assert(t[1].code@ == "okf-type"@);
    assert(t[2].code@ == "okf-reserved"@);
    assert("okf-parse"@ != "okf-type"@) by {
        assert("okf-parse"@.len() != "okf-type"@.len());
    }
    assert("okf-parse"@ != "okf-reserved"@) by {
        assert("okf-parse"@.len() != "okf-reserved"@.len());
    }
    assert("okf-type"@ != "okf-reserved"@) by {
        assert("okf-type"@.len() != "okf-reserved"@.len());
    }
    assert(t.drop_first()[0] == t[1]);
    assert(t.drop_first().drop_first()[0] == t[2]);
    reveal_with_fuel(rule_in, 4);
    assert(rule_in(t.drop_first(), "okf-type"@) == Some(t[1]));
    assert(rule_in(t.drop_first().drop_first(), "okf-reserved"@) == Some(t[2]));
    assert(rule_in(t.drop_first(), "okf-reserved"@) == Some(t[2]));
}

} // verus!

verus! {

proof fn lemma_rule_in_finds(t: Seq<Rule>, k: int)
    requires
        0 <= k < t.len(),
        forall|j: int| 0 <= j < k ==> #[trigger] t[j].code@ != t[k].code@,
    ensures
        rule_in(t, t[k].code@) == Some(t[k]),
    decreases k,
{
    if k > 0 {
        assert forall|j: int| 0 <= j < k - 1 implies #[trigger] t.drop_first()[j].code@
            != t.drop_first()[k - 1].code@ by {
            assert(t.drop_first()[j] == t[j + 1]);
        }
        lemma_rule_in_finds(t.drop_first(), k - 1);
    }
}

/// Looking up any registered rule's code finds that rule.
pub proof fn lemma_registered_codes()
    ensures
        forall|k: int|
            0 <= k < rule_table().len() ==> rule_for(#[trigger] rule_table()[k].code@) == Some(
                rule_table()[k],
            ),
{
    lemma_rule_codes_unique();
    assert forall|k: int| 0 <= k < rule_table().len() implies rule_for(
        #[trigger] rule_table()[k].code@,
    ) == Some(rule_table()[k]) by {
        lemma_rule_in_finds(rule_table(), k);
    }
}

} // verus!
