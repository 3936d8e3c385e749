//! Actors, trust tiers, and lifecycle status.

use vstd::prelude::*;
use vstd::string::*;

use crate::text::{
    chars_of, first_index_where, find_first_either, has_prefix, is_either, lemma_first_index_where,
    starts_with, str_eq,
};

verus! {

/// What an actor string says, as plain text.
pub enum ActorModel {
    Human(Seq<char>),
    Process(Seq<char>),
    Agent(Seq<char>, Seq<char>),
    Unrecognized(Seq<char>),
}

/// The characters `human:`.
pub open spec fn human_prefix() -> Seq<char> {
    seq!['h', 'u', 'm', 'a', 'n', ':']
}

/// The characters `process:`.
pub open spec fn process_prefix() -> Seq<char> {
    seq!['p', 'r', 'o', 'c', 'e', 's', 's', ':']
}

/// How the format reads an actor string: `human:<id>`, `process:<id>`,
/// `<producer>/<version>`, or none of them.
pub open spec fn actor_of(t: Seq<char>) -> ActorModel {
    if starts_with(t, human_prefix()) && t.len() > 6 {
        ActorModel::Human(t.subrange(6, t.len() as int))
    } else if starts_with(t, process_prefix()) && t.len() > 8 {
        ActorModel::Process(t.subrange(8, t.len() as int))
    } else {
        match first_index_where(t, is_either('/', '/')) {
            Some(i) => {
                let producer = t.subrange(0, i);
                let version = t.subrange(i + 1, t.len() as int);
                if producer.len() > 0 && version.len() > 0 && first_index_where(
                    version,
                    is_either('/', '/'),
                ) is None {
                    ActorModel::Agent(producer, version)
                } else {
                    ActorModel::Unrecognized(t)
                }
            },
            None => ActorModel::Unrecognized(t),
        }
    }
}

/// An identity recorded in `generated.by` or `verified[].by`.
#[derive(Debug, Clone, Copy, PartialEq, Eq)]
pub enum Actor<'a> {
    /// `human:<id>`. The only form that yields [`TrustTier::HumanReviewed`].
    Human(&'a str),
    /// `process:<id>`.
    Process(&'a str),
    /// `<producer>/<version>`.
    Agent { producer: &'a str, version: &'a str },
    /// Matches none of the three conventions.
    Unrecognized(&'a str),
}

impl<'a> View for Actor<'a> {
    type V = ActorModel;

    open spec fn view(&self) -> ActorModel {
        match *self {
            Actor::Human(id) => ActorModel::Human(id@),
            Actor::Process(id) => ActorModel::Process(id@),
            Actor::Agent { producer, version } => ActorModel::Agent(producer@, version@),
            Actor::Unrecognized(text) => ActorModel::Unrecognized(text@),
        }
    }
}

impl<'a> Actor<'a> {
    pub fn parse(text: &'a str) -> (a: Self)
        ensures
            a@ == actor_of(text@),
    {
        let cs = chars_of(text);
        let n = cs.len();
        proof {
            reveal_strlit("human:");
            reveal_strlit("process:");
            assert("human:"@ =~= human_prefix());
            assert("process:"@ =~= process_prefix());
        }
        if has_prefix(cs.as_slice(), "human:") && n > 6 {
            return Actor::Human(text.substring_char(6, n));
        }
        if has_prefix(cs.as_slice(), "process:") && n > 8 {
            return Actor::Process(text.substring_char(8, n));
        }
        assert(cs@.subrange(0, n as int) =~= cs@);
        match find_first_either(cs.as_slice(), 0, n, '/', '/') {
            Some(i) => {
                let ghost version = cs@.subrange(i + 1, n as int);
                assert(version.subrange(0, version.len() as int) =~= version);
                let nested = find_first_either(cs.as_slice(), i + 1, n, '/', '/');
                if i > 0 && i + 1 < n && nested.is_none() {
                    Actor::Agent {
                        producer: text.substring_char(0, i),
                        version: text.substring_char(i + 1, n),
                    }
                } else {
                    Actor::Unrecognized(text)
                }
            },
            None => Actor::Unrecognized(text),
        }
    }

    pub open spec fn spec_is_human(self) -> bool {
        self matches Actor::Human(_)
    }

    pub open spec fn spec_is_recognized(self) -> bool {
        !(self matches Actor::Unrecognized(_))
    }

    pub fn is_human(self) -> (b: bool)
        ensures
            b == self.spec_is_human(),
    {
        matches!(self, Actor::Human(_))
    }

    /// Whether the actor matches one of the three actor conventions.
    pub fn is_recognized(self) -> (b: bool)
        ensures
            b == self.spec_is_recognized(),
    {
        !matches!(self, Actor::Unrecognized(_))
    }
}

/// A human actor is always a recognised one.
pub proof fn lemma_human_is_recognized(actor: Actor)
    requires
        actor.spec_is_human(),
    ensures
        actor.spec_is_recognized(),
{
}

} // verus!

verus! {

/// A concept's trust level, derived from `verified` rather than stored.
#[derive(Debug, Clone, Copy, PartialEq, Eq, Structural, PartialOrd, Ord, Hash)]
pub enum TrustTier {
    Unverified,
    MachineConfirmed,
    HumanReviewed,
}

/// The spec wording of each tier.
pub open spec fn tier_text(tier: TrustTier) -> Seq<char> {
    match tier {
        TrustTier::Unverified => "unverified"@,
        TrustTier::MachineConfirmed => "machine-confirmed"@,
        TrustTier::HumanReviewed => "human-reviewed"@,
    }
}

/// The rank of a tier: unverified lowest, human-reviewed highest.
pub open spec fn tier_rank(tier: TrustTier) -> int {
    match tier {
        TrustTier::Unverified => 0,
        TrustTier::MachineConfirmed => 1,
        TrustTier::HumanReviewed => 2,
    }
}

impl TrustTier {
    pub fn as_str(self) -> (s: &'static str)
        ensures
            s@ == tier_text(self),
    {
        match self {
            TrustTier::Unverified => "unverified",
            TrustTier::MachineConfirmed => "machine-confirmed",
            TrustTier::HumanReviewed => "human-reviewed",
        }
    }

    /// The tier as an owned string, as `Display` renders it.
    pub fn to_string(self) -> (s: String)
        ensures
            s@ == tier_text(self),
    {
        self.as_str().to_owned()
    }

    /// Whether `self` is a lower tier than `other`.
    pub fn is_below(self, other: TrustTier) -> (b: bool)
        ensures
            b == (tier_rank(self) < tier_rank(other)),
    {
        let a: u8 = match self {
            TrustTier::Unverified => 0,
            TrustTier::MachineConfirmed => 1,
            TrustTier::HumanReviewed => 2,
        };
        let c: u8 = match other {
            TrustTier::Unverified => 0,
            TrustTier::MachineConfirmed => 1,
            TrustTier::HumanReviewed => 2,
        };
        a < c
    }
}

/// Lifecycle status. Absent `status` means [`Status::Stable`].
#[derive(Debug, Clone, Copy, PartialEq, Eq, Structural)]
pub enum Status {
    Draft,
    Stable,
    Deprecated,
    /// A value outside the three the spec names; consumers must tolerate it.
    Unknown,
}

impl Default for Status {
    fn default() -> (s: Self)
        ensures
            s == Status::Stable,
    {
        Status::Stable
    }
}

/// The status a `status` value names: exact, case-sensitive matches.
pub open spec fn status_of(t: Seq<char>) -> Status {
    if t == "draft"@ {
        Status::Draft
    } else if t == "stable"@ {
        Status::Stable
    } else if t == "deprecated"@ {
        Status::Deprecated
    } else {
        Status::Unknown
    }
}

/// The wording of each status.
pub open spec fn status_text(status: Status) -> Seq<char> {
    match status {
        Status::Draft => "draft"@,
        Status::Stable => "stable"@,
        Status::Deprecated => "deprecated"@,
        Status::Unknown => "unknown"@,
    }
}

impl Status {
    pub fn parse(text: &str) -> (s: Self)
        ensures
            s == status_of(text@),
    {
        if str_eq(text, "draft") {
            Status::Draft
        } else if str_eq(text, "stable") {
            Status::Stable
        } else if str_eq(text, "deprecated") {
            Status::Deprecated
        } else {
            Status::Unknown
        }
    }

    pub fn as_str(self) -> (s: &'static str)
        ensures
            s@ == status_text(self),
    {
        match self {
            Status::Draft => "draft",
            Status::Stable => "stable",
            Status::Deprecated => "deprecated",
            Status::Unknown => "unknown",
        }
    }

    /// The status as an owned string, as `Display` renders it.
    pub fn to_string(self) -> (s: String)
        ensures
            s@ == status_text(self),
    {
        self.as_str().to_owned()
    }
}

/// Rendering a named status and parsing it back gives the same status.
pub proof fn lemma_status_round_trip(status: Status)
    requires
        status != Status::Unknown,
    ensures
        status_of(status_text(status)) == status,
{
    reveal_strlit("draft");
    reveal_strlit("stable");
    reveal_strlit("deprecated");
    assert("draft"@.len() == 5);
    assert("stable"@.len() == 6);
    assert("deprecated"@.len() == 10);
    assert("draft"@ != "stable"@ && "draft"@ != "deprecated"@ && "stable"@ != "deprecated"@);
}

} // verus!
