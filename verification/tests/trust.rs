use okft::trust::{Actor, Status, TrustTier};

#[test]
fn parses_the_three_actor_conventions() {
    assert_eq!(Actor::parse("human:ahormati"), Actor::Human("ahormati"));
    assert_eq!(
        Actor::parse("process:finance-nightly"),
        Actor::Process("finance-nightly")
    );
    assert_eq!(
        Actor::parse("reference_agent/gemini-2.5-pro"),
        Actor::Agent {
            producer: "reference_agent",
            version: "gemini-2.5-pro"
        }
    );
}

#[test]
fn parses_human_ids_containing_an_at_sign() {
    assert_eq!(
        Actor::parse("human:jsmith@acme"),
        Actor::Human("jsmith@acme")
    );
}

#[test]
fn treats_other_shapes_as_unrecognized() {
    for text in [
        "",
        "plain",
        "human:",
        "process:",
        "team:finance",
        "a/",
        "/b",
        "a/b/c",
    ] {
        assert_eq!(Actor::parse(text), Actor::Unrecognized(text), "{text}");
        assert!(!Actor::parse(text).is_recognized());
    }
}

#[test]
fn only_human_actors_are_human() {
    assert!(Actor::parse("human:x").is_human());
    assert!(!Actor::parse("process:x").is_human());
    assert!(!Actor::parse("agent/v1").is_human());
    assert!(!Actor::parse("nonsense").is_human());
}

#[test]
fn recognized_actors_are_the_three_conventions() {
    assert!(Actor::parse("human:x").is_recognized());
    assert!(Actor::parse("process:x").is_recognized());
    assert!(Actor::parse("agent/v1").is_recognized());
}

#[test]
fn trust_tiers_order_from_unverified_upwards() {
    assert!(TrustTier::Unverified < TrustTier::MachineConfirmed);
    assert!(TrustTier::MachineConfirmed < TrustTier::HumanReviewed);
}

#[test]
fn trust_tiers_render_with_spec_wording() {
    assert_eq!(TrustTier::Unverified.to_string(), "unverified");
    assert_eq!(TrustTier::MachineConfirmed.as_str(), "machine-confirmed");
    assert_eq!(TrustTier::HumanReviewed.as_str(), "human-reviewed");
}

#[test]
fn parses_the_three_statuses() {
    assert_eq!(Status::parse("draft"), Status::Draft);
    assert_eq!(Status::parse("stable"), Status::Stable);
    assert_eq!(Status::parse("deprecated"), Status::Deprecated);
}

#[test]
fn unknown_statuses_are_tolerated() {
    assert_eq!(Status::parse("retired"), Status::Unknown);
    assert_eq!(Status::parse("Stable"), Status::Unknown);
}

#[test]
fn absent_status_defaults_to_stable() {
    assert_eq!(Status::default(), Status::Stable);
}

#[test]
fn statuses_render() {
    assert_eq!(Status::Draft.to_string(), "draft");
    assert_eq!(Status::Stable.as_str(), "stable");
    assert_eq!(Status::Deprecated.as_str(), "deprecated");
    assert_eq!(Status::Unknown.as_str(), "unknown");
}

#[test]
fn a_named_status_round_trips_through_its_text() {
    for status in [Status::Draft, Status::Stable, Status::Deprecated] {
        assert_eq!(Status::parse(status.as_str()), status);
    }
}

#[test]
fn is_below_follows_the_tier_order() {
    assert!(TrustTier::Unverified.is_below(TrustTier::HumanReviewed));
    assert!(!TrustTier::HumanReviewed.is_below(TrustTier::MachineConfirmed));
    assert!(!TrustTier::MachineConfirmed.is_below(TrustTier::MachineConfirmed));
}
