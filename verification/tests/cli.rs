use okft::bundle::Bundle;
use okft::cli::{
    check_bundle, current_utc_date, date_at, exit_status, is_failing, render_rules, render_rules_table,
    resolve_today, EXIT_FINDINGS, EXIT_USAGE,
};
use okft::date::Date;
use okft::diagnostic::{rules, RuleKind, Severity};
use okft::severity::SeverityOverrides;

#[test]
fn lib_resolves_today_from_the_flag_or_the_clock() {
    assert_eq!(
        resolve_today(Some("2026-08-09")),
        Ok(Date::parse("2026-08-09").expect("d"))
    );
    assert!(resolve_today(Some("09/08/2026")).is_err());
    assert!(resolve_today(None).expect("current date") > Date::parse("2020-01-01").expect("d"));
}

#[test]
fn lib_current_date_is_sane() {
    let today = current_utc_date();
    assert!(today > Date::parse("2024-01-01").expect("d"));
    assert!(today < Date::parse("2100-01-01").expect("d"));
}

#[test]
fn lib_only_errors_are_failing() {
    assert!(is_failing(Severity::Error));
    assert!(!is_failing(Severity::Warning));
    assert!(!is_failing(Severity::Info));
}

#[test]
fn resolves_today_from_the_flag_or_the_clock() {
    assert_eq!(
        resolve_today(Some("2026-08-09")),
        Ok(Date::parse("2026-08-09").expect("d"))
    );
    assert!(resolve_today(Some("09/08/2026")).is_err());
    assert!(resolve_today(None).expect("current date") > Date::parse("2020-01-01").expect("d"));
}

#[test]
fn current_date_is_sane() {
    let today = current_utc_date();
    assert!(today > Date::parse("2024-01-01").expect("d"));
    assert!(today < Date::parse("2100-01-01").expect("d"));
}

#[test]
fn only_errors_are_failing() {
    assert!(is_failing(Severity::Error));
    assert!(!is_failing(Severity::Warning));
    assert!(!is_failing(Severity::Info));
}

#[test]
fn a_malformed_today_names_the_value() {
    assert_eq!(
        resolve_today(Some("09/08/2026")),
        Err("`--today 09/08/2026` is not a YYYY-MM-DD date".to_string())
    );
}

#[test]
fn the_clock_reading_maps_to_a_utc_date() {
    assert_eq!(date_at(0), Date::parse("1970-01-01").expect("d"));
    assert_eq!(date_at(86_399), Date::parse("1970-01-01").expect("d"));
    assert_eq!(date_at(86_400), Date::parse("1970-01-02").expect("d"));
    assert_eq!(date_at(1_786_233_600), Date::parse("2026-08-09").expect("d"));
    assert_eq!(date_at(u64::MAX), Date::parse("1970-01-01").expect("d"));
}

#[test]
fn exit_codes_follow_the_error_count() {
    assert_eq!(exit_status(0), 0);
    assert_eq!(exit_status(1), EXIT_FINDINGS);
    assert_eq!(exit_status(7), EXIT_FINDINGS);
    assert_eq!(EXIT_FINDINGS, 1);
    assert_eq!(EXIT_USAGE, 2);
}

#[test]
fn the_rule_table_lists_every_code() {
    let table = render_rules_table();
    for rule in rules() {
        assert!(table.contains(rule.code), "{} missing from table", rule.code);
    }
    assert!(table.contains("Conformance rules"));
    assert!(table.starts_with("Conformance rules (§11) always fail `validate`:\n  okf-parse "));
    assert!(table.contains("\nLint rules are advisory unless denied or run with --strict:\n"));
}

#[test]
fn the_rule_table_pads_its_columns() {
    let table = render_rules_table();
    let first_lint = rules()
        .into_iter()
        .find(|r| r.kind == RuleKind::Lint)
        .expect("a lint rule");
    let row = format!(
        "  {:<28} {:<8} {:<8} {}\n",
        first_lint.code,
        first_lint.spec_section,
        first_lint.default_severity.as_str(),
        first_lint.description
    );
    assert!(table.contains(&row), "{row:?} not in {table:?}");
}

#[test]
fn validate_reports_only_conformance_and_lint_adds_advisories() {
    let bundle = Bundle::from_sources(&[
        ("a.md", "---\ntitle: no type\n---\n"),
        ("b.md", "---\ntype: X\n---\n[gone](/nope.md)\n"),
    ]);
    let today = Date::parse("2026-08-09").expect("d");
    let overrides = SeverityOverrides::default();

    let validated = check_bundle(&bundle, false, today, &overrides);
    assert_eq!(validated.len(), 1);
    assert_eq!(validated[0].code, "okf-type");

    let linted = check_bundle(&bundle, true, today, &overrides);
    assert_eq!(linted[0].code, "okf-type");
    assert!(linted.iter().any(|d| d.code == "broken-link"));
    assert!(linted.len() > validated.len());
}

#[test]
fn overrides_apply_to_a_check() {
    let bundle = Bundle::from_sources(&[("b.md", "---\ntype: X\n---\n[gone](/nope.md)\n")]);
    let today = Date::parse("2026-08-09").expect("d");
    let deny = vec!["broken-link".to_string()];
    let overrides = SeverityOverrides::new(&deny, &[], false).expect("known");
    let linted = check_bundle(&bundle, true, today, &overrides);
    let broken: Vec<_> = linted.iter().filter(|d| d.code == "broken-link").collect();
    assert_eq!(broken.len(), 1);
    assert_eq!(broken[0].severity, Severity::Error);
}

#[test]
fn lib_renders_the_rule_table_and_json() {
    let table = render_rules(false);
    for rule in rules() {
        assert!(table.contains(rule.code), "{} missing from table", rule.code);
    }
    assert!(table.contains("Conformance rules"));

    let json: serde_json::Value = serde_json::from_str(&render_rules(true)).expect("valid JSON");
    assert_eq!(json.as_array().expect("array").len(), rules().len());
    assert_eq!(json[0]["kind"], "conformance");
}

#[test]
fn the_json_rule_list_describes_each_rule() {
    let text = render_rules(true);
    assert!(text.ends_with("]\n"));
    let json: serde_json::Value = serde_json::from_str(&text).expect("valid JSON");
    let all = rules();
    for (i, rule) in all.iter().enumerate() {
        assert_eq!(json[i]["code"], rule.code);
        assert_eq!(json[i]["defaultSeverity"], rule.default_severity.as_str());
        assert_eq!(json[i]["description"], rule.description);
        assert_eq!(json[i]["specSection"], rule.spec_section);
    }
    assert_eq!(json[all.len() - 1]["kind"], "lint");
    assert_eq!(render_rules(false), render_rules_table());
}
