use accessibility_daemon::deinflector::{rules_json_is_array, DeinflectionRule, Deinflector};

fn rule(kana_in: &str, kana_out: &str, rules_out: &[&str], reason: &str) -> DeinflectionRule {
    DeinflectionRule {
        kana_in: kana_in.to_string(),
        kana_out: kana_out.to_string(),
        rules_out: rules_out.iter().map(|s| s.to_string()).collect(),
        reason: reason.to_string(),
    }
}

#[test]
fn reasons_carry_rule_names() {
    let d = Deinflector::from_groups(vec![("past".to_string(), vec![rule("た", "る", &["v1"], "")])]);
    let hit = d.deinflect("食べた").into_iter().find(|r| r.term == "食べる").expect("食べる");
    assert_eq!(hit.reasons, vec!["past"]);
    assert_eq!(hit.rule_types, vec!["v1"]);
}

#[test]
fn identity_result_has_no_reasons() {
    let d = Deinflector::from_rules(vec![rule("た", "る", &["v1"], "past")]);
    let results = d.deinflect("食べた");
    assert_eq!(results[0].term, "食べた");
    assert!(results[0].reasons.is_empty());
    assert_eq!(results.len(), 2);
    assert_eq!(d.rule_count(), 1);
}

#[test]
fn chains_and_duplicates() {
    let d = Deinflector::from_rules(vec![
        rule("かった", "い", &["adj-i"], "past"),
        rule("た", "る", &["v1"], "past"),
        rule("くない", "い", &["adj-i"], "negative"),
        rule("る", "る", &["v1"], "noop"),
    ]);
    let terms: Vec<String> = d.deinflect("高かった").into_iter().map(|r| r.term).collect();
    assert_eq!(terms, vec!["高かった", "高い", "高かっる"]);
    assert_eq!(Deinflector::empty().deinflect("a").len(), 1);
    // A single ASCII character is too short to deinflect.
    let one = Deinflector::from_rules(vec![rule("a", "b", &[], "x")]);
    assert_eq!(one.deinflect("a").len(), 1);
}

#[test]
fn rule_files_are_arrays_or_groups() {
    assert!(rules_json_is_array("  [ {\"kanaIn\": \"た\"} ]"));
    assert!(!rules_json_is_array("{\"past\": []}"));
    assert!(!rules_json_is_array("   "));
}

#[test]
fn first_derivations_win_in_breadth_first_order() {
    let a = rule("ab", "x", &["t1"], "r1");
    let b = rule("b", "c", &["t2"], "r2");
    let c = rule("ac", "x", &["t3"], "r3");
    let d = Deinflector::from_rules(vec![a.clone(), b.clone(), c.clone()]);
    let out = d.deinflect("zab");
    let view: Vec<(String, Vec<String>)> = out.iter().map(|r| (r.term.clone(), r.reasons.clone())).collect();
    assert_eq!(
        view,
        vec![
            ("zab".to_string(), vec![]),
            ("zx".to_string(), vec!["r1".to_string()]),
            ("zac".to_string(), vec!["r2".to_string()]),
        ]
    );
    // With the rules reordered, the other derivation comes first.
    let d = Deinflector::from_rules(vec![b, c, a]);
    let out = d.deinflect("zab");
    let view: Vec<(String, Vec<String>)> = out.iter().map(|r| (r.term.clone(), r.reasons.clone())).collect();
    assert_eq!(
        view,
        vec![
            ("zab".to_string(), vec![]),
            ("zac".to_string(), vec!["r2".to_string()]),
            ("zx".to_string(), vec!["r1".to_string()]),
        ]
    );
}
