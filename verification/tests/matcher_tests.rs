use optriage::error::EngineError;
use optriage::matcher::{match_rules, rule_applies, RulePredicate, TagRule};
use optriage::operation::Operation;
use optriage::state::OpState;

fn op_with(details: &str, op_type: &str, amount: i32) -> Operation {
    Operation {
        id: 1,
        operation_date: "2024-05-01".to_string(),
        op_type: op_type.to_string(),
        type_display: op_type.to_string(),
        details: details.to_string(),
        amount_in_cents: amount,
        hash: "h".to_string(),
        state: OpState::Settled,
        ignored_from_charts: false,
        bank_account_id: 1,
        tags_ids: Vec::new(),
    }
}

fn details_rule(id: u32, tag_id: u32, needle: &str) -> TagRule {
    TagRule { id, tag_id, predicate: RulePredicate::DetailsContains(needle.to_string()) }
}

#[test]
fn substring_rule_fires_on_matching_details() {
    let op = op_with("MONTHLY RENT PAYMENT", "transfer", -90000);
    let rules = vec![details_rule(1, 42, "RENT")];
    assert_eq!(match_rules(&op, &rules), vec![42]);
}

#[test]
fn substring_rule_skips_unrelated_details() {
    let op = op_with("GROCERIES", "card", -4200);
    let rules = vec![details_rule(1, 42, "RENT")];
    assert_eq!(match_rules(&op, &rules), Vec::<u32>::new());
}

#[test]
fn type_rule_requires_exact_equality() {
    let rule = TagRule {
        id: 1,
        tag_id: 7,
        predicate: RulePredicate::TypeEquals("transfer".to_string()),
    };
    assert!(rule_applies(&op_with("x", "transfer", -1), &rule));
    assert!(!rule_applies(&op_with("x", "transfers", -1), &rule));
    assert!(!rule_applies(&op_with("x", "transfe", -1), &rule));
}

#[test]
fn amount_rule_bounds_are_inclusive() {
    let rule = TagRule { id: 1, tag_id: 9, predicate: RulePredicate::AmountBetween(-500, -100) };
    assert!(rule_applies(&op_with("x", "card", -500), &rule));
    assert!(rule_applies(&op_with("x", "card", -100), &rule));
    assert!(rule_applies(&op_with("x", "card", -300), &rule));
    assert!(!rule_applies(&op_with("x", "card", -501), &rule));
    assert!(!rule_applies(&op_with("x", "card", -99), &rule));
}

#[test]
fn empty_needle_always_matches() {
    let rule = details_rule(1, 3, "");
    assert!(rule_applies(&op_with("anything", "card", -1), &rule));
    assert!(rule_applies(&op_with("", "card", -1), &rule));
}

#[test]
fn firing_rules_union_and_deduplicate() {
    let op = op_with("MONTHLY RENT PAYMENT", "transfer", -90000);
    let rules = vec![
        details_rule(1, 42, "RENT"),
        details_rule(2, 42, "PAYMENT"),
        details_rule(3, 5, "MONTHLY"),
        details_rule(4, 6, "GROCERIES"),
        TagRule { id: 5, tag_id: 8, predicate: RulePredicate::TypeEquals("transfer".to_string()) },
    ];
    let tags = match_rules(&op, &rules);
    assert_eq!(tags, vec![42, 5, 8]);
}

#[test]
fn matching_twice_returns_identical_sets() {
    let op = op_with("MONTHLY RENT PAYMENT", "transfer", -90000);
    let rules = vec![details_rule(1, 42, "RENT"), details_rule(2, 5, "MONTHLY")];
    let first = match_rules(&op, &rules);
    let second = match_rules(&op, &rules);
    assert_eq!(first, second);
}

#[test]
fn build_accepts_the_three_kinds_and_rejects_others() {
    let r = TagRule::build(1, 42, "details_contains", "RENT", 0, 0).unwrap();
    assert!(matches!(r.predicate, RulePredicate::DetailsContains(ref p) if p == "RENT"));
    let r = TagRule::build(2, 7, "type_equals", "transfer", 0, 0).unwrap();
    assert!(matches!(r.predicate, RulePredicate::TypeEquals(ref t) if t == "transfer"));
    let r = TagRule::build(3, 9, "amount_between", "", -500, -100).unwrap();
    assert!(matches!(r.predicate, RulePredicate::AmountBetween(-500, -100)));
    assert_eq!(r.id, 3);
    assert_eq!(r.tag_id, 9);
    assert_eq!(
        TagRule::build(4, 1, "regex_match", "x", 0, 0).unwrap_err(),
        EngineError::MalformedRule
    );
    assert_eq!(TagRule::build(5, 1, "", "x", 0, 0).unwrap_err(), EngineError::MalformedRule);
}
