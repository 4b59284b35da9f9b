use vstd::prelude::*;

use crate::error::EngineError;
use crate::operation::{tags_contain, OpView, Operation};
use crate::text::{contains_sub, text_contains, text_eq};

verus! {

/// A predicate over operation fields, the body of a tag rule.
#[derive(Debug)]
pub enum RulePredicate {
    /// The details text holds this text as a substring.
    DetailsContains(String),
    /// The machine type code equals this text exactly.
    TypeEquals(String),
    /// The amount in cents lies in this inclusive range.
    AmountBetween(i32, i32),
}

/// Mathematical image of a [`RulePredicate`].
pub enum RulePredicateView {
    DetailsContains(Seq<char>),
    TypeEquals(Seq<char>),
    AmountBetween(i32, i32),
}

impl View for RulePredicate {
    type V = RulePredicateView;

    open spec fn view(&self) -> RulePredicateView {
        match self {
            RulePredicate::DetailsContains(p) => RulePredicateView::DetailsContains(p@),
            RulePredicate::TypeEquals(t) => RulePredicateView::TypeEquals(t@),
            RulePredicate::AmountBetween(lo, hi) => RulePredicateView::AmountBetween(*lo, *hi),
        }
    }
}

/// A user-authored automatic-tagging rule: when the predicate fires on an
/// operation, the rule proposes attaching `tag_id`.
#[derive(Debug)]
pub struct TagRule {
    pub id: u32,
    pub tag_id: u32,
    pub predicate: RulePredicate,
}

/// Mathematical image of a [`TagRule`].
pub struct TagRuleView {
    pub id: u32,
    pub tag_id: u32,
    pub predicate: RulePredicateView,
}

impl View for TagRule {
    type V = TagRuleView;

    open spec fn view(&self) -> TagRuleView {
        TagRuleView { id: self.id, tag_id: self.tag_id, predicate: self.predicate@ }
    }
}

/// The views of a sequence of rules.
pub open spec fn rules_view(s: Seq<TagRule>) -> Seq<TagRuleView> {
    s.map_values(|r: TagRule| r@)
}

/// Whether `rule` fires on the operation.
pub open spec fn rule_matches(op: OpView, rule: TagRuleView) -> bool {
    match rule.predicate {
        RulePredicateView::DetailsContains(p) => text_contains(op.details, p),
        RulePredicateView::TypeEquals(t) => op.op_type == t,
        RulePredicateView::AmountBetween(lo, hi) => lo <= op.amount_in_cents
            && op.amount_in_cents <= hi,
    }
}

/// One of the first `n` rules fires on `op` and proposes tag `t`.
pub open spec fn matched_upto(op: OpView, rules: Seq<TagRuleView>, n: int, t: u32) -> bool {
    exists|l: int| 0 <= l < n && (#[trigger] rules[l]).tag_id == t && rule_matches(op, rules[l])
}

/// The set of tag ids the rules propose for the operation: the union of the
/// tags of every rule that fires.  No rule can cancel another's match.
pub open spec fn match_set(op: OpView, rules: Seq<TagRuleView>) -> Set<u32> {
    Set::new(|t: u32| matched_upto(op, rules, rules.len() as int, t))
}

/// The raw storage form of a predicate kind that matches on details.
pub open spec fn parse_predicate(
    kind: Seq<char>,
    text: Seq<char>,
    low: i32,
    high: i32,
) -> Option<RulePredicateView> {
    if kind == "details_contains"@ {
        Some(RulePredicateView::DetailsContains(text))
    } else if kind == "type_equals"@ {
        Some(RulePredicateView::TypeEquals(text))
    } else if kind == "amount_between"@ {
        Some(RulePredicateView::AmountBetween(low, high))
    } else {
        None
    }
}

impl TagRule {
    /// Build a rule from its raw storage form, as checked at rule-save
    /// time: an unsupported predicate kind is `MalformedRule`.  The text
    /// parameter feeds the text kinds; the two amounts feed the range kind.
    pub fn build(id: u32, tag_id: u32, kind: &str, text: &str, low: i32, high: i32) -> (r: Result<
        TagRule,
        EngineError,
    >)
        ensures
            (r is Ok) == (parse_predicate(kind@, text@, low, high) is Some),
            r is Ok ==> parse_predicate(kind@, text@, low, high) == Some(r->Ok_0@.predicate)
                && r->Ok_0@.id == id && r->Ok_0@.tag_id == tag_id,
            r is Err ==> r == Err::<TagRule, EngineError>(EngineError::MalformedRule),
    {
        if text_eq(kind, "details_contains") {
            Ok(TagRule { id, tag_id, predicate: RulePredicate::DetailsContains(text.to_owned()) })
        } else if text_eq(kind, "type_equals") {
            Ok(TagRule { id, tag_id, predicate: RulePredicate::TypeEquals(text.to_owned()) })
        } else if text_eq(kind, "amount_between") {
            Ok(TagRule { id, tag_id, predicate: RulePredicate::AmountBetween(low, high) })
        } else {
            Err(EngineError::MalformedRule)
        }
    }
}

/// Whether the rule fires on the operation; decides [`rule_matches`].
/// Takes both by shared reference: evaluation mutates neither.
pub fn rule_applies(op: &Operation, rule: &TagRule) -> (r: bool)
    ensures
        r == rule_matches(op@, rule@),
{
    match &rule.predicate {
        RulePredicate::DetailsContains(p) => contains_sub(op.details.as_str(), p.as_str()),
        RulePredicate::TypeEquals(t) => text_eq(op.op_type.as_str(), t.as_str()),
        RulePredicate::AmountBetween(lo, hi) => *lo <= op.amount_in_cents && op.amount_in_cents
            <= *hi,
    }
}

/// Evaluate every rule against the operation and union the proposed tags:
/// exactly the members of [`match_set`], each listed once.  Both inputs are
/// read only, so matching twice on unchanged inputs returns the same set.
pub fn match_rules(op: &Operation, rules: &Vec<TagRule>) -> (r: Vec<u32>)
    ensures
        r@.no_duplicates(),
        forall|t: u32| #[trigger] r@.contains(t) ==> match_set(op@, rules_view(rules@)).contains(t),
        forall|t: u32|
            #[trigger] match_set(op@, rules_view(rules@)).contains(t) ==> r@.contains(t),
{
    let ghost rv = rules_view(rules@);
    let mut out: Vec<u32> = Vec::new();
    let mut k: usize = 0;
    while k < rules.len()
        invariant
            rv == rules_view(rules@),
            k <= rules@.len(),
            out@.no_duplicates(),
            forall|t: u32| #[trigger] out@.contains(t) == matched_upto(op@, rv, k as int, t),
        decreases rules@.len() - k,
    {
        let fired = rule_applies(op, &rules[k]);
        let ghost out_before = out@;
        let tid = rules[k].tag_id;
        if fired {
            if !tags_contain(&out, tid) {
                out.push(tid);
                proof {
                    assert forall|i: int, j: int|
                        0 <= i < j < out@.len() implies out@[i] != out@[j] by {
                        if j == out@.len() - 1 {
                            assert(out_before[i] != tid);
                        }
                    }
                }
            }
        }
        proof {
            assert(rv[k as int] == rules@[k as int]@);
            assert forall|t: u32| #[trigger] out@.contains(t) == matched_upto(
                op@,
                rv,
                k + 1,
                t,
            ) by {
                if out@.contains(t) {
                    if out_before.contains(t) {
                        assert(matched_upto(op@, rv, k as int, t));
                    } else {
                        let w = choose|w: int| 0 <= w < out@.len() && out@[w] == t;
                        assert(t == tid);
                        assert(rv[k as int].tag_id == t && rule_matches(op@, rv[k as int]));
                    }
                }
                if matched_upto(op@, rv, k + 1, t) {
                    let l = choose|l: int|
                        0 <= l < k + 1 && (#[trigger] rv[l]).tag_id == t && rule_matches(
                            op@,
                            rv[l],
                        );
                    if l < k {
                        assert(matched_upto(op@, rv, k as int, t));
                        assert(out_before.contains(t));
                        let w = choose|w: int| 0 <= w < out_before.len() && out_before[w] == t;
                        assert(out@[w] == t);
                    } else {
                        assert(fired && t == tid);
                        if !out_before.contains(t) {
                            assert(out@[out@.len() - 1] == t);
                        } else {
                            let w = choose|w: int|
                                0 <= w < out_before.len() && out_before[w] == t;
                            assert(out@[w] == t);
                        }
                    }
                }
            }
        }
        k += 1;
    }
    out
}

/// Matcher purity: the proposed tag set is a function of the operation and
/// the rule set alone, so two matching passes over unchanged inputs agree.
pub proof fn lemma_match_deterministic(
    op: OpView,
    rules: Seq<TagRuleView>,
    r1: Set<u32>,
    r2: Set<u32>,
)
    requires
        r1 == match_set(op, rules),
        r2 == match_set(op, rules),
    ensures
        r1 == r2,
{
}

} // verus!
