//! Risk assessment of a command against the risk rules.
//!
//! Every rule whose patterns match the command is considered; the most
//! severe one wins, the earliest among equally severe rules. A command that
//! no rule matches is assessed as `none`.
use vstd::prelude::*;

use crate::rules;
use crate::rules::{regex_is_match, RiskCatalog, RiskRule};
use crate::text;
use crate::text::{lower_string, str_eq};

verus! {

broadcast use vstd::string::group_string_axioms;

/// The severity of a risk level, ignoring ASCII case: `destructive` 4,
/// `high` 3, `medium` 2, `low` 1, anything else 0.
pub open spec fn spec_severity_rank(level: Seq<char>) -> u8 {
    let l = text::lower(level);
    if l == "destructive"@ {
        4
    } else if l == "high"@ {
        3
    } else if l == "medium"@ {
        2
    } else if l == "low"@ {
        1
    } else {
        0
    }
}

/// The severity of a risk level, ignoring ASCII case.
pub fn severity_rank(level: &str) -> (r: u8)
    ensures
        r == spec_severity_rank(level@),
{
    let l = lower_string(level);
    if str_eq(l.as_str(), "destructive") {
        4
    } else if str_eq(l.as_str(), "high") {
        3
    } else if str_eq(l.as_str(), "medium") {
        2
    } else if str_eq(l.as_str(), "low") {
        1
    } else {
        0
    }
}

/// Some pattern of the rule matches the command.
pub open spec fn spec_rule_matches(rule: RiskRule, input: Seq<char>) -> bool {
    exists|j: int| 0 <= j < rule.patterns@.len() && #[trigger] rules::regex_matches(rule.patterns@[j]@, input)
}

/// An assessment as values.
pub struct RiskView {
    pub level: Seq<char>,
    pub reason: Seq<char>,
    pub matched_rule: Option<Seq<char>>,
}

/// What no rule matching gives.
pub open spec fn no_risk() -> RiskView {
    RiskView { level: "none"@, reason: "No known high-risk pattern matched."@, matched_rule: None }
}

/// The assessment after the rules so far, with the severity of the best.
pub open spec fn spec_assess_rules(input: Seq<char>, rules: Seq<RiskRule>) -> (RiskView, u8)
    decreases rules.len(),
{
    if rules.len() == 0 {
        (no_risk(), 0)
    } else {
        let best = spec_assess_rules(input, rules.drop_last());
        let rule = rules.last();
        let rank = spec_severity_rank(rule.level@);
        if spec_rule_matches(rule, input) && rank > best.1 {
            (RiskView { level: rule.level@, reason: rule.reason@, matched_rule: Some(rule.name@) }, rank)
        } else {
            best
        }
    }
}

/// The assessment of `input` against the rules.
pub open spec fn spec_assess(input: Seq<char>, rules: Seq<RiskRule>) -> RiskView {
    spec_assess_rules(input, rules).0
}

/// The assessment `rule` gives when it is the one that wins.
pub open spec fn rule_view(rule: RiskRule) -> RiskView {
    RiskView { level: rule.level@, reason: rule.reason@, matched_rule: Some(rule.name@) }
}

proof fn lemma_assess_rules(input: Seq<char>, rules: Seq<RiskRule>)
    ensures
        ({
            let (v, r) = spec_assess_rules(input, rules);
            &&& v.matched_rule is None ==> v == no_risk() && r == 0 && forall|i: int|
                0 <= i < rules.len() && spec_rule_matches(#[trigger] rules[i], input) ==> spec_severity_rank(rules[i].level@) == 0
            &&& v.matched_rule is Some ==> exists|k: int|
                0 <= k < rules.len() && spec_rule_matches(#[trigger] rules[k], input) && v == rule_view(rules[k])
                    && r == spec_severity_rank(rules[k].level@) && r > 0
                    && (forall|j: int| 0 <= j < k && spec_rule_matches(#[trigger] rules[j], input) ==> spec_severity_rank(rules[j].level@) < r)
                    && (forall|j: int| 0 <= j < rules.len() && spec_rule_matches(#[trigger] rules[j], input) ==> spec_severity_rank(rules[j].level@) <= r)
        }),
    decreases rules.len(),
{
    if rules.len() > 0 {
        let init = rules.drop_last();
        lemma_assess_rules(input, init);
        let (bv, br) = spec_assess_rules(input, init);
        let last = rules.last();
        let n = rules.len() - 1;
        assert(rules[n] == last);
        assert forall|i: int| 0 <= i < n implies rules[i] == init[i] by {}
        let rank = spec_severity_rank(last.level@);
        if spec_rule_matches(last, input) && rank > br {
            assert(0 <= n < rules.len() && spec_rule_matches(rules[n], input));
            assert forall|j: int| 0 <= j < n && spec_rule_matches(#[trigger] rules[j], input) implies spec_severity_rank(rules[j].level@) < rank by {
                assert(rules[j] == init[j]);
                if bv.matched_rule is Some {
                    let k = choose|k: int|
                        0 <= k < init.len() && spec_rule_matches(#[trigger] init[k], input) && bv == rule_view(init[k])
                            && br == spec_severity_rank(init[k].level@) && br > 0
                            && (forall|j: int| 0 <= j < k && spec_rule_matches(#[trigger] init[j], input) ==> spec_severity_rank(init[j].level@) < br)
                            && (forall|j: int| 0 <= j < init.len() && spec_rule_matches(#[trigger] init[j], input) ==> spec_severity_rank(init[j].level@) <= br);
                    assert(spec_rule_matches(init[j], input));
                } else {
                    assert(spec_rule_matches(init[j], input));
                }
            }
            assert forall|j: int| 0 <= j < rules.len() && spec_rule_matches(#[trigger] rules[j], input) implies spec_severity_rank(rules[j].level@) <= rank by {
                if j < n {
                    assert(rules[j] == init[j]);
                }
            }
        } else {
            if bv.matched_rule is Some {
                let k = choose|k: int|
                    0 <= k < init.len() && spec_rule_matches(#[trigger] init[k], input) && bv == rule_view(init[k])
                        && br == spec_severity_rank(init[k].level@) && br > 0
                        && (forall|j: int| 0 <= j < k && spec_rule_matches(#[trigger] init[j], input) ==> spec_severity_rank(init[j].level@) < br)
                        && (forall|j: int| 0 <= j < init.len() && spec_rule_matches(#[trigger] init[j], input) ==> spec_severity_rank(init[j].level@) <= br);
                assert(rules[k] == init[k]);
                assert(spec_rule_matches(rules[k], input));
                assert forall|j: int| 0 <= j < k && spec_rule_matches(#[trigger] rules[j], input) implies spec_severity_rank(rules[j].level@) < br by {
                    assert(rules[j] == init[j]);
                    assert(spec_rule_matches(init[j], input));
                }
                assert forall|j: int| 0 <= j < rules.len() && spec_rule_matches(#[trigger] rules[j], input) implies spec_severity_rank(rules[j].level@) <= br by {
                    if j < n {
                        assert(rules[j] == init[j]);
                        assert(spec_rule_matches(init[j], input));
                    }
                }
            } else {
                assert forall|i: int| 0 <= i < rules.len() && spec_rule_matches(#[trigger] rules[i], input) implies spec_severity_rank(rules[i].level@) == 0 by {
                    if i < n {
                        assert(rules[i] == init[i]);
                        assert(spec_rule_matches(init[i], input));
                    }
                }
            }
        }
    }
}

/// Law: the assessment is the most severe rule that matches the input. Its
/// severity is at least that of every matching rule, and it is the
/// earliest matching rule of that severity; when no matching rule has a
/// known severity, nothing matched and the level is `none`.
pub proof fn law_assess_most_severe(input: Seq<char>, rules: Seq<RiskRule>)
    ensures
        forall|i: int|
            0 <= i < rules.len() && spec_rule_matches(#[trigger] rules[i], input) && spec_severity_rank(rules[i].level@) > 0
                ==> spec_assess(input, rules).matched_rule is Some && spec_severity_rank(spec_assess(input, rules).level)
                >= spec_severity_rank(rules[i].level@),
        spec_assess(input, rules).matched_rule is Some ==> exists|k: int|
            0 <= k < rules.len() && spec_rule_matches(#[trigger] rules[k], input) && spec_assess(input, rules) == rule_view(rules[k])
                && spec_severity_rank(rules[k].level@) > 0
                && forall|j: int| 0 <= j < rules.len() && spec_rule_matches(#[trigger] rules[j], input) ==> spec_severity_rank(
                    rules[j].level@,
                ) < spec_severity_rank(rules[k].level@) || (k <= j && spec_severity_rank(rules[j].level@) == spec_severity_rank(rules[k].level@)),
        spec_assess(input, rules).matched_rule is None ==> spec_assess(input, rules) == no_risk(),
{
    lemma_assess_rules(input, rules);
    let (v, r) = spec_assess_rules(input, rules);
    if v.matched_rule is Some {
        let k = choose|k: int|
            0 <= k < rules.len() && spec_rule_matches(#[trigger] rules[k], input) && v == rule_view(rules[k])
                && r == spec_severity_rank(rules[k].level@) && r > 0
                && (forall|j: int| 0 <= j < k && spec_rule_matches(#[trigger] rules[j], input) ==> spec_severity_rank(rules[j].level@) < r)
                && (forall|j: int| 0 <= j < rules.len() && spec_rule_matches(#[trigger] rules[j], input) ==> spec_severity_rank(rules[j].level@) <= r);
        assert(spec_rule_matches(rules[k], input));
        assert forall|j: int| 0 <= j < rules.len() && spec_rule_matches(#[trigger] rules[j], input) implies spec_severity_rank(
            rules[j].level@,
        ) < spec_severity_rank(rules[k].level@) || (k <= j && spec_severity_rank(rules[j].level@) == spec_severity_rank(rules[k].level@)) by {
        }
    }
}

/// The risk of a command, and the rule that found it.
#[derive(Debug, Clone)]
pub struct RiskAssessment {
    pub level: String,
    pub reason: String,
    pub matched_rule: Option<String>,
}

impl View for RiskAssessment {
    type V = RiskView;

    open spec fn view(&self) -> RiskView {
        RiskView {
            level: self.level@,
            reason: self.reason@,
            matched_rule: match self.matched_rule {
                Some(n) => Some(n@),
                None => None,
            },
        }
    }
}

fn rule_matches(rule: &RiskRule, input: &str) -> (r: bool)
    ensures
        r == spec_rule_matches(*rule, input@),
{
    let mut j: usize = 0;
    while j < rule.patterns.len()
        invariant
            j <= rule.patterns@.len(),
            forall|k: int| 0 <= k < j ==> !#[trigger] rules::regex_matches(rule.patterns@[k]@, input@),
        decreases rule.patterns.len() - j,
    {
        if regex_is_match(rule.patterns[j].as_str(), input) {
            return true;
        }
        j = j + 1;
    }
    false
}

/// Assesses `input` against every rule of the catalog.
pub fn assess_risk(input: &str, catalog: &RiskCatalog) -> (r: RiskAssessment)
    ensures
        r@ == spec_assess(input@, catalog.rules()),
{
    let risks = catalog.risks();
    let ghost rs = risks@;
    let mut best = RiskAssessment {
        level: "none".to_owned(),
        reason: "No known high-risk pattern matched.".to_owned(),
        matched_rule: None,
    };
    let mut best_rank: u8 = 0;
    let mut i: usize = 0;
    assert(rs.subrange(0, 0) =~= Seq::<RiskRule>::empty());
    while i < risks.len()
        invariant
            i <= rs.len(),
            rs == risks@,
            spec_assess_rules(input@, rs.subrange(0, i as int)) == (best@, best_rank),
        decreases risks.len() - i,
    {
        proof {
            assert(rs.subrange(0, i + 1).drop_last() =~= rs.subrange(0, i as int));
            assert(rs.subrange(0, i + 1).last() == rs[i as int]);
        }
        let rule = &risks[i];
        if rule_matches(rule, input) {
            let rank = severity_rank(rule.level.as_str());
            if rank > best_rank {
                best_rank = rank;
                best = RiskAssessment {
                    level: rule.level.clone(),
                    reason: rule.reason.clone(),
                    matched_rule: Some(rule.name.clone()),
                };
            }
        }
        i = i + 1;
    }
    assert(rs.subrange(0, rs.len() as int) =~= rs);
    best
}

} // verus!
