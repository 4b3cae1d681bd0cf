//! Token-by-token explanations of a command, with its assessed risk.
use vstd::prelude::*;

use crate::rules;
use crate::rules::{regex_is_match, RiskCatalog};
use crate::safety;
use crate::safety::{assess_risk, RiskAssessment};
use crate::text;
use crate::text::{push_str, split_whitespace, str_eq};

verus! {

broadcast use vstd::string::group_string_axioms;

/// One token and what it does.
#[derive(Debug, Clone)]
pub struct ExplanationItem {
    pub token: String,
    pub explanation: String,
}

/// The explanation of a whole command.
#[derive(Debug, Clone)]
pub struct ExplanationResult {
    pub command: String,
    pub items: Vec<ExplanationItem>,
    pub risk: RiskAssessment,
}

/// Recognises an octal permission mode such as `755` or `0644`.
pub const OCTAL_PERMISSION_PATTERN: &'static str = "^[0-7]{3,4}$";

/// The explanation of a command name.
pub open spec fn spec_explain_command_name(command: Seq<char>) -> Seq<char> {
    if command == "chmod"@ {
        "Changes file or directory permission bits."@
    } else if command == "rm"@ {
        "Removes files or directories."@
    } else {
        "Command or executable name."@
    }
}

/// The explanation of an octal permission mode.
pub open spec fn spec_permission_explanation(token: Seq<char>) -> Seq<char> {
    if token == "777"@ {
        "Grants read, write, and execute permissions to owner, group, and others."@
    } else {
        "Sets Unix permission bits to octal mode "@ + token + "."@
    }
}

/// The explanation of the token at `index` of a command named `command`.
pub open spec fn spec_explain_token(command: Seq<char>, token: Seq<char>, index: int) -> Seq<char> {
    if index == 0 {
        spec_explain_command_name(command)
    } else if command == "chmod"@ && token == "-R"@ {
        "Applies the permission change recursively to all nested files and directories."@
    } else if command == "chmod"@ && token == "."@ {
        "Targets the current directory."@
    } else if command == "rm"@ && (token == "-rf"@ || token == "-fr"@) {
        "Forces recursive deletion without prompting."@
    } else if command == "rm"@ && token == "/"@ {
        "Targets the filesystem root directory."@
    } else if rules::regex_matches(OCTAL_PERMISSION_PATTERN@, token) {
        spec_permission_explanation(token)
    } else {
        "No built-in explanation is available for this token."@
    }
}

fn explain_command_name(command: &str) -> (r: String)
    ensures
        r@ == spec_explain_command_name(command@),
{
    if str_eq(command, "chmod") {
        "Changes file or directory permission bits.".to_owned()
    } else if str_eq(command, "rm") {
        "Removes files or directories.".to_owned()
    } else {
        "Command or executable name.".to_owned()
    }
}

fn format_permission_explanation(token: &str) -> (r: String)
    ensures
        r@ == spec_permission_explanation(token@),
{
    if str_eq(token, "777") {
        return "Grants read, write, and execute permissions to owner, group, and others.".to_owned();
    }
    let mut r = String::new();
    push_str(&mut r, "Sets Unix permission bits to octal mode ");
    push_str(&mut r, token);
    push_str(&mut r, ".");
    assert(r@ =~= "Sets Unix permission bits to octal mode "@ + token@ + "."@);
    r
}

fn explain_token(command: &str, token: &str, index: usize) -> (r: String)
    ensures
        r@ == spec_explain_token(command@, token@, index as int),
{
    if index == 0 {
        return explain_command_name(command);
    }
    if str_eq(command, "chmod") && str_eq(token, "-R") {
        "Applies the permission change recursively to all nested files and directories.".to_owned()
    } else if str_eq(command, "chmod") && str_eq(token, ".") {
        "Targets the current directory.".to_owned()
    } else if str_eq(command, "rm") && (str_eq(token, "-rf") || str_eq(token, "-fr")) {
        "Forces recursive deletion without prompting.".to_owned()
    } else if str_eq(command, "rm") && str_eq(token, "/") {
        "Targets the filesystem root directory.".to_owned()
    } else if regex_is_match(OCTAL_PERMISSION_PATTERN, token) {
        format_permission_explanation(token)
    } else {
        "No built-in explanation is available for this token.".to_owned()
    }
}

/// An explanation as values: the command name, each token with its
/// explanation, and the assessed risk.
pub struct ExplanationView {
    pub command: Seq<char>,
    pub items: Seq<(Seq<char>, Seq<char>)>,
    pub risk: safety::RiskView,
}

impl View for ExplanationResult {
    type V = ExplanationView;

    open spec fn view(&self) -> ExplanationView {
        ExplanationView {
            command: self.command@,
            items: self.items@.map_values(|i: ExplanationItem| (i.token@, i.explanation@)),
            risk: self.risk@,
        }
    }
}

/// The explanation of `input`.
pub open spec fn spec_explain(input: Seq<char>, rules: Seq<rules::RiskRule>) -> ExplanationView {
    let tokens = text::split_ws(input);
    let command = if tokens.len() > 0 {
        tokens[0]
    } else {
        Seq::empty()
    };
    ExplanationView {
        command,
        items: Seq::new(tokens.len(), |i: int| (tokens[i], spec_explain_token(command, tokens[i], i))),
        risk: safety::spec_assess(input, rules),
    }
}

/// Law: the risk an explanation reports is the assessment of the whole
/// input, not of its command name alone: it is what `assess_risk` gives for
/// the input, so it is at least as severe as every rule that matches the
/// input.
pub proof fn law_explain_assesses_whole_input(input: Seq<char>, rules: Seq<rules::RiskRule>)
    ensures
        spec_explain(input, rules).risk == safety::spec_assess(input, rules),
        forall|i: int|
            0 <= i < rules.len() && safety::spec_rule_matches(#[trigger] rules[i], input) && safety::spec_severity_rank(
                rules[i].level@,
            ) > 0 ==> safety::spec_severity_rank(spec_explain(input, rules).risk.level) >= safety::spec_severity_rank(rules[i].level@),
{
    safety::law_assess_most_severe(input, rules);
}

/// Explains each token of `input` and assesses its risk.
pub fn explain_command(input: &str, risk_catalog: &RiskCatalog) -> (r: ExplanationResult)
    ensures
        r@ == spec_explain(input@, risk_catalog.rules()),
{
    let tokens = split_whitespace(input);
    let ghost ts = text::views(tokens@);
    let command = if tokens.len() > 0 {
        assert(ts[0] == tokens@[0]@);
        tokens[0].clone()
    } else {
        String::new()
    };
    let mut items: Vec<ExplanationItem> = Vec::new();
    let mut i: usize = 0;
    while i < tokens.len()
        invariant
            i <= tokens@.len(),
            ts == text::views(tokens@),
            ts == text::split_ws(input@),
            command@ == (if ts.len() > 0 { ts[0] } else { Seq::<char>::empty() }),
            items@.len() == i,
            forall|k: int| 0 <= k < i ==> (#[trigger] items@[k]).token@ == ts[k] && items@[k].explanation@
                == spec_explain_token(command@, ts[k], k),
        decreases tokens.len() - i,
    {
        let explanation = explain_token(command.as_str(), tokens[i].as_str(), i);
        assert(ts[i as int] == tokens@[i as int]@);
        items.push(ExplanationItem { token: tokens[i].clone(), explanation });
        i = i + 1;
    }
    let risk = assess_risk(input, risk_catalog);
    let r = ExplanationResult { command, items, risk };
    assert(r@.items =~= spec_explain(input@, risk_catalog.rules()).items);
    r
}

} // verus!
