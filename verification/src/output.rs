//! The text the command-line tool prints for each result.
use vstd::prelude::*;

use crate::detector::Detection;
use crate::explainer::{ExplanationItem, ExplanationResult};
use crate::fixer::FixResult;
use crate::safety::RiskAssessment;
use crate::store::command_store;
use crate::text;
use crate::text::{chars_of, join_strings, push_str, string_of};
use crate::translator;
use crate::translator::{display_platform_name, TranslationResult};

verus! {

broadcast use vstd::string::group_string_axioms;

/// Items as a bullet list, one per line.
pub open spec fn spec_format_list(items: Seq<Seq<char>>) -> Seq<char> {
    text::join(items.map_values(|i: Seq<char>| "- "@ + i), "\n"@)
}

/// ASCII upper-casing of one character.
pub open spec fn upper_char(c: char) -> char {
    if 'a' <= c <= 'z' {
        ((c as u32) - 32) as char
    } else {
        c
    }
}

/// `value` with its first character upper-cased.
pub open spec fn spec_capitalize(value: Seq<char>) -> Seq<char> {
    if value.len() == 0 {
        value
    } else {
        seq![upper_char(value[0])] + value.drop_first()
    }
}

fn format_list(items: &[String]) -> (r: String)
    ensures
        r@ == spec_format_list(text::views(items@)),
{
    let ghost is = text::views(items@);
    let mut lines: Vec<String> = Vec::new();
    let mut i: usize = 0;
    while i < items.len()
        invariant
            i <= items@.len(),
            is == text::views(items@),
            text::views(lines@) == is.subrange(0, i as int).map_values(|x: Seq<char>| "- "@ + x),
        decreases items.len() - i,
    {
        let mut line = String::new();
        push_str(&mut line, "- ");
        push_str(&mut line, items[i].as_str());
        let ghost before = text::views(lines@);
        lines.push(line);
        assert(text::views(lines@) =~= before.push("- "@ + items@[i as int]@));
        assert(is.subrange(0, i + 1).map_values(|x: Seq<char>| "- "@ + x) =~= is.subrange(0, i as int).map_values(
            |x: Seq<char>| "- "@ + x,
        ).push("- "@ + is[i as int]));
        i = i + 1;
    }
    assert(is.subrange(0, is.len() as int) =~= is);
    join_strings(&lines, "\n")
}

fn capitalize(value: &str) -> (r: String)
    ensures
        r@ == spec_capitalize(value@),
{
    let cs = chars_of(value);
    if cs.len() == 0 {
        return String::new();
    }
    let c = cs[0];
    let first = if 'a' <= c && c <= 'z' {
        text::char_from_ascii(((c as u32) - 32) as u8)
    } else {
        c
    };
    let mut rest: Vec<char> = Vec::new();
    rest.push(first);
    let mut i: usize = 1;
    while i < cs.len()
        invariant
            1 <= i <= cs@.len(),
            rest@ == seq![first] + cs@.subrange(1, i as int),
        decreases cs.len() - i,
    {
        rest.push(cs[i]);
        i = i + 1;
        assert(rest@ =~= seq![first] + cs@.subrange(1, i as int));
    }
    assert(cs@.subrange(1, cs@.len() as int) =~= cs@.drop_first());
    string_of(&rest)
}

/// What `check` prints for a detection.
pub open spec fn spec_format_check(source_platform: Seq<char>, description: Seq<char>, ubuntu: Seq<Seq<char>>) -> Seq<char> {
    "Detected source: "@ + translator::spec_display_platform_name(source_platform)
        + "\nTarget platform: Ubuntu\nSummary: "@ + description + "\nUbuntu alternatives:\n"@ + spec_format_list(ubuntu)
}

/// The report of `check`: source platform, summary and Ubuntu alternatives.
pub fn format_check(result: &Detection) -> (r: String)
    ensures
        r@ == spec_format_check(
            result.source_platform@,
            result.intent.description@,
            command_store::lookup_platform(result.intent.table(), "ubuntu"@),
        ),
{
    let list = format_list(result.intent.ubuntu_commands());
    let mut r = String::new();
    push_str(&mut r, "Detected source: ");
    push_str(&mut r, display_platform_name(result.source_platform.as_str()));
    push_str(&mut r, "\nTarget platform: Ubuntu\nSummary: ");
    push_str(&mut r, result.intent.description.as_str());
    push_str(&mut r, "\nUbuntu alternatives:\n");
    push_str(&mut r, list.as_str());
    r
}

/// The report of `translate`: source, target, summary and native equivalents.
pub fn format_translation(result: &TranslationResult) -> (r: String)
    ensures
        r@ == "Detected source: "@ + result.source@ + "\nTarget platform: "@ + spec_capitalize(result.target@)
            + "\nSummary: "@ + result.description@ + "\nNative equivalents:\n"@ + spec_format_list(text::views(result.suggestions@)),
{
    let list = format_list(result.suggestions.as_slice());
    let target = capitalize(result.target.as_str());
    let mut r = String::new();
    push_str(&mut r, "Detected source: ");
    push_str(&mut r, result.source.as_str());
    push_str(&mut r, "\nTarget platform: ");
    push_str(&mut r, target.as_str());
    push_str(&mut r, "\nSummary: ");
    push_str(&mut r, result.description.as_str());
    push_str(&mut r, "\nNative equivalents:\n");
    push_str(&mut r, list.as_str());
    r
}

/// The detail lines of an explanation.
pub open spec fn spec_explanation_details(items: Seq<ExplanationItem>) -> Seq<char> {
    text::join(items.map_values(|i: ExplanationItem| "- "@ + i.token@ + ": "@ + i.explanation@), "\n"@)
}

/// The report of `explain`: each token explained, then the risk.
pub fn format_explanation(result: &ExplanationResult) -> (r: String)
    ensures
        r@ == "Command: "@ + result.command@ + "\nExplanation:\n"@ + spec_explanation_details(result.items@)
            + "\nRisk level: "@ + result.risk.level@ + "\nReason: "@ + result.risk.reason@,
{
    let ghost its = result.items@;
    let mut lines: Vec<String> = Vec::new();
    let mut i: usize = 0;
    while i < result.items.len()
        invariant
            i <= its.len(),
            its == result.items@,
            text::views(lines@) == its.subrange(0, i as int).map_values(
                |x: ExplanationItem| "- "@ + x.token@ + ": "@ + x.explanation@,
            ),
        decreases result.items.len() - i,
    {
        let item = &result.items[i];
        let mut line = String::new();
        push_str(&mut line, "- ");
        push_str(&mut line, item.token.as_str());
        push_str(&mut line, ": ");
        push_str(&mut line, item.explanation.as_str());
        let ghost before = text::views(lines@);
        lines.push(line);
        assert(text::views(lines@) =~= before.push("- "@ + item.token@ + ": "@ + item.explanation@));
        assert(its.subrange(0, i + 1).map_values(|x: ExplanationItem| "- "@ + x.token@ + ": "@ + x.explanation@)
            =~= its.subrange(0, i as int).map_values(|x: ExplanationItem| "- "@ + x.token@ + ": "@ + x.explanation@).push(
            "- "@ + its[i as int].token@ + ": "@ + its[i as int].explanation@,
        ));
        i = i + 1;
    }
    assert(its.subrange(0, its.len() as int) =~= its);
    let details = join_strings(&lines, "\n");
    let mut r = String::new();
    push_str(&mut r, "Command: ");
    push_str(&mut r, result.command.as_str());
    push_str(&mut r, "\nExplanation:\n");
    push_str(&mut r, details.as_str());
    push_str(&mut r, "\nRisk level: ");
    push_str(&mut r, result.risk.level.as_str());
    push_str(&mut r, "\nReason: ");
    push_str(&mut r, result.risk.reason.as_str());
    r
}

/// The report of `risk`.
pub fn format_risk(result: &RiskAssessment) -> (r: String)
    ensures
        r@ == "Risk level: "@ + result.level@ + "\nReason: "@ + result.reason@,
{
    let mut r = String::new();
    push_str(&mut r, "Risk level: ");
    push_str(&mut r, result.level.as_str());
    push_str(&mut r, "\nReason: ");
    push_str(&mut r, result.reason.as_str());
    r
}

/// The report of `fix`.
pub fn format_fix(result: &FixResult) -> (r: String)
    ensures
        r@ == result.command@ + " is not a default Ubuntu command. It comes from "@ + result.source@
            + ".\nSuggested Ubuntu commands:\n"@ + spec_format_list(text::views(result.suggestions@)),
{
    let list = format_list(result.suggestions.as_slice());
    let mut r = String::new();
    push_str(&mut r, result.command.as_str());
    push_str(&mut r, " is not a default Ubuntu command. It comes from ");
    push_str(&mut r, result.source.as_str());
    push_str(&mut r, ".\nSuggested Ubuntu commands:\n");
    push_str(&mut r, list.as_str());
    r
}

/// The report for a command that matched no rule.
pub fn format_unknown_command(input: &str) -> (r: String)
    ensures
        r@ == "No deterministic rule matched '"@ + input@
            + "'. Add a command record and rebuild the C4DB index to support this command."@,
{
    let mut r = String::new();
    push_str(&mut r, "No deterministic rule matched '");
    push_str(&mut r, input);
    push_str(&mut r, "'. Add a command record and rebuild the C4DB index to support this command.");
    r
}

} // verus!
