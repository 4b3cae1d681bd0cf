//! The decisions of the interactive shell: what a typed line translates
//! to, how risky it is, and whether it runs, needs confirmation, is blocked
//! or is refused as unknown.
//!
//! Policy: destructive commands are blocked; a command without a known
//! translation is never run; medium- and high-risk translations need
//! confirmation; other translations run. Only the translated native command
//! is ever handed to the executor.
use vstd::prelude::*;
use vstd::string::*;

use crate::detector;
use crate::detector::detect_command;
use crate::executor::{ExecError, ExecutionResult};
use crate::platform;
use crate::platform::{normalize_target_platform, Platform};
use crate::rules::{RiskCatalog, RiskRule};
use crate::safety;
use crate::safety::{assess_risk, severity_rank};
use crate::store::command_store;
use crate::store::command_store::{CommandStore, StoreError};
use crate::text;
use crate::text::{eq_ignore_ascii_case, str_eq, trim_str};
use crate::translator;
use crate::translator::{display_platform_name, translate_detection, TranslateError};

verus! {

broadcast use vstd::string::group_string_axioms;

/// What the shell does with a line.
#[derive(Debug, Clone, Copy, PartialEq, Eq, Structural)]
pub enum ShellAction {
    Execute,
    Confirm,
    Block,
    UnknownNoExecute,
}

/// The shell's verdict on one line.
#[derive(Debug, Clone)]
pub struct ShellDecision {
    pub original_command: String,
    pub detected_source: String,
    pub current_platform: String,
    pub intent: Option<String>,
    pub translated_command: Option<String>,
    pub risk_level: String,
    pub risk_reason: Option<String>,
    pub action: ShellAction,
}

/// A decision as values.
pub struct DecisionView {
    pub original_command: Seq<char>,
    pub detected_source: Seq<char>,
    pub current_platform: Seq<char>,
    pub intent: Option<Seq<char>>,
    pub translated_command: Option<Seq<char>>,
    pub risk_level: Seq<char>,
    pub risk_reason: Option<Seq<char>>,
    pub action: ShellAction,
}

impl View for ShellDecision {
    type V = DecisionView;

    open spec fn view(&self) -> DecisionView {
        DecisionView {
            original_command: self.original_command@,
            detected_source: self.detected_source@,
            current_platform: self.current_platform@,
            intent: translator::opt_view(self.intent),
            translated_command: translator::opt_view(self.translated_command),
            risk_level: self.risk_level@,
            risk_reason: translator::opt_view(self.risk_reason),
            action: self.action,
        }
    }
}

/// Why the shell could not decide or run a line.
#[derive(Debug, Clone)]
pub enum ShellError {
    /// The current platform names no supported platform.
    UnsupportedPlatform(String),
    /// The command store could not answer.
    Store(StoreError),
    /// The decision to run carried no translated command.
    MissingTranslation,
    /// The executor could not run the translated command.
    Execution(ExecError),
}

/// The most severe of the levels, starting from `low`; the earliest among
/// equally severe ones.
pub open spec fn spec_strongest(levels: Seq<Seq<char>>) -> (Seq<char>, u8)
    decreases levels.len(),
{
    if levels.len() == 0 {
        ("low"@, 1)
    } else {
        let best = spec_strongest(levels.drop_last());
        let r = safety::spec_severity_rank(levels.last());
        if r > best.1 {
            (levels.last(), r)
        } else {
            best
        }
    }
}

/// Whether a level is `destructive`, ignoring ASCII case.
pub open spec fn spec_is_destructive(level: Seq<char>) -> bool {
    text::eq_ignore_case(level, "destructive"@)
}

/// `unknown` for a level without severity, the level otherwise.
pub open spec fn spec_unknown_or_risk(level: Seq<char>) -> Seq<char> {
    if safety::spec_severity_rank(level) == 0 {
        "unknown"@
    } else {
        level
    }
}

/// The reason, for a level with severity.
pub open spec fn spec_reason_if_known(reason: Seq<char>, level: Seq<char>) -> Option<Seq<char>> {
    if safety::spec_severity_rank(level) == 0 {
        None
    } else {
        Some(reason)
    }
}

/// The confirmation question for a risk level.
pub open spec fn spec_confirmation_prompt(level: Seq<char>) -> Seq<char> {
    if text::eq_ignore_case(level, "high"@) {
        "Execute this high-risk command? [y/N]"@
    } else {
        "Execute this medium-risk command? [y/N]"@
    }
}

/// The decision for a line that matched no known command.
pub open spec fn spec_unknown_decision(original: Seq<char>, p: Platform, orig: safety::RiskView) -> DecisionView {
    DecisionView {
        original_command: original,
        detected_source: "unknown"@,
        current_platform: p.spec_key(),
        intent: None,
        translated_command: None,
        risk_level: spec_unknown_or_risk(orig.level),
        risk_reason: spec_reason_if_known(orig.reason, orig.level),
        action: if spec_is_destructive(orig.level) {
            ShellAction::Block
        } else {
            ShellAction::UnknownNoExecute
        },
    }
}

/// The first suggestion of a translation, if any.
pub open spec fn spec_first_suggestion(t: Option<Option<translator::TranslationView>>) -> Option<Seq<char>> {
    match t {
        Some(Some(tv)) => if tv.suggestions.len() > 0 {
            Some(tv.suggestions[0])
        } else {
            None
        },
        _ => None,
    }
}

/// The action for a combined risk level and a translation. Levels are
/// compared without regard to letter case, as the severity ranking compares
/// them: a catalog level spelled `High` or `MEDIUM` asks for confirmation
/// just as `high` and `medium` do, and is never run unasked. (An exact,
/// lower-case comparison would let such a level outrank `low` and still run
/// without asking.)
pub open spec fn spec_action(risk_level: Seq<char>, translated: Option<Seq<char>>) -> ShellAction {
    if spec_is_destructive(risk_level) {
        ShellAction::Block
    } else if translated is None {
        ShellAction::UnknownNoExecute
    } else if text::eq_ignore_case(risk_level, "medium"@) || text::eq_ignore_case(risk_level, "high"@) {
        ShellAction::Confirm
    } else {
        ShellAction::Execute
    }
}

/// The decision for a line detected as `d`.
pub open spec fn spec_known_decision(original: Seq<char>, p: Platform, orig: safety::RiskView, d: detector::DetectionView, rules: Seq<RiskRule>) -> DecisionView {
    let translated = spec_first_suggestion(translator::spec_translate(d, p.spec_key()));
    let tr = match translated {
        Some(c) => Some(safety::spec_assess(c, rules)),
        None => None,
    };
    let tr_level = match tr {
        Some(r) => r.level,
        None => "none"@,
    };
    let risk_level = spec_strongest(seq![d.intent.risk_level, orig.level, tr_level]).0;
    DecisionView {
        original_command: original,
        detected_source: d.source_platform,
        current_platform: p.spec_key(),
        intent: Some(d.intent.intent),
        translated_command: translated,
        risk_level,
        risk_reason: match tr {
            Some(r) => Some(r.reason),
            None => spec_reason_if_known(orig.reason, orig.level),
        },
        action: spec_action(risk_level, translated),
    }
}

/// The shell's decision for `input` on the platform `current`, given what
/// the store answers for the trimmed input: `None` when `current` names no
/// platform.
pub open spec fn spec_decide(
    input: Seq<char>,
    current: Seq<char>,
    lookup: Result<Option<command_store::CommandRecordView>, StoreError>,
    rules: Seq<RiskRule>,
) -> Option<Result<DecisionView, StoreError>> {
    match platform::spec_target_platform(current) {
        None => None,
        Some(p) => {
            let original = text::trim(input);
            let orig = safety::spec_assess(original, rules);
            Some(
                match lookup {
                    Err(e) => Err(e),
                    Ok(None) => Ok(spec_unknown_decision(original, p, orig)),
                    Ok(Some(rec)) => match detector::spec_detection(original, rec) {
                        None => Ok(spec_unknown_decision(original, p, orig)),
                        Some(d) => Ok(spec_known_decision(original, p, orig, d, rules)),
                    },
                },
            )
        },
    }
}

/// The severity of a risk level, ignoring ASCII case.
pub fn risk_rank(level: &str) -> (r: u8)
    ensures
        r == safety::spec_severity_rank(level@),
{
    severity_rank(level)
}

/// The most severe of the levels, `low` when none is more severe.
pub fn strongest_risk_level(levels: &Vec<String>) -> (r: String)
    ensures
        r@ == spec_strongest(text::views(levels@)).0,
{
    let ghost ls = text::views(levels@);
    let mut strongest = "low".to_owned();
    let mut strongest_rank: u8 = 1;
    let mut i: usize = 0;
    assert(ls.subrange(0, 0) =~= Seq::<Seq<char>>::empty());
    while i < levels.len()
        invariant
            i <= levels@.len(),
            ls == text::views(levels@),
            spec_strongest(ls.subrange(0, i as int)) == (strongest@, strongest_rank),
        decreases levels.len() - i,
    {
        proof {
            assert(ls.subrange(0, i + 1).drop_last() =~= ls.subrange(0, i as int));
            assert(ls.subrange(0, i + 1).last() == levels@[i as int]@);
        }
        let rank = risk_rank(levels[i].as_str());
        if rank > strongest_rank {
            strongest = levels[i].clone();
            strongest_rank = rank;
        }
        i = i + 1;
    }
    assert(ls.subrange(0, ls.len() as int) =~= ls);
    strongest
}

fn unknown_or_risk(level: &str) -> (r: String)
    ensures
        r@ == spec_unknown_or_risk(level@),
{
    if risk_rank(level) == 0 {
        "unknown".to_owned()
    } else {
        level.to_owned()
    }
}

fn is_destructive(level: &str) -> (r: bool)
    ensures
        r == spec_is_destructive(level@),
{
    eq_ignore_ascii_case(level, "destructive")
}

fn reason_if_known(reason: &str, level: &str) -> (r: Option<String>)
    ensures
        translator::opt_view(r) == spec_reason_if_known(reason@, level@),
{
    if risk_rank(level) == 0 {
        None
    } else {
        Some(reason.to_owned())
    }
}

/// The confirmation question for a risk level; `high` is recognised in any
/// letter case, like the level that asks for confirmation.
pub fn confirmation_prompt(risk_level: &str) -> (r: String)
    ensures
        r@ == spec_confirmation_prompt(risk_level@),
{
    if eq_ignore_ascii_case(risk_level, "high") {
        "Execute this high-risk command? [y/N]".to_owned()
    } else {
        "Execute this medium-risk command? [y/N]".to_owned()
    }
}

/// Decides what the shell does with `input` on the platform `current_platform`.
pub fn decide_shell_command<S: CommandStore>(
    input: &str,
    current_platform: &str,
    store: &S,
    risk_catalog: &RiskCatalog,
) -> (r: Result<ShellDecision, ShellError>)
    ensures
        match spec_decide(input@, current_platform@, store.command_lookup(text::trim(input@)), risk_catalog.rules()) {
            None => r matches Err(ShellError::UnsupportedPlatform(t)) && t@ == current_platform@,
            Some(Err(e)) => r matches Err(ShellError::Store(x)) && x == e,
            Some(Ok(v)) => r matches Ok(d) && d@ == v,
        },
{
    let platform = match normalize_target_platform(current_platform) {
        Some(p) => p,
        None => return Err(ShellError::UnsupportedPlatform(current_platform.to_owned())),
    };
    let original_command = trim_str(input);
    let original_risk = assess_risk(original_command.as_str(), risk_catalog);
    let detection = match detect_command(original_command.as_str(), store) {
        Ok(Some(d)) => d,
        Ok(None) => {
            let action = if is_destructive(original_risk.level.as_str()) {
                ShellAction::Block
            } else {
                ShellAction::UnknownNoExecute
            };
            return Ok(ShellDecision {
                original_command,
                detected_source: "unknown".to_owned(),
                current_platform: platform.key().to_owned(),
                intent: None,
                translated_command: None,
                risk_level: unknown_or_risk(original_risk.level.as_str()),
                risk_reason: reason_if_known(original_risk.reason.as_str(), original_risk.level.as_str()),
                action,
            });
        },
        Err(e) => return Err(ShellError::Store(e)),
    };
    proof {
        platform::lemma_key_names_platform(platform);
    }
    let translated_command: Option<String> = match translate_detection(&detection, platform.key()) {
        Ok(Some(t)) => if t.suggestions.len() > 0 {
            assert(text::views(t.suggestions@)[0] == t.suggestions@[0]@);
            Some(t.suggestions[0].clone())
        } else {
            None
        },
        Ok(None) => None,
        Err(_) => None,
    };
    let translated_risk = match &translated_command {
        Some(c) => Some(assess_risk(c.as_str(), risk_catalog)),
        None => None,
    };
    let tr_level = match &translated_risk {
        Some(r) => r.level.clone(),
        None => "none".to_owned(),
    };
    let mut levels: Vec<String> = Vec::new();
    levels.push(detection.intent.risk_level.clone());
    levels.push(original_risk.level.clone());
    levels.push(tr_level);
    assert(text::views(levels@) =~= seq![detection.intent.risk_level@, original_risk.level@, tr_level@]);
    let risk_level = strongest_risk_level(&levels);
    let action = if is_destructive(risk_level.as_str()) {
        ShellAction::Block
    } else if translated_command.is_none() {
        ShellAction::UnknownNoExecute
    } else if eq_ignore_ascii_case(risk_level.as_str(), "medium") || eq_ignore_ascii_case(risk_level.as_str(), "high") {
        ShellAction::Confirm
    } else {
        ShellAction::Execute
    };
    let risk_reason = match &translated_risk {
        Some(r) => Some(r.reason.clone()),
        None => reason_if_known(original_risk.reason.as_str(), original_risk.level.as_str()),
    };
    Ok(ShellDecision {
        original_command,
        detected_source: detection.source_platform,
        current_platform: platform.key().to_owned(),
        intent: Some(detection.intent.intent),
        translated_command,
        risk_level,
        risk_reason,
        action,
    })
}


proof fn lemma_destructive_rank(level: Seq<char>)
    ensures
        spec_is_destructive(level) <==> safety::spec_severity_rank(level) == 4,
{
    reveal_strlit("destructive");
    assert("destructive"@.len() == 11);
    text::lemma_lower_of_lowercase("destructive"@);
}

proof fn lemma_strongest(levels: Seq<Seq<char>>)
    ensures
        spec_strongest(levels).1 == safety::spec_severity_rank(spec_strongest(levels).0),
        spec_strongest(levels).1 >= 1,
        forall|i: int| 0 <= i < levels.len() ==> spec_strongest(levels).1 >= safety::spec_severity_rank(#[trigger] levels[i]),
    decreases levels.len(),
{
    if levels.len() == 0 {
        reveal_strlit("low");
        assert("low"@.len() == 3);
        text::lemma_lower_of_lowercase("low"@);
        reveal_strlit("destructive");
        reveal_strlit("high");
        reveal_strlit("medium");
        assert("destructive"@.len() == 11 && "high"@.len() == 4 && "medium"@.len() == 6);
        assert("low"@ != "destructive"@ && "low"@ != "high"@ && "low"@ != "medium"@);
    } else {
        lemma_strongest(levels.drop_last());
        assert forall|i: int| 0 <= i < levels.len() implies spec_strongest(levels).1 >= safety::spec_severity_rank(
            #[trigger] levels[i],
        ) by {
            if i < levels.len() - 1 {
                assert(levels[i] == levels.drop_last()[i]);
            }
        }
    }
}

/// A decision blocks a line exactly when its combined risk level is
/// destructive.
pub proof fn law_block_iff_destructive(
    input: Seq<char>,
    current: Seq<char>,
    lookup: Result<Option<command_store::CommandRecordView>, StoreError>,
    rules: Seq<RiskRule>,
)
    requires
        spec_decide(input, current, lookup, rules) is Some,
        spec_decide(input, current, lookup, rules).unwrap() is Ok,
    ensures
        ({
            let v = spec_decide(input, current, lookup, rules).unwrap().unwrap();
            (v.action == ShellAction::Block) <==> spec_is_destructive(v.risk_level)
        }),
{
    let v = spec_decide(input, current, lookup, rules).unwrap().unwrap();
    let orig = safety::spec_assess(text::trim(input), rules);
    lemma_destructive_rank(orig.level);
    lemma_destructive_rank(v.risk_level);
    reveal_strlit("unknown");
    reveal_strlit("destructive");
    assert("unknown"@.len() == 7 && "destructive"@.len() == 11);
}

/// A line that matches no known command is never run: it is blocked or
/// refused, and no translation is offered.
pub proof fn law_unknown_never_runs(
    input: Seq<char>,
    current: Seq<char>,
    lookup: Result<Option<command_store::CommandRecordView>, StoreError>,
    rules: Seq<RiskRule>,
)
    requires
        spec_decide(input, current, lookup, rules) is Some,
        spec_decide(input, current, lookup, rules).unwrap() is Ok,
        spec_decide(input, current, lookup, rules).unwrap().unwrap().intent is None,
    ensures
        ({
            let v = spec_decide(input, current, lookup, rules).unwrap().unwrap();
            &&& v.translated_command is None
            &&& v.action == ShellAction::Block || v.action == ShellAction::UnknownNoExecute
        }),
{
}

/// Only a translated native command is ever run or offered for
/// confirmation, and never a destructive one.
pub proof fn law_runs_only_translations(
    input: Seq<char>,
    current: Seq<char>,
    lookup: Result<Option<command_store::CommandRecordView>, StoreError>,
    rules: Seq<RiskRule>,
)
    requires
        spec_decide(input, current, lookup, rules) is Some,
        spec_decide(input, current, lookup, rules).unwrap() is Ok,
    ensures
        ({
            let v = spec_decide(input, current, lookup, rules).unwrap().unwrap();
            (v.action == ShellAction::Execute || v.action == ShellAction::Confirm) ==> v.translated_command is Some
                && v.intent is Some && !spec_is_destructive(v.risk_level)
        }),
        ({
            let v = spec_decide(input, current, lookup, rules).unwrap().unwrap();
            v.action == ShellAction::Confirm ==> text::eq_ignore_case(v.risk_level, "medium"@) || text::eq_ignore_case(
                v.risk_level,
                "high"@,
            )
        }),
{
}

/// A line whose own text the rules find destructive is blocked, whatever
/// it translates to.
pub proof fn law_destructive_input_blocked(
    input: Seq<char>,
    current: Seq<char>,
    lookup: Result<Option<command_store::CommandRecordView>, StoreError>,
    rules: Seq<RiskRule>,
)
    requires
        spec_decide(input, current, lookup, rules) is Some,
        spec_decide(input, current, lookup, rules).unwrap() is Ok,
        spec_is_destructive(safety::spec_assess(text::trim(input), rules).level),
    ensures
        spec_decide(input, current, lookup, rules).unwrap().unwrap().action == ShellAction::Block,
{
    let v = spec_decide(input, current, lookup, rules).unwrap().unwrap();
    let orig = safety::spec_assess(text::trim(input), rules);
    lemma_destructive_rank(orig.level);
    if v.intent is Some {
        let rec = lookup.unwrap().unwrap();
        let d = detector::spec_detection(text::trim(input), rec).unwrap();
        let p = platform::spec_target_platform(current).unwrap();
        let translated = spec_first_suggestion(translator::spec_translate(d, p.spec_key()));
        let tr_level = match translated {
            Some(c) => safety::spec_assess(c, rules).level,
            None => "none"@,
        };
        let ls = seq![d.intent.risk_level, orig.level, tr_level];
        lemma_strongest(ls);
        assert(ls[1] == orig.level);
        lemma_destructive_rank(spec_strongest(ls).0);
        assert(v.risk_level == spec_strongest(ls).0);
    }
}

proof fn lemma_level_names()
    ensures
        text::lower("low"@) == "low"@,
        text::lower("medium"@) == "medium"@,
        text::lower("high"@) == "high"@,
{
    reveal_strlit("low");
    reveal_strlit("medium");
    reveal_strlit("high");
    assert("low"@.len() == 3 && "medium"@.len() == 6 && "high"@.len() == 4);
    text::lemma_lower_of_lowercase("low"@);
    text::lemma_lower_of_lowercase("medium"@);
    text::lemma_lower_of_lowercase("high"@);
}

/// A line is run without asking only when its combined level is `low`, in
/// any spelling: medium, high and destructive levels are never run unasked,
/// whatever their case.
pub proof fn law_runs_unasked_only_low(
    input: Seq<char>,
    current: Seq<char>,
    lookup: Result<Option<command_store::CommandRecordView>, StoreError>,
    rules: Seq<RiskRule>,
)
    requires
        spec_decide(input, current, lookup, rules) is Some,
        spec_decide(input, current, lookup, rules).unwrap() is Ok,
    ensures
        spec_decide(input, current, lookup, rules).unwrap().unwrap().action == ShellAction::Execute ==> text::lower(
            spec_decide(input, current, lookup, rules).unwrap().unwrap().risk_level,
        ) == "low"@,
{
    let v = spec_decide(input, current, lookup, rules).unwrap().unwrap();
    lemma_level_names();
    if v.intent is Some {
        let rec = lookup.unwrap().unwrap();
        let d = detector::spec_detection(text::trim(input), rec).unwrap();
        let p = platform::spec_target_platform(current).unwrap();
        let orig = safety::spec_assess(text::trim(input), rules);
        let translated = spec_first_suggestion(translator::spec_translate(d, p.spec_key()));
        let tr_level = match translated {
            Some(c) => safety::spec_assess(c, rules).level,
            None => "none"@,
        };
        let ls = seq![d.intent.risk_level, orig.level, tr_level];
        lemma_strongest(ls);
        lemma_destructive_rank(spec_strongest(ls).0);
        assert(v.risk_level == spec_strongest(ls).0);
    }
}

/// The combined risk level is at least as severe as every level it
/// combines, and at least `low`.
pub proof fn law_strongest_dominates(levels: Seq<Seq<char>>)
    ensures
        safety::spec_severity_rank(spec_strongest(levels).0) >= 1,
        forall|i: int| 0 <= i < levels.len() ==> safety::spec_severity_rank(spec_strongest(levels).0) >= safety::spec_severity_rank(
            #[trigger] levels[i],
        ),
{
    lemma_strongest(levels);
}

/// What the shell shows and runs for one line.
#[derive(Debug, Clone)]
pub struct TerminalResponse {
    pub original_command: String,
    pub detected_source: String,
    pub current_os: String,
    pub matched_intent: Option<String>,
    pub translated_command: Option<String>,
    pub risk_level: String,
    pub stdout: String,
    pub stderr: String,
    pub exit_status: Option<i32>,
    pub action: ShellAction,
    pub risk_reason: Option<String>,
    pub message: Option<String>,
    pub confirmation_prompt: Option<String>,
}

/// The notice shown for an action.
pub open spec fn spec_submit_message(action: ShellAction) -> Option<Seq<char>> {
    match action {
        ShellAction::Execute => None,
        ShellAction::Confirm => Some("Confirmation required before execution."@),
        ShellAction::Block => Some("Destructive command blocked by CLI4ALL."@),
        ShellAction::UnknownNoExecute => Some(
            "Unknown command mapping. CLI4ALL will not execute this command automatically in safe mode."@,
        ),
    }
}

/// The notice shown for an action.
pub fn submit_message(action: ShellAction) -> (r: Option<String>)
    ensures
        translator::opt_view(r) == spec_submit_message(action),
{
    match action {
        ShellAction::Execute => None,
        ShellAction::Confirm => Some("Confirmation required before execution.".to_owned()),
        ShellAction::Block => Some("Destructive command blocked by CLI4ALL.".to_owned()),
        ShellAction::UnknownNoExecute => Some(
            "Unknown command mapping. CLI4ALL will not execute this command automatically in safe mode.".to_owned(),
        ),
    }
}

/// The command that a decision hands to the executor: its translated
/// command, refused when there is none.
pub fn command_to_run(decision: &ShellDecision) -> (r: Result<String, ShellError>)
    ensures
        match decision.translated_command {
            None => r matches Err(ShellError::MissingTranslation),
            Some(c) => r matches Ok(x) && x@ == c@,
        },
{
    match &decision.translated_command {
        None => Err(ShellError::MissingTranslation),
        Some(command) => Ok(command.clone()),
    }
}

/// The response's fields that the decision fixes.
pub open spec fn response_shows(resp: TerminalResponse, v: DecisionView, p: Platform) -> bool {
    &&& resp.original_command@ == v.original_command
    &&& resp.detected_source@ == translator::spec_display_platform_name(v.detected_source)
    &&& resp.current_os@ == p.spec_display_name()
    &&& translator::opt_view(resp.matched_intent) == v.intent
    &&& translator::opt_view(resp.translated_command) == v.translated_command
    &&& resp.risk_level@ == v.risk_level
    &&& resp.action == v.action
    &&& translator::opt_view(resp.risk_reason) == v.risk_reason
    &&& translator::opt_view(resp.message) == spec_submit_message(v.action)
    &&& translator::opt_view(resp.confirmation_prompt) == (if v.action == ShellAction::Confirm {
        Some(spec_confirmation_prompt(v.risk_level))
    } else {
        None
    })
    &&& v.action != ShellAction::Execute ==> resp.stdout@.len() == 0 && resp.stderr@.len() == 0 && resp.exit_status is None
}

/// Decides what to do with `input` and builds the response shown before
/// anything runs; beside it, the command that is to run: the translated
/// command when the decision is to execute, and none otherwise.
pub fn plan_terminal_command<S: CommandStore>(
    input: &str,
    current_platform: Platform,
    store: &S,
    risk_catalog: &RiskCatalog,
) -> (r: Result<(TerminalResponse, Option<String>), ShellError>)
    ensures
        match spec_decide(input@, current_platform.spec_key(), store.command_lookup(text::trim(input@)), risk_catalog.rules()) {
            Some(Ok(v)) => r matches Ok(out) && response_shows(out.0, v, current_platform)
                && out.0.stdout@.len() == 0 && out.0.stderr@.len() == 0 && out.0.exit_status is None
                && translator::opt_view(out.1) == (if v.action == ShellAction::Execute {
                    v.translated_command
                } else {
                    None
                })
                && (v.action == ShellAction::Execute ==> v.translated_command is Some),
            Some(Err(e)) => r matches Err(ShellError::Store(x)) && x == e,
            None => false,
        },
{
    proof {
        platform::lemma_key_names_platform(current_platform);
    }
    let decision = match decide_shell_command(input, current_platform.key(), store, risk_catalog) {
        Ok(d) => d,
        Err(e) => return Err(e),
    };
    let mut response = TerminalResponse {
        original_command: decision.original_command.clone(),
        detected_source: display_platform_name(decision.detected_source.as_str()).to_owned(),
        current_os: current_platform.display_name().to_owned(),
        matched_intent: decision.intent.clone(),
        translated_command: decision.translated_command.clone(),
        risk_level: decision.risk_level.clone(),
        stdout: String::new(),
        stderr: String::new(),
        exit_status: None,
        action: decision.action,
        risk_reason: decision.risk_reason.clone(),
        message: submit_message(decision.action),
        confirmation_prompt: None,
    };
    let mut to_run: Option<String> = None;
    match decision.action {
        ShellAction::Execute => {
            to_run = decision.translated_command.clone();
        },
        ShellAction::Confirm => {
            response.confirmation_prompt = Some(confirmation_prompt(decision.risk_level.as_str()));
        },
        ShellAction::Block => {},
        ShellAction::UnknownNoExecute => {},
    }
    Ok((response, to_run))
}

/// Fills a planned response with what running its command produced: the
/// output and exit status of a run, or the executor's error.
pub fn finish_terminal_command(response: TerminalResponse, outcome: Result<ExecutionResult, ExecError>) -> (r: Result<
    TerminalResponse,
    ShellError,
>)
    ensures
        match outcome {
            Ok(res) => r == Ok::<TerminalResponse, ShellError>(
                (TerminalResponse { stdout: res.stdout, stderr: res.stderr, exit_status: res.status_code, ..response }),
            ),
            Err(e) => r == Err::<TerminalResponse, ShellError>(ShellError::Execution(e)),
        },
{
    match outcome {
        Ok(res) => {
            let mut response = response;
            response.stdout = res.stdout;
            response.stderr = res.stderr;
            response.exit_status = res.status_code;
            Ok(response)
        },
        Err(e) => Err(ShellError::Execution(e)),
    }
}

/// The decimal digits of `n`.
pub open spec fn spec_digits(n: nat) -> Seq<char>
    decreases n,
{
    if n < 10 {
        seq![(('0' as u32) + n) as char]
    } else {
        spec_digits(n / 10).push((('0' as u32) + n % 10) as char)
    }
}

/// The decimal form of `n`, with a minus sign when negative.
pub open spec fn spec_decimal(n: int) -> Seq<char> {
    if n < 0 {
        seq!['-'] + spec_digits((-n) as nat)
    } else {
        spec_digits(n as nat)
    }
}

fn digit_char(d: u64) -> (c: char)
    requires
        d < 10,
    ensures
        c == (('0' as u32) + d) as char,
{
    text::char_from_ascii((48 + d) as u8)
}

fn digits_of(n: u64) -> (r: Vec<char>)
    ensures
        r@ == spec_digits(n as nat),
    decreases n,
{
    if n < 10 {
        let mut v: Vec<char> = Vec::new();
        v.push(digit_char(n));
        v
    } else {
        let mut v = digits_of(n / 10);
        v.push(digit_char(n % 10));
        v
    }
}

/// The decimal form of `n`.
pub fn decimal(n: i32) -> (r: String)
    ensures
        r@ == spec_decimal(n as int),
{
    if n < 0 {
        let m: u64 = (0i64 - (n as i64)) as u64;
        let d = digits_of(m);
        let mut v: Vec<char> = Vec::new();
        v.push('-');
        text::append_chars(&mut v, &d);
        assert(v@ =~= seq!['-'] + spec_digits((-n) as nat));
        text::string_of(&v)
    } else {
        let d = digits_of(n as u64);
        text::string_of(&d)
    }
}

/// `count` copies of `c`.
pub open spec fn repeated(c: char, count: nat) -> Seq<char> {
    Seq::new(count, |i: int| c)
}

fn repeat_char(c: char, count: usize) -> (r: String)
    ensures
        r@ == repeated(c, count as nat),
{
    let mut v: Vec<char> = Vec::new();
    let mut i: usize = 0;
    while i < count
        invariant
            i <= count,
            v@ == repeated(c, i as nat),
        decreases count - i,
    {
        v.push(c);
        i = i + 1;
        assert(v@ =~= repeated(c, i as nat));
    }
    text::string_of(&v)
}

/// A section header: sixteen dashes, the title, and dashes up to `width`
/// (the title counted in bytes).
pub open spec fn spec_section_header(title: Seq<char>, width: int) -> Seq<char> {
    let used = 16 + vstd::utf8::encode_utf8(title).len() + 2;
    let right: nat = if width > used {
        (width - used) as nat
    } else {
        0
    };
    repeated('-', 16) + " "@ + title + " "@ + repeated('-', right)
}

/// A section header of `width` columns.
pub fn section_header(title: &str, width: usize) -> (r: String)
    ensures
        r@ == spec_section_header(title@, width as int),
{
    let left = repeat_char('-', 16);
    let n = crate::store::formats::key_bytes(title).len();
    let right_len = if n < width && width - n > 18 {
        width - n - 18
    } else {
        0
    };
    let right = repeat_char('-', right_len);
    proof {
        let used = 16 + vstd::utf8::encode_utf8(title@).len() + 2;
        assert(title.spec_bytes() == vstd::utf8::encode_utf8(title@));
        assert(n == vstd::utf8::encode_utf8(title@).len());
        let expected: nat = if width > used {
            (width - used) as nat
        } else {
            0
        };
        assert(right_len as nat == expected);
    }
    let mut r = String::new();
    text::push_str(&mut r, left.as_str());
    text::push_str(&mut r, " ");
    text::push_str(&mut r, title);
    text::push_str(&mut r, " ");
    text::push_str(&mut r, right.as_str());
    assert(r@ =~= spec_section_header(title@, width as int));
    r
}

/// A section footer of `width` dashes.
pub fn section_footer(width: usize) -> (r: String)
    ensures
        r@ == repeated('-', width as nat),
{
    repeat_char('-', width)
}

/// What the shell does with one typed line.
#[derive(Debug, Clone, PartialEq, Eq)]
pub enum ShellLine {
    /// An empty line: prompt again.
    Skip,
    /// `exit` or `quit`, in any case: leave the shell.
    Exit,
    /// Decide on the trimmed line.
    Decide(String),
}

/// Classifies a typed line.
pub fn classify_shell_line(input: &str) -> (r: ShellLine)
    ensures
        ({
            let t = text::trim(input@);
            let l = text::lower(t);
            &&& t.len() == 0 ==> r == ShellLine::Skip
            &&& t.len() > 0 && (l == "exit"@ || l == "quit"@) ==> r == ShellLine::Exit
            &&& t.len() > 0 && !(l == "exit"@ || l == "quit"@) ==> (r matches ShellLine::Decide(s) && s@ == t)
        }),
{
    let trimmed = trim_str(input);
    if trimmed.unicode_len() == 0 {
        return ShellLine::Skip;
    }
    let lowered = text::lower_string(trimmed.as_str());
    if str_eq(lowered.as_str(), "exit") || str_eq(lowered.as_str(), "quit") {
        return ShellLine::Exit;
    }
    ShellLine::Decide(trimmed)
}

/// Whether an answer to a confirmation question is yes (`y` or `yes`,
/// ignoring surrounding blanks and case).
pub fn is_confirmation_yes(response: &str) -> (r: bool)
    ensures
        r == (text::lower(text::trim(response@)) == "y"@ || text::lower(text::trim(response@)) == "yes"@),
{
    let trimmed = trim_str(response);
    let lowered = text::lower_string(trimmed.as_str());
    str_eq(lowered.as_str(), "y") || str_eq(lowered.as_str(), "yes")
}

/// What the shell does with a decided line, given the answer to the
/// confirmation question once it was asked.
#[derive(Debug, Clone, Copy, PartialEq, Eq, Structural)]
pub enum ShellStep {
    /// Run the translated command.
    Run,
    /// Ask for confirmation first, then decide again with the answer.
    AskConfirmation,
    /// The answer was not yes: nothing runs.
    Cancelled,
    /// A destructive line: nothing runs.
    Blocked,
    /// An unknown line: nothing runs.
    NotRun,
}

/// The answer is yes: `y` or `yes` in any case, blanks aside.
pub open spec fn spec_is_yes(answer: Seq<char>) -> bool {
    text::lower(text::trim(answer)) == "y"@ || text::lower(text::trim(answer)) == "yes"@
}

/// What the shell does with a line decided as `action`: run it at once on
/// Execute; on Confirm ask, and run only when the answer is yes; never run
/// a blocked or unknown line.
pub open spec fn spec_shell_step(action: ShellAction, answer: Option<Seq<char>>) -> ShellStep {
    match action {
        ShellAction::Execute => ShellStep::Run,
        ShellAction::Confirm => match answer {
            None => ShellStep::AskConfirmation,
            Some(a) => if spec_is_yes(a) {
                ShellStep::Run
            } else {
                ShellStep::Cancelled
            },
        },
        ShellAction::Block => ShellStep::Blocked,
        ShellAction::UnknownNoExecute => ShellStep::NotRun,
    }
}

/// What the shell does with a line decided as `action`, given the answer to
/// the confirmation question when it was asked.
pub fn shell_step(action: ShellAction, answer: Option<&str>) -> (r: ShellStep)
    ensures
        r == spec_shell_step(
            action,
            match answer {
                Some(a) => Some(a@),
                None => None,
            },
        ),
{
    match action {
        ShellAction::Execute => ShellStep::Run,
        ShellAction::Confirm => match answer {
            None => ShellStep::AskConfirmation,
            Some(a) => if is_confirmation_yes(a) {
                ShellStep::Run
            } else {
                ShellStep::Cancelled
            },
        },
        ShellAction::Block => ShellStep::Blocked,
        ShellAction::UnknownNoExecute => ShellStep::NotRun,
    }
}

/// Law: the shell runs a line only when it was decided as Execute, or as
/// Confirm and the answer to the question was yes; a blocked or unknown
/// line never runs, whatever the answer.
pub proof fn law_runs_only_when_allowed(action: ShellAction, answer: Option<Seq<char>>)
    ensures
        spec_shell_step(action, answer) == ShellStep::Run <==> (action == ShellAction::Execute || (action
            == ShellAction::Confirm && (answer matches Some(a) && spec_is_yes(a)))),
{
}

/// The shell prompt for a platform.
pub fn shell_prompt(platform: Platform) -> (r: String)
    ensures
        r@ == "cli4all-"@ + platform.spec_key() + "> "@,
{
    let mut r = String::new();
    text::push_str(&mut r, "cli4all-");
    text::push_str(&mut r, platform.prompt_name());
    text::push_str(&mut r, "> ");
    r
}

fn labelled_line(out: &mut String, label: &str, value: &str)
    ensures
        final(out)@ == old(out)@ + label@ + value@ + "\n"@,
{
    text::push_str(out, label);
    text::push_str(out, value);
    text::push_str(out, "\n");
    assert(out@ =~= old(out)@ + label@ + value@ + "\n"@);
}

/// The translation section printed for each decision.
pub open spec fn spec_translation_section(d: DecisionView) -> Seq<char> {
    spec_section_header("CLI4ALL Translation"@, 56) + "\n"@
        + "Original command:   "@ + d.original_command + "\n"@
        + "Detected source:    "@ + translator::spec_display_platform_name(d.detected_source) + "\n"@
        + "Current OS:         "@ + translator::spec_display_platform_name(d.current_platform) + "\n"@
        + "Matched intent:     "@ + (match d.intent {
            Some(i) => i,
            None => "unknown"@,
        }) + "\n"@ + "Translated command: "@ + (match d.translated_command {
            Some(c) => c,
            None => "unavailable"@,
        }) + "\n"@ + "Risk level:         "@ + d.risk_level + "\n"@ + repeated('-', 53) + "\n"@
}

/// The translation section printed for each decision, line by line.
pub fn translation_section(decision: &ShellDecision) -> (r: String)
    ensures
        r@ == spec_translation_section(decision@),
{
    let mut r = section_header("CLI4ALL Translation", 56);
    text::push_str(&mut r, "\n");
    labelled_line(&mut r, "Original command:   ", decision.original_command.as_str());
    labelled_line(&mut r, "Detected source:    ", display_platform_name(decision.detected_source.as_str()));
    labelled_line(&mut r, "Current OS:         ", display_platform_name(decision.current_platform.as_str()));
    let intent = match &decision.intent {
        Some(i) => i.as_str(),
        None => "unknown",
    };
    labelled_line(&mut r, "Matched intent:     ", intent);
    let translated = match &decision.translated_command {
        Some(c) => c.as_str(),
        None => "unavailable",
    };
    labelled_line(&mut r, "Translated command: ", translated);
    labelled_line(&mut r, "Risk level:         ", decision.risk_level.as_str());
    let footer = section_footer(53);
    text::push_str(&mut r, footer.as_str());
    text::push_str(&mut r, "\n");
    assert(r@ =~= spec_translation_section(decision@));
    r
}

/// The width of a notice section.
pub open spec fn spec_notice_width(title: Seq<char>) -> int {
    if title == "CLI4ALL Safety"@ || title == "CLI4ALL Notice"@ {
        52
    } else {
        48
    }
}

/// A notice section: header, one line each, footer.
pub open spec fn spec_notice_section(title: Seq<char>, lines: Seq<Seq<char>>) -> Seq<char> {
    spec_section_header(title, spec_notice_width(title)) + "\n"@ + text::join(lines.map_values(|l: Seq<char>| l + "\n"@), ""@)
        + repeated('-', spec_notice_width(title) as nat) + "\n"@
}

/// A notice section with the given lines.
pub fn notice_section(title: &str, lines: &Vec<String>) -> (r: String)
    ensures
        r@ == spec_notice_section(title@, text::views(lines@)),
{
    let width: usize = if str_eq(title, "CLI4ALL Safety") || str_eq(title, "CLI4ALL Notice") {
        52
    } else {
        48
    };
    let mut body: Vec<String> = Vec::new();
    let ghost ls = text::views(lines@);
    let mut i: usize = 0;
    while i < lines.len()
        invariant
            i <= lines@.len(),
            ls == text::views(lines@),
            text::views(body@) == ls.subrange(0, i as int).map_values(|l: Seq<char>| l + "\n"@),
        decreases lines.len() - i,
    {
        let mut line = lines[i].clone();
        text::push_str(&mut line, "\n");
        let ghost before = text::views(body@);
        body.push(line);
        assert(text::views(body@) =~= before.push(lines@[i as int]@ + "\n"@));
        assert(ls.subrange(0, i + 1).map_values(|l: Seq<char>| l + "\n"@) =~= ls.subrange(0, i as int).map_values(
            |l: Seq<char>| l + "\n"@,
        ).push(ls[i as int] + "\n"@));
        i = i + 1;
    }
    assert(ls.subrange(0, ls.len() as int) =~= ls);
    let joined = text::join_strings(&body, "");
    let mut r = section_header(title, width);
    text::push_str(&mut r, "\n");
    text::push_str(&mut r, joined.as_str());
    let footer = section_footer(width);
    text::push_str(&mut r, footer.as_str());
    text::push_str(&mut r, "\n");
    assert(r@ =~= spec_notice_section(title@, ls));
    r
}

/// A stream's text, ending with a line break.
pub open spec fn spec_stream(stream: Seq<char>) -> Seq<char> {
    if text::ends_with(stream, "\n"@) {
        stream
    } else {
        stream + "\n"@
    }
}

fn stream_text(stream: &str) -> (r: String)
    ensures
        r@ == spec_stream(stream@),
{
    let cs = chars_of_str(stream);
    let nl = chars_of_str("\n");
    let mut r = stream.to_owned();
    if !text::chars_ends_with(&cs, &nl) {
        text::push_str(&mut r, "\n");
    }
    r
}

fn chars_of_str(s: &str) -> (r: Vec<char>)
    ensures
        r@ == s@,
{
    text::chars_of(s)
}

/// The output sections printed after a command ran: its streams when it
/// printed anything, then its exit status.
pub open spec fn spec_execution_sections(stdout: Seq<char>, stderr: Seq<char>, status: Option<i32>) -> Seq<char> {
    (if stdout.len() == 0 && stderr.len() == 0 {
        Seq::empty()
    } else {
        spec_section_header("Command Output"@, 48) + "\n"@ + (if stdout.len() > 0 {
            "[stdout]\n"@ + spec_stream(stdout)
        } else {
            Seq::empty()
        }) + (if stderr.len() > 0 {
            "[stderr]\n"@ + spec_stream(stderr)
        } else {
            Seq::empty()
        }) + repeated('-', 48) + "\n"@
    }) + spec_section_header("Execution Result"@, 51) + "\n"@ + "Exit status: "@ + (match status {
        Some(code) => spec_decimal(code as int),
        None => "unavailable"@,
    }) + "\n"@ + repeated('-', 50) + "\n"@
}

/// The output sections printed after a command ran.
pub fn execution_sections(result: &ExecutionResult) -> (r: String)
    ensures
        r@ == spec_execution_sections(result.stdout@, result.stderr@, result.status_code),
{
    let mut r = String::new();
    let out_len = result.stdout.unicode_len();
    let err_len = result.stderr.unicode_len();
    if out_len > 0 || err_len > 0 {
        let h = section_header("Command Output", 48);
        text::push_str(&mut r, h.as_str());
        text::push_str(&mut r, "\n");
        if out_len > 0 {
            text::push_str(&mut r, "[stdout]\n");
            let s = stream_text(result.stdout.as_str());
            text::push_str(&mut r, s.as_str());
        }
        if err_len > 0 {
            text::push_str(&mut r, "[stderr]\n");
            let s = stream_text(result.stderr.as_str());
            text::push_str(&mut r, s.as_str());
        }
        let f = section_footer(48);
        text::push_str(&mut r, f.as_str());
        text::push_str(&mut r, "\n");
    }
    let ghost first = r@;
    let h = section_header("Execution Result", 51);
    text::push_str(&mut r, h.as_str());
    text::push_str(&mut r, "\n");
    text::push_str(&mut r, "Exit status: ");
    match result.status_code {
        Some(code) => {
            let d = decimal(code);
            text::push_str(&mut r, d.as_str());
        },
        None => text::push_str(&mut r, "unavailable"),
    }
    text::push_str(&mut r, "\n");
    let f = section_footer(50);
    text::push_str(&mut r, f.as_str());
    text::push_str(&mut r, "\n");
    assert(r@ =~= spec_execution_sections(result.stdout@, result.stderr@, result.status_code));
    r
}

/// The reason shown when a line is blocked.
pub fn block_reason(decision: &ShellDecision) -> (r: String)
    ensures
        r@ == (match decision.risk_reason {
            Some(reason) => reason@,
            None => "This command matches a destructive safety rule."@,
        }),
{
    match &decision.risk_reason {
        Some(reason) => reason.clone(),
        None => "This command matches a destructive safety rule.".to_owned(),
    }
}

} // verus!
