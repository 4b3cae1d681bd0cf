//! Suggestions for a command typed on the wrong platform.
use vstd::prelude::*;

use crate::detector;
use crate::detector::detect_command;
use crate::rules;
use crate::rules::apply_template_captures;
use crate::store::command_store;
use crate::store::command_store::{CommandStore, StoreError};
use crate::text;
use crate::translator;
use crate::translator::display_platform_name;

verus! {

broadcast use vstd::string::group_string_axioms;

/// A foreign command, where it comes from, and its Ubuntu equivalents.
#[derive(Debug, Clone)]
pub struct FixResult {
    pub command: String,
    pub source: String,
    pub suggestions: Vec<String>,
}

/// A fix as values.
pub struct FixView {
    pub command: Seq<char>,
    pub source: Seq<char>,
    pub suggestions: Seq<Seq<char>>,
}

impl View for FixResult {
    type V = FixView;

    open spec fn view(&self) -> FixView {
        FixView { command: self.command@, source: self.source@, suggestions: text::views(self.suggestions@) }
    }
}

/// The Ubuntu examples of the detected record, filled with the captures.
pub open spec fn spec_fix(d: detector::DetectionView) -> FixView {
    FixView {
        command: d.command,
        source: translator::spec_display_platform_name(d.source_platform),
        suggestions: command_store::lookup_platform(d.intent.commands, "ubuntu"@).map_values(
            |e: Seq<char>| rules::spec_apply_template(e, d.captures),
        ),
    }
}

proof fn lemma_filled_members(ex: Seq<Seq<char>>, caps: Map<Seq<char>, Seq<char>>)
    ensures
        forall|x: Seq<char>| #[trigger] translator::spec_filled(ex, caps).contains(x) <==> (!translator::spec_contains_placeholder(x)
            && exists|k: int| 0 <= k < ex.len() && x == rules::spec_apply_template(#[trigger] ex[k], caps)),
    decreases ex.len(),
{
    if ex.len() > 0 {
        let init = ex.drop_last();
        lemma_filled_members(init, caps);
        let rest = translator::spec_filled(init, caps);
        let f = rules::spec_apply_template(ex.last(), caps);
        let all = translator::spec_filled(ex, caps);
        assert forall|x: Seq<char>| #[trigger] all.contains(x) <==> (!translator::spec_contains_placeholder(x) && exists|k: int|
            0 <= k < ex.len() && x == rules::spec_apply_template(#[trigger] ex[k], caps)) by {
            if rest.contains(x) {
                let k = choose|k: int| 0 <= k < init.len() && x == rules::spec_apply_template(#[trigger] init[k], caps);
                assert(ex[k] == init[k]);
            }
            if !translator::spec_contains_placeholder(f) {
                assert(all == rest.push(f));
                if all.contains(x) && x != f {
                    let i = choose|i: int| 0 <= i < all.len() && all[i] == x;
                    assert(rest[i] == x);
                }
                if x == f {
                    assert(all[all.len() - 1] == f);
                }
                if rest.contains(x) {
                    let i = choose|i: int| 0 <= i < rest.len() && rest[i] == x;
                    assert(all[i] == x);
                }
            }
            if !translator::spec_contains_placeholder(x) && exists|k: int| 0 <= k < ex.len() && x == rules::spec_apply_template(
                #[trigger] ex[k],
                caps,
            ) {
                let k = choose|k: int| 0 <= k < ex.len() && x == rules::spec_apply_template(#[trigger] ex[k], caps);
                if k < ex.len() - 1 {
                    assert(init[k] == ex[k]);
                } else {
                    assert(ex[k] == ex.last());
                }
            }
        }
    }
}

/// Law: each suggested fix is the record's Ubuntu example, in order, with
/// the detection's captures filled into its placeholders; so the fixes
/// that hold no placeholder left are exactly the filled Ubuntu commands a
/// translation of the same detection to Ubuntu offers from the examples.
pub proof fn law_fix_fills_examples(d: detector::DetectionView)
    ensures
        spec_fix(d).suggestions.len() == command_store::lookup_platform(d.intent.commands, "ubuntu"@).len(),
        forall|k: int|
            0 <= k < spec_fix(d).suggestions.len() ==> #[trigger] spec_fix(d).suggestions[k] == rules::spec_apply_template(
                command_store::lookup_platform(d.intent.commands, "ubuntu"@)[k],
                d.captures,
            ),
        forall|x: Seq<char>|
            #[trigger] translator::spec_filled(command_store::spec_target_commands(d.intent.commands, "ubuntu"@), d.captures).contains(x)
                <==> (spec_fix(d).suggestions.contains(x) && !translator::spec_contains_placeholder(x)),
{
    reveal_strlit("ubuntu");
    reveal_strlit("windows");
    assert("ubuntu"@.len() != "windows"@.len());
    let ex = command_store::lookup_platform(d.intent.commands, "ubuntu"@);
    assert(command_store::spec_target_commands(d.intent.commands, "ubuntu"@) == ex);
    lemma_filled_members(ex, d.captures);
    let sug = spec_fix(d).suggestions;
    assert forall|x: Seq<char>| #[trigger] translator::spec_filled(ex, d.captures).contains(x) <==> (sug.contains(x)
        && !translator::spec_contains_placeholder(x)) by {
        if sug.contains(x) {
            let i = choose|i: int| 0 <= i < sug.len() && sug[i] == x;
            assert(x == rules::spec_apply_template(ex[i], d.captures));
        }
        if exists|k: int| 0 <= k < ex.len() && x == rules::spec_apply_template(#[trigger] ex[k], d.captures) {
            let k = choose|k: int| 0 <= k < ex.len() && x == rules::spec_apply_template(#[trigger] ex[k], d.captures);
            assert(sug[k] == x);
        }
    }
}

/// What fixing `input` gives once the store answered `lookup` for it.
pub open spec fn spec_suggest_fix(input: Seq<char>, lookup: Result<Option<command_store::CommandRecordView>, StoreError>)
    -> Result<Option<FixView>, StoreError> {
    match lookup {
        Err(e) => Err(e),
        Ok(None) => Ok(None),
        Ok(Some(rec)) => match detector::spec_detection(input, rec) {
            None => Ok(None),
            Some(d) => Ok(Some(spec_fix(d))),
        },
    }
}

/// Detects the foreign command in `input` (possibly a shell's "command not
/// found" message) and suggests its Ubuntu equivalents.
pub fn suggest_fix<S: CommandStore>(input: &str, store: &S) -> (r: Result<Option<FixResult>, StoreError>)
    ensures
        match spec_suggest_fix(input@, store.command_lookup(input@)) {
            Err(e) => r == Err::<Option<FixResult>, StoreError>(e),
            Ok(None) => r matches Ok(None),
            Ok(Some(f)) => r matches Ok(Some(x)) && x@ == f,
        },
{
    let detection = match detect_command(input, store) {
        Ok(Some(d)) => d,
        Ok(None) => return Ok(None),
        Err(e) => return Err(e),
    };
    let ubuntu = detection.intent.ubuntu_commands();
    let ghost exs = text::views(ubuntu@);
    let mut suggestions: Vec<String> = Vec::new();
    let mut i: usize = 0;
    while i < ubuntu.len()
        invariant
            i <= ubuntu@.len(),
            exs == text::views(ubuntu@),
            text::views(suggestions@) == exs.subrange(0, i as int).map_values(
                |e: Seq<char>| rules::spec_apply_template(e, detection.captures@),
            ),
        decreases ubuntu.len() - i,
    {
        let f = apply_template_captures(ubuntu[i].as_str(), &detection.captures);
        let ghost before = text::views(suggestions@);
        suggestions.push(f);
        assert(text::views(suggestions@) =~= before.push(f@));
        assert(exs.subrange(0, i + 1).map_values(|e: Seq<char>| rules::spec_apply_template(e, detection.captures@))
            =~= exs.subrange(0, i as int).map_values(|e: Seq<char>| rules::spec_apply_template(e, detection.captures@)).push(
            rules::spec_apply_template(exs[i as int], detection.captures@),
        ));
        i = i + 1;
    }
    assert(exs.subrange(0, exs.len() as int) =~= exs);
    Ok(Some(FixResult {
        command: detection.command.clone(),
        source: display_platform_name(detection.source_platform.as_str()).to_owned(),
        suggestions,
    }))
}

} // verus!
