//! Detection of a remembered command: the record it belongs to, the
//! platform example it matches best, and what that example's placeholders
//! captured.
//!
//! Every example of the record found by the store is classified: a full
//! match (its pattern matches, or it equals the input after normalisation)
//! or a token match (its first word is the input's command word, ignoring
//! case). Full matches win over token matches; among equals the platform
//! ranked first (`ubuntu`, `windows_cmd`, `powershell`, `macos`, others)
//! wins, and among those the first example in record order.
use vstd::prelude::*;

use crate::rules;
use crate::rules::{build_command_pattern, placeholder_name, regex_group, regex_is_match, Captures};
use crate::store::command_store;
use crate::store::command_store::{CommandRecord, CommandStore, StoreError};
use crate::store::normalize;
use crate::store::normalize::normalize_command;
use crate::text;
use crate::text::{eq_ignore_ascii_case, split_whitespace, str_eq};

verus! {

broadcast use vstd::string::group_string_axioms;

/// Recognises shell error text such as `zsh: command not found: ipconfig`.
pub const NOT_FOUND_PATTERN: &'static str = "(?i)command not found:\\s*(?P<token>[A-Za-z0-9._-]+)";

/// Recognises the leading command word of an input.
pub const LEADING_TOKEN_PATTERN: &'static str = "^\\s*(?P<token>[A-Za-z0-9._-]+)";

/// The group that both token patterns capture.
pub const TOKEN_GROUP: &'static str = "token";

/// The command word of an input: the one a "command not found" message
/// names, else the leading word.
pub open spec fn spec_extract_command_token(input: Seq<char>) -> Option<Seq<char>> {
    match rules::regex_group_text(NOT_FOUND_PATTERN@, input, TOKEN_GROUP@) {
        Some(t) => Some(t),
        None => rules::regex_group_text(LEADING_TOKEN_PATTERN@, input, TOKEN_GROUP@),
    }
}

/// The first whitespace-separated word of a command, or the command itself
/// when it has none.
pub open spec fn spec_first_token(command: Seq<char>) -> Seq<char> {
    if text::split_ws(command).len() > 0 {
        text::split_ws(command)[0]
    } else {
        command
    }
}

/// The values that the placeholders among `tokens` captured in the match of
/// `pattern` in `input`.
pub open spec fn spec_example_captures(pattern: Seq<char>, input: Seq<char>, tokens: Seq<Seq<char>>)
    -> Map<Seq<char>, Seq<char>>
    decreases tokens.len(),
{
    if tokens.len() == 0 {
        Map::empty()
    } else {
        let m = spec_example_captures(pattern, input, tokens.drop_last());
        match rules::spec_placeholder(tokens.last()) {
            Some(n) => match rules::regex_group_text(pattern, input, n) {
                Some(v) => m.insert(n, v),
                None => m,
            },
            None => m,
        }
    }
}

/// The captures of `example` when its pattern matches `input`.
pub open spec fn spec_match_example(input: Seq<char>, example: Seq<char>) -> Option<Map<Seq<char>, Seq<char>>> {
    let p = rules::spec_command_pattern(example);
    if rules::regex_matches(p, input) {
        Some(spec_example_captures(p, input, text::split_ws(example)))
    } else {
        None
    }
}

/// How one example relates to the input: `Some((true, captures))` for a
/// full match, `Some((false, empty))` for a match of the command word only.
pub open spec fn spec_classify(input: Seq<char>, example: Seq<char>) -> Option<(bool, Map<Seq<char>, Seq<char>>)> {
    match spec_match_example(input, example) {
        Some(c) => Some((true, c)),
        None => if normalize::spec_normalize_command(example) == normalize::spec_normalize_command(input) {
            Some((true, Map::empty()))
        } else {
            match spec_extract_command_token(input) {
                Some(t) => if text::eq_ignore_case(spec_first_token(example), t) {
                    Some((false, Map::empty()))
                } else {
                    None
                },
                None => None,
            }
        },
    }
}

/// An example of a record that matched the input.
pub struct Candidate {
    pub platform: Seq<char>,
    pub example: Seq<char>,
    pub full: bool,
    pub captures: Map<Seq<char>, Seq<char>>,
}

/// The rank of a platform key when matches tie.
pub open spec fn spec_platform_rank(platform: Seq<char>) -> u8 {
    if platform == "ubuntu"@ {
        0
    } else if platform == "windows_cmd"@ {
        1
    } else if platform == "powershell"@ {
        2
    } else if platform == "macos"@ {
        3
    } else {
        4
    }
}

/// The matching examples of one platform, in order.
pub open spec fn spec_entry_candidates(input: Seq<char>, platform: Seq<char>, examples: Seq<Seq<char>>) -> Seq<Candidate>
    decreases examples.len(),
{
    if examples.len() == 0 {
        Seq::empty()
    } else {
        let rest = spec_entry_candidates(input, platform, examples.drop_last());
        match spec_classify(input, examples.last()) {
            Some(k) => rest.push(Candidate { platform, example: examples.last(), full: k.0, captures: k.1 }),
            None => rest,
        }
    }
}

/// The matching examples of a whole platform table, in order.
pub open spec fn spec_table_candidates(input: Seq<char>, table: Seq<(Seq<char>, Seq<Seq<char>>)>) -> Seq<Candidate>
    decreases table.len(),
{
    if table.len() == 0 {
        Seq::empty()
    } else {
        spec_table_candidates(input, table.drop_last()) + spec_entry_candidates(
            input,
            table.last().0,
            table.last().1,
        )
    }
}

/// Whether `candidate` replaces the best so far: a full match beats a token
/// match, and among equals a strictly better-ranked platform wins.
pub open spec fn spec_is_better(current: Option<(bool, u8)>, candidate: (bool, u8)) -> bool {
    match current {
        None => true,
        Some(c) => (candidate.0 && !c.0) || (candidate.0 == c.0 && candidate.1 < c.1),
    }
}

pub open spec fn candidate_key(c: Candidate) -> (bool, u8) {
    (c.full, spec_platform_rank(c.platform))
}

/// The best of the candidates, the earliest among equals.
pub open spec fn spec_pick(cands: Seq<Candidate>) -> Option<Candidate>
    decreases cands.len(),
{
    if cands.len() == 0 {
        None
    } else {
        let b = spec_pick(cands.drop_last());
        let current = match b {
            Some(c) => Some(candidate_key(c)),
            None => None,
        };
        if spec_is_better(current, candidate_key(cands.last())) {
            Some(cands.last())
        } else {
            b
        }
    }
}

/// The pick is one of the candidates and none beats it: a full match wins
/// over a token match, and among matches of one kind the pick has the best
/// platform rank. There is a pick exactly when there is a candidate.
pub proof fn lemma_pick_is_best(cands: Seq<Candidate>)
    ensures
        spec_pick(cands) is None <==> cands.len() == 0,
        spec_pick(cands) matches Some(b) ==> cands.contains(b) && forall|i: int|
            0 <= i < cands.len() ==> ((#[trigger] cands[i]).full ==> b.full) && (cands[i].full == b.full
                ==> spec_platform_rank(b.platform) <= spec_platform_rank(cands[i].platform)),
    decreases cands.len(),
{
    if cands.len() > 0 {
        let init = cands.drop_last();
        lemma_pick_is_best(init);
        let b = spec_pick(cands)->Some_0;
        if spec_pick(init) is Some {
            let b0 = spec_pick(init)->Some_0;
            assert(init.contains(b0));
            let i0 = choose|i: int| 0 <= i < init.len() && init[i] == b0;
            assert(cands[i0] == b0);
        }
        assert(cands.contains(b)) by {
            if b == cands.last() {
                assert(cands[cands.len() - 1] == b);
            }
        }
        assert forall|i: int| 0 <= i < cands.len() implies ((#[trigger] cands[i]).full ==> b.full) && (cands[i].full == b.full
            ==> spec_platform_rank(b.platform) <= spec_platform_rank(cands[i].platform)) by {
            if i < cands.len() - 1 {
                assert(cands[i] == init[i]);
            }
        }
    }
}

/// Every candidate of one platform's examples is of that platform and one
/// of its examples.
pub proof fn lemma_entry_candidates(input: Seq<char>, platform: Seq<char>, examples: Seq<Seq<char>>)
    ensures
        forall|t: int| 0 <= t < spec_entry_candidates(input, platform, examples).len() ==> (#[trigger] spec_entry_candidates(
            input,
            platform,
            examples,
        )[t]).platform == platform && examples.contains(spec_entry_candidates(input, platform, examples)[t].example),
    decreases examples.len(),
{
    if examples.len() > 0 {
        let init = examples.drop_last();
        lemma_entry_candidates(input, platform, init);
        let cands = spec_entry_candidates(input, platform, examples);
        let rest = spec_entry_candidates(input, platform, init);
        assert forall|t: int| 0 <= t < cands.len() implies (#[trigger] cands[t]).platform == platform && examples.contains(
            cands[t].example,
        ) by {
            if t < rest.len() {
                assert(cands[t] == rest[t]);
                let j = choose|j: int| 0 <= j < init.len() && init[j] == rest[t].example;
                assert(examples[j] == init[j]);
            } else {
                assert(examples[examples.len() - 1] == examples.last());
            }
        }
    }
}

/// Every candidate of a table comes from one of its entries.
pub proof fn lemma_table_candidates(input: Seq<char>, table: Seq<(Seq<char>, Seq<Seq<char>>)>)
    ensures
        forall|t: int| 0 <= t < spec_table_candidates(input, table).len() ==> exists|i: int| 0 <= i < table.len()
            && (#[trigger] spec_table_candidates(input, table)[t]).platform == table[i].0 && table[i].1.contains(
            spec_table_candidates(input, table)[t].example,
        ),
    decreases table.len(),
{
    if table.len() > 0 {
        let init = table.drop_last();
        lemma_table_candidates(input, init);
        lemma_entry_candidates(input, table.last().0, table.last().1);
        let cands = spec_table_candidates(input, table);
        let front = spec_table_candidates(input, init);
        let back = spec_entry_candidates(input, table.last().0, table.last().1);
        assert forall|t: int| 0 <= t < cands.len() implies exists|i: int| 0 <= i < table.len() && (#[trigger] cands[t]).platform
            == table[i].0 && table[i].1.contains(cands[t].example) by {
            if t < front.len() {
                assert(cands[t] == front[t]);
                let i = choose|i: int| 0 <= i < init.len() && front[t].platform == init[i].0 && init[i].1.contains(front[t].example);
                assert(table[i] == init[i]);
            } else {
                assert(cands[t] == back[t - front.len()]);
                assert(table[table.len() - 1] == table.last());
            }
        }
    }
}

/// Law: the example a record's detection rests on is one of the examples
/// that match the input, and no matching example is a better match: a full
/// match beats a token match, and among matches of one kind the detection
/// has the best-ranked platform. There is a detection exactly when some
/// example matches. In a table that names each platform once, the example
/// is among those that a lookup of its platform gives.
pub proof fn law_best_match_is_best(input: Seq<char>, table: Seq<(Seq<char>, Seq<Seq<char>>)>)
    ensures
        spec_best_match(input, table) is None <==> spec_table_candidates(input, table).len() == 0,
        spec_best_match(input, table) matches Some(b) ==> spec_table_candidates(input, table).contains(b) && forall|i: int|
            0 <= i < spec_table_candidates(input, table).len() ==> ((#[trigger] spec_table_candidates(input, table)[i]).full
                ==> b.full) && (spec_table_candidates(input, table)[i].full == b.full ==> spec_platform_rank(b.platform)
                <= spec_platform_rank(spec_table_candidates(input, table)[i].platform)),
        command_store::platforms_unique(table) ==> (spec_best_match(input, table) matches Some(b)
            ==> command_store::lookup_platform(table, b.platform).contains(b.example)),
{
    let cands = spec_table_candidates(input, table);
    lemma_pick_is_best(cands);
    if command_store::platforms_unique(table) && spec_best_match(input, table) is Some {
        let b = spec_best_match(input, table)->Some_0;
        let t = choose|t: int| 0 <= t < cands.len() && cands[t] == b;
        lemma_table_candidates(input, table);
        assert(cands[t] == b);
        let i = choose|i: int| 0 <= i < table.len() && cands[t].platform == table[i].0 && table[i].1.contains(cands[t].example);
        command_store::lemma_unique_lookup(table, i);
    }
}

/// The best match of the input among a record's examples.
pub open spec fn spec_best_match(input: Seq<char>, table: Seq<(Seq<char>, Seq<Seq<char>>)>) -> Option<Candidate> {
    spec_pick(spec_table_candidates(input, table))
}

/// A detection as values.
pub struct DetectionView {
    pub input: Seq<char>,
    pub command: Seq<char>,
    pub source_platform: Seq<char>,
    pub matched_example: Seq<char>,
    pub captures: Map<Seq<char>, Seq<char>>,
    pub intent: command_store::CommandRecordView,
}

/// What detection reports for `input` once the store found `record`.
pub open spec fn spec_detection(input: Seq<char>, record: command_store::CommandRecordView) -> Option<DetectionView> {
    match spec_best_match(input, record.commands) {
        None => None,
        Some(c) => Some(
            DetectionView {
                input,
                command: match spec_extract_command_token(input) {
                    Some(t) => t,
                    None => spec_first_token(c.example),
                },
                source_platform: c.platform,
                matched_example: c.example,
                captures: c.captures,
                intent: record,
            },
        ),
    }
}

/// A remembered command recognised in the store.
#[derive(Debug, Clone)]
pub struct Detection {
    pub input: String,
    pub command: String,
    pub source_platform: String,
    pub matched_example: String,
    pub captures: Captures,
    pub intent: CommandRecord,
}

impl View for Detection {
    type V = DetectionView;

    open spec fn view(&self) -> DetectionView {
        DetectionView {
            input: self.input@,
            command: self.command@,
            source_platform: self.source_platform@,
            matched_example: self.matched_example@,
            captures: self.captures@,
            intent: self.intent@,
        }
    }
}

/// The command word of `input`: the one named by a "command not found"
/// message, else its leading word.
pub fn extract_command_token(input: &str) -> (r: Option<String>)
    ensures
        match r {
            Some(t) => spec_extract_command_token(input@) == Some(t@),
            None => spec_extract_command_token(input@) == None::<Seq<char>>,
        },
{
    match regex_group(NOT_FOUND_PATTERN, input, TOKEN_GROUP) {
        Some(t) => Some(t),
        None => regex_group(LEADING_TOKEN_PATTERN, input, TOKEN_GROUP),
    }
}

/// The first word of `command`, or `command` when it has none.
pub fn first_token(command: &str) -> (r: String)
    ensures
        r@ == spec_first_token(command@),
{
    let tokens = split_whitespace(command);
    if tokens.len() > 0 {
        assert(text::views(tokens@)[0] == tokens@[0]@);
        tokens[0].clone()
    } else {
        command.to_owned()
    }
}

/// The captures of `example` when its pattern matches `input`.
pub fn match_example(input: &str, example: &str) -> (r: Option<Captures>)
    ensures
        match r {
            Some(c) => spec_match_example(input@, example@) == Some(c@),
            None => spec_match_example(input@, example@) == None::<Map<Seq<char>, Seq<char>>>,
        },
{
    let pattern = build_command_pattern(example);
    if !regex_is_match(pattern.as_str(), input) {
        return None;
    }
    let tokens = split_whitespace(example);
    let ghost ts = text::views(tokens@);
    let mut caps = Captures::new();
    let mut i: usize = 0;
    while i < tokens.len()
        invariant
            i <= tokens.len(),
            ts == text::views(tokens@),
            caps@ == spec_example_captures(pattern@, input@, ts.subrange(0, i as int)),
        decreases tokens.len() - i,
    {
        proof {
            assert(ts.subrange(0, i + 1).drop_last() =~= ts.subrange(0, i as int));
            assert(ts.subrange(0, i + 1).last() == tokens@[i as int]@);
        }
        match placeholder_name(tokens[i].as_str()) {
            Some(name) => {
                match regex_group(pattern.as_str(), input, name) {
                    Some(v) => {
                        caps.insert(name.to_owned(), v);
                    },
                    None => {},
                }
            },
            None => {},
        }
        i = i + 1;
    }
    assert(ts.subrange(0, ts.len() as int) =~= ts);
    Some(caps)
}

/// The rank of a platform key when matches tie.
pub fn platform_rank(platform: &str) -> (r: u8)
    ensures
        r == spec_platform_rank(platform@),
{
    if str_eq(platform, "ubuntu") {
        0
    } else if str_eq(platform, "windows_cmd") {
        1
    } else if str_eq(platform, "powershell") {
        2
    } else if str_eq(platform, "macos") {
        3
    } else {
        4
    }
}

/// How `example` relates to `input`, given the input's command word and
/// normalised form.
pub fn classify_example(input: &str, token: &Option<String>, normalized_input: &str, example: &str) -> (r: Option<(bool, Captures)>)
    requires
        match token {
            Some(t) => spec_extract_command_token(input@) == Some(t@),
            None => spec_extract_command_token(input@) == None::<Seq<char>>,
        },
        normalized_input@ == normalize::spec_normalize_command(input@),
    ensures
        match r {
            Some(k) => spec_classify(input@, example@) == Some((k.0, k.1@)),
            None => spec_classify(input@, example@) == None::<(bool, Map<Seq<char>, Seq<char>>)>,
        },
{
    match match_example(input, example) {
        Some(c) => return Some((true, c)),
        None => {},
    }
    let normalized_example = normalize_command(example);
    if str_eq(normalized_example.as_str(), normalized_input) {
        let empty = Captures::new();
        return Some((true, empty));
    }
    match token {
        Some(t) => {
            let first = first_token(example);
            if eq_ignore_ascii_case(first.as_str(), t.as_str()) {
                let empty = Captures::new();
                Some((false, empty))
            } else {
                None
            }
        },
        None => None,
    }
}

/// The candidate an exec position in a record denotes.
pub open spec fn candidate_at(table: Seq<(Seq<char>, Seq<Seq<char>>)>, i: int, j: int, full: bool, captures: Map<Seq<char>, Seq<char>>) -> Candidate {
    Candidate { platform: table[i].0, example: table[i].1[j], full, captures }
}

proof fn lemma_table_step(input: Seq<char>, table: Seq<(Seq<char>, Seq<Seq<char>>)>, i: int)
    requires
        0 <= i < table.len(),
    ensures
        spec_table_candidates(input, table.subrange(0, i + 1)) == spec_table_candidates(input, table.subrange(0, i))
            + spec_entry_candidates(input, table[i].0, table[i].1),
{
    assert(table.subrange(0, i + 1).drop_last() =~= table.subrange(0, i));
}

/// The best match of `input` among the examples of `record`, as the
/// position of its platform and example, whether it is full, and its
/// captures.
pub fn best_match(input: &str, record: &CommandRecord) -> (r: Option<(usize, usize, bool, Captures)>)
    ensures
        match r {
            Some(b) => b.0 < record.table().len() && b.1 < record.table()[b.0 as int].1.len()
                && spec_best_match(input@, record.table()) == Some(candidate_at(record.table(), b.0 as int, b.1 as int, b.2, b.3@)),
            None => spec_best_match(input@, record.table()) == None::<Candidate>,
        },
{
    let token = extract_command_token(input);
    let normalized_input = normalize_command(input);
    let ghost table = record.table();
    let mut best: Option<(usize, usize, bool, Captures)> = None;
    let mut best_rank: u8 = 0;
    let ghost mut seen: Seq<Candidate> = Seq::empty();
    let mut i: usize = 0;
    while i < record.commands.len()
        invariant
            i <= record.commands@.len(),
            table == record.table(),
            table.len() == record.commands@.len(),
            match token {
                Some(t) => spec_extract_command_token(input@) == Some(t@),
                None => spec_extract_command_token(input@) == None::<Seq<char>>,
            },
            normalized_input@ == normalize::spec_normalize_command(input@),
            seen == spec_table_candidates(input@, table.subrange(0, i as int)),
            match best {
                Some(b) => b.0 < table.len() && b.1 < table[b.0 as int].1.len()
                    && spec_pick(seen) == Some(candidate_at(table, b.0 as int, b.1 as int, b.2, b.3@))
                    && best_rank == spec_platform_rank(table[b.0 as int].0),
                None => spec_pick(seen) == None::<Candidate>,
            },
        decreases record.commands.len() - i,
    {
        let platform = record.commands[i].0.as_str();
        let examples = &record.commands[i].1;
        let rank = platform_rank(platform);
        let ghost seen_before = seen;
        let ghost exs = table[i as int].1;
        assert(exs == text::views(examples@));
        assert(table[i as int].0 == platform@);
        let mut j: usize = 0;
        while j < examples.len()
            invariant
                i < record.commands@.len(),
                j <= examples@.len(),
                table == record.table(),
                table.len() == record.commands@.len(),
                exs == table[i as int].1,
                exs == text::views(examples@),
                table[i as int].0 == platform@,
                rank == spec_platform_rank(platform@),
                match token {
                    Some(t) => spec_extract_command_token(input@) == Some(t@),
                    None => spec_extract_command_token(input@) == None::<Seq<char>>,
                },
                normalized_input@ == normalize::spec_normalize_command(input@),
                seen == seen_before + spec_entry_candidates(input@, platform@, exs.subrange(0, j as int)),
                match best {
                    Some(b) => b.0 < table.len() && b.1 < table[b.0 as int].1.len()
                        && spec_pick(seen) == Some(candidate_at(table, b.0 as int, b.1 as int, b.2, b.3@))
                        && best_rank == spec_platform_rank(table[b.0 as int].0),
                    None => spec_pick(seen) == None::<Candidate>,
                },
            decreases examples.len() - j,
        {
            proof {
                assert(exs.subrange(0, j + 1).drop_last() =~= exs.subrange(0, j as int));
                assert(exs.subrange(0, j + 1).last() == examples@[j as int]@);
            }
            let k = classify_example(input, &token, normalized_input.as_str(), examples[j].as_str());
            match k {
                Some(found) => {
                    let full = found.0;
                    let ghost cand = candidate_at(table, i as int, j as int, full, found.1@);
                    let ghost prev = seen;
                    proof {
                        seen = seen.push(cand);
                        assert(seen == seen_before + spec_entry_candidates(input@, platform@, exs.subrange(0, j + 1)));
                        assert(seen.drop_last() =~= prev);
                    }
                    let replace = match &best {
                        None => true,
                        Some(b) => (full && !b.2) || (full == b.2 && rank < best_rank),
                    };
                    if replace {
                        best = Some((i, j, full, found.1));
                        best_rank = rank;
                    }
                },
                None => {
                    assert(seen_before + spec_entry_candidates(input@, platform@, exs.subrange(0, j + 1)) == seen);
                },
            }
            j = j + 1;
        }
        proof {
            assert(exs.subrange(0, exs.len() as int) =~= exs);
            lemma_table_step(input@, table, i as int);
        }
        i = i + 1;
    }
    proof {
        assert(table.subrange(0, table.len() as int) =~= table);
    }
    best
}

/// Detects which record and platform example `store_input` comes from.
pub fn detect_command<S: CommandStore>(store_input: &str, store: &S) -> (r: Result<Option<Detection>, StoreError>)
    ensures
        match store.command_lookup(store_input@) {
            Err(e) => r == Err::<Option<Detection>, StoreError>(e),
            Ok(None) => r matches Ok(None),
            Ok(Some(rec)) => match r {
                Ok(Some(d)) => spec_detection(store_input@, rec) == Some(d@),
                Ok(None) => spec_detection(store_input@, rec) == None::<DetectionView>,
                Err(_) => false,
            },
        },
{
    let record = match store.find_by_command(store_input) {
        Ok(Some(record)) => record,
        Ok(None) => return Ok(None),
        Err(e) => return Err(e),
    };
    let best = best_match(store_input, &record);
    match best {
        None => Ok(None),
        Some(b) => {
            let platform = record.commands[b.0].0.clone();
            let example = record.commands[b.0].1[b.1].clone();
            assert(text::views(record.commands@[b.0 as int].1@)[b.1 as int] == example@);
            let command = match extract_command_token(store_input) {
                Some(t) => t,
                None => first_token(example.as_str()),
            };
            Ok(Some(Detection {
                input: store_input.to_owned(),
                command,
                source_platform: platform,
                matched_example: example,
                captures: b.3,
                intent: record,
            }))
        },
    }
}

} // verus!
