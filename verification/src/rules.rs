//! Risk rules, and the regular expressions that recognise example commands.
//!
//! An example command such as `copy <source> <destination>` becomes a
//! case-insensitive, anchored pattern in which each `<name>` token is a
//! named group and every other token is matched literally. Matching itself
//! is done by the `regex` crate; what it answers is named below and the
//! logic around it is verified.
use vstd::prelude::*;

use crate::text;
use crate::text::{chars_of, push_str, split_whitespace, string_of, join_strings};

verus! {

broadcast use vstd::string::group_string_axioms;

/// Whether `regex::Regex::new` accepts `pattern`.
pub uninterp spec fn regex_accepts(pattern: Seq<char>) -> bool;

/// Whether the regex compiled from `pattern` matches somewhere in `haystack`
/// (never, for a pattern the crate refuses).
pub uninterp spec fn regex_matches(pattern: Seq<char>, haystack: Seq<char>) -> bool;

/// The text of the group called `name` in the leftmost match of `pattern`
/// in `haystack`; `None` when nothing matches or the group took no part.
pub uninterp spec fn regex_group_text(pattern: Seq<char>, haystack: Seq<char>, name: Seq<char>)
    -> Option<Seq<char>>;

/// The characters that `regex::escape` prefixes with a backslash.
pub open spec fn is_regex_meta(c: char) -> bool {
    c == '\\' || c == '.' || c == '+' || c == '*' || c == '?' || c == '(' || c == ')' || c == '|'
        || c == '[' || c == ']' || c == '{' || c == '}' || c == '^' || c == '$' || c == '#' || c
        == '&' || c == '-' || c == '~'
}

/// `text` with every meta character escaped, as `regex::escape` returns it.
pub open spec fn regex_escaped(text: Seq<char>) -> Seq<char>
    decreases text.len(),
{
    if text.len() == 0 {
        Seq::empty()
    } else if is_regex_meta(text[0]) {
        seq!['\\', text[0]] + regex_escaped(text.drop_first())
    } else {
        seq![text[0]] + regex_escaped(text.drop_first())
    }
}

/// `regex::Regex::new(pattern)`: whether the crate compiles `pattern`.
#[verifier::external_body]
fn regex_compiles(pattern: &str) -> (r: bool)
    ensures
        r == regex_accepts(pattern@),
{
    regex::Regex::new(pattern).is_ok()
}

/// `Regex::is_match` on the regex that `Regex::new(pattern)` builds; `false`
/// when the crate refuses the pattern.
#[verifier::external_body]
pub(crate) fn regex_is_match(pattern: &str, haystack: &str) -> (r: bool)
    ensures
        r == regex_matches(pattern@, haystack@),
        !regex_accepts(pattern@) ==> !r,
{
    match regex::Regex::new(pattern) {
        Ok(re) => re.is_match(haystack),
        Err(_) => false,
    }
}

/// `Regex::captures(haystack)` followed by `Captures::name(name)` on the
/// regex that `Regex::new(pattern)` builds; `None` when the crate refuses
/// the pattern. A group only takes part in a match, so a result means that
/// the pattern matches.
#[verifier::external_body]
pub(crate) fn regex_group(pattern: &str, haystack: &str, name: &str) -> (r: Option<String>)
    ensures
        match r {
            Some(s) => regex_group_text(pattern@, haystack@, name@) == Some(s@)
                && regex_matches(pattern@, haystack@) && regex_accepts(pattern@),
            None => regex_group_text(pattern@, haystack@, name@) == None::<Seq<char>>,
        },
{
    match regex::Regex::new(pattern) {
        Ok(re) => re.captures(haystack).and_then(|c| c.name(name)).map(|m| m.as_str().to_string()),
        Err(_) => None,
    }
}

/// `regex::escape(text)`.
#[verifier::external_body]
fn regex_escape(text: &str) -> (r: String)
    ensures
        r@ == regex_escaped(text@),
{
    regex::escape(text)
}

/// The placeholder name of a `<name>` token.
pub open spec fn spec_placeholder(token: Seq<char>) -> Option<Seq<char>> {
    if token.len() >= 2 && token[0] == '<' && token.last() == '>' {
        Some(token.subrange(1, token.len() - 1))
    } else {
        None
    }
}

/// The regex text of one token of an example command: a named group for a
/// placeholder (a double- or single-quoted argument, or a run of
/// non-whitespace), the escaped token otherwise.
pub open spec fn token_pattern(token: Seq<char>) -> Seq<char> {
    match spec_placeholder(token) {
        Some(name) => "(?P<"@ + name + PLACEHOLDER_BODY@,
        None => regex_escaped(token),
    }
}

/// The rest of a placeholder group after its name.
pub const PLACEHOLDER_BODY: &'static str = ">\"[^\"]*\"|'[^']*'|\\S+)";

/// The opening of every command pattern: case-insensitive, anchored, leading blanks.
pub const PATTERN_START: &'static str = "(?i)^\\s*";

/// What separates the tokens of a command pattern.
pub const PATTERN_GAP: &'static str = "\\s+";

/// The end of every command pattern: trailing blanks, anchored.
pub const PATTERN_END: &'static str = "\\s*$";

/// The regex that recognises the example command `command`.
pub open spec fn spec_command_pattern(command: Seq<char>) -> Seq<char> {
    PATTERN_START@ + text::join(text::split_ws(command).map_values(|t: Seq<char>| token_pattern(t)), PATTERN_GAP@)
        + PATTERN_END@
}

/// Every example command of a record compiles to a valid pattern.
pub open spec fn examples_valid(rec: crate::store::command_store::CommandRecordView) -> bool {
    forall|i: int, j: int|
        0 <= i < rec.commands.len() && 0 <= j < rec.commands[i].1.len() ==> regex_accepts(
            #[trigger] spec_command_pattern(rec.commands[i].1[j]),
        )
}

/// The placeholder name of `token` when it has the form `<name>`.
pub fn placeholder_name(token: &str) -> (r: Option<&str>)
    ensures
        match r {
            Some(n) => spec_placeholder(token@) == Some(n@),
            None => spec_placeholder(token@) == None::<Seq<char>>,
        },
{
    let n = token.unicode_len();
    if n >= 2 && token.get_char(0) == '<' && token.get_char(n - 1) == '>' {
        Some(token.substring_char(1, n - 1))
    } else {
        None
    }
}

fn token_pattern_of(token: &str) -> (r: String)
    ensures
        r@ == token_pattern(token@),
{
    match placeholder_name(token) {
        Some(name) => {
            let mut r = String::new();
            push_str(&mut r, "(?P<");
            push_str(&mut r, name);
            push_str(&mut r, PLACEHOLDER_BODY);
            assert(r@ =~= "(?P<"@ + name@ + PLACEHOLDER_BODY@);
            r
        },
        None => regex_escape(token),
    }
}

/// The regex text for the example command `command`.
pub fn build_command_pattern(command: &str) -> (r: String)
    ensures
        r@ == spec_command_pattern(command@),
{
    let tokens = split_whitespace(command);
    let ghost ts = text::views(tokens@);
    let mut parts: Vec<String> = Vec::new();
    let mut i: usize = 0;
    while i < tokens.len()
        invariant
            i <= tokens.len(),
            ts == text::views(tokens@),
            text::views(parts@) == ts.subrange(0, i as int).map_values(|t: Seq<char>| token_pattern(t)),
        decreases tokens.len() - i,
    {
        let p = token_pattern_of(tokens[i].as_str());
        let ghost before = text::views(parts@);
        parts.push(p);
        assert(text::views(parts@) =~= before.push(p@));
        assert(ts.subrange(0, i + 1).map_values(|t: Seq<char>| token_pattern(t)) =~= ts.subrange(
            0,
            i as int,
        ).map_values(|t: Seq<char>| token_pattern(t)).push(token_pattern(ts[i as int])));
        i = i + 1;
    }
    assert(ts.subrange(0, ts.len() as int) =~= ts);
    let body = join_strings(&parts, PATTERN_GAP);
    let mut r = String::new();
    push_str(&mut r, PATTERN_START);
    push_str(&mut r, body.as_str());
    push_str(&mut r, PATTERN_END);
    assert(r@ =~= PATTERN_START@ + body@ + PATTERN_END@);
    r
}

/// Why a rule or an example command was refused.
#[derive(Debug, Clone)]
pub enum RuleError {
    /// A risk rule holds a pattern that does not compile.
    InvalidPattern { rule: String, pattern: String },
    /// An example command gives a pattern that does not compile.
    InvalidGeneratedPattern(String),
}

/// The pattern that recognises `command`, once the regex crate has accepted it.
pub fn build_command_regex(command: &str) -> (r: Result<String, RuleError>)
    ensures
        match r {
            Ok(p) => p@ == spec_command_pattern(command@) && regex_accepts(p@),
            Err(e) => !regex_accepts(spec_command_pattern(command@)) && (e matches RuleError::InvalidGeneratedPattern(p)
                && p@ == spec_command_pattern(command@)),
        },
{
    let pattern = build_command_pattern(command);
    if regex_compiles(pattern.as_str()) {
        Ok(pattern)
    } else {
        Err(RuleError::InvalidGeneratedPattern(pattern))
    }
}

/// The values captured by the placeholders of a matched example, by name.
#[derive(Debug, Clone)]
pub struct Captures {
    entries: Vec<(String, String)>,
}

/// The map that a list of (name, value) insertions leaves, later ones winning.
pub open spec fn captures_map(entries: Seq<(String, String)>) -> Map<Seq<char>, Seq<char>>
    decreases entries.len(),
{
    if entries.len() == 0 {
        Map::empty()
    } else {
        captures_map(entries.drop_last()).insert(entries.last().0@, entries.last().1@)
    }
}

proof fn lemma_captures_suffix(entries: Seq<(String, String)>, i: int, name: Seq<char>)
    requires
        0 <= i <= entries.len(),
        forall|j: int| i <= j < entries.len() ==> #[trigger] entries[j].0@ != name,
    ensures
        captures_map(entries).contains_key(name) == captures_map(entries.subrange(0, i)).contains_key(name),
        captures_map(entries).contains_key(name) ==> captures_map(entries)[name] == captures_map(entries.subrange(0, i))[name],
    decreases entries.len() - i,
{
    if i < entries.len() {
        lemma_captures_suffix(entries.drop_last(), i, name);
        assert(entries.drop_last().subrange(0, i) =~= entries.subrange(0, i));
    } else {
        assert(entries.subrange(0, i) =~= entries);
    }
}

impl View for Captures {
    type V = Map<Seq<char>, Seq<char>>;

    closed spec fn view(&self) -> Map<Seq<char>, Seq<char>> {
        captures_map(self.entries@)
    }
}

impl Captures {
    /// No captures.
    pub fn new() -> (r: Captures)
        ensures
            r@ == Map::<Seq<char>, Seq<char>>::empty(),
    {
        Captures { entries: Vec::new() }
    }

    /// Records `value` under `name`, replacing an earlier value.
    pub fn insert(&mut self, name: String, value: String)
        ensures
            final(self)@ == old(self)@.insert(name@, value@),
    {
        self.entries.push((name, value));
        assert(self.entries@.drop_last() =~= old(self).entries@);
    }

    /// The value captured under `name`.
    pub fn get(&self, name: &str) -> (r: Option<&str>)
        ensures
            match r {
                Some(v) => self@.contains_key(name@) && self@[name@] == v@,
                None => !self@.contains_key(name@),
            },
    {
        let mut i: usize = self.entries.len();
        while i > 0
            invariant
                i <= self.entries@.len(),
                forall|j: int| i <= j < self.entries@.len() ==> #[trigger] self.entries@[j].0@ != name@,
            decreases i,
        {
            if text::str_eq(self.entries[i - 1].0.as_str(), name) {
                proof {
                    lemma_captures_suffix(self.entries@, i as int, name@);
                    let sub = self.entries@.subrange(0, i as int);
                    assert(sub.drop_last() =~= self.entries@.subrange(0, i - 1));
                }
                return Some(self.entries[i - 1].1.as_str());
            }
            i = i - 1;
        }
        proof {
            lemma_captures_suffix(self.entries@, 0, name@);
            assert(self.entries@.subrange(0, 0) =~= Seq::<(String, String)>::empty());
        }
        None
    }

    /// Whether nothing was captured.
    pub fn is_empty(&self) -> (r: bool)
        ensures
            r <==> self@ == Map::<Seq<char>, Seq<char>>::empty(),
    {
        if self.entries.len() == 0 {
            assert(self@ =~= Map::<Seq<char>, Seq<char>>::empty());
            true
        } else {
            assert(self@.contains_key(self.entries@.last().0@));
            false
        }
    }
}

/// One token of a template, with its placeholder filled from `captures`
/// when a value was captured for it.
pub open spec fn fill_token(token: Seq<char>, captures: Map<Seq<char>, Seq<char>>) -> Seq<char> {
    match spec_placeholder(token) {
        Some(name) => if captures.contains_key(name) {
            captures[name]
        } else {
            token
        },
        None => token,
    }
}

/// A template command with its placeholders filled, tokens joined by single spaces.
pub open spec fn spec_apply_template(template: Seq<char>, captures: Map<Seq<char>, Seq<char>>) -> Seq<char> {
    text::join(text::split_ws(template).map_values(|t: Seq<char>| fill_token(t, captures)), seq![' '])
}

/// Fills the `<name>` placeholders of `template` with the captured values;
/// placeholders without a value stay as they are.
pub fn apply_template_captures(template: &str, captures: &Captures) -> (r: String)
    ensures
        r@ == spec_apply_template(template@, captures@),
{
    let tokens = split_whitespace(template);
    let ghost ts = text::views(tokens@);
    let mut parts: Vec<String> = Vec::new();
    let mut i: usize = 0;
    while i < tokens.len()
        invariant
            i <= tokens.len(),
            ts == text::views(tokens@),
            text::views(parts@) == ts.subrange(0, i as int).map_values(|t: Seq<char>| fill_token(t, captures@)),
        decreases tokens.len() - i,
    {
        let token = tokens[i].as_str();
        let filled = match placeholder_name(token) {
            Some(name) => match captures.get(name) {
                Some(v) => v.to_owned(),
                None => token.to_owned(),
            },
            None => token.to_owned(),
        };
        let ghost before = text::views(parts@);
        parts.push(filled);
        assert(text::views(parts@) =~= before.push(filled@));
        assert(ts.subrange(0, i + 1).map_values(|t: Seq<char>| fill_token(t, captures@)) =~= ts.subrange(
            0,
            i as int,
        ).map_values(|t: Seq<char>| fill_token(t, captures@)).push(fill_token(ts[i as int], captures@)));
        i = i + 1;
    }
    assert(ts.subrange(0, ts.len() as int) =~= ts);
    proof {
        reveal_strlit(" ");
        assert(" "@.len() == 1);
        assert(" "@ =~= seq![' ']);
    }
    join_strings(&parts, " ")
}

/// A named set of patterns and the risk level they indicate.
#[derive(Debug, Clone)]
pub struct RiskRule {
    pub name: String,
    pub level: String,
    pub reason: String,
    pub patterns: Vec<String>,
}

/// Every pattern of every rule compiles.
pub open spec fn rules_valid(risks: Seq<RiskRule>) -> bool {
    forall|i: int, j: int|
        0 <= i < risks.len() && 0 <= j < risks[i].patterns@.len() ==> regex_accepts(
            #[trigger] risks[i].patterns@[j]@,
        )
}

/// The risk rules, each of whose patterns the regex crate accepts.
#[derive(Debug)]
pub struct RiskCatalog {
    risks: Vec<RiskRule>,
}

impl RiskCatalog {
    #[verifier::type_invariant]
    spec fn valid(&self) -> bool {
        rules_valid(self.risks@)
    }

    /// The rules, in order.
    pub closed spec fn rules(&self) -> Seq<RiskRule> {
        self.risks@
    }

    /// A catalog of `risks`, refused when a pattern does not compile; the
    /// error names the first such rule and pattern.
    pub fn new(risks: Vec<RiskRule>) -> (r: Result<RiskCatalog, RuleError>)
        ensures
            match r {
                Ok(c) => c.rules() == risks@ && rules_valid(risks@),
                Err(e) => !rules_valid(risks@) && (e matches RuleError::InvalidPattern { rule, pattern }
                    && exists|i: int, j: int|
                    0 <= i < risks@.len() && 0 <= j < risks@[i].patterns@.len() && rule@ == risks@[i].name@
                        && #[trigger] risks@[i].patterns@[j]@ == pattern@ && !regex_accepts(pattern@)),
            },
    {
        let mut i: usize = 0;
        while i < risks.len()
            invariant
                i <= risks@.len(),
                forall|a: int, b: int|
                    0 <= a < i && 0 <= b < risks@[a].patterns@.len() ==> regex_accepts(
                        #[trigger] risks@[a].patterns@[b]@,
                    ),
            decreases risks.len() - i,
        {
            let mut j: usize = 0;
            while j < risks[i].patterns.len()
                invariant
                    i < risks@.len(),
                    j <= risks@[i as int].patterns@.len(),
                    forall|a: int, b: int|
                        0 <= a < i && 0 <= b < risks@[a].patterns@.len() ==> regex_accepts(
                            #[trigger] risks@[a].patterns@[b]@,
                        ),
                    forall|b: int| 0 <= b < j ==> regex_accepts(#[trigger] risks@[i as int].patterns@[b]@),
                decreases risks@[i as int].patterns@.len() - j,
            {
                if !regex_compiles(risks[i].patterns[j].as_str()) {
                    let rule = risks[i].name.clone();
                    let pattern = risks[i].patterns[j].clone();
                    return Err(RuleError::InvalidPattern { rule, pattern });
                }
                j = j + 1;
            }
            i = i + 1;
        }
        Ok(RiskCatalog { risks })
    }

    /// The rules, in order.
    pub fn risks(&self) -> (r: &Vec<RiskRule>)
        ensures
            r@ == self.rules(),
            rules_valid(r@),
    {
        proof {
            use_type_invariant(self);
        }
        &self.risks
    }
}

} // verus!
