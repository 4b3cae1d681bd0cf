//! The decisions of the desktop terminal: catalog search suggestions while
//! typing, the built-in `pwd` and `cd`, and the answers to a pending
//! confirmation.
use vstd::prelude::*;

use crate::platform;
use crate::platform::{normalize_target_platform, Platform};
use crate::rules::RiskCatalog;
use crate::shell;
use crate::shell::{decide_shell_command, submit_message, ShellAction, ShellDecision};
use crate::store::command_store::{CommandStore, StoreError};
use crate::translator;
use crate::translator::display_platform_name;
use crate::store::command_store;
use crate::store::command_store::CommandRecord;
use crate::store::formats;
use crate::store::formats::{eq_bytes, key_bytes, lt_bytes};
use crate::text;
use crate::text::{chars_of, eq_ignore_ascii_case, lower_string, push_str, split_whitespace, str_eq, string_of, trim_str};

verus! {

broadcast use vstd::string::group_string_axioms;

/// An ASCII letter or digit.
pub open spec fn is_ascii_alnum(c: char) -> bool {
    ('a' <= c && c <= 'z') || ('A' <= c && c <= 'Z') || ('0' <= c && c <= '9')
}

/// Number of leading characters that are not ASCII letters or digits.
pub open spec fn leading_junk(s: Seq<char>) -> nat
    decreases s.len(),
{
    if s.len() > 0 && !is_ascii_alnum(s[0]) {
        1 + leading_junk(s.drop_first())
    } else {
        0
    }
}

/// Number of trailing characters that are not ASCII letters or digits.
pub open spec fn trailing_junk(s: Seq<char>) -> nat
    decreases s.len(),
{
    if s.len() > 0 && !is_ascii_alnum(s.last()) {
        1 + trailing_junk(s.drop_last())
    } else {
        0
    }
}

/// A search token: lower-cased, without leading or trailing characters that
/// are not ASCII letters or digits.
pub open spec fn spec_normalize_search_token(token: Seq<char>) -> Seq<char> {
    let a = leading_junk(token) as int;
    let t = if a == token.len() {
        Seq::empty()
    } else {
        token.subrange(a, token.len() - trailing_junk(token) as int)
    };
    text::lower(t)
}

proof fn lemma_leading_junk(s: Seq<char>)
    ensures
        leading_junk(s) <= s.len(),
        forall|i: int| 0 <= i < leading_junk(s) ==> !is_ascii_alnum(#[trigger] s[i]),
        leading_junk(s) < s.len() ==> is_ascii_alnum(s[leading_junk(s) as int]),
    decreases s.len(),
{
    if s.len() > 0 && !is_ascii_alnum(s[0]) {
        lemma_leading_junk(s.drop_first());
        assert forall|i: int| 0 <= i < leading_junk(s) implies !is_ascii_alnum(#[trigger] s[i]) by {
            if i > 0 {
                assert(s[i] == s.drop_first()[i - 1]);
            }
        }
    }
}

proof fn lemma_trailing_junk(s: Seq<char>)
    ensures
        trailing_junk(s) <= s.len(),
        forall|i: int| s.len() - trailing_junk(s) <= i < s.len() ==> !is_ascii_alnum(#[trigger] s[i]),
        trailing_junk(s) < s.len() ==> is_ascii_alnum(s[s.len() - trailing_junk(s) - 1]),
    decreases s.len(),
{
    if s.len() > 0 && !is_ascii_alnum(s.last()) {
        lemma_trailing_junk(s.drop_last());
        assert forall|i: int| s.len() - trailing_junk(s) <= i < s.len() implies !is_ascii_alnum(#[trigger] s[i]) by {
            if i < s.len() - 1 {
                assert(s[i] == s.drop_last()[i]);
            }
        }
    }
}

proof fn lemma_leading_junk_step(s: Seq<char>, i: int)
    requires
        0 <= i < s.len(),
        forall|k: int| 0 <= k <= i ==> !is_ascii_alnum(#[trigger] s[k]),
    ensures
        leading_junk(s) >= i + 1,
    decreases i,
{
    if i > 0 {
        lemma_leading_junk_step(s.drop_first(), i - 1);
    }
}

fn alnum(c: char) -> (r: bool)
    ensures
        r == is_ascii_alnum(c),
{
    ('a' <= c && c <= 'z') || ('A' <= c && c <= 'Z') || ('0' <= c && c <= '9')
}

/// Lower-cases a search token and trims the characters around it that are
/// not ASCII letters or digits.
pub fn normalize_search_token(token: &str) -> (r: String)
    ensures
        r@ == spec_normalize_search_token(token@),
{
    let s = chars_of(token);
    let n = s.len();
    proof {
        lemma_leading_junk(s@);
        lemma_trailing_junk(s@);
    }
    let mut a: usize = 0;
    while a < n && !alnum(s[a])
        invariant
            a <= n,
            n == s@.len(),
            a <= leading_junk(s@),
            forall|k: int| 0 <= k < a ==> !is_ascii_alnum(#[trigger] s@[k]),
        decreases n - a,
    {
        proof {
            lemma_leading_junk_step(s@, a as int);
        }
        a = a + 1;
    }
    let ghost lj = leading_junk(s@);
    assert(a == lj) by {
        if a < lj {
            assert(!is_ascii_alnum(s@[a as int]));
        }
    }
    if a == n {
        let e = String::new();
        assert(text::lower(Seq::<char>::empty()) =~= Seq::<char>::empty());
        return e;
    }
    let mut b: usize = n;
    while b > a && !alnum(s[b - 1])
        invariant
            a < n,
            a <= b <= n,
            n == s@.len(),
            a == leading_junk(s@),
            forall|k: int| b <= k < n ==> !is_ascii_alnum(#[trigger] s@[k]),
        decreases b,
    {
        b = b - 1;
    }
    proof {
        lemma_trailing_junk_step(s@, n - b);
        assert(is_ascii_alnum(s@[a as int]));
        if b == a {
            assert(!is_ascii_alnum(s@[a as int]));
        }
        assert(is_ascii_alnum(s@[b - 1]));
        if trailing_junk(s@) > n - b {
            assert(!is_ascii_alnum(s@[b - 1]));
        }
        assert(b == n - trailing_junk(s@));
    }
    let mut mid: Vec<char> = Vec::new();
    let mut i: usize = a;
    while i < b
        invariant
            a <= i <= b <= n,
            n == s@.len(),
            mid@ == s@.subrange(a as int, i as int),
        decreases b - i,
    {
        mid.push(s[i]);
        i = i + 1;
        assert(mid@ =~= s@.subrange(a as int, i as int));
    }
    let low = text::lower_chars(&mid);
    string_of(&low)
}

proof fn lemma_trailing_junk_step(s: Seq<char>, k: int)
    requires
        0 <= k <= s.len(),
        forall|j: int| s.len() - k <= j < s.len() ==> !is_ascii_alnum(#[trigger] s[j]),
    ensures
        trailing_junk(s) >= k,
    decreases k,
{
    if k > 0 {
        assert(!is_ascii_alnum(s[s.len() - 1]));
        assert forall|j: int| s.drop_last().len() - (k - 1) <= j < s.drop_last().len() implies !is_ascii_alnum(#[trigger] s.drop_last()[j]) by {
            assert(s.drop_last()[j] == s[j]);
        }
        lemma_trailing_junk_step(s.drop_last(), k - 1);
    }
}


/// Whether suggestions from `source_shell` are native to the target.
pub open spec fn spec_source_matches_target(source_shell: Seq<char>, target: Platform) -> bool {
    match target {
        Platform::Windows => source_shell == "windows_cmd"@ || source_shell == "powershell"@,
        Platform::Macos => source_shell == "macos"@,
        Platform::Ubuntu => source_shell == "ubuntu"@,
    }
}

/// Whether suggestions from `source_shell` are native to the target.
pub fn source_shell_matches_target(source_shell: &str, target_platform: Platform) -> (r: bool)
    ensures
        r == spec_source_matches_target(source_shell@, target_platform),
{
    match target_platform {
        Platform::Windows => str_eq(source_shell, "windows_cmd") || str_eq(source_shell, "powershell"),
        Platform::Macos => str_eq(source_shell, "macos"),
        Platform::Ubuntu => str_eq(source_shell, "ubuntu"),
    }
}

/// The order of risk levels among equally scored suggestions.
pub open spec fn spec_risk_priority(risk: Seq<char>) -> u8 {
    if risk == "low"@ {
        0
    } else if risk == "medium"@ {
        1
    } else if risk == "high"@ {
        2
    } else if risk == "destructive"@ {
        3
    } else {
        4
    }
}

/// The order of risk levels among equally scored suggestions.
pub fn risk_priority(risk: &str) -> (r: u8)
    ensures
        r == spec_risk_priority(risk@),
{
    if str_eq(risk, "low") {
        0
    } else if str_eq(risk, "medium") {
        1
    } else if str_eq(risk, "high") {
        2
    } else if str_eq(risk, "destructive") {
        3
    } else {
        4
    }
}

/// The normalised words of a lower-cased command template.
pub open spec fn command_words(command_lower: Seq<char>) -> Seq<Seq<char>> {
    text::split_ws(command_lower).map_values(|t: Seq<char>| spec_normalize_search_token(t))
}

/// Some word starts with `prefix`.
pub open spec fn some_word_starts_with(words: Seq<Seq<char>>, prefix: Seq<char>) -> bool {
    exists|k: int| 0 <= k < words.len() && text::starts_with(#[trigger] words[k], prefix)
}

/// The points the query tokens earn: 50 for a command word they start, 30
/// for appearing in the intent, 20 for appearing in the description.
pub open spec fn spec_token_points(words: Seq<Seq<char>>, intent_lower: Seq<char>, description_lower: Seq<char>, tokens: Seq<Seq<char>>) -> int
    decreases tokens.len(),
{
    if tokens.len() == 0 {
        0
    } else {
        let t = tokens.last();
        spec_token_points(words, intent_lower, description_lower, tokens.drop_last()) + (if some_word_starts_with(words, t) {
            50int
        } else {
            0int
        }) + (if text::contains(intent_lower, t) {
            30int
        } else {
            0int
        }) + (if text::contains(description_lower, t) {
            20int
        } else {
            0int
        })
    }
}

/// The score of a catalog example for a query.
pub open spec fn spec_score(
    template: Seq<char>,
    intent: Seq<char>,
    description: Seq<char>,
    source_shell: Seq<char>,
    target: Platform,
    risk_level: Seq<char>,
    tokens: Seq<Seq<char>>,
    query: Seq<char>,
) -> int {
    let cl = text::lower(template);
    (if cl == query {
        100int
    } else {
        0int
    }) + (if text::starts_with(cl, query) {
        80int
    } else {
        0int
    }) + spec_token_points(command_words(cl), text::lower(intent), text::lower(description), tokens) + (
    if spec_source_matches_target(source_shell, target) {
        20int
    } else {
        0int
    }) + (if risk_level == "low"@ {
        5int
    } else if risk_level == "high"@ {
        -20int
    } else {
        0int
    })
}

proof fn lemma_token_points_bound(words: Seq<Seq<char>>, il: Seq<char>, dl: Seq<char>, tokens: Seq<Seq<char>>)
    ensures
        0 <= spec_token_points(words, il, dl, tokens) <= 100 * tokens.len(),
    decreases tokens.len(),
{
    if tokens.len() > 0 {
        lemma_token_points_bound(words, il, dl, tokens.drop_last());
    }
}

fn normalized_words(command_lower: &str) -> (r: Vec<String>)
    ensures
        text::views(r@) == command_words(command_lower@),
{
    let parts = split_whitespace(command_lower);
    let ghost ps = text::views(parts@);
    let mut out: Vec<String> = Vec::new();
    let mut i: usize = 0;
    while i < parts.len()
        invariant
            i <= parts@.len(),
            ps == text::views(parts@),
            ps == text::split_ws(command_lower@),
            text::views(out@) == ps.subrange(0, i as int).map_values(|t: Seq<char>| spec_normalize_search_token(t)),
        decreases parts.len() - i,
    {
        let w = normalize_search_token(parts[i].as_str());
        let ghost before = text::views(out@);
        out.push(w);
        assert(text::views(out@) =~= before.push(w@));
        assert(ps.subrange(0, i + 1).map_values(|t: Seq<char>| spec_normalize_search_token(t)) =~= ps.subrange(
            0,
            i as int,
        ).map_values(|t: Seq<char>| spec_normalize_search_token(t)).push(spec_normalize_search_token(ps[i as int])));
        i = i + 1;
    }
    assert(ps.subrange(0, ps.len() as int) =~= ps);
    out
}

fn any_word_starts_with(words: &Vec<String>, prefix: &str) -> (r: bool)
    ensures
        r == some_word_starts_with(text::views(words@), prefix@),
{
    let p = chars_of(prefix);
    let mut k: usize = 0;
    while k < words.len()
        invariant
            k <= words@.len(),
            p@ == prefix@,
            forall|j: int| 0 <= j < k ==> !text::starts_with(#[trigger] text::views(words@)[j], prefix@),
        decreases words.len() - k,
    {
        let w = chars_of(words[k].as_str());
        assert(text::views(words@)[k as int] == words@[k as int]@);
        if text::chars_starts_with(&w, &p) {
            return true;
        }
        k = k + 1;
    }
    false
}

fn str_contains(s: &str, needle: &str) -> (r: bool)
    ensures
        r == text::contains(s@, needle@),
{
    let a = chars_of(s);
    let b = chars_of(needle);
    text::chars_contains(&a, &b)
}

fn str_starts_with(s: &str, prefix: &str) -> (r: bool)
    ensures
        r == text::starts_with(s@, prefix@),
{
    let a = chars_of(s);
    let b = chars_of(prefix);
    text::chars_starts_with(&a, &b)
}

/// Scores a catalog example for the normalised query and its tokens.
pub fn catalog_suggestion_score(
    command_template: &str,
    intent: &str,
    description: &str,
    source_shell: &str,
    target_platform: Platform,
    risk_level: &str,
    query_tokens: &Vec<String>,
    normalized_query: &str,
) -> (r: i32)
    requires
        query_tokens@.len() <= 20_000_000,
    ensures
        r as int == spec_score(
            command_template@,
            intent@,
            description@,
            source_shell@,
            target_platform,
            risk_level@,
            text::views(query_tokens@),
            normalized_query@,
        ),
{
    let command_lower = lower_string(command_template);
    let intent_lower = lower_string(intent);
    let description_lower = lower_string(description);
    let words = normalized_words(command_lower.as_str());
    let ghost ts = text::views(query_tokens@);
    let ghost wv = text::views(words@);
    let mut score: i32 = 0;
    if str_eq(command_lower.as_str(), normalized_query) {
        score = score + 100;
    }
    if str_starts_with(command_lower.as_str(), normalized_query) {
        score = score + 80;
    }
    let ghost base = score as int;
    let mut i: usize = 0;
    proof {
        assert(ts.subrange(0, 0) =~= Seq::<Seq<char>>::empty());
    }
    while i < query_tokens.len()
        invariant
            i <= query_tokens@.len(),
            query_tokens@.len() <= 20_000_000,
            ts == text::views(query_tokens@),
            wv == text::views(words@),
            0 <= base <= 180,
            score as int == base + spec_token_points(wv, intent_lower@, description_lower@, ts.subrange(0, i as int)),
        decreases query_tokens.len() - i,
    {
        proof {
            assert(ts.subrange(0, i + 1).drop_last() =~= ts.subrange(0, i as int));
            assert(ts.subrange(0, i + 1).last() == query_tokens@[i as int]@);
            lemma_token_points_bound(wv, intent_lower@, description_lower@, ts.subrange(0, i as int));
        }
        let token = query_tokens[i].as_str();
        if any_word_starts_with(&words, token) {
            score = score + 50;
        }
        if str_contains(intent_lower.as_str(), token) {
            score = score + 30;
        }
        if str_contains(description_lower.as_str(), token) {
            score = score + 20;
        }
        i = i + 1;
    }
    proof {
        assert(ts.subrange(0, ts.len() as int) =~= ts);
        lemma_token_points_bound(wv, intent_lower@, description_lower@, ts);
    }
    if source_shell_matches_target(source_shell, target_platform) {
        score = score + 20;
    }
    if str_eq(risk_level, "low") {
        score = score + 5;
    } else if str_eq(risk_level, "high") {
        score = score - 20;
    }
    score
}

/// Whether a high-risk example matches the query strongly enough to be
/// offered: the command or one of its words starts with the query, or the
/// intent contains it.
pub open spec fn spec_strong_match(template: Seq<char>, intent: Seq<char>, query: Seq<char>) -> bool {
    let cl = text::lower(template);
    text::starts_with(cl, query) || some_word_starts_with(command_words(cl), query) || text::contains(
        text::lower(intent),
        query,
    )
}

/// Whether a high-risk example matches the query strongly enough to be offered.
pub fn is_strong_catalog_match(command_template: &str, intent: &str, normalized_query: &str) -> (r: bool)
    ensures
        r == spec_strong_match(command_template@, intent@, normalized_query@),
{
    let command_lower = lower_string(command_template);
    let intent_lower = lower_string(intent);
    if str_starts_with(command_lower.as_str(), normalized_query) {
        return true;
    }
    let words = normalized_words(command_lower.as_str());
    any_word_starts_with(&words, normalized_query) || str_contains(intent_lower.as_str(), normalized_query)
}


/// A catalog example offered while the user types.
#[derive(Debug, Clone)]
pub struct CatalogSuggestion {
    pub command_template: String,
    pub intent_id: String,
    pub description: String,
    pub source_shell: String,
    pub target_shell: String,
    pub risk: String,
    pub preview_translation: Option<String>,
    pub score: i32,
}

/// A suggestion as values.
pub struct SuggestionView {
    pub command_template: Seq<char>,
    pub intent_id: Seq<char>,
    pub description: Seq<char>,
    pub source_shell: Seq<char>,
    pub target_shell: Seq<char>,
    pub risk: Seq<char>,
    pub preview_translation: Option<Seq<char>>,
    pub score: int,
}

impl View for CatalogSuggestion {
    type V = SuggestionView;

    open spec fn view(&self) -> SuggestionView {
        SuggestionView {
            command_template: self.command_template@,
            intent_id: self.intent_id@,
            description: self.description@,
            source_shell: self.source_shell@,
            target_shell: self.target_shell@,
            risk: self.risk@,
            preview_translation: match self.preview_translation {
                Some(p) => Some(p@),
                None => None,
            },
            score: self.score as int,
        }
    }
}

impl CatalogSuggestion {
    /// A copy of this suggestion.
    pub fn duplicate(&self) -> (r: CatalogSuggestion)
        ensures
            r@ == self@,
    {
        CatalogSuggestion {
            command_template: self.command_template.clone(),
            intent_id: self.intent_id.clone(),
            description: self.description.clone(),
            source_shell: self.source_shell.clone(),
            target_shell: self.target_shell.clone(),
            risk: self.risk.clone(),
            preview_translation: match &self.preview_translation {
                Some(p) => Some(p.clone()),
                None => None,
            },
            score: self.score,
        }
    }
}

/// The first example a record offers for the target, shown as a preview.
pub open spec fn spec_preview(rec: command_store::CommandRecordView, target: Platform) -> Option<Seq<char>> {
    let t = command_store::spec_target_commands(rec.commands, target.spec_key());
    if t.len() > 0 {
        Some(t[0])
    } else {
        None
    }
}

/// The suggestion an example of a record gives, when it is offered: it
/// scores above zero, and a high-risk example must also match strongly.
pub open spec fn spec_candidate(
    rec: command_store::CommandRecordView,
    platform: Seq<char>,
    example: Seq<char>,
    tokens: Seq<Seq<char>>,
    query: Seq<char>,
    target: Platform,
) -> Option<SuggestionView> {
    let sc = spec_score(example, rec.intent, rec.description, platform, target, rec.risk_level, tokens, query);
    if sc <= 0 || (rec.risk_level == "high"@ && !spec_strong_match(example, rec.intent, query)) {
        None
    } else {
        Some(
            SuggestionView {
                command_template: example,
                intent_id: rec.intent,
                description: rec.description,
                source_shell: platform,
                target_shell: target.spec_key(),
                risk: rec.risk_level,
                preview_translation: spec_preview(rec, target),
                score: sc,
            },
        )
    }
}

/// The key by which repeated suggestions are dropped.
pub open spec fn dedupe_key(s: SuggestionView) -> Seq<char> {
    s.source_shell + "::"@ + text::lower(s.command_template)
}

/// Adds a suggestion unless one with the same key is already there.
pub open spec fn add_one(d: Seq<SuggestionView>, c: SuggestionView) -> Seq<SuggestionView> {
    if exists|j: int| 0 <= j < d.len() && #[trigger] dedupe_key(d[j]) == dedupe_key(c) {
        d
    } else {
        d.push(c)
    }
}

/// The offered examples of one platform of a record, added in order.
pub open spec fn add_examples(
    d: Seq<SuggestionView>,
    rec: command_store::CommandRecordView,
    platform: Seq<char>,
    examples: Seq<Seq<char>>,
    tokens: Seq<Seq<char>>,
    query: Seq<char>,
    target: Platform,
) -> Seq<SuggestionView>
    decreases examples.len(),
{
    if examples.len() == 0 {
        d
    } else {
        let d1 = add_examples(d, rec, platform, examples.drop_last(), tokens, query, target);
        match spec_candidate(rec, platform, examples.last(), tokens, query, target) {
            Some(c) => add_one(d1, c),
            None => d1,
        }
    }
}

/// The offered examples of the first `n` platforms of a record, added in order.
pub open spec fn add_platforms(
    d: Seq<SuggestionView>,
    rec: command_store::CommandRecordView,
    n: int,
    tokens: Seq<Seq<char>>,
    query: Seq<char>,
    target: Platform,
) -> Seq<SuggestionView>
    decreases n,
{
    if n <= 0 || n > rec.commands.len() {
        d
    } else {
        let d1 = add_platforms(d, rec, n - 1, tokens, query, target);
        add_examples(d1, rec, rec.commands[n - 1].0, rec.commands[n - 1].1, tokens, query, target)
    }
}

/// The offered examples of the records, added in order; destructive
/// records offer nothing.
pub open spec fn add_records(recs: Seq<command_store::CommandRecordView>, tokens: Seq<Seq<char>>, query: Seq<char>, target: Platform) -> Seq<SuggestionView>
    decreases recs.len(),
{
    if recs.len() == 0 {
        Seq::empty()
    } else {
        let d = add_records(recs.drop_last(), tokens, query, target);
        let rec = recs.last();
        if rec.risk_level == "destructive"@ {
            d
        } else {
            add_platforms(d, rec, rec.commands.len() as int, tokens, query, target)
        }
    }
}

/// Whether suggestion `a` is shown before `b`: higher score, then lower
/// risk, then shorter template (in bytes), then template order.
pub open spec fn shown_before(a: SuggestionView, b: SuggestionView) -> bool {
    let ka = vstd::utf8::encode_utf8(a.command_template);
    let kb = vstd::utf8::encode_utf8(b.command_template);
    a.score > b.score || (a.score == b.score && (spec_risk_priority(a.risk) < spec_risk_priority(b.risk) || (
    spec_risk_priority(a.risk) == spec_risk_priority(b.risk) && (ka.len() < kb.len() || (ka.len() == kb.len()
        && formats::bytes_lt(ka, kb))))))
}

proof fn lemma_shown_before_asym(a: SuggestionView, b: SuggestionView)
    ensures
        shown_before(a, b) ==> !shown_before(b, a),
{
    formats::lemma_bytes_lt_asym(
        vstd::utf8::encode_utf8(a.command_template),
        vstd::utf8::encode_utf8(b.command_template),
    );
}

/// Suggestions in display order.
pub open spec fn suggestions_sorted(s: Seq<SuggestionView>) -> bool {
    forall|i: int, j: int| 0 <= i && i + 1 == j && j < s.len() ==> !shown_before(#[trigger] s[j], #[trigger] s[i])
}

fn shown_before_exec(a: &CatalogSuggestion, b: &CatalogSuggestion) -> (r: bool)
    ensures
        r == shown_before(a@, b@),
{
    if a.score != b.score {
        return a.score > b.score;
    }
    let pa = risk_priority(a.risk.as_str());
    let pb = risk_priority(b.risk.as_str());
    if pa != pb {
        return pa < pb;
    }
    let ka = key_bytes(a.command_template.as_str());
    let kb = key_bytes(b.command_template.as_str());
    if ka.len() != kb.len() {
        return ka.len() < kb.len();
    }
    lt_bytes(ka, kb)
}

/// `x` placed into `s` before the first suggestion it is shown before.
pub open spec fn insert_shown(s: Seq<SuggestionView>, x: SuggestionView) -> Seq<SuggestionView>
    decreases s.len(),
{
    if s.len() == 0 {
        seq![x]
    } else if shown_before(x, s[0]) {
        seq![x] + s
    } else {
        seq![s[0]] + insert_shown(s.drop_first(), x)
    }
}

/// The suggestions in showing order; equally ranked ones keep their order.
pub open spec fn sort_shown(s: Seq<SuggestionView>) -> Seq<SuggestionView>
    decreases s.len(),
{
    if s.len() == 0 {
        Seq::empty()
    } else {
        insert_shown(sort_shown(s.drop_last()), s.last())
    }
}

proof fn lemma_insert_shown_at(s: Seq<SuggestionView>, x: SuggestionView, pos: int)
    requires
        0 <= pos <= s.len(),
        forall|a: int| 0 <= a < pos ==> !shown_before(x, #[trigger] s[a]),
        pos < s.len() ==> shown_before(x, s[pos]),
    ensures
        insert_shown(s, x) == s.insert(pos, x),
    decreases pos,
{
    if s.len() == 0 {
        assert(s.insert(pos, x) =~= seq![x]);
    } else if pos == 0 {
        assert(s.insert(0, x) =~= seq![x] + s);
    } else {
        assert(!shown_before(x, s[0]));
        let rest = s.drop_first();
        assert forall|a: int| 0 <= a < pos - 1 implies !shown_before(x, #[trigger] rest[a]) by {
            assert(rest[a] == s[a + 1]);
        }
        if pos < s.len() {
            assert(rest[pos - 1] == s[pos]);
        }
        lemma_insert_shown_at(rest, x, pos - 1);
        assert(s.insert(pos, x) =~= seq![s[0]] + rest.insert(pos - 1, x));
    }
}

/// The first `n` suggestions shown.
pub open spec fn first_shown(s: Seq<SuggestionView>, n: int) -> Seq<SuggestionView> {
    if n < s.len() {
        s.subrange(0, n)
    } else {
        s
    }
}

fn sort_suggestions(items: Vec<CatalogSuggestion>) -> (r: Vec<CatalogSuggestion>)
    ensures
        suggestions_sorted(r@.map_values(|c: CatalogSuggestion| c@)),
        r@.map_values(|c: CatalogSuggestion| c@).to_multiset() == items@.map_values(|c: CatalogSuggestion| c@).to_multiset(),
        r@.map_values(|c: CatalogSuggestion| c@) == sort_shown(items@.map_values(|c: CatalogSuggestion| c@)),
{
    broadcast use vstd::seq_lib::group_to_multiset_ensures;
    let ghost input = items@.map_values(|c: CatalogSuggestion| c@);
    let mut out: Vec<CatalogSuggestion> = Vec::new();
    let mut i: usize = 0;
    while i < items.len()
        invariant
            i <= items@.len(),
            input == items@.map_values(|c: CatalogSuggestion| c@),
            suggestions_sorted(out@.map_values(|c: CatalogSuggestion| c@)),
            out@.map_values(|c: CatalogSuggestion| c@).to_multiset() == input.subrange(0, i as int).to_multiset(),
            out@.map_values(|c: CatalogSuggestion| c@) == sort_shown(input.subrange(0, i as int)),
        decreases items.len() - i,
    {
        let x = items[i].duplicate();
        let ghost os = out@.map_values(|c: CatalogSuggestion| c@);
        let mut pos: usize = 0;
        let mut done = false;
        while !done && pos < out.len()
            invariant
                pos <= out@.len(),
                os == out@.map_values(|c: CatalogSuggestion| c@),
                done ==> pos < out@.len() && shown_before(x@, os[pos as int]),
                forall|a: int| 0 <= a < pos ==> !shown_before(x@, #[trigger] os[a]),
            decreases out.len() - pos + (if done { 0int } else { 1int }),
        {
            if shown_before_exec(&x, &out[pos]) {
                done = true;
            } else {
                pos = pos + 1;
            }
        }
        let ghost xv = x@;
        out.insert(pos, x);
        proof {
            let ns = out@.map_values(|c: CatalogSuggestion| c@);
            assert(ns =~= os.insert(pos as int, xv));
            assert(input.subrange(0, i + 1) =~= input.subrange(0, i as int).push(input[i as int]));
            vstd::seq_lib::to_multiset_insert(os, pos as int, xv);
            lemma_insert_shown_at(os, xv, pos as int);
            assert(input.subrange(0, i + 1).drop_last() =~= input.subrange(0, i as int));
            vstd::seq_lib::to_multiset_build(input.subrange(0, i as int), input[i as int]);
            assert forall|a: int, b: int| 0 <= a && a + 1 == b && b < ns.len() implies !shown_before(
                #[trigger] ns[b],
                #[trigger] ns[a],
            ) by {
                if b < pos {
                    assert(ns[a] == os[a] && ns[b] == os[b]);
                } else if b == pos {
                    assert(ns[a] == os[a] && ns[b] == xv);
                } else if a == pos {
                    assert(ns[a] == xv && ns[b] == os[a]);
                    lemma_shown_before_asym(xv, os[a]);
                } else {
                    assert(ns[a] == os[a - 1] && ns[b] == os[a]);
                }
            }
        }
        i = i + 1;
    }
    assert(input.subrange(0, input.len() as int) =~= input);
    out
}


/// The normalised form of a search query: trimmed and lower-cased.
pub open spec fn spec_normalized_query(query: Seq<char>) -> Seq<char> {
    text::lower(text::trim(query))
}

/// The suggestions, before ordering, that `query` finds in the catalog.
pub open spec fn spec_candidates(catalog: Seq<command_store::CommandRecordView>, query: Seq<char>, target: Platform) -> Seq<SuggestionView> {
    let q = spec_normalized_query(query);
    add_records(catalog, text::split_ws(q), q, target)
}

fn suggestion_key(source_shell: &str, template: &str) -> (r: String)
    ensures
        r@ == source_shell@ + "::"@ + text::lower(template@),
{
    let lowered = lower_string(template);
    let mut r = String::new();
    push_str(&mut r, source_shell);
    push_str(&mut r, "::");
    push_str(&mut r, lowered.as_str());
    assert(r@ =~= source_shell@ + "::"@ + text::lower(template@));
    r
}

/// Adds the offered examples of one record to the suggestions found so far.
fn add_record_suggestions(
    record: &CommandRecord,
    query_tokens: &Vec<String>,
    normalized_query: &str,
    target_platform: Platform,
    out: &mut Vec<CatalogSuggestion>,
    seen: &mut Vec<String>,
)
    requires
        query_tokens@.len() <= 20_000_000,
        text::views(old(seen)@) == old(out)@.map_values(|c: CatalogSuggestion| dedupe_key(c@)),
    ensures
        final(out)@.map_values(|c: CatalogSuggestion| c@) == add_platforms(
            old(out)@.map_values(|c: CatalogSuggestion| c@),
            record@,
            record@.commands.len() as int,
            text::views(query_tokens@),
            normalized_query@,
            target_platform,
        ),
        text::views(final(seen)@) == final(out)@.map_values(|c: CatalogSuggestion| dedupe_key(c@)),
{
    let ghost ts = text::views(query_tokens@);
    let ghost table = record.table();
    let ghost d0 = out@.map_values(|c: CatalogSuggestion| c@);
    let targets = record.target_commands(target_platform.key());
    let preview = if targets.len() > 0 {
        assert(text::views(targets@)[0] == targets@[0]@);
        Some(targets[0].clone())
    } else {
        None
    };
    let mut i: usize = 0;
    while i < record.commands.len()
        invariant
            i <= record.commands@.len(),
            query_tokens@.len() <= 20_000_000,
            ts == text::views(query_tokens@),
            table == record.table(),
            table == record@.commands,
            match preview {
                Some(p) => spec_preview(record@, target_platform) == Some(p@),
                None => spec_preview(record@, target_platform) == None::<Seq<char>>,
            },
            out@.map_values(|c: CatalogSuggestion| c@) == add_platforms(d0, record@, i as int, ts, normalized_query@, target_platform),
            text::views(seen@) == out@.map_values(|c: CatalogSuggestion| dedupe_key(c@)),
        decreases record.commands.len() - i,
    {
        let platform = record.commands[i].0.as_str();
        let examples = &record.commands[i].1;
        let ghost exs = table[i as int].1;
        let ghost dp = out@.map_values(|c: CatalogSuggestion| c@);
        assert(exs == text::views(examples@));
        assert(table[i as int].0 == platform@);
        let mut j: usize = 0;
        while j < examples.len()
            invariant
                i < record.commands@.len(),
                j <= examples@.len(),
                platform@ == record.commands@[i as int].0@,
                query_tokens@.len() <= 20_000_000,
                ts == text::views(query_tokens@),
                exs == text::views(examples@),
                match preview {
                    Some(p) => spec_preview(record@, target_platform) == Some(p@),
                    None => spec_preview(record@, target_platform) == None::<Seq<char>>,
                },
                out@.map_values(|c: CatalogSuggestion| c@) == add_examples(dp, record@, platform@, exs.subrange(0, j as int), ts, normalized_query@, target_platform),
                text::views(seen@) == out@.map_values(|c: CatalogSuggestion| dedupe_key(c@)),
            decreases examples.len() - j,
        {
            proof {
                assert(exs.subrange(0, j + 1).drop_last() =~= exs.subrange(0, j as int));
                assert(exs.subrange(0, j + 1).last() == examples@[j as int]@);
            }
            let template = examples[j].as_str();
            let score = catalog_suggestion_score(
                template,
                record.intent.as_str(),
                record.description.as_str(),
                platform,
                target_platform,
                record.risk_level.as_str(),
                query_tokens,
                normalized_query,
            );
            let offered = score > 0 && !(str_eq(record.risk_level.as_str(), "high") && !is_strong_catalog_match(
                template,
                record.intent.as_str(),
                normalized_query,
            ));
            if offered {
                let key = suggestion_key(platform, template);
                let ghost before = out@.map_values(|c: CatalogSuggestion| c@);
                let present = text_contains(&seen, key.as_str());
                let ghost cand = spec_candidate(record@, platform@, template@, ts, normalized_query@, target_platform).unwrap();
                assert(dedupe_key(cand) == key@);
                if present {
                    proof {
                        let k = choose|k: int| 0 <= k < seen@.len() && #[trigger] text::views(seen@)[k] == key@;
                        assert(text::views(seen@).len() == seen@.len());
                        assert(out@.map_values(|c: CatalogSuggestion| dedupe_key(c@)).len() == out@.len());
                        assert(out@.map_values(|c: CatalogSuggestion| dedupe_key(c@))[k] == dedupe_key(out@[k]@));
                        assert(before[k] == out@[k]@);
                        assert(dedupe_key(before[k]) == dedupe_key(cand));
                    }
                } else {
                    let sugg = CatalogSuggestion {
                        command_template: examples[j].clone(),
                        intent_id: record.intent.clone(),
                        description: record.description.clone(),
                        source_shell: record.commands[i].0.clone(),
                        target_shell: target_platform.key().to_owned(),
                        risk: record.risk_level.clone(),
                        preview_translation: match &preview {
                            Some(p) => Some(p.clone()),
                            None => None,
                        },
                        score,
                    };
                    proof {
                        assert forall|k: int| 0 <= k < before.len() implies #[trigger] dedupe_key(before[k]) != dedupe_key(cand) by {
                            assert(text::views(seen@).len() == seen@.len());
                            assert(out@.map_values(|c: CatalogSuggestion| dedupe_key(c@)).len() == out@.len());
                            assert(out@.map_values(|c: CatalogSuggestion| dedupe_key(c@))[k] == dedupe_key(out@[k]@));
                            assert(before[k] == out@[k]@);
                            assert(text::views(seen@)[k] == dedupe_key(before[k]));
                        }
                        assert(spec_candidate(record@, platform@, template@, ts, normalized_query@, target_platform) is Some);
                        assert(sugg@.command_template == cand.command_template);
                        assert(sugg@.intent_id == cand.intent_id);
                        assert(sugg@.source_shell == cand.source_shell);
                        assert(sugg@.target_shell == cand.target_shell);
                        assert(sugg@.risk == cand.risk);
                        assert(sugg@.score == cand.score);
                        assert(sugg@.preview_translation == cand.preview_translation);
                        assert(sugg@ == cand);
                    }
                    let ghost seen_before = text::views(seen@);
                    let ghost keys_before = out@.map_values(|c: CatalogSuggestion| dedupe_key(c@));
                    out.push(sugg);
                    seen.push(key);
                    assert(out@.map_values(|c: CatalogSuggestion| c@) =~= before.push(cand));
                    assert(text::views(seen@) =~= seen_before.push(key@));
                    assert(out@.map_values(|c: CatalogSuggestion| dedupe_key(c@)) =~= keys_before.push(dedupe_key(cand)));
                    assert(text::views(seen@) =~= out@.map_values(|c: CatalogSuggestion| dedupe_key(c@)));
                }
            }
            j = j + 1;
        }
        proof {
            assert(exs.subrange(0, exs.len() as int) =~= exs);
        }
        i = i + 1;
    }
}

fn text_contains(v: &Vec<String>, s: &str) -> (r: bool)
    ensures
        r == exists|k: int| 0 <= k < v@.len() && #[trigger] text::views(v@)[k] == s@,
{
    let mut i: usize = 0;
    while i < v.len()
        invariant
            i <= v@.len(),
            forall|k: int| 0 <= k < i ==> #[trigger] text::views(v@)[k] != s@,
        decreases v.len() - i,
    {
        assert(text::views(v@)[i as int] == v@[i as int]@);
        if str_eq(v[i].as_str(), s) {
            return true;
        }
        i = i + 1;
    }
    false
}

/// The catalog examples that match `query`, best first, at most `limit` of
/// them. Examples of destructive records are never offered.
pub fn search_catalog_suggestions_internal(
    catalog: &[CommandRecord],
    query: &str,
    target_platform: Platform,
    limit: usize,
) -> (r: Vec<CatalogSuggestion>)
    requires
        text::split_ws(spec_normalized_query(query@)).len() <= 20_000_000,
    ensures
        spec_normalized_query(query@).len() == 0 ==> r@.len() == 0,
        r@.map_values(|c: CatalogSuggestion| c@) == spec_search(catalog@.map_values(|c: CommandRecord| c@), query@, target_platform, limit as int),
        spec_normalized_query(query@).len() > 0 ==> r@.map_values(|c: CatalogSuggestion| c@) == first_shown(
            sort_shown(spec_candidates(catalog@.map_values(|c: CommandRecord| c@), query@, target_platform)),
            limit as int,
        ),
        spec_normalized_query(query@).len() > 0 ==> suggestions_sorted(
            sort_shown(spec_candidates(catalog@.map_values(|c: CommandRecord| c@), query@, target_platform)),
        ) && sort_shown(spec_candidates(catalog@.map_values(|c: CommandRecord| c@), query@, target_platform)).to_multiset()
            == spec_candidates(catalog@.map_values(|c: CommandRecord| c@), query@, target_platform).to_multiset(),
{
    let trimmed = trim_str(query);
    let normalized_query = lower_string(trimmed.as_str());
    if normalized_query.unicode_len() == 0 {
        return Vec::new();
    }
    let query_tokens = split_whitespace(normalized_query.as_str());
    let ghost recs = catalog@.map_values(|c: CommandRecord| c@);
    let ghost ts = text::views(query_tokens@);
    let mut out: Vec<CatalogSuggestion> = Vec::new();
    let mut seen: Vec<String> = Vec::new();
    let mut k: usize = 0;
    assert(recs.subrange(0, 0) =~= Seq::<command_store::CommandRecordView>::empty());
    assert(out@.map_values(|c: CatalogSuggestion| c@) =~= Seq::<SuggestionView>::empty());
    assert(text::views(seen@) =~= out@.map_values(|c: CatalogSuggestion| dedupe_key(c@)));
    while k < catalog.len()
        invariant
            k <= catalog@.len(),
            recs == catalog@.map_values(|c: CommandRecord| c@),
            ts == text::views(query_tokens@),
            ts == text::split_ws(normalized_query@),
            normalized_query@ == spec_normalized_query(query@),
            query_tokens@.len() <= 20_000_000,
            out@.map_values(|c: CatalogSuggestion| c@) == add_records(recs.subrange(0, k as int), ts, normalized_query@, target_platform),
            text::views(seen@) == out@.map_values(|c: CatalogSuggestion| dedupe_key(c@)),
        decreases catalog.len() - k,
    {
        proof {
            assert(recs.subrange(0, k + 1).drop_last() =~= recs.subrange(0, k as int));
            assert(recs.subrange(0, k + 1).last() == catalog@[k as int]@);
        }
        let record = &catalog[k];
        if !str_eq(record.risk_level.as_str(), "destructive") {
            add_record_suggestions(record, &query_tokens, normalized_query.as_str(), target_platform, &mut out, &mut seen);
        }
        k = k + 1;
    }
    assert(recs.subrange(0, recs.len() as int) =~= recs);
    let mut sorted = sort_suggestions(out);
    let ghost all = sorted@.map_values(|c: CatalogSuggestion| c@);
    sorted.truncate(limit);
    assert(sorted@.map_values(|c: CatalogSuggestion| c@) =~= (if limit < all.len() {
        all.subrange(0, limit as int)
    } else {
        all
    }));
    assert(suggestions_sorted(all));
    sorted
}


/// A suggestion the search may offer for the normalized query `q`: never a
/// destructive one, always a positive score, and a high-risk one only on a
/// strong match.
pub open spec fn offerable(c: SuggestionView, q: Seq<char>) -> bool {
    &&& c.risk != "destructive"@
    &&& c.score > 0
    &&& c.risk == "high"@ ==> spec_strong_match(c.command_template, c.intent_id, q)
}

proof fn lemma_examples_offerable(
    d: Seq<SuggestionView>,
    rec: command_store::CommandRecordView,
    platform: Seq<char>,
    examples: Seq<Seq<char>>,
    tokens: Seq<Seq<char>>,
    q: Seq<char>,
    target: Platform,
)
    requires
        rec.risk_level != "destructive"@,
        forall|i: int| 0 <= i < d.len() ==> offerable(#[trigger] d[i], q),
    ensures
        forall|i: int|
            0 <= i < add_examples(d, rec, platform, examples, tokens, q, target).len() ==> offerable(
                #[trigger] add_examples(d, rec, platform, examples, tokens, q, target)[i],
                q,
            ),
    decreases examples.len(),
{
    if examples.len() > 0 {
        lemma_examples_offerable(d, rec, platform, examples.drop_last(), tokens, q, target);
        let d1 = add_examples(d, rec, platform, examples.drop_last(), tokens, q, target);
        match spec_candidate(rec, platform, examples.last(), tokens, q, target) {
            Some(c) => {
                let d2 = add_one(d1, c);
                assert forall|i: int| 0 <= i < d2.len() implies offerable(#[trigger] d2[i], q) by {
                    if i < d1.len() {
                        assert(d2[i] == d1[i]);
                    }
                }
            },
            None => {},
        }
    }
}

proof fn lemma_platforms_offerable(
    d: Seq<SuggestionView>,
    rec: command_store::CommandRecordView,
    n: int,
    tokens: Seq<Seq<char>>,
    q: Seq<char>,
    target: Platform,
)
    requires
        rec.risk_level != "destructive"@,
        forall|i: int| 0 <= i < d.len() ==> offerable(#[trigger] d[i], q),
    ensures
        forall|i: int|
            0 <= i < add_platforms(d, rec, n, tokens, q, target).len() ==> offerable(
                #[trigger] add_platforms(d, rec, n, tokens, q, target)[i],
                q,
            ),
    decreases n,
{
    if 0 < n <= rec.commands.len() {
        lemma_platforms_offerable(d, rec, n - 1, tokens, q, target);
        let d1 = add_platforms(d, rec, n - 1, tokens, q, target);
        lemma_examples_offerable(d1, rec, rec.commands[n - 1].0, rec.commands[n - 1].1, tokens, q, target);
    }
}

proof fn lemma_records_offerable(recs: Seq<command_store::CommandRecordView>, tokens: Seq<Seq<char>>, q: Seq<char>, target: Platform)
    ensures
        forall|i: int|
            0 <= i < add_records(recs, tokens, q, target).len() ==> offerable(#[trigger] add_records(recs, tokens, q, target)[i], q),
    decreases recs.len(),
{
    if recs.len() > 0 {
        lemma_records_offerable(recs.drop_last(), tokens, q, target);
        let d = add_records(recs.drop_last(), tokens, q, target);
        let rec = recs.last();
        if rec.risk_level != "destructive"@ {
            lemma_platforms_offerable(d, rec, rec.commands.len() as int, tokens, q, target);
        }
    }
}

/// Law: whatever order the search shows its suggestions in, none is
/// destructive, each has a positive score, and a high-risk one is offered
/// only when the query strongly matches it.
pub proof fn law_search_offers_no_destructive(
    catalog: Seq<command_store::CommandRecordView>,
    query: Seq<char>,
    target: Platform,
    shown: Seq<SuggestionView>,
)
    requires
        shown.to_multiset() == spec_candidates(catalog, query, target).to_multiset(),
    ensures
        forall|i: int| 0 <= i < shown.len() ==> offerable(#[trigger] shown[i], spec_normalized_query(query)),
{
    let q = spec_normalized_query(query);
    let cands = spec_candidates(catalog, query, target);
    lemma_records_offerable(catalog, text::split_ws(q), q, target);
    assert forall|i: int| 0 <= i < shown.len() implies offerable(#[trigger] shown[i], q) by {
        vstd::seq_lib::to_multiset_contains(shown, shown[i]);
        vstd::seq_lib::to_multiset_contains(cands, shown[i]);
        assert(shown.contains(shown[i]));
        let j = choose|j: int| 0 <= j < cands.len() && cands[j] == shown[i];
        assert(offerable(cands[j], q));
    }
}

/// Placing `x` into suggestions in showing order keeps them in showing
/// order, and places it at one position among them.
proof fn lemma_insert_shown_sorted(t: Seq<SuggestionView>, x: SuggestionView) -> (p: int)
    requires
        suggestions_sorted(t),
    ensures
        0 <= p <= t.len(),
        insert_shown(t, x) == t.insert(p, x),
        suggestions_sorted(insert_shown(t, x)),
        insert_shown(t, x)[0] == (if t.len() == 0 || shown_before(x, t[0]) { x } else { t[0] }),
    decreases t.len(),
{
    if t.len() == 0 {
        assert(t.insert(0, x) =~= seq![x]);
        0
    } else if shown_before(x, t[0]) {
        let ns = seq![x] + t;
        assert(ns =~= t.insert(0, x));
        assert forall|a: int, b: int| 0 <= a && a + 1 == b && b < ns.len() implies !shown_before(#[trigger] ns[b], #[trigger] ns[a]) by {
            if a == 0 {
                lemma_shown_before_asym(x, t[0]);
            } else {
                assert(ns[a] == t[a - 1] && ns[b] == t[b - 1]);
            }
        }
        0
    } else {
        let t2 = t.drop_first();
        assert(suggestions_sorted(t2)) by {
            assert forall|a: int, b: int| 0 <= a && a + 1 == b && b < t2.len() implies !shown_before(#[trigger] t2[b], #[trigger] t2[a]) by {
                assert(t2[a] == t[a + 1] && t2[b] == t[b + 1]);
            }
        }
        let p2 = lemma_insert_shown_sorted(t2, x);
        let rest = insert_shown(t2, x);
        let ns = seq![t[0]] + rest;
        assert(ns =~= t.insert(p2 + 1, x));
        assert forall|a: int, b: int| 0 <= a && a + 1 == b && b < ns.len() implies !shown_before(#[trigger] ns[b], #[trigger] ns[a]) by {
            if a == 0 {
                if t2.len() > 0 && !shown_before(x, t2[0]) {
                    assert(t2[0] == t[1]);
                }
            } else {
                assert(ns[a] == rest[a - 1] && ns[b] == rest[b - 1]);
            }
        }
        p2 + 1
    }
}

/// Ordering suggestions for showing keeps every one of them and puts them
/// in showing order.
proof fn lemma_sort_shown(s: Seq<SuggestionView>)
    ensures
        suggestions_sorted(sort_shown(s)),
        sort_shown(s).to_multiset() == s.to_multiset(),
        sort_shown(s).len() == s.len(),
    decreases s.len(),
{
    broadcast use vstd::seq_lib::group_to_multiset_ensures;
    if s.len() > 0 {
        let init = s.drop_last();
        lemma_sort_shown(init);
        let t = sort_shown(init);
        let p = lemma_insert_shown_sorted(t, s.last());
        vstd::seq_lib::to_multiset_insert(t, p, s.last());
        assert(s =~= init.push(s.last()));
        vstd::seq_lib::to_multiset_build(init, s.last());
    } else {
        assert(s.to_multiset() =~= sort_shown(s).to_multiset());
    }
}

/// No two suggestions share a source shell and a template (letter case
/// aside), and every one is for the target's shell.
pub open spec fn kept_apart(d: Seq<SuggestionView>, target: Platform) -> bool {
    &&& forall|i: int, j: int| 0 <= i < j < d.len() ==> dedupe_key(#[trigger] d[i]) != dedupe_key(#[trigger] d[j])
    &&& forall|i: int| 0 <= i < d.len() ==> (#[trigger] d[i]).target_shell == target.spec_key()
}

proof fn lemma_examples_kept(
    d: Seq<SuggestionView>,
    rec: command_store::CommandRecordView,
    platform: Seq<char>,
    examples: Seq<Seq<char>>,
    tokens: Seq<Seq<char>>,
    q: Seq<char>,
    target: Platform,
)
    requires
        kept_apart(d, target),
    ensures
        kept_apart(add_examples(d, rec, platform, examples, tokens, q, target), target),
    decreases examples.len(),
{
    if examples.len() > 0 {
        lemma_examples_kept(d, rec, platform, examples.drop_last(), tokens, q, target);
        let d1 = add_examples(d, rec, platform, examples.drop_last(), tokens, q, target);
        match spec_candidate(rec, platform, examples.last(), tokens, q, target) {
            Some(c) => {
                if !(exists|j: int| 0 <= j < d1.len() && #[trigger] dedupe_key(d1[j]) == dedupe_key(c)) {
                    let d2 = d1.push(c);
                    assert forall|i: int, j: int| 0 <= i < j < d2.len() implies dedupe_key(#[trigger] d2[i]) != dedupe_key(
                        #[trigger] d2[j],
                    ) by {
                        assert(d2[i] == d1[i]);
                        if j < d1.len() {
                            assert(d2[j] == d1[j]);
                        }
                    }
                    assert forall|i: int| 0 <= i < d2.len() implies (#[trigger] d2[i]).target_shell == target.spec_key() by {
                        if i < d1.len() {
                            assert(d2[i] == d1[i]);
                        }
                    }
                }
            },
            None => {},
        }
    }
}

proof fn lemma_platforms_kept(
    d: Seq<SuggestionView>,
    rec: command_store::CommandRecordView,
    n: int,
    tokens: Seq<Seq<char>>,
    q: Seq<char>,
    target: Platform,
)
    requires
        kept_apart(d, target),
    ensures
        kept_apart(add_platforms(d, rec, n, tokens, q, target), target),
    decreases n,
{
    if 0 < n <= rec.commands.len() {
        lemma_platforms_kept(d, rec, n - 1, tokens, q, target);
        let d1 = add_platforms(d, rec, n - 1, tokens, q, target);
        lemma_examples_kept(d1, rec, rec.commands[n - 1].0, rec.commands[n - 1].1, tokens, q, target);
    }
}

proof fn lemma_records_kept(recs: Seq<command_store::CommandRecordView>, tokens: Seq<Seq<char>>, q: Seq<char>, target: Platform)
    ensures
        kept_apart(add_records(recs, tokens, q, target), target),
    decreases recs.len(),
{
    if recs.len() > 0 {
        lemma_records_kept(recs.drop_last(), tokens, q, target);
        let d = add_records(recs.drop_last(), tokens, q, target);
        let rec = recs.last();
        if rec.risk_level != "destructive"@ {
            lemma_platforms_kept(d, rec, rec.commands.len() as int, tokens, q, target);
        }
    }
}

/// Ordering for showing only moves suggestions around: it keeps them apart
/// as they were.
proof fn lemma_sort_shown_kept(s: Seq<SuggestionView>, target: Platform)
    requires
        kept_apart(s, target),
    ensures
        kept_apart(sort_shown(s), target),
        forall|i: int| 0 <= i < sort_shown(s).len() ==> s.contains(#[trigger] sort_shown(s)[i]),
    decreases s.len(),
{
    lemma_sort_shown(s);
    if s.len() > 0 {
        let init = s.drop_last();
        let x = s.last();
        assert(kept_apart(init, target)) by {
            assert forall|i: int, j: int| 0 <= i < j < init.len() implies dedupe_key(#[trigger] init[i]) != dedupe_key(
                #[trigger] init[j],
            ) by {
                assert(init[i] == s[i] && init[j] == s[j]);
            }
            assert forall|i: int| 0 <= i < init.len() implies (#[trigger] init[i]).target_shell == target.spec_key() by {
                assert(init[i] == s[i]);
            }
        }
        lemma_sort_shown_kept(init, target);
        lemma_sort_shown(init);
        let t = sort_shown(init);
        let p = lemma_insert_shown_sorted(t, x);
        let ns = sort_shown(s);
        assert(ns == t.insert(p, x));
        assert(s[s.len() - 1] == x);
        assert forall|i: int| 0 <= i < t.len() implies dedupe_key(#[trigger] t[i]) != dedupe_key(x) by {
            let j = choose|j: int| 0 <= j < init.len() && init[j] == t[i];
            assert(init[j] == s[j]);
        }
        assert forall|i: int| 0 <= i < ns.len() implies s.contains(#[trigger] ns[i]) by {
            if i < p {
                assert(ns[i] == t[i]);
                let j = choose|j: int| 0 <= j < init.len() && init[j] == t[i];
                assert(s[j] == init[j]);
            } else if i == p {
                assert(ns[i] == x);
            } else {
                assert(ns[i] == t[i - 1]);
                let j = choose|j: int| 0 <= j < init.len() && init[j] == t[i - 1];
                assert(s[j] == init[j]);
            }
        }
        assert forall|i: int, j: int| 0 <= i < j < ns.len() implies dedupe_key(#[trigger] ns[i]) != dedupe_key(#[trigger] ns[j]) by {
            if j < p {
                assert(ns[i] == t[i] && ns[j] == t[j]);
            } else if j == p {
                assert(ns[i] == t[i] && ns[j] == x);
            } else if i < p {
                assert(ns[i] == t[i] && ns[j] == t[j - 1]);
            } else if i == p {
                assert(ns[i] == x && ns[j] == t[j - 1]);
            } else {
                assert(ns[i] == t[i - 1] && ns[j] == t[j - 1]);
            }
        }
        assert forall|i: int| 0 <= i < ns.len() implies (#[trigger] ns[i]).target_shell == target.spec_key() by {
            assert(s.contains(ns[i]));
            let j = choose|j: int| 0 <= j < s.len() && s[j] == ns[i];
        }
    }
}

/// What the catalog search shows: nothing for a blank query, else the
/// first `limit` candidates in showing order.
pub open spec fn spec_search(catalog: Seq<command_store::CommandRecordView>, query: Seq<char>, target: Platform, limit: int) -> Seq<SuggestionView> {
    if spec_normalized_query(query).len() == 0 {
        Seq::empty()
    } else {
        first_shown(sort_shown(spec_candidates(catalog, query, target)), limit)
    }
}

/// Law: a blank query finds nothing; otherwise the search shows at most
/// `limit` suggestions, exactly the first `limit` candidates (all of them
/// when there are fewer) in showing order: higher score first, then lower
/// risk, then shorter template, then template order. Every one shown has a
/// positive score, is not destructive, is high-risk only on a strong match,
/// and is for the target's shell; no two share a source shell and a
/// template, letter case aside.
pub proof fn law_search_results(catalog: Seq<command_store::CommandRecordView>, query: Seq<char>, target: Platform, limit: nat)
    ensures
        spec_normalized_query(query).len() == 0 ==> spec_search(catalog, query, target, limit as int).len() == 0,
        spec_search(catalog, query, target, limit as int).len() <= limit,
        spec_normalized_query(query).len() > 0 ==> spec_search(catalog, query, target, limit as int).len() == (if limit
            < spec_candidates(catalog, query, target).len() {
            limit as int
        } else {
            spec_candidates(catalog, query, target).len() as int
        }),
        spec_normalized_query(query).len() > 0 ==> spec_search(catalog, query, target, limit as int) == sort_shown(
            spec_candidates(catalog, query, target),
        ).subrange(0, spec_search(catalog, query, target, limit as int).len() as int),
        suggestions_sorted(spec_search(catalog, query, target, limit as int)),
        forall|i: int|
            0 <= i < spec_search(catalog, query, target, limit as int).len() ==> offerable(
                #[trigger] spec_search(catalog, query, target, limit as int)[i],
                spec_normalized_query(query),
            ),
        kept_apart(spec_search(catalog, query, target, limit as int), target),
{
    let cands = spec_candidates(catalog, query, target);
    let sorted = sort_shown(cands);
    let res = spec_search(catalog, query, target, limit as int);
    lemma_sort_shown(cands);
    law_search_offers_no_destructive(catalog, query, target, sorted);
    lemma_records_kept(catalog, text::split_ws(spec_normalized_query(query)), spec_normalized_query(query), target);
    lemma_sort_shown_kept(cands, target);
    if spec_normalized_query(query).len() > 0 {
        assert forall|i: int, j: int| 0 <= i < j < res.len() implies dedupe_key(#[trigger] res[i]) != dedupe_key(#[trigger] res[j]) by {
            assert(res[i] == sorted[i] && res[j] == sorted[j]);
        }
        assert forall|i: int| 0 <= i < res.len() implies (#[trigger] res[i]).target_shell == target.spec_key() by {
            assert(res[i] == sorted[i]);
        }
        assert(res =~= sorted.subrange(0, res.len() as int));
        assert forall|a: int, b: int| 0 <= a && a + 1 == b && b < res.len() implies !shown_before(#[trigger] res[b], #[trigger] res[a]) by {
            assert(res[a] == sorted[a] && res[b] == sorted[b]);
        }
        assert forall|i: int| 0 <= i < res.len() implies offerable(#[trigger] res[i], spec_normalized_query(query)) by {
            assert(res[i] == sorted[i]);
        }
    }
}

/// The catalog search the desktop runs while the user types: for the
/// target shell when it names a platform (else the current one), at most
/// `limit` suggestions, 5 by default, kept between 1 and 10.
pub fn search_catalog_suggestions(
    catalog: &[CommandRecord],
    current_platform: Platform,
    query: &str,
    target_shell: Option<&str>,
    limit: Option<usize>,
) -> (r: Vec<CatalogSuggestion>)
    requires
        text::split_ws(spec_normalized_query(query@)).len() <= 20_000_000,
    ensures
        ({
            let target = match target_shell {
                Some(t) => match platform::spec_target_platform(t@) {
                    Some(p) => p,
                    None => current_platform,
                },
                None => current_platform,
            };
            let n: int = match limit {
                Some(l) => if l < 1 {
                    1
                } else if l > 10 {
                    10
                } else {
                    l as int
                },
                None => 5,
            };
            spec_normalized_query(query@).len() > 0 ==> r@.map_values(|c: CatalogSuggestion| c@) == first_shown(
                sort_shown(spec_candidates(catalog@.map_values(|c: CommandRecord| c@), query@, target)),
                n,
            )
        }),
        spec_normalized_query(query@).len() == 0 ==> r@.len() == 0,
{
    let target = match target_shell {
        Some(t) => match normalize_target_platform(t) {
            Some(p) => p,
            None => current_platform,
        },
        None => current_platform,
    };
    let requested = match limit {
        Some(l) => l,
        None => 5,
    };
    let n = if requested < 1 {
        1
    } else if requested > 10 {
        10
    } else {
        requested
    };
    search_catalog_suggestions_internal(catalog, query, target, n)
}

/// The target of a `cd` line: empty for a bare `cd`, the rest of the line
/// (trimmed) when `cd` is followed by whitespace, ignoring the case of `cd`.
pub open spec fn spec_parse_cd(input: Seq<char>) -> Option<Seq<char>> {
    if text::eq_ignore_case(input, "cd"@) {
        Some(Seq::empty())
    } else if input.len() >= 2 && text::eq_ignore_case(input.subrange(0, 2), "cd"@) && input.len() > 2 && text::is_ws(input[2]) {
        Some(text::trim(input.subrange(2, input.len() as int)))
    } else {
        None
    }
}

/// The target of a `cd` line, when the line is one.
pub fn parse_cd_command(input: &str) -> (r: Option<&str>)
    ensures
        match r {
            Some(t) => spec_parse_cd(input@) == Some(t@),
            None => spec_parse_cd(input@) == None::<Seq<char>>,
        },
{
    if eq_ignore_ascii_case(input, "cd") {
        let e = input.substring_char(0, 0);
        assert(e@ =~= Seq::<char>::empty());
        return Some(e);
    }
    let cs = chars_of(input);
    let n = cs.len();
    if n < 2 {
        return None;
    }
    let head = input.substring_char(0, 2);
    if !eq_ignore_ascii_case(head, "cd") {
        return None;
    }
    if n == 2 || !text::is_whitespace(cs[2]) {
        return None;
    }
    let rest = vstd::slice::slice_subrange(cs.as_slice(), 2, n);
    let (a, b) = text::trim_bounds(rest);
    assert(rest@ =~= input@.subrange(2, n as int));
    assert(input@.subrange(2 + a, 2 + b) =~= rest@.subrange(a as int, b as int));
    Some(input.substring_char(2 + a, 2 + b))
}

/// `input` without one pair of matching quotes around it.
pub open spec fn spec_strip_wrapping_quotes(input: Seq<char>) -> Seq<char> {
    if input.len() >= 2 && ((input[0] == '"' && input.last() == '"') || (input[0] == '\'' && input.last() == '\'')) {
        input.subrange(1, input.len() - 1)
    } else {
        input
    }
}

/// Removes one pair of matching double or single quotes around `input`.
pub fn strip_wrapping_quotes(input: &str) -> (r: &str)
    ensures
        r@ == spec_strip_wrapping_quotes(input@),
{
    let n = input.unicode_len();
    if n >= 2 {
        let first = input.get_char(0);
        let last = input.get_char(n - 1);
        if (first == '"' && last == '"') || (first == '\'' && last == '\'') {
            return input.substring_char(1, n - 1);
        }
    }
    input
}

/// The native command that prints the working directory.
pub fn native_pwd_command(platform: Platform) -> (r: &'static str)
    ensures
        r@ == (match platform {
            Platform::Windows => "Get-Location"@,
            _ => "pwd"@,
        }),
{
    match platform {
        Platform::Windows => "Get-Location",
        Platform::Macos | Platform::Ubuntu => "pwd",
    }
}

/// Whether a matched intent clears the screen.
pub fn is_clear_screen_intent(intent: Option<&str>) -> (r: bool)
    ensures
        r == (match intent {
            Some(i) => i@ == "clear_screen"@,
            None => false,
        }),
{
    match intent {
        Some(i) => str_eq(i, "clear_screen"),
        None => false,
    }
}


/// The question asked before a medium- or high-risk command runs.
pub const CONFIRMATION_PROMPT: &'static str = "Execute this command? [y/N]";

/// The source shown for commands the terminal handles itself.
pub const BUILTIN_SOURCE: &'static str = "CLI4ALL Built-in";

/// A translated command waiting for the user's answer.
#[derive(Debug, Clone)]
pub struct PendingConfirmation {
    pub translated_command: String,
    pub clear_display: bool,
}

/// The state of the desktop terminal between lines.
#[derive(Debug, Clone)]
pub struct TranslateSession {
    pub initial_cwd: String,
    pub cwd: String,
    pub pending_confirmation: Option<PendingConfirmation>,
    pub running_command: Option<u64>,
}

/// What the terminal shows for a submitted line.
#[derive(Debug, Clone)]
pub struct TerminalLineResponse {
    pub original_command: String,
    pub detected_source: String,
    pub current_os: String,
    pub matched_intent: Option<String>,
    pub translated_command: Option<String>,
    pub risk_level: String,
    pub action: ShellAction,
    pub risk_reason: Option<String>,
    pub message: Option<String>,
    pub confirmation_prompt: Option<String>,
    pub stdout: String,
    pub stderr: String,
    pub exit_status: Option<i32>,
    pub current_dir: String,
    pub clear_display: bool,
    pub stream_command_id: Option<u64>,
}

/// What the terminal does next with a submitted line.
#[derive(Debug, Clone)]
pub enum TerminalStep {
    /// Show the response; nothing runs.
    Respond(TerminalLineResponse),
    /// A `cd`: resolve this target against the working directory, then
    /// call `complete_cd`.
    ResolveDirectory(String),
    /// Show the response and run this translated native command.
    Run(TerminalLineResponse, String),
}

/// The native command that prints the working directory.
pub open spec fn spec_native_pwd(platform: Platform) -> Seq<char> {
    match platform {
        Platform::Windows => "Get-Location"@,
        _ => "pwd"@,
    }
}

/// The response to the built-in `pwd` typed as `input` in `cwd`.
pub open spec fn pwd_shows(resp: TerminalLineResponse, input: Seq<char>, platform: Platform, cwd: Seq<char>) -> bool {
    &&& resp.original_command@ == text::trim(input)
    &&& resp.detected_source@ == BUILTIN_SOURCE@
    &&& resp.current_os@ == platform.spec_display_name()
    &&& translator::opt_view(resp.matched_intent) == Some("print_working_directory"@)
    &&& translator::opt_view(resp.translated_command) == Some(spec_native_pwd(platform))
    &&& resp.risk_level@ == "low"@
    &&& resp.action == ShellAction::Execute
    &&& resp.risk_reason is None && resp.message is None && resp.confirmation_prompt is None
    &&& resp.stdout@ == cwd + "\n"@
    &&& resp.stderr@.len() == 0
    &&& resp.exit_status == Some(0i32)
    &&& resp.current_dir@ == cwd
    &&& !resp.clear_display && resp.stream_command_id is None
}

fn builtin_response(trimmed: &str, platform: Platform, intent: &str, translated: String, current_dir: String) -> (r: TerminalLineResponse)
    ensures
        r.original_command@ == trimmed@,
        r.detected_source@ == BUILTIN_SOURCE@,
        r.current_os@ == platform.spec_display_name(),
        translator::opt_view(r.matched_intent) == Some(intent@),
        translator::opt_view(r.translated_command) == Some(translated@),
        r.risk_level@ == "low"@,
        r.action == ShellAction::Execute,
        r.risk_reason is None && r.message is None && r.confirmation_prompt is None,
        r.stdout@.len() == 0 && r.stderr@.len() == 0,
        r.exit_status == Some(0i32),
        r.current_dir@ == current_dir@,
        !r.clear_display && r.stream_command_id is None,
{
    TerminalLineResponse {
        original_command: trimmed.to_owned(),
        detected_source: BUILTIN_SOURCE.to_owned(),
        current_os: platform.display_name().to_owned(),
        matched_intent: Some(intent.to_owned()),
        translated_command: Some(translated),
        risk_level: "low".to_owned(),
        action: ShellAction::Execute,
        risk_reason: None,
        message: None,
        confirmation_prompt: None,
        stdout: String::new(),
        stderr: String::new(),
        exit_status: Some(0),
        current_dir,
        clear_display: false,
        stream_command_id: None,
    }
}

/// The translated form shown for a `cd` to `target`.
pub open spec fn spec_cd_command(target: Seq<char>) -> Seq<char> {
    if target.len() == 0 {
        "cd"@
    } else {
        "cd "@ + target
    }
}

fn cd_command(target: &str) -> (r: String)
    ensures
        r@ == spec_cd_command(target@),
{
    if target.unicode_len() == 0 {
        "cd".to_owned()
    } else {
        let mut r = "cd ".to_owned();
        push_str(&mut r, target);
        r
    }
}

/// The terminal's own handling of `pwd` and `cd`: a response for `pwd`, a
/// directory to resolve for `cd`, nothing for other lines.
pub fn handle_translate_builtin(input: &str, current_platform: Platform, session: &TranslateSession) -> (r: Option<TerminalStep>)
    ensures
        text::eq_ignore_case(text::trim(input@), "pwd"@) ==> (r matches Some(TerminalStep::Respond(resp)) && pwd_shows(
            resp,
            input@,
            current_platform,
            session.cwd@,
        )),
        !text::eq_ignore_case(text::trim(input@), "pwd"@) ==> match spec_parse_cd(text::trim(input@)) {
            Some(t) => r matches Some(TerminalStep::ResolveDirectory(x)) && x@ == t,
            None => r is None,
        },
{
    let trimmed = trim_str(input);
    if eq_ignore_ascii_case(trimmed.as_str(), "pwd") {
        let mut out = session.cwd.clone();
        push_str(&mut out, "\n");
        let mut resp = builtin_response(
            trimmed.as_str(),
            current_platform,
            "print_working_directory",
            native_pwd_command(current_platform).to_owned(),
            session.cwd.clone(),
        );
        resp.stdout = out;
        return Some(TerminalStep::Respond(resp));
    }
    match parse_cd_command(trimmed.as_str()) {
        Some(target) => Some(TerminalStep::ResolveDirectory(target.to_owned())),
        None => None,
    }
}

/// Finishes a `cd` once the embedding program resolved its target: the
/// working directory moves to the resolved directory, or the error is shown
/// and it stays.
pub fn complete_cd(input: &str, current_platform: Platform, session: &mut TranslateSession, resolved: Result<String, String>) -> (r: TerminalLineResponse)
    ensures
        final(session).initial_cwd == old(session).initial_cwd,
        final(session).pending_confirmation == old(session).pending_confirmation,
        final(session).running_command == old(session).running_command,
        translator::opt_view(r.matched_intent) == Some("change_directory"@),
        r.action == ShellAction::Execute,
        match spec_parse_cd(text::trim(input@)) {
            Some(t) => translator::opt_view(r.translated_command) == Some(spec_cd_command(t)),
            None => translator::opt_view(r.translated_command) == Some("cd"@),
        },
        match resolved {
            Ok(dir) => final(session).cwd@ == dir@ && r.current_dir@ == dir@ && r.exit_status == Some(0i32)
                && r.stderr@.len() == 0,
            Err(e) => final(session).cwd == old(session).cwd && r.current_dir@ == old(session).cwd@
                && r.exit_status == Some(1i32) && r.stderr@ == e@ + "\n"@,
        },
{
    let trimmed = trim_str(input);
    let translated = match parse_cd_command(trimmed.as_str()) {
        Some(target) => cd_command(target),
        None => "cd".to_owned(),
    };
    match resolved {
        Ok(dir) => {
            session.cwd = dir.clone();
            builtin_response(trimmed.as_str(), current_platform, "change_directory", translated, dir)
        },
        Err(e) => {
            let mut resp = builtin_response(
                trimmed.as_str(),
                current_platform,
                "change_directory",
                translated,
                session.cwd.clone(),
            );
            let mut err = e;
            push_str(&mut err, "\n");
            resp.stderr = err;
            resp.exit_status = Some(1);
            resp
        },
    }
}

/// Why the terminal refused a line or an answer.
#[derive(Debug, Clone)]
pub enum TerminalError {
    /// A line was submitted while a confirmation is pending.
    ConfirmationPending,
    /// A line was submitted while a translated command runs.
    CommandRunning,
    /// An answer was given with no confirmation pending.
    NoConfirmationPending,
    /// The shell could not decide.
    Shell(shell::ShellError),
}

/// Handles a submitted line: the built-in `pwd` and `cd`, then the shell's
/// decision. Only the translated native command of an `Execute` decision is
/// handed back to run; a `Confirm` decision is held until it is answered.
pub fn submit_terminal_line<S: CommandStore>(
    input: &str,
    current_platform: Platform,
    session: &mut TranslateSession,
    store: &S,
    risk_catalog: &RiskCatalog,
) -> (r: Result<TerminalStep, TerminalError>)
    ensures
        old(session).pending_confirmation is Some ==> (r matches Err(TerminalError::ConfirmationPending) && *final(session)
            == *old(session)),
        old(session).pending_confirmation is None && old(session).running_command is Some ==> (r matches Err(
            TerminalError::CommandRunning,
        ) && *final(session) == *old(session)),
        final(session).cwd == old(session).cwd,
        final(session).initial_cwd == old(session).initial_cwd,
        final(session).running_command == old(session).running_command,
        r matches Ok(TerminalStep::Run(resp, command)) ==> resp.action == ShellAction::Execute && translator::opt_view(
            resp.translated_command,
        ) == Some(command@),
        r matches Ok(TerminalStep::Respond(resp)) ==> (resp.action == ShellAction::Confirm && resp.translated_command is Some
            ==> (final(session).pending_confirmation matches Some(p) && translator::opt_view(resp.translated_command) == Some(
            p.translated_command@,
        ))),
        !(r matches Ok(TerminalStep::Respond(resp)) && resp.action == ShellAction::Confirm) ==> final(session).pending_confirmation
            == old(session).pending_confirmation,
        old(session).pending_confirmation is None && old(session).running_command is None ==> match spec_decide_line(
            input@,
            current_platform,
            store.command_lookup(text::trim(input@)),
            risk_catalog.rules(),
        ) {
            Some(v) => r matches Ok(step) && step_shows(step, v) && step_runs(step, v),
            None => true,
        },
        old(session).pending_confirmation is None && old(session).running_command is None && text::eq_ignore_case(
            text::trim(input@),
            "pwd"@,
        ) ==> (r matches Ok(TerminalStep::Respond(resp)) && pwd_shows(resp, input@, current_platform, old(session).cwd@)),
        old(session).pending_confirmation is None && old(session).running_command is None && !text::eq_ignore_case(
            text::trim(input@),
            "pwd"@,
        ) ==> match spec_parse_cd(text::trim(input@)) {
            Some(t) => r matches Ok(TerminalStep::ResolveDirectory(x)) && x@ == t,
            None => (store.command_lookup(text::trim(input@)) matches Err(e) ==> (r matches Err(
                TerminalError::Shell(shell::ShellError::Store(x)),
            ) && x == e)),
        },
{
    if session.pending_confirmation.is_some() {
        return Err(TerminalError::ConfirmationPending);
    }
    if session.running_command.is_some() {
        return Err(TerminalError::CommandRunning);
    }
    match handle_translate_builtin(input, current_platform, session) {
        Some(step) => return Ok(step),
        None => {},
    }
    proof {
        platform::lemma_key_names_platform(current_platform);
    }
    let decision = match decide_shell_command(input, current_platform.key(), store, risk_catalog) {
        Ok(d) => d,
        Err(e) => return Err(TerminalError::Shell(e)),
    };
    let clear = is_clear_screen_intent(match &decision.intent {
        Some(i) => Some(i.as_str()),
        None => None,
    });
    let mut response = TerminalLineResponse {
        original_command: decision.original_command.clone(),
        detected_source: display_platform_name(decision.detected_source.as_str()).to_owned(),
        current_os: current_platform.display_name().to_owned(),
        matched_intent: decision.intent.clone(),
        translated_command: decision.translated_command.clone(),
        risk_level: decision.risk_level.clone(),
        action: decision.action,
        risk_reason: decision.risk_reason.clone(),
        message: submit_message(decision.action),
        confirmation_prompt: if decision.action == ShellAction::Confirm {
            Some(CONFIRMATION_PROMPT.to_owned())
        } else {
            None
        },
        stdout: String::new(),
        stderr: String::new(),
        exit_status: None,
        current_dir: session.cwd.clone(),
        clear_display: false,
        stream_command_id: None,
    };
    match decision.action {
        ShellAction::Execute => {
            let translated = match &decision.translated_command {
                Some(c) => c.clone(),
                None => {
                    return Ok(TerminalStep::Respond(response));
                },
            };
            if clear {
                response.clear_display = true;
                response.exit_status = Some(0);
                Ok(TerminalStep::Respond(response))
            } else {
                Ok(TerminalStep::Run(response, translated))
            }
        },
        ShellAction::Confirm => {
            match &decision.translated_command {
                Some(c) => {
                    session.pending_confirmation = Some(PendingConfirmation { translated_command: c.clone(), clear_display: clear });
                },
                None => {},
            }
            Ok(TerminalStep::Respond(response))
        },
        _ => Ok(TerminalStep::Respond(response)),
    }
}

/// The shell decision behind a line that is no built-in.
pub open spec fn spec_decide_line(
    input: Seq<char>,
    p: Platform,
    lookup: Result<Option<command_store::CommandRecordView>, StoreError>,
    rules: Seq<crate::rules::RiskRule>,
) -> Option<shell::DecisionView> {
    let t = text::trim(input);
    if text::eq_ignore_case(t, "pwd"@) || spec_parse_cd(t) is Some {
        None
    } else {
        match shell::spec_decide(input, p.spec_key(), lookup, rules) {
            Some(Ok(v)) => Some(v),
            _ => None,
        }
    }
}

/// A step shows a decision: its fields, and a run only for `Execute`.
pub open spec fn step_shows(step: TerminalStep, v: shell::DecisionView) -> bool {
    let resp = match step {
        TerminalStep::Respond(x) => Some(x),
        TerminalStep::Run(x, _) => Some(x),
        TerminalStep::ResolveDirectory(_) => None,
    };
    match resp {
        None => false,
        Some(x) => {
            &&& x.action == v.action
            &&& x.original_command@ == v.original_command
            &&& translator::opt_view(x.matched_intent) == v.intent
            &&& translator::opt_view(x.translated_command) == v.translated_command
            &&& x.risk_level@ == v.risk_level
            &&& translator::opt_view(x.message) == shell::spec_submit_message(v.action)
            &&& (step is Run ==> v.action == ShellAction::Execute)
            &&& (v.action == ShellAction::Block || v.action == ShellAction::UnknownNoExecute ==> step is Respond)
            &&& x.detected_source@ == translator::spec_display_platform_name(v.detected_source)
            &&& translator::opt_view(x.risk_reason) == v.risk_reason
            &&& translator::opt_view(x.confirmation_prompt) == (if v.action == ShellAction::Confirm {
                Some(CONFIRMATION_PROMPT@)
            } else {
                None
            })
            &&& (v.action != ShellAction::Execute ==> x.stdout@.len() == 0 && x.stderr@.len() == 0 && x.exit_status is None
                && !x.clear_display)
        },
    }
}

/// What a step does with a decision to run: a clear-screen request clears
/// the display and succeeds; any other translated command is handed back to
/// run.
pub open spec fn step_runs(step: TerminalStep, v: shell::DecisionView) -> bool {
    v.action == ShellAction::Execute && v.translated_command is Some ==> if v.intent == Some("clear_screen"@) {
        step matches TerminalStep::Respond(resp) && resp.clear_display && resp.exit_status == Some(0i32)
    } else {
        step matches TerminalStep::Run(_, c) && Some(c@) == v.translated_command
    }
}

/// How a pending confirmation was answered.
#[derive(Debug, Clone, Copy, PartialEq, Eq, Structural)]
pub enum ConfirmationResolutionAction {
    Execute,
    Cancelled,
}

/// What the terminal shows after an answer.
#[derive(Debug, Clone)]
pub struct ConfirmationResolutionResponse {
    pub action: ConfirmationResolutionAction,
    pub translated_command: Option<String>,
    pub message: String,
    pub stdout: String,
    pub stderr: String,
    pub exit_status: Option<i32>,
    pub current_dir: String,
    pub clear_display: bool,
    pub stream_command_id: Option<u64>,
}

/// Answers the pending confirmation: a yes runs the held command (or clears
/// the screen), a no cancels it; either way nothing stays pending.
pub fn resolve_confirmation(confirmed: bool, session: &mut TranslateSession) -> (r: Result<(ConfirmationResolutionResponse, Option<String>), TerminalError>)
    ensures
        old(session).pending_confirmation is None ==> (r matches Err(TerminalError::NoConfirmationPending) && *final(session)
            == *old(session)),
        final(session).pending_confirmation is None,
        final(session).cwd == old(session).cwd,
        final(session).running_command == old(session).running_command,
        match old(session).pending_confirmation {
            Some(p) => r matches Ok(out) && translator::opt_view(out.0.translated_command) == Some(p.translated_command@)
                && out.0.current_dir@ == old(session).cwd@ && out.0.stdout@.len() == 0 && out.0.stderr@.len() == 0
                && out.0.stream_command_id is None && (if !confirmed {
                out.0.action == ConfirmationResolutionAction::Cancelled && out.1 is None && out.0.message@ == "Execution cancelled."@
                    && out.0.exit_status is None && !out.0.clear_display
            } else if p.clear_display {
                out.0.action == ConfirmationResolutionAction::Execute && out.1 is None && out.0.clear_display
                    && out.0.message@ == "Translated command executed."@ && out.0.exit_status == Some(0i32)
            } else {
                out.0.action == ConfirmationResolutionAction::Execute && translator::opt_view(out.1) == Some(p.translated_command@)
                    && out.0.message@ == "Translated command executed."@ && out.0.exit_status is None && !out.0.clear_display
            }),
            None => true,
        },
{
    let pending = match session.pending_confirmation.take() {
        Some(p) => p,
        None => return Err(TerminalError::NoConfirmationPending),
    };
    let current_dir = session.cwd.clone();
    if confirmed {
        if pending.clear_display {
            Ok((ConfirmationResolutionResponse {
                action: ConfirmationResolutionAction::Execute,
                translated_command: Some(pending.translated_command),
                message: "Translated command executed.".to_owned(),
                stdout: String::new(),
                stderr: String::new(),
                exit_status: Some(0),
                current_dir,
                clear_display: true,
                stream_command_id: None,
            }, None))
        } else {
            let command = pending.translated_command.clone();
            Ok((ConfirmationResolutionResponse {
                action: ConfirmationResolutionAction::Execute,
                translated_command: Some(pending.translated_command),
                message: "Translated command executed.".to_owned(),
                stdout: String::new(),
                stderr: String::new(),
                exit_status: None,
                current_dir,
                clear_display: false,
                stream_command_id: None,
            }, Some(command)))
        }
    } else {
        Ok((ConfirmationResolutionResponse {
            action: ConfirmationResolutionAction::Cancelled,
            translated_command: Some(pending.translated_command),
            message: "Execution cancelled.".to_owned(),
            stdout: String::new(),
            stderr: String::new(),
            exit_status: None,
            current_dir,
            clear_display: false,
            stream_command_id: None,
        }, None))
    }
}


/// Output of a PTY session, as sent to the terminal view.
#[derive(Debug, Clone)]
pub struct PtyOutputEvent {
    pub session_id: u64,
    pub data: String,
}

/// The end of a PTY session, as sent to the terminal view.
#[derive(Debug, Clone)]
pub struct PtyExitEvent {
    pub session_id: u64,
}

/// The shell a PTY session starts: the user's `SHELL` when set and not
/// empty (macOS, Ubuntu), else `/bin/zsh`, `/bin/bash`; `powershell.exe` on
/// Windows.
pub fn native_shell_path(platform: Platform, env_shell: Option<&str>) -> (r: String)
    ensures
        r@ == (match platform {
            Platform::Windows => "powershell.exe"@,
            Platform::Macos => match env_shell {
                Some(s) => if s@.len() > 0 { s@ } else { "/bin/zsh"@ },
                None => "/bin/zsh"@,
            },
            Platform::Ubuntu => match env_shell {
                Some(s) => if s@.len() > 0 { s@ } else { "/bin/bash"@ },
                None => "/bin/bash"@,
            },
        }),
{
    let configured = match env_shell {
        Some(s) => if s.unicode_len() > 0 {
            Some(s.to_owned())
        } else {
            None
        },
        None => None,
    };
    match platform {
        Platform::Macos => match configured {
            Some(s) => s,
            None => "/bin/zsh".to_owned(),
        },
        Platform::Ubuntu => match configured {
            Some(s) => s,
            None => "/bin/bash".to_owned(),
        },
        Platform::Windows => "powershell.exe".to_owned(),
    }
}

/// The user's home directory: `HOME`, else `USERPROFILE`, ignoring empty values.
pub fn home_dir(home: Option<&str>, user_profile: Option<&str>) -> (r: Option<String>)
    ensures
        translator::opt_view(r) == (match home {
            Some(h) if h@.len() > 0 => Some(h@),
            _ => match user_profile {
                Some(u) if u@.len() > 0 => Some(u@),
                _ => None,
            },
        }),
{
    match home {
        Some(h) => if h.unicode_len() > 0 {
            return Some(h.to_owned());
        },
        None => {},
    }
    match user_profile {
        Some(u) => if u.unicode_len() > 0 {
            Some(u.to_owned())
        } else {
            None
        },
        None => None,
    }
}

/// The directory Translate Mode starts in: the working directory, else the
/// home directory, else `/`.
pub fn initial_translate_cwd(current_dir: Option<String>, home: Option<String>) -> (r: String)
    ensures
        r@ == (match current_dir {
            Some(c) => c@,
            None => match home {
                Some(h) => h@,
                None => "/"@,
            },
        }),
{
    match current_dir {
        Some(c) => c,
        None => match home {
            Some(h) => h,
            None => "/".to_owned(),
        },
    }
}

/// `rel` joined to `base` with `/`; an absolute `rel` stands alone.
pub open spec fn spec_join_path(base: Seq<char>, rel: Seq<char>) -> Seq<char> {
    if rel.len() > 0 && rel[0] == '/' {
        rel
    } else if base.len() == 0 || base.last() == '/' {
        base + rel
    } else {
        base + "/"@ + rel
    }
}

fn join_path(base: &str, rel: &str) -> (r: String)
    ensures
        r@ == spec_join_path(base@, rel@),
{
    let rn = rel.unicode_len();
    if rn > 0 && rel.get_char(0) == '/' {
        return rel.to_owned();
    }
    let bn = base.unicode_len();
    let mut r = base.to_owned();
    if bn == 0 || base.get_char(bn - 1) == '/' {
        push_str(&mut r, rel);
    } else {
        push_str(&mut r, "/");
        push_str(&mut r, rel);
    }
    r
}

/// The directory a `cd` target names before it is resolved on disk: the
/// home directory (or the initial directory) for an empty target or `~`,
/// below it for `~/...`, the target itself when absolute, else the target
/// below the current directory. Wrapping quotes are removed first.
pub open spec fn spec_cd_candidate(target: Seq<char>, current_dir: Seq<char>, initial_dir: Seq<char>, home: Option<Seq<char>>) -> Seq<char> {
    let t = spec_strip_wrapping_quotes(text::trim(target));
    let base = match home {
        Some(h) => h,
        None => initial_dir,
    };
    if t.len() == 0 || t == "~"@ {
        base
    } else if text::starts_with(t, "~/"@) || text::starts_with(t, "~\\"@) {
        spec_join_path(base, t.subrange(2, t.len() as int))
    } else {
        spec_join_path(current_dir, t)
    }
}

/// The directory a `cd` target names before it is resolved on disk.
pub fn cd_candidate(target: &str, current_dir: &str, initial_dir: &str, home: Option<&str>) -> (r: String)
    ensures
        r@ == spec_cd_candidate(target@, current_dir@, initial_dir@, match home {
            Some(h) => Some(h@),
            None => None,
        }),
{
    let trimmed = trim_str(target);
    let t = strip_wrapping_quotes(trimmed.as_str());
    let base = match home {
        Some(h) => h,
        None => initial_dir,
    };
    let n = t.unicode_len();
    if n == 0 || str_eq(t, "~") {
        return base.to_owned();
    }
    let tc = chars_of(t);
    let p1 = chars_of("~/");
    let p2 = chars_of("~\\");
    if text::chars_starts_with(&tc, &p1) || text::chars_starts_with(&tc, &p2) {
        proof {
            reveal_strlit("~/");
            reveal_strlit("~\\");
        }
        let rest = t.substring_char(2, n);
        join_path(base, rest)
    } else {
        join_path(current_dir, t)
    }
}

} // verus!
