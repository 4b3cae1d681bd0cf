//! Translation of a detected command into the native commands of a target
//! platform.
//!
//! The record's examples for the target are filled with the captured
//! arguments; examples that still hold a placeholder are dropped. For a few
//! intents (listings, ping, text search, word counts, listening ports and
//! the process on a port) the input's own flags and arguments are read with
//! shell-like tokenisation and a normalised command is put first. Duplicates
//! are removed, keeping the first occurrence.
use vstd::prelude::*;

use crate::detector::{detect_command, Detection, DetectionView};
use crate::platform;
use crate::platform::normalize_target_platform;
use crate::rules;
use crate::rules::{apply_template_captures, Captures};
use crate::store::command_store;
use crate::store::command_store::{CommandStore, StoreError};
use crate::text;
use crate::text::{chars_of, eq_ignore_ascii_case, is_whitespace, join_strings, lower_char, push_str, split_whitespace, string_of, str_eq};

verus! {

broadcast use vstd::string::group_string_axioms;

/// Shell-like tokens of `s`, continuing from the token `cur` read so far and
/// the open quote `quote`: whitespace separates tokens outside quotes;
/// quotes stay in the token; inside quotes a backslash keeps the next
/// character.
pub open spec fn spec_shellish_from(s: Seq<char>, cur: Seq<char>, quote: Option<char>) -> Seq<Seq<char>>
    decreases s.len(),
{
    if s.len() == 0 {
        if cur.len() > 0 {
            seq![cur]
        } else {
            Seq::empty()
        }
    } else {
        let ch = s[0];
        let rest = s.drop_first();
        match quote {
            Some(q) => if ch == '\\' {
                if rest.len() > 0 {
                    spec_shellish_from(rest.drop_first(), cur.push(ch).push(rest[0]), quote)
                } else {
                    spec_shellish_from(rest, cur.push(ch), quote)
                }
            } else if ch == q {
                spec_shellish_from(rest, cur.push(ch), None)
            } else {
                spec_shellish_from(rest, cur.push(ch), quote)
            },
            None => if ch == '"' || ch == '\'' {
                spec_shellish_from(rest, cur.push(ch), Some(ch))
            } else if text::is_ws(ch) {
                if cur.len() > 0 {
                    seq![cur] + spec_shellish_from(rest, Seq::empty(), None)
                } else {
                    spec_shellish_from(rest, Seq::empty(), None)
                }
            } else {
                spec_shellish_from(rest, cur.push(ch), None)
            },
        }
    }
}

/// The shell-like tokens of `s`.
pub open spec fn spec_shellish_tokens(s: Seq<char>) -> Seq<Seq<char>> {
    spec_shellish_from(s, Seq::empty(), None)
}

/// Splits `input` into shell-like tokens.
pub fn shellish_tokens(input: &str) -> (r: Vec<String>)
    ensures
        text::views(r@) == spec_shellish_tokens(input@),
{
    let s = chars_of(input);
    let mut tokens: Vec<String> = Vec::new();
    let mut cur: Vec<char> = Vec::new();
    let mut quote: Option<char> = None;
    let mut i: usize = 0;
    assert(s@.subrange(0, s@.len() as int) =~= s@);
    assert(text::views(tokens@) + spec_shellish_tokens(input@) =~= spec_shellish_tokens(input@));
    while i < s.len()
        invariant
            i <= s@.len(),
            s@ == input@,
            text::views(tokens@) + spec_shellish_from(s@.subrange(i as int, s@.len() as int), cur@, quote)
                == spec_shellish_tokens(input@),
        decreases s.len() - i,
    {
        let ghost rest = s@.subrange(i as int, s@.len() as int);
        let ghost before = text::views(tokens@);
        let ghost cur0 = cur@;
        let ch = s[i];
        assert(rest[0] == ch);
        assert(rest.drop_first() =~= s@.subrange(i + 1, s@.len() as int));
        match quote {
            Some(q) => {
                cur.push(ch);
                if ch == '\\' {
                    if i + 1 < s.len() {
                        let next = s[i + 1];
                        assert(rest.drop_first()[0] == next);
                        assert(rest.drop_first().drop_first() =~= s@.subrange(i + 2, s@.len() as int));
                        cur.push(next);
                        i = i + 2;
                    } else {
                        i = i + 1;
                    }
                } else {
                    if ch == q {
                        quote = None;
                    }
                    i = i + 1;
                }
            },
            None => {
                if ch == '"' || ch == '\'' {
                    quote = Some(ch);
                    cur.push(ch);
                } else if is_whitespace(ch) {
                    if cur.len() > 0 {
                        let done = string_of(&cur);
                        tokens.push(done);
                        cur = Vec::new();
                        assert(text::views(tokens@) =~= before + seq![cur0]);
                        assert(before + (seq![cur0] + spec_shellish_from(rest.drop_first(), Seq::empty(), None))
                            =~= (before + seq![cur0]) + spec_shellish_from(rest.drop_first(), Seq::empty(), None));
                        assert(cur@ =~= Seq::<char>::empty());
                    } else {
                        assert(cur0 =~= Seq::<char>::empty());
                    }
                } else {
                    cur.push(ch);
                }
                i = i + 1;
            },
        }
    }
    let ghost before = text::views(tokens@);
    let ghost cur0 = cur@;
    assert(s@.subrange(s@.len() as int, s@.len() as int) =~= Seq::<char>::empty());
    if cur.len() > 0 {
        let done = string_of(&cur);
        tokens.push(done);
        assert(text::views(tokens@) =~= before + seq![cur0]);
    } else {
        assert(before + Seq::<Seq<char>>::empty() =~= before);
    }
    tokens
}

/// A Unix-style option: `-` followed by at least one character.
pub open spec fn spec_is_unix_option(t: Seq<char>) -> bool {
    t.len() > 1 && t[0] == '-'
}

/// A Windows-style option: `/` followed by at least one character.
pub open spec fn spec_is_windows_option(t: Seq<char>) -> bool {
    t.len() > 1 && t[0] == '/'
}

/// A `-` token whose remaining characters include `flag`, ignoring ASCII case.
pub open spec fn spec_has_short_flag(t: Seq<char>, flag: char) -> bool {
    t.len() >= 1 && t[0] == '-' && exists|i: int| 1 <= i < t.len() && #[trigger] lower_char(t[i]) == lower_char(flag)
}

fn is_unix_option(token: &str) -> (r: bool)
    ensures
        r == spec_is_unix_option(token@),
{
    let n = token.unicode_len();
    n > 1 && token.get_char(0) == '-'
}

fn is_windows_dir_option(token: &str) -> (r: bool)
    ensures
        r == spec_is_windows_option(token@),
{
    let n = token.unicode_len();
    n > 1 && token.get_char(0) == '/'
}

fn token_contains_short_flag(token: &str, flag: char) -> (r: bool)
    ensures
        r == spec_has_short_flag(token@, flag),
{
    let t = chars_of(token);
    if t.len() == 0 || t[0] != '-' {
        return false;
    }
    let f = text::to_lower(flag);
    let mut i: usize = 1;
    while i < t.len()
        invariant
            1 <= i <= t@.len(),
            t@ == token@,
            t@[0] == '-',
            f == lower_char(flag),
            forall|j: int| 1 <= j < i ==> #[trigger] lower_char(t@[j]) != lower_char(flag),
        decreases t.len() - i,
    {
        if text::to_lower(t[i]) == f {
            return true;
        }
        i = i + 1;
    }
    false
}

/// `token` with its prefix `prefix` removed, when it starts with it.
pub open spec fn spec_strip_prefix(token: Seq<char>, prefix: Seq<char>) -> Option<Seq<char>> {
    if text::starts_with(token, prefix) {
        Some(token.subrange(prefix.len() as int, token.len() as int))
    } else {
        None
    }
}

fn strip_prefix(token: &str, prefix: &str) -> (r: Option<String>)
    ensures
        match r {
            Some(v) => spec_strip_prefix(token@, prefix@) == Some(v@),
            None => spec_strip_prefix(token@, prefix@) == None::<Seq<char>>,
        },
{
    let t = chars_of(token);
    let p = chars_of(prefix);
    if text::chars_starts_with(&t, &p) {
        let n = token.unicode_len();
        let m = prefix.unicode_len();
        Some(token.substring_char(m, n).to_owned())
    } else {
        None
    }
}


/// The value of an optional string.
pub open spec fn opt_view(o: Option<String>) -> Option<Seq<char>> {
    match o {
        Some(s) => Some(s@),
        None => None,
    }
}

/// The tokens after the command word.
pub open spec fn args_of(tokens: Seq<Seq<char>>) -> Seq<Seq<char>> {
    if tokens.len() == 0 {
        tokens
    } else {
        tokens.drop_first()
    }
}

/// Reading a listing's arguments: whether hidden entries are wanted, and
/// the first plain argument as the path.
pub open spec fn spec_list_args(ts: Seq<Seq<char>>) -> (bool, Option<Seq<char>>)
    decreases ts.len(),
{
    if ts.len() == 0 {
        (false, None)
    } else {
        let st = spec_list_args(ts.drop_last());
        let t = ts.last();
        if spec_is_windows_option(t) {
            (st.0 || text::eq_ignore_case(t, "/a"@) || text::starts_with(text::lower(t), "/a"@), st.1)
        } else if spec_is_unix_option(t) {
            (st.0 || spec_has_short_flag(t, 'a') || text::eq_ignore_case(t, "-force"@), st.1)
        } else if st.1 is None {
            (st.0, Some(t))
        } else {
            st
        }
    }
}

/// Reading a search's arguments: whether case is ignored, and the plain
/// arguments in order.
pub open spec fn spec_search_args(ts: Seq<Seq<char>>) -> (bool, Seq<Seq<char>>)
    decreases ts.len(),
{
    if ts.len() == 0 {
        (false, Seq::empty())
    } else {
        let st = spec_search_args(ts.drop_last());
        let t = ts.last();
        if text::eq_ignore_case(t, "/i"@) || spec_has_short_flag(t, 'i') {
            (true, st.1)
        } else if spec_is_unix_option(t) || spec_is_windows_option(t) {
            st
        } else {
            (st.0, st.1.push(t))
        }
    }
}

/// Reading a word count's arguments: whether only lines are counted, and
/// the last plain argument as the file.
pub open spec fn spec_word_count_args(ts: Seq<Seq<char>>) -> (bool, Option<Seq<char>>)
    decreases ts.len(),
{
    if ts.len() == 0 {
        (false, None)
    } else {
        let st = spec_word_count_args(ts.drop_last());
        let t = ts.last();
        if t == "-l"@ {
            (true, st.1)
        } else if spec_is_unix_option(t) || spec_is_windows_option(t) || t == "|"@ {
            st
        } else {
            (st.0, Some(t))
        }
    }
}

/// Every character is an ASCII digit.
pub open spec fn all_digits(t: Seq<char>) -> bool {
    forall|i: int| 0 <= i < t.len() ==> '0' <= #[trigger] t[i] && t[i] <= '9'
}

/// Reading a port query's arguments: the token that names the port.
pub open spec fn spec_port_args(ts: Seq<Seq<char>>) -> Option<Seq<char>>
    decreases ts.len(),
{
    if ts.len() == 0 {
        None
    } else {
        let st = spec_port_args(ts.drop_last());
        let t = ts.last();
        if t == "-i"@ || text::eq_ignore_case(t, "-localport"@) {
            st
        } else if text::eq_ignore_case(t, "|"@) || text::eq_ignore_case(t, "findstr"@) || text::eq_ignore_case(t, "netstat"@)
            || text::eq_ignore_case(t, "Get-NetTCPConnection"@) {
            st
        } else if text::eq_ignore_case(t, "-ano"@) || text::eq_ignore_case(t, "-localport"@) {
            st
        } else if spec_strip_prefix(t, "-LocalPort"@) is Some {
            let v = spec_strip_prefix(t, "-LocalPort"@).unwrap();
            if v.len() > 0 {
                Some(v)
            } else {
                st
            }
        } else if st is None && (text::starts_with(t, ":"@) || all_digits(t) || text::contains(t, ":"@)) {
            Some(t)
        } else {
            st
        }
    }
}

/// The count value a ping token carries directly (`-n5`, `-c3`).
pub open spec fn spec_inline_count(t: Seq<char>) -> Option<Seq<char>> {
    let v = match spec_strip_prefix(t, "-n"@) {
        Some(x) => Some(x),
        None => spec_strip_prefix(t, "-c"@),
    };
    match v {
        Some(x) => if x.len() > 0 {
            Some(x)
        } else {
            None
        },
        None => None,
    }
}

/// Reading a ping's arguments from position `i`: the count and the host
/// (the last plain argument).
pub open spec fn spec_ping_from(ts: Seq<Seq<char>>, i: int, count: Option<Seq<char>>, host: Option<Seq<char>>)
    -> (Option<Seq<char>>, Option<Seq<char>>)
    decreases ts.len() - i,
{
    if i < 1 || i >= ts.len() {
        (count, host)
    } else {
        let t = ts[i];
        if (text::eq_ignore_case(t, "-n"@) || text::eq_ignore_case(t, "-c"@)) && i + 1 < ts.len() {
            spec_ping_from(ts, i + 2, Some(ts[i + 1]), host)
        } else if spec_inline_count(t) is Some {
            spec_ping_from(ts, i + 1, spec_inline_count(t), host)
        } else if !spec_is_unix_option(t) && !spec_is_windows_option(t) {
            spec_ping_from(ts, i + 1, count, Some(t))
        } else {
            spec_ping_from(ts, i + 1, count, host)
        }
    }
}

proof fn lemma_args_step(tokens: Seq<Seq<char>>, i: int)
    requires
        1 <= i < tokens.len(),
    ensures
        tokens.subrange(1, i + 1).drop_last() == tokens.subrange(1, i),
        tokens.subrange(1, i + 1).last() == tokens[i],
        tokens.subrange(1, i + 1).len() > 0,
{
    assert(tokens.subrange(1, i + 1).drop_last() =~= tokens.subrange(1, i));
}

proof fn lemma_args_all(tokens: Seq<Seq<char>>)
    ensures
        tokens.len() >= 1 ==> tokens.subrange(1, tokens.len() as int) == args_of(tokens),
        tokens.len() <= 1 ==> args_of(tokens).len() == 0,
{
    if tokens.len() >= 1 {
        assert(tokens.subrange(1, tokens.len() as int) =~= tokens.drop_first());
    }
}

struct ParsedListInput {
    wants_all: bool,
    path: Option<String>,
}

fn parse_list_like_input(input: &str) -> (r: ParsedListInput)
    ensures
        (r.wants_all, opt_view(r.path)) == spec_list_args(args_of(spec_shellish_tokens(input@))),
{
    let tokens = shellish_tokens(input);
    let ghost ts = text::views(tokens@);
    let mut wants_all = false;
    let mut path: Option<String> = None;
    proof {
        lemma_args_all(ts);
    }
    if tokens.len() <= 1 {
        return ParsedListInput { wants_all, path };
    }
    assert(ts.subrange(1, 1) =~= Seq::<Seq<char>>::empty());
    let mut i: usize = 1;
    while i < tokens.len()
        invariant
            1 <= i <= tokens@.len(),
            ts == text::views(tokens@),
            (wants_all, opt_view(path)) == spec_list_args(ts.subrange(1, i as int)),
        decreases tokens.len() - i,
    {
        proof {
            lemma_args_step(ts, i as int);
        }
        let token = tokens[i].as_str();
        assert(ts[i as int] == token@);
        if is_windows_dir_option(token) {
            let lowered = text::lower_string(token);
            let lc = chars_of(lowered.as_str());
            let pa = chars_of("/a");
            if eq_ignore_ascii_case(token, "/a") || text::chars_starts_with(&lc, &pa) {
                wants_all = true;
            }
        } else if is_unix_option(token) {
            if token_contains_short_flag(token, 'a') || eq_ignore_ascii_case(token, "-force") {
                wants_all = true;
            }
        } else if path.is_none() {
            path = Some(tokens[i].clone());
        }
        i = i + 1;
    }
    ParsedListInput { wants_all, path }
}

struct ParsedSearchInput {
    case_insensitive: bool,
    pattern: Option<String>,
    file: Option<String>,
}

/// The first and second plain arguments of a search.
pub open spec fn spec_search_parts(ts: Seq<Seq<char>>) -> (bool, Option<Seq<char>>, Option<Seq<char>>) {
    let st = spec_search_args(ts);
    (st.0, if st.1.len() > 0 { Some(st.1[0]) } else { None }, if st.1.len() > 1 { Some(st.1[1]) } else { None })
}

fn parse_search_input(input: &str) -> (r: ParsedSearchInput)
    ensures
        (r.case_insensitive, opt_view(r.pattern), opt_view(r.file)) == spec_search_parts(args_of(spec_shellish_tokens(input@))),
{
    let tokens = shellish_tokens(input);
    let ghost ts = text::views(tokens@);
    let mut ci = false;
    let mut positionals: Vec<String> = Vec::new();
    proof {
        lemma_args_all(ts);
    }
    if tokens.len() > 1 {
        assert(ts.subrange(1, 1) =~= Seq::<Seq<char>>::empty());
        assert(text::views(positionals@) =~= Seq::<Seq<char>>::empty());
        let mut i: usize = 1;
        while i < tokens.len()
            invariant
                1 <= i <= tokens@.len(),
                ts == text::views(tokens@),
                (ci, text::views(positionals@)) == spec_search_args(ts.subrange(1, i as int)),
            decreases tokens.len() - i,
        {
            proof {
                lemma_args_step(ts, i as int);
            }
            let token = tokens[i].as_str();
            assert(ts[i as int] == token@);
            if eq_ignore_ascii_case(token, "/i") || token_contains_short_flag(token, 'i') {
                ci = true;
            } else if is_unix_option(token) || is_windows_dir_option(token) {
            } else {
                let ghost before = text::views(positionals@);
                positionals.push(tokens[i].clone());
                assert(text::views(positionals@) =~= before.push(token@));
            }
            i = i + 1;
        }
    } else {
        assert(text::views(positionals@) =~= Seq::<Seq<char>>::empty());
    }
    let pattern = if positionals.len() > 0 {
        assert(text::views(positionals@)[0] == positionals@[0]@);
        Some(positionals[0].clone())
    } else {
        None
    };
    let file = if positionals.len() > 1 {
        assert(text::views(positionals@)[1] == positionals@[1]@);
        Some(positionals[1].clone())
    } else {
        None
    };
    ParsedSearchInput { case_insensitive: ci, pattern, file }
}

struct ParsedWordCountInput {
    lines_only: bool,
    file: Option<String>,
}

fn parse_word_count_input(input: &str) -> (r: ParsedWordCountInput)
    ensures
        (r.lines_only, opt_view(r.file)) == spec_word_count_args(args_of(spec_shellish_tokens(input@))),
{
    let tokens = shellish_tokens(input);
    let ghost ts = text::views(tokens@);
    let mut lines_only = false;
    let mut file: Option<String> = None;
    proof {
        lemma_args_all(ts);
    }
    if tokens.len() <= 1 {
        return ParsedWordCountInput { lines_only, file };
    }
    assert(ts.subrange(1, 1) =~= Seq::<Seq<char>>::empty());
    let mut i: usize = 1;
    while i < tokens.len()
        invariant
            1 <= i <= tokens@.len(),
            ts == text::views(tokens@),
            (lines_only, opt_view(file)) == spec_word_count_args(ts.subrange(1, i as int)),
        decreases tokens.len() - i,
    {
        proof {
            lemma_args_step(ts, i as int);
        }
        let token = tokens[i].as_str();
        assert(ts[i as int] == token@);
        if str_eq(token, "-l") {
            lines_only = true;
        } else if is_unix_option(token) || is_windows_dir_option(token) || str_eq(token, "|") {
        } else {
            file = Some(tokens[i].clone());
        }
        i = i + 1;
    }
    ParsedWordCountInput { lines_only, file }
}

fn is_all_digits(token: &str) -> (r: bool)
    ensures
        r == all_digits(token@),
{
    let t = chars_of(token);
    let mut i: usize = 0;
    while i < t.len()
        invariant
            i <= t@.len(),
            t@ == token@,
            forall|j: int| 0 <= j < i ==> '0' <= #[trigger] t@[j] && t@[j] <= '9',
        decreases t.len() - i,
    {
        if !('0' <= t[i] && t[i] <= '9') {
            return false;
        }
        i = i + 1;
    }
    true
}

fn parse_port_query_input(input: &str) -> (r: Option<String>)
    ensures
        opt_view(r) == spec_port_args(args_of(spec_shellish_tokens(input@))),
{
    let tokens = shellish_tokens(input);
    let ghost ts = text::views(tokens@);
    let mut port: Option<String> = None;
    proof {
        lemma_args_all(ts);
    }
    if tokens.len() <= 1 {
        return port;
    }
    assert(ts.subrange(1, 1) =~= Seq::<Seq<char>>::empty());
    let mut i: usize = 1;
    while i < tokens.len()
        invariant
            1 <= i <= tokens@.len(),
            ts == text::views(tokens@),
            opt_view(port) == spec_port_args(ts.subrange(1, i as int)),
        decreases tokens.len() - i,
    {
        proof {
            lemma_args_step(ts, i as int);
        }
        let token = tokens[i].as_str();
        assert(ts[i as int] == token@);
        if str_eq(token, "-i") || eq_ignore_ascii_case(token, "-localport") {
        } else if eq_ignore_ascii_case(token, "|") || eq_ignore_ascii_case(token, "findstr") || eq_ignore_ascii_case(token, "netstat")
            || eq_ignore_ascii_case(token, "Get-NetTCPConnection") {
        } else if eq_ignore_ascii_case(token, "-ano") || eq_ignore_ascii_case(token, "-localport") {
        } else {
            match strip_prefix(token, "-LocalPort") {
                Some(v) => {
                    if v.unicode_len() > 0 {
                        port = Some(v);
                    }
                },
                None => {
                    if port.is_none() {
                        let t = chars_of(token);
                        let colon = chars_of(":");
                        if text::chars_starts_with(&t, &colon) || is_all_digits(token) || text::chars_contains(&t, &colon) {
                            port = Some(tokens[i].clone());
                        }
                    }
                },
            }
        }
        i = i + 1;
    }
    port
}

fn inline_count(token: &str) -> (r: Option<String>)
    ensures
        opt_view(r) == spec_inline_count(token@),
{
    let v = match strip_prefix(token, "-n") {
        Some(x) => Some(x),
        None => strip_prefix(token, "-c"),
    };
    match v {
        Some(x) => if x.unicode_len() > 0 {
            Some(x)
        } else {
            None
        },
        None => None,
    }
}

struct ParsedPingInput {
    count: Option<String>,
    host: Option<String>,
}

fn parse_ping_input(input: &str) -> (r: ParsedPingInput)
    ensures
        (opt_view(r.count), opt_view(r.host)) == spec_ping_from(spec_shellish_tokens(input@), 1, None, None),
{
    let tokens = shellish_tokens(input);
    let ghost ts = text::views(tokens@);
    let mut count: Option<String> = None;
    let mut host: Option<String> = None;
    let mut i: usize = 1;
    while i < tokens.len()
        invariant
            1 <= i,
            ts == text::views(tokens@),
            spec_ping_from(ts, i as int, opt_view(count), opt_view(host)) == spec_ping_from(ts, 1, None, None),
        decreases tokens.len() - i,
    {
        let token = tokens[i].as_str();
        assert(ts[i as int] == token@);
        if (eq_ignore_ascii_case(token, "-n") || eq_ignore_ascii_case(token, "-c")) && i + 1 < tokens.len() {
            assert(ts[i + 1] == tokens@[i + 1]@);
            count = Some(tokens[i + 1].clone());
            i = i + 2;
        } else {
            match inline_count(token) {
                Some(v) => {
                    count = Some(v);
                },
                None => {
                    if !is_unix_option(token) && !is_windows_dir_option(token) {
                        host = Some(tokens[i].clone());
                    }
                },
            }
            i = i + 1;
        }
    }
    ParsedPingInput { count, host }
}


/// A captured value when there is one, else the fallback.
pub open spec fn capture_or(caps: Map<Seq<char>, Seq<char>>, name: Seq<char>, fallback: Option<Seq<char>>) -> Option<Seq<char>> {
    if caps.contains_key(name) {
        Some(caps[name])
    } else {
        fallback
    }
}

fn capture_or_else(caps: &Captures, name: &str, fallback: Option<String>) -> (r: Option<String>)
    ensures
        opt_view(r) == capture_or(caps@, name@, opt_view(fallback)),
{
    match caps.get(name) {
        Some(v) => Some(v.to_owned()),
        None => fallback,
    }
}

/// One part when present, none otherwise.
pub open spec fn part_if(b: bool, part: Seq<char>) -> Seq<Seq<char>> {
    if b {
        seq![part]
    } else {
        Seq::empty()
    }
}

/// The optional part.
pub open spec fn opt_part(o: Option<Seq<char>>) -> Seq<Seq<char>> {
    match o {
        Some(p) => seq![p],
        None => Seq::empty(),
    }
}

/// The normalised listing command for `target`.
pub open spec fn spec_list_command(d: DetectionView, target: Seq<char>) -> Option<Seq<char>> {
    let parsed = spec_list_args(args_of(spec_shellish_tokens(d.input)));
    let path = capture_or(d.captures, "path"@, parsed.1);
    let wants_all = d.intent.intent == "list_all_files"@ || parsed.0;
    if target == "windows"@ {
        Some(text::join(seq!["Get-ChildItem"@] + part_if(wants_all, "-Force"@) + opt_part(path), " "@))
    } else if target == "macos"@ || target == "ubuntu"@ {
        Some(text::join(seq!["ls"@] + part_if(wants_all, "-la"@) + opt_part(path), " "@))
    } else {
        None
    }
}

/// The normalised ping command for `target`.
pub open spec fn spec_ping_command(d: DetectionView, target: Seq<char>) -> Option<Seq<char>> {
    let parsed = spec_ping_from(spec_shellish_tokens(d.input), 1, None, None);
    match capture_or(d.captures, "host"@, parsed.1) {
        None => None,
        Some(host) => if target == "windows"@ {
            Some(text::join(seq!["Test-Connection"@] + (match parsed.0 {
                Some(c) => seq!["-Count"@, c],
                None => Seq::empty(),
            }) + seq![host], " "@))
        } else if target == "macos"@ || target == "ubuntu"@ {
            Some("ping -c "@ + (match parsed.0 {
                Some(c) => c,
                None => "4"@,
            }) + " "@ + host)
        } else {
            None
        },
    }
}

/// The normalised text search command for `target`.
pub open spec fn spec_search_command(d: DetectionView, target: Seq<char>) -> Option<Seq<char>> {
    let parsed = spec_search_parts(args_of(spec_shellish_tokens(d.input)));
    match capture_or(d.captures, "pattern"@, parsed.1) {
        None => None,
        Some(pattern) => match capture_or(d.captures, "file"@, parsed.2) {
            None => None,
            Some(file) => if target == "windows"@ {
                Some(text::join(seq!["Select-String"@] + part_if(!parsed.0, "-CaseSensitive"@) + seq![pattern, file], " "@))
            } else if target == "macos"@ || target == "ubuntu"@ {
                Some(text::join(seq!["grep"@] + part_if(parsed.0, "-i"@) + seq![pattern, file], " "@))
            } else {
                None
            },
        },
    }
}

/// The normalised word count command for `target`.
pub open spec fn spec_word_count_command(d: DetectionView, target: Seq<char>) -> Option<Seq<char>> {
    let parsed = spec_word_count_args(args_of(spec_shellish_tokens(d.input)));
    match capture_or(d.captures, "file"@, parsed.1) {
        None => None,
        Some(file) => if target == "windows"@ {
            if parsed.0 {
                Some("Get-Content "@ + file + " | Measure-Object -Line"@)
            } else {
                Some("Get-Content "@ + file + " | Measure-Object -Line -Word -Character"@)
            }
        } else if target == "macos"@ || target == "ubuntu"@ {
            if parsed.0 {
                Some("wc -l "@ + file)
            } else {
                Some("wc "@ + file)
            }
        } else {
            None
        },
    }
}

/// The normalised listening ports command for `target`.
pub open spec fn spec_listening_ports_command(d: DetectionView, target: Seq<char>) -> Option<Seq<char>> {
    if target == "windows"@ {
        Some("Get-NetTCPConnection -State Listen"@)
    } else if target == "macos"@ {
        if d.source_platform == "windows_cmd"@ || text::contains(text::lower(d.input), "netstat -ano"@) {
            Some("netstat -an"@)
        } else {
            Some("lsof -i -P -n | grep LISTEN"@)
        }
    } else if target == "ubuntu"@ {
        Some("ss -tulnp"@)
    } else {
        None
    }
}

/// `s` without its leading colons.
pub open spec fn spec_strip_colons(s: Seq<char>) -> Seq<char>
    decreases s.len(),
{
    if s.len() > 0 && s[0] == ':' {
        spec_strip_colons(s.drop_first())
    } else {
        s
    }
}

/// The normalised "process on a port" command for `target`.
pub open spec fn spec_process_by_port_command(d: DetectionView, target: Seq<char>) -> Option<Seq<char>> {
    let parsed = spec_port_args(args_of(spec_shellish_tokens(d.input)));
    match capture_or(d.captures, "port"@, capture_or(d.captures, "port_token"@, parsed)) {
        None => None,
        Some(raw) => {
            let port = spec_strip_colons(raw);
            if target == "windows"@ {
                Some("Get-NetTCPConnection -LocalPort "@ + port)
            } else if target == "macos"@ || target == "ubuntu"@ {
                Some("lsof -i :"@ + port)
            } else {
                None
            }
        },
    }
}

/// The normalised command for the detection's intent, if it has one.
pub open spec fn spec_normalized_command(d: DetectionView, target: Seq<char>) -> Option<Seq<char>> {
    let intent = d.intent.intent;
    if intent == "list_files"@ || intent == "list_all_files"@ {
        spec_list_command(d, target)
    } else if intent == "ping_host"@ {
        spec_ping_command(d, target)
    } else if intent == "search_text"@ {
        spec_search_command(d, target)
    } else if intent == "count_lines_words_chars"@ {
        spec_word_count_command(d, target)
    } else if intent == "list_listening_ports"@ {
        spec_listening_ports_command(d, target)
    } else if intent == "process_by_port"@ {
        spec_process_by_port_command(d, target)
    } else {
        None
    }
}

/// A word count counts lines only exactly when one of its arguments is
/// `-l`.
pub proof fn lemma_word_count_lines_only(ts: Seq<Seq<char>>)
    ensures
        spec_word_count_args(ts).0 <==> ts.contains("-l"@),
    decreases ts.len(),
{
    if ts.len() > 0 {
        let init = ts.drop_last();
        lemma_word_count_lines_only(init);
        assert(ts[ts.len() - 1] == ts.last());
        if init.contains("-l"@) {
            let i = choose|i: int| 0 <= i < init.len() && init[i] == "-l"@;
            assert(ts[i] == init[i]);
        }
        if ts.contains("-l"@) && ts.last() != "-l"@ {
            let i = choose|i: int| 0 <= i < ts.len() && ts[i] == "-l"@;
            assert(init[i] == ts[i]);
        }
    }
}

/// Law: a ping translated for macOS or Ubuntu always carries a count, so it
/// ends by itself: it is `ping -c`, the count the input gave (4 when it gave
/// none), and the host. The translation lists it first.
pub proof fn law_unix_ping_has_count(d: DetectionView, target: Seq<char>)
    requires
        d.intent.intent == "ping_host"@,
        target == "macos"@ || target == "ubuntu"@,
    ensures
        ({
            let parsed = spec_ping_from(spec_shellish_tokens(d.input), 1, None, None);
            let count = match parsed.0 {
                Some(c) => c,
                None => "4"@,
            };
            match capture_or(d.captures, "host"@, parsed.1) {
                None => spec_normalized_command(d, target) is None,
                Some(host) => {
                    &&& spec_normalized_command(d, target) == Some("ping -c "@ + count + " "@ + host)
                    &&& (parsed.0 is None ==> spec_normalized_command(d, target) == Some("ping -c 4 "@ + host))
                    &&& spec_suggestions(d, target).len() > 0
                    &&& spec_suggestions(d, target)[0] == "ping -c "@ + count + " "@ + host
                },
            }
        }),
{
    reveal_strlit("ping_host");
    reveal_strlit("list_files");
    reveal_strlit("list_all_files");
    reveal_strlit("macos");
    reveal_strlit("ubuntu");
    reveal_strlit("windows");
    reveal_strlit("ping -c ");
    reveal_strlit("ping -c 4 ");
    reveal_strlit("4");
    reveal_strlit(" ");
    assert(d.intent.intent.len() != "list_files"@.len());
    assert(d.intent.intent.len() != "list_all_files"@.len());
    assert(target.len() != "windows"@.len());
    law_suggestions_unique_complete(d, target);
    let parsed = spec_ping_from(spec_shellish_tokens(d.input), 1, None, None);
    if let Some(host) = capture_or(d.captures, "host"@, parsed.1) {
        assert("ping -c "@ + "4"@ + " "@ + host =~= "ping -c 4 "@ + host);
    }
}

/// Law: a word count with `-l` among its arguments counts lines only, on
/// every target: `wc -l` and the file on macOS and Ubuntu, the file's
/// content measured by line alone on Windows. Without `-l`, lines, words
/// and characters are all counted. The translation lists it first.
pub proof fn law_word_count_keeps_lines_only(d: DetectionView, target: Seq<char>)
    requires
        d.intent.intent == "count_lines_words_chars"@,
    ensures
        ({
            let args = args_of(spec_shellish_tokens(d.input));
            let parsed = spec_word_count_args(args);
            match capture_or(d.captures, "file"@, parsed.1) {
                None => spec_normalized_command(d, target) is None,
                Some(file) => {
                    &&& (target == "macos"@ || target == "ubuntu"@) ==> spec_normalized_command(d, target) == (if args.contains("-l"@) {
                        Some("wc -l "@ + file)
                    } else {
                        Some("wc "@ + file)
                    })
                    &&& target == "windows"@ ==> spec_normalized_command(d, target) == (if args.contains("-l"@) {
                        Some("Get-Content "@ + file + " | Measure-Object -Line"@)
                    } else {
                        Some("Get-Content "@ + file + " | Measure-Object -Line -Word -Character"@)
                    })
                    &&& (spec_normalized_command(d, target) matches Some(n) ==> spec_suggestions(d, target).len() > 0
                        && spec_suggestions(d, target)[0] == n)
                },
            }
        }),
{
    reveal_strlit("count_lines_words_chars");
    reveal_strlit("list_files");
    reveal_strlit("list_all_files");
    reveal_strlit("ping_host");
    reveal_strlit("search_text");
    assert(d.intent.intent.len() != "list_files"@.len());
    assert(d.intent.intent.len() != "list_all_files"@.len());
    assert(d.intent.intent.len() != "ping_host"@.len());
    assert(d.intent.intent.len() != "search_text"@.len());
    reveal_strlit("macos");
    reveal_strlit("ubuntu");
    reveal_strlit("windows");
    assert("macos"@.len() != "windows"@.len());
    assert("ubuntu"@.len() != "windows"@.len());
    lemma_word_count_lines_only(args_of(spec_shellish_tokens(d.input)));
    law_suggestions_unique_complete(d, target);
}

fn strip_port_prefix(port: &str) -> (r: String)
    ensures
        r@ == spec_strip_colons(port@),
{
    let t = chars_of(port);
    let mut i: usize = 0;
    assert(t@.subrange(0, t@.len() as int) =~= t@);
    while i < t.len() && t[i] == ':'
        invariant
            i <= t@.len(),
            t@ == port@,
            spec_strip_colons(port@) == spec_strip_colons(t@.subrange(i as int, t@.len() as int)),
        decreases t.len() - i,
    {
        assert(t@.subrange(i as int, t@.len() as int).drop_first() =~= t@.subrange(i + 1, t@.len() as int));
        i = i + 1;
    }
    let n = t.len();
    port.substring_char(i, n).to_owned()
}

fn push_part(parts: &mut Vec<String>, part: &str)
    ensures
        text::views(final(parts)@) == text::views(old(parts)@).push(part@),
{
    parts.push(part.to_owned());
    assert(text::views(parts@) =~= text::views(old(parts)@).push(part@));
}

proof fn lemma_views_empty()
    ensures
        text::views(Seq::<String>::empty()) == Seq::<Seq<char>>::empty(),
{
    assert(text::views(Seq::<String>::empty()) =~= Seq::<Seq<char>>::empty());
}

fn normalize_list_command(d: &Detection, target: &str) -> (r: Option<String>)
    ensures
        opt_view(r) == spec_list_command(d@, target@),
{
    let parsed = parse_list_like_input(d.input.as_str());
    let path = capture_or_else(&d.captures, "path", parsed.path);
    let wants_all = str_eq(d.intent.intent.as_str(), "list_all_files") || parsed.wants_all;
    let mut parts: Vec<String> = Vec::new();
    proof {
        lemma_views_empty();
    }
    if str_eq(target, "windows") {
        push_part(&mut parts, "Get-ChildItem");
        if wants_all {
            push_part(&mut parts, "-Force");
        }
    } else if str_eq(target, "macos") || str_eq(target, "ubuntu") {
        push_part(&mut parts, "ls");
        if wants_all {
            push_part(&mut parts, "-la");
        }
    } else {
        return None;
    }
    let ghost head = text::views(parts@);
    match path {
        Some(p) => {
            push_part(&mut parts, p.as_str());
        },
        None => {},
    }
    proof {
        if target@ == "windows"@ {
            assert(text::views(parts@) =~= seq!["Get-ChildItem"@] + part_if(wants_all, "-Force"@) + opt_part(opt_view(path)));
        } else {
            assert(text::views(parts@) =~= seq!["ls"@] + part_if(wants_all, "-la"@) + opt_part(opt_view(path)));
        }
    }
    Some(join_strings(&parts, " "))
}


fn concat3(a: &str, b: &str, c: &str) -> (r: String)
    ensures
        r@ == a@ + b@ + c@,
{
    let mut r = String::new();
    push_str(&mut r, a);
    push_str(&mut r, b);
    push_str(&mut r, c);
    assert(r@ =~= a@ + b@ + c@);
    r
}

fn concat2(a: &str, b: &str) -> (r: String)
    ensures
        r@ == a@ + b@,
{
    let mut r = String::new();
    push_str(&mut r, a);
    push_str(&mut r, b);
    assert(r@ =~= a@ + b@);
    r
}

fn normalize_ping_command(d: &Detection, target: &str) -> (r: Option<String>)
    ensures
        opt_view(r) == spec_ping_command(d@, target@),
{
    let parsed = parse_ping_input(d.input.as_str());
    let host = match capture_or_else(&d.captures, "host", parsed.host) {
        Some(h) => h,
        None => return None,
    };
    if str_eq(target, "windows") {
        let mut parts: Vec<String> = Vec::new();
        proof {
            lemma_views_empty();
        }
        push_part(&mut parts, "Test-Connection");
        match &parsed.count {
            Some(c) => {
                push_part(&mut parts, "-Count");
                push_part(&mut parts, c.as_str());
            },
            None => {},
        }
        push_part(&mut parts, host.as_str());
        proof {
            assert(text::views(parts@) =~= seq!["Test-Connection"@] + (match opt_view(parsed.count) {
                Some(c) => seq!["-Count"@, c],
                None => Seq::empty(),
            }) + seq![host@]);
        }
        Some(join_strings(&parts, " "))
    } else if str_eq(target, "macos") || str_eq(target, "ubuntu") {
        let count = match &parsed.count {
            Some(c) => c.clone(),
            None => "4".to_owned(),
        };
        let mut r = concat3("ping -c ", count.as_str(), " ");
        push_str(&mut r, host.as_str());
        Some(r)
    } else {
        None
    }
}

fn normalize_search_text_command(d: &Detection, target: &str) -> (r: Option<String>)
    ensures
        opt_view(r) == spec_search_command(d@, target@),
{
    let parsed = parse_search_input(d.input.as_str());
    let pattern = match capture_or_else(&d.captures, "pattern", parsed.pattern) {
        Some(p) => p,
        None => return None,
    };
    let file = match capture_or_else(&d.captures, "file", parsed.file) {
        Some(f) => f,
        None => return None,
    };
    let mut parts: Vec<String> = Vec::new();
    proof {
        lemma_views_empty();
    }
    if str_eq(target, "windows") {
        push_part(&mut parts, "Select-String");
        if !parsed.case_insensitive {
            push_part(&mut parts, "-CaseSensitive");
        }
        push_part(&mut parts, pattern.as_str());
        push_part(&mut parts, file.as_str());
        assert(text::views(parts@) =~= seq!["Select-String"@] + part_if(!parsed.case_insensitive, "-CaseSensitive"@) + seq![pattern@, file@]);
    } else if str_eq(target, "macos") || str_eq(target, "ubuntu") {
        push_part(&mut parts, "grep");
        if parsed.case_insensitive {
            push_part(&mut parts, "-i");
        }
        push_part(&mut parts, pattern.as_str());
        push_part(&mut parts, file.as_str());
        assert(text::views(parts@) =~= seq!["grep"@] + part_if(parsed.case_insensitive, "-i"@) + seq![pattern@, file@]);
    } else {
        return None;
    }
    Some(join_strings(&parts, " "))
}

fn normalize_word_count_command(d: &Detection, target: &str) -> (r: Option<String>)
    ensures
        opt_view(r) == spec_word_count_command(d@, target@),
{
    let parsed = parse_word_count_input(d.input.as_str());
    let file = match capture_or_else(&d.captures, "file", parsed.file) {
        Some(f) => f,
        None => return None,
    };
    if str_eq(target, "windows") {
        if parsed.lines_only {
            Some(concat3("Get-Content ", file.as_str(), " | Measure-Object -Line"))
        } else {
            Some(concat3("Get-Content ", file.as_str(), " | Measure-Object -Line -Word -Character"))
        }
    } else if str_eq(target, "macos") || str_eq(target, "ubuntu") {
        if parsed.lines_only {
            Some(concat2("wc -l ", file.as_str()))
        } else {
            Some(concat2("wc ", file.as_str()))
        }
    } else {
        None
    }
}

fn normalize_listening_ports_command(d: &Detection, target: &str) -> (r: Option<String>)
    ensures
        opt_view(r) == spec_listening_ports_command(d@, target@),
{
    if str_eq(target, "windows") {
        Some("Get-NetTCPConnection -State Listen".to_owned())
    } else if str_eq(target, "macos") {
        let lowered = text::lower_string(d.input.as_str());
        let lc = chars_of(lowered.as_str());
        let needle = chars_of("netstat -ano");
        if str_eq(d.source_platform.as_str(), "windows_cmd") || text::chars_contains(&lc, &needle) {
            Some("netstat -an".to_owned())
        } else {
            Some("lsof -i -P -n | grep LISTEN".to_owned())
        }
    } else if str_eq(target, "ubuntu") {
        Some("ss -tulnp".to_owned())
    } else {
        None
    }
}

fn normalize_process_by_port_command(d: &Detection, target: &str) -> (r: Option<String>)
    ensures
        opt_view(r) == spec_process_by_port_command(d@, target@),
{
    let parsed = parse_port_query_input(d.input.as_str());
    let fallback = capture_or_else(&d.captures, "port_token", parsed);
    let raw = match capture_or_else(&d.captures, "port", fallback) {
        Some(p) => p,
        None => return None,
    };
    let port = strip_port_prefix(raw.as_str());
    if str_eq(target, "windows") {
        Some(concat2("Get-NetTCPConnection -LocalPort ", port.as_str()))
    } else if str_eq(target, "macos") || str_eq(target, "ubuntu") {
        Some(concat2("lsof -i :", port.as_str()))
    } else {
        None
    }
}

fn normalized_command(d: &Detection, target: &str) -> (r: Option<String>)
    ensures
        opt_view(r) == spec_normalized_command(d@, target@),
{
    let intent = d.intent.intent.as_str();
    if str_eq(intent, "list_files") || str_eq(intent, "list_all_files") {
        normalize_list_command(d, target)
    } else if str_eq(intent, "ping_host") {
        normalize_ping_command(d, target)
    } else if str_eq(intent, "search_text") {
        normalize_search_text_command(d, target)
    } else if str_eq(intent, "count_lines_words_chars") {
        normalize_word_count_command(d, target)
    } else if str_eq(intent, "list_listening_ports") {
        normalize_listening_ports_command(d, target)
    } else if str_eq(intent, "process_by_port") {
        normalize_process_by_port_command(d, target)
    } else {
        None
    }
}


/// `s` with repeated entries removed, keeping the first occurrence.
pub open spec fn spec_dedupe(s: Seq<Seq<char>>) -> Seq<Seq<char>>
    decreases s.len(),
{
    if s.len() == 0 {
        Seq::empty()
    } else {
        let d = spec_dedupe(s.drop_last());
        if d.contains(s.last()) {
            d
        } else {
            d.push(s.last())
        }
    }
}

/// The normalised command first, then the suggestions, without repeats.
pub open spec fn spec_prepend(normalized: Option<Seq<char>>, suggestions: Seq<Seq<char>>) -> Seq<Seq<char>> {
    spec_dedupe(opt_part(normalized) + suggestions)
}

fn contains_string(v: &Vec<String>, s: &str) -> (r: bool)
    ensures
        r == text::views(v@).contains(s@),
{
    let mut i: usize = 0;
    while i < v.len()
        invariant
            i <= v@.len(),
            forall|j: int| 0 <= j < i ==> (#[trigger] v@[j])@ != s@,
        decreases v.len() - i,
    {
        if str_eq(v[i].as_str(), s) {
            assert(text::views(v@)[i as int] == s@);
            return true;
        }
        i = i + 1;
    }
    assert forall|j: int| 0 <= j < text::views(v@).len() implies text::views(v@)[j] != s@ by {
        assert(text::views(v@)[j] == v@[j]@);
    }
    false
}

fn prepend_suggestion(normalized: Option<String>, suggestions: Vec<String>) -> (r: Vec<String>)
    ensures
        text::views(r@) == spec_prepend(opt_view(normalized), text::views(suggestions@)),
{
    let ghost all = opt_part(opt_view(normalized)) + text::views(suggestions@);
    let mut candidates: Vec<String> = Vec::new();
    match normalized {
        Some(n) => candidates.push(n),
        None => {},
    }
    let mut k: usize = 0;
    while k < suggestions.len()
        invariant
            k <= suggestions@.len(),
            all == opt_part(opt_view(normalized)) + text::views(suggestions@),
            text::views(candidates@) == opt_part(opt_view(normalized)) + text::views(suggestions@).subrange(0, k as int),
        decreases suggestions.len() - k,
    {
        let ghost before = text::views(candidates@);
        candidates.push(suggestions[k].clone());
        assert(text::views(candidates@) =~= before.push(suggestions@[k as int]@));
        assert(text::views(suggestions@).subrange(0, k + 1) =~= text::views(suggestions@).subrange(0, k as int).push(
            suggestions@[k as int]@,
        ));
        k = k + 1;
    }
    assert(text::views(suggestions@).subrange(0, suggestions@.len() as int) =~= text::views(suggestions@));
    let ghost cs = text::views(candidates@);
    let mut ordered: Vec<String> = Vec::new();
    let mut i: usize = 0;
    assert(text::views(ordered@) =~= spec_dedupe(cs.subrange(0, 0)));
    while i < candidates.len()
        invariant
            i <= candidates@.len(),
            cs == text::views(candidates@),
            text::views(ordered@) == spec_dedupe(cs.subrange(0, i as int)),
        decreases candidates.len() - i,
    {
        proof {
            assert(cs.subrange(0, i + 1).drop_last() =~= cs.subrange(0, i as int));
            assert(cs.subrange(0, i + 1).last() == candidates@[i as int]@);
        }
        if !contains_string(&ordered, candidates[i].as_str()) {
            let ghost before = text::views(ordered@);
            ordered.push(candidates[i].clone());
            assert(text::views(ordered@) =~= before.push(candidates@[i as int]@));
        }
        i = i + 1;
    }
    assert(cs.subrange(0, cs.len() as int) =~= cs);
    ordered
}

/// Whether a token of `command` is still a `<placeholder>`.
pub open spec fn spec_contains_placeholder(command: Seq<char>) -> bool {
    exists|i: int| 0 <= i < text::split_ws(command).len() && #[trigger] rules::spec_placeholder(text::split_ws(command)[i]) is Some
}

fn contains_placeholder(command: &str) -> (r: bool)
    ensures
        r == spec_contains_placeholder(command@),
{
    let tokens = split_whitespace(command);
    let mut i: usize = 0;
    while i < tokens.len()
        invariant
            i <= tokens@.len(),
            text::views(tokens@) == text::split_ws(command@),
            forall|j: int| 0 <= j < i ==> #[trigger] rules::spec_placeholder(text::split_ws(command@)[j]) is None,
        decreases tokens.len() - i,
    {
        assert(text::split_ws(command@)[i as int] == tokens@[i as int]@);
        if rules::placeholder_name(tokens[i].as_str()).is_some() {
            return true;
        }
        i = i + 1;
    }
    false
}

/// The examples of the target filled with the captured values, those still
/// holding a placeholder left out.
pub open spec fn spec_filled(examples: Seq<Seq<char>>, caps: Map<Seq<char>, Seq<char>>) -> Seq<Seq<char>>
    decreases examples.len(),
{
    if examples.len() == 0 {
        Seq::empty()
    } else {
        let rest = spec_filled(examples.drop_last(), caps);
        let f = rules::spec_apply_template(examples.last(), caps);
        if spec_contains_placeholder(f) {
            rest
        } else {
            rest.push(f)
        }
    }
}

/// The name shown for a platform key.
pub open spec fn spec_display_platform_name(platform: Seq<char>) -> Seq<char> {
    if platform == "windows_cmd"@ {
        "Windows CMD"@
    } else if platform == "powershell"@ {
        "PowerShell"@
    } else if platform == "windows"@ {
        "Windows"@
    } else if platform == "macos"@ {
        "macOS"@
    } else if platform == "linux"@ || platform == "ubuntu"@ {
        "Ubuntu"@
    } else {
        platform
    }
}

/// The name shown for a platform key; unknown keys are shown as they are.
pub fn display_platform_name(platform: &str) -> (r: &str)
    ensures
        r@ == spec_display_platform_name(platform@),
{
    if str_eq(platform, "windows_cmd") {
        "Windows CMD"
    } else if str_eq(platform, "powershell") {
        "PowerShell"
    } else if str_eq(platform, "windows") {
        "Windows"
    } else if str_eq(platform, "macos") {
        "macOS"
    } else if str_eq(platform, "linux") || str_eq(platform, "ubuntu") {
        "Ubuntu"
    } else {
        platform
    }
}

/// The native commands for a detected command on a target platform.
#[derive(Debug, Clone)]
pub struct TranslationResult {
    pub command: String,
    pub source: String,
    pub target: String,
    pub description: String,
    pub category: String,
    pub risk_level: String,
    pub suggestions: Vec<String>,
}

/// A translation as values.
pub struct TranslationView {
    pub command: Seq<char>,
    pub source: Seq<char>,
    pub target: Seq<char>,
    pub description: Seq<char>,
    pub category: Seq<char>,
    pub risk_level: Seq<char>,
    pub suggestions: Seq<Seq<char>>,
}

impl View for TranslationResult {
    type V = TranslationView;

    open spec fn view(&self) -> TranslationView {
        TranslationView {
            command: self.command@,
            source: self.source@,
            target: self.target@,
            description: self.description@,
            category: self.category@,
            risk_level: self.risk_level@,
            suggestions: text::views(self.suggestions@),
        }
    }
}

/// Why a translation was refused.
#[derive(Debug, Clone)]
pub enum TranslateError {
    /// The target names no supported platform.
    UnsupportedTarget(String),
    /// The command store could not answer.
    Store(StoreError),
}

/// The suggestions for a detection on the platform with key `key`.
pub open spec fn spec_suggestions(d: DetectionView, key: Seq<char>) -> Seq<Seq<char>> {
    spec_prepend(
        spec_normalized_command(d, key),
        spec_filled(command_store::spec_target_commands(d.intent.commands, key), d.captures),
    )
}

proof fn lemma_dedupe(s: Seq<Seq<char>>)
    ensures
        spec_dedupe(s).no_duplicates(),
        forall|x: Seq<char>| #[trigger] spec_dedupe(s).contains(x) <==> s.contains(x),
        s.len() > 0 ==> spec_dedupe(s).len() > 0 && spec_dedupe(s)[0] == s[0],
    decreases s.len(),
{
    if s.len() > 0 {
        let init = s.drop_last();
        lemma_dedupe(init);
        let d = spec_dedupe(init);
        assert forall|x: Seq<char>| #[trigger] spec_dedupe(s).contains(x) <==> s.contains(x) by {
            if s.contains(x) && x != s.last() {
                let i = choose|i: int| 0 <= i < s.len() && s[i] == x;
                assert(init[i] == x);
                assert(init.contains(x));
            }
            if init.contains(x) {
                let i = choose|i: int| 0 <= i < init.len() && init[i] == x;
                assert(s[i] == x);
            }
            if !d.contains(s.last()) {
                if d.push(s.last()).contains(x) && x != s.last() {
                    let i = choose|i: int| 0 <= i < d.push(s.last()).len() && d.push(s.last())[i] == x;
                    assert(d[i] == x);
                }
                if x == s.last() {
                    assert(d.push(s.last())[d.len() as int] == x);
                }
                if d.contains(x) {
                    let i = choose|i: int| 0 <= i < d.len() && d[i] == x;
                    assert(d.push(s.last())[i] == x);
                }
            }
            assert(s[s.len() - 1] == s.last());
        }
        if init.len() > 0 {
            assert(init[0] == s[0]);
        } else {
            assert(d.len() == 0);
        }
    }
}

/// `i` is where `x` first occurs in `all`.
pub open spec fn first_at(all: Seq<Seq<char>>, x: Seq<char>, i: int) -> bool {
    0 <= i < all.len() && all[i] == x && !all.take(i).contains(x)
}

/// Where `x` first occurs in `all`.
pub open spec fn first_index(all: Seq<Seq<char>>, x: Seq<char>) -> int {
    choose|i: int| first_at(all, x, i)
}

/// An item occurs first at one place only.
proof fn lemma_first_at_unique(all: Seq<Seq<char>>, x: Seq<char>, i: int, j: int)
    requires
        first_at(all, x, i),
        first_at(all, x, j),
    ensures
        i == j,
{
    if i < j {
        assert(all.take(j)[i] == x);
    } else if j < i {
        assert(all.take(i)[j] == x);
    }
}

/// Where an item first occurs is where `first_index` says.
proof fn lemma_first_index(all: Seq<Seq<char>>, x: Seq<char>, i: int)
    requires
        first_at(all, x, i),
    ensures
        first_index(all, x) == i,
{
    let j = first_index(all, x);
    lemma_first_at_unique(all, x, i, j);
}

/// Law: removing repeats keeps exactly the first occurrence of each item,
/// in the order of those first occurrences: the result holds no repeats and
/// the same items, each item of it first occurs where `first_index` says,
/// and those places increase along the result.
pub proof fn law_dedupe_keeps_first_occurrences(all: Seq<Seq<char>>)
    ensures
        spec_dedupe(all).no_duplicates(),
        forall|x: Seq<char>| #[trigger] spec_dedupe(all).contains(x) <==> all.contains(x),
        forall|k: int| 0 <= k < spec_dedupe(all).len() ==> first_at(all, #[trigger] spec_dedupe(all)[k], first_index(all, spec_dedupe(all)[k])),
        forall|k1: int, k2: int|
            0 <= k1 < k2 < spec_dedupe(all).len() ==> first_index(all, #[trigger] spec_dedupe(all)[k1]) < first_index(
                all,
                #[trigger] spec_dedupe(all)[k2],
            ),
    decreases all.len(),
{
    lemma_dedupe(all);
    if all.len() > 0 {
        let init = all.drop_last();
        law_dedupe_keeps_first_occurrences(init);
        lemma_dedupe(init);
        let d = spec_dedupe(init);
        let last = all.last();
        assert(all.take(all.len() - 1) =~= init);
        assert(all[all.len() - 1] == last);
        assert forall|k: int| 0 <= k < d.len() implies first_at(all, #[trigger] d[k], first_index(init, d[k])) && first_index(all, d[k])
            == first_index(init, d[k]) by {
            let i = first_index(init, d[k]);
            assert(all.take(i) =~= init.take(i));
            assert(all[i] == init[i]);
            lemma_first_index(all, d[k], i);
        }
        if !d.contains(last) {
            assert(spec_dedupe(all) == d.push(last));
            assert(!init.contains(last));
            assert(first_at(all, last, all.len() - 1));
            lemma_first_index(all, last, all.len() - 1);
        } else {
            assert(spec_dedupe(all) == d);
        }
        let r = spec_dedupe(all);
        assert forall|k: int| 0 <= k < r.len() implies first_at(all, #[trigger] r[k], first_index(all, r[k])) by {
            if k < d.len() {
                assert(r[k] == d[k]);
            } else {
                assert(r[k] == last);
            }
        }
        assert forall|k1: int, k2: int| 0 <= k1 < k2 < r.len() implies first_index(all, #[trigger] r[k1]) < first_index(
            all,
            #[trigger] r[k2],
        ) by {
            assert(r[k1] == d[k1]);
            assert(first_at(all, d[k1], first_index(init, d[k1])));
            if k2 < d.len() {
                assert(r[k2] == d[k2]);
                assert(first_at(all, d[k2], first_index(init, d[k2])));
            } else {
                assert(r[k2] == last);
            }
        }
    } else {
        assert(spec_dedupe(all) =~= Seq::<Seq<char>>::empty());
    }
}

/// Law: putting the normalised command before the suggestions and removing
/// repeats keeps the first occurrence of each item in order, and puts the
/// normalised command first when there is one.
pub proof fn law_prepend_suggestion(normalized: Option<Seq<char>>, suggestions: Seq<Seq<char>>)
    ensures
        spec_prepend(normalized, suggestions) == spec_dedupe(opt_part(normalized) + suggestions),
        spec_prepend(normalized, suggestions).no_duplicates(),
        forall|x: Seq<char>| #[trigger] spec_prepend(normalized, suggestions).contains(x) <==> (normalized == Some(x)
            || suggestions.contains(x)),
        normalized matches Some(n) ==> spec_prepend(normalized, suggestions).len() > 0 && spec_prepend(normalized, suggestions)[0] == n,
{
    let all = opt_part(normalized) + suggestions;
    law_dedupe_keeps_first_occurrences(all);
    lemma_dedupe(all);
    assert forall|x: Seq<char>| #[trigger] all.contains(x) <==> (normalized == Some(x) || suggestions.contains(x)) by {
        match normalized {
            Some(n) => {
                if all.contains(x) && x != n {
                    let i = choose|i: int| 0 <= i < all.len() && all[i] == x;
                    assert(suggestions[i - 1] == x);
                }
                if suggestions.contains(x) {
                    let i = choose|i: int| 0 <= i < suggestions.len() && suggestions[i] == x;
                    assert(all[i + 1] == x);
                }
                if x == n {
                    assert(all[0] == n);
                }
            },
            None => {
                assert(all =~= suggestions);
            },
        }
    }
    if normalized is Some {
        assert(all[0] == normalized->Some_0);
    }
}

/// Law: the suggestions of a translation hold no repeats, miss none of the
/// filled examples, and start with the normalised command when there is
/// one.
pub proof fn law_suggestions_unique_complete(d: DetectionView, key: Seq<char>)
    ensures
        spec_suggestions(d, key).no_duplicates(),
        forall|x: Seq<char>|
            #[trigger] spec_suggestions(d, key).contains(x) <==> (spec_normalized_command(d, key) == Some(x) || spec_filled(
                command_store::spec_target_commands(d.intent.commands, key),
                d.captures,
            ).contains(x)),
        spec_normalized_command(d, key) matches Some(n) ==> spec_suggestions(d, key).len() > 0 && spec_suggestions(d, key)[0] == n,
{
    let filled = spec_filled(command_store::spec_target_commands(d.intent.commands, key), d.captures);
    let all = opt_part(spec_normalized_command(d, key)) + filled;
    lemma_dedupe(all);
    assert forall|x: Seq<char>| #[trigger] all.contains(x) <==> (spec_normalized_command(d, key) == Some(x) || filled.contains(x)) by {
        match spec_normalized_command(d, key) {
            Some(n) => {
                assert(opt_part(spec_normalized_command(d, key)) == seq![n]);
                if all.contains(x) && x != n {
                    let i = choose|i: int| 0 <= i < all.len() && all[i] == x;
                    assert(i > 0);
                    assert(filled[i - 1] == x);
                }
                if filled.contains(x) {
                    let i = choose|i: int| 0 <= i < filled.len() && filled[i] == x;
                    assert(all[i + 1] == x);
                }
                if x == n {
                    assert(all[0] == n);
                }
            },
            None => {
                assert(opt_part(spec_normalized_command(d, key)) =~= Seq::<Seq<char>>::empty());
                assert(all =~= filled);
            },
        }
    }
    match spec_normalized_command(d, key) {
        Some(n) => {
            assert(all[0] == n);
        },
        None => {},
    }
}

/// What translating `d` for `target` gives: `None` for a target that names
/// no platform, `Some(None)` when there is nothing to suggest.
pub open spec fn spec_translate(d: DetectionView, target: Seq<char>) -> Option<Option<TranslationView>> {
    match platform::spec_target_platform(target) {
        None => None,
        Some(p) => {
            let sugg = spec_suggestions(d, p.spec_key());
            if sugg.len() == 0 {
                Some(None)
            } else {
                Some(Some(TranslationView {
                    command: d.command,
                    source: spec_display_platform_name(d.source_platform),
                    target: p.spec_key(),
                    description: d.intent.description,
                    category: d.intent.category,
                    risk_level: d.intent.risk_level,
                    suggestions: sugg,
                }))
            }
        },
    }
}

/// Law: a translation that `translate_detection` gives is for the target's
/// platform key, keeps the detection's command and the intent's risk level,
/// and has suggestions: at least one, none repeated, the normalised command
/// first when there is one, and each either that command or a filled
/// example of the target.
pub proof fn law_translation_suggestions(d: DetectionView, target: Seq<char>)
    ensures
        spec_translate(d, target) matches Some(Some(t)) ==> ({
            let key = platform::spec_target_platform(target)->Some_0.spec_key();
            &&& t.target == key
            &&& t.command == d.command
            &&& t.source == spec_display_platform_name(d.source_platform)
            &&& t.risk_level == d.intent.risk_level
            &&& t.suggestions.len() > 0
            &&& t.suggestions.no_duplicates()
            &&& (spec_normalized_command(d, key) matches Some(n) ==> t.suggestions[0] == n)
            &&& forall|x: Seq<char>| #[trigger] t.suggestions.contains(x) <==> (spec_normalized_command(d, key) == Some(x)
                || spec_filled(command_store::spec_target_commands(d.intent.commands, key), d.captures).contains(x))
        }),
{
    if let Some(p) = platform::spec_target_platform(target) {
        law_suggestions_unique_complete(d, p.spec_key());
    }
}

/// The translation as values, when there is one.
pub open spec fn opt_translation(o: Option<TranslationResult>) -> Option<TranslationView> {
    match o {
        Some(t) => Some(t@),
        None => None,
    }
}

/// Translates a detected command for `target` (`macos`, `linux`/`ubuntu`,
/// `windows`).
pub fn translate_detection(detection: &Detection, target: &str) -> (r: Result<Option<TranslationResult>, TranslateError>)
    ensures
        match spec_translate(detection@, target@) {
            None => r matches Err(TranslateError::UnsupportedTarget(t)) && t@ == target@,
            Some(o) => r matches Ok(x) && opt_translation(x) == o,
        },
{
    let platform = match normalize_target_platform(target) {
        Some(p) => p,
        None => return Err(TranslateError::UnsupportedTarget(target.to_owned())),
    };
    let key = platform.key();
    let examples = detection.intent.target_commands(key);
    let ghost exs = text::views(examples@);
    let mut filled: Vec<String> = Vec::new();
    let mut i: usize = 0;
    assert(text::views(filled@) =~= spec_filled(exs.subrange(0, 0), detection.captures@));
    while i < examples.len()
        invariant
            i <= examples@.len(),
            exs == text::views(examples@),
            text::views(filled@) == spec_filled(exs.subrange(0, i as int), detection.captures@),
        decreases examples.len() - i,
    {
        proof {
            assert(exs.subrange(0, i + 1).drop_last() =~= exs.subrange(0, i as int));
            assert(exs.subrange(0, i + 1).last() == examples@[i as int]@);
        }
        let f = apply_template_captures(examples[i].as_str(), &detection.captures);
        if !contains_placeholder(f.as_str()) {
            let ghost before = text::views(filled@);
            filled.push(f);
            assert(text::views(filled@) =~= before.push(f@));
        }
        i = i + 1;
    }
    assert(exs.subrange(0, exs.len() as int) =~= exs);
    let normalized = normalized_command(detection, key);
    let suggestions = prepend_suggestion(normalized, filled);
    if suggestions.len() == 0 {
        assert(text::views(suggestions@).len() == 0);
        return Ok(None);
    }
    Ok(Some(TranslationResult {
        command: detection.command.clone(),
        source: display_platform_name(detection.source_platform.as_str()).to_owned(),
        target: key.to_owned(),
        description: detection.intent.description.clone(),
        category: detection.intent.category.clone(),
        risk_level: detection.intent.risk_level.clone(),
        suggestions,
    }))
}

/// What translating `input` for `target` gives, once the store answered
/// `lookup` for it.
pub open spec fn spec_translate_command(input: Seq<char>, target: Seq<char>, lookup: Result<Option<command_store::CommandRecordView>, StoreError>)
    -> Result<Option<Option<TranslationView>>, StoreError> {
    match lookup {
        Err(e) => Err(e),
        Ok(None) => Ok(Some(None)),
        Ok(Some(rec)) => match crate::detector::spec_detection(input, rec) {
            None => Ok(Some(None)),
            Some(d) => Ok(spec_translate(d, target)),
        },
    }
}

/// Detects `input` in `store` and translates it for `target`.
pub fn translate_command<S: CommandStore>(input: &str, target: &str, store: &S) -> (r: Result<Option<TranslationResult>, TranslateError>)
    ensures
        match spec_translate_command(input@, target@, store.command_lookup(input@)) {
            Err(e) => r matches Err(TranslateError::Store(x)) && x == e,
            Ok(None) => r matches Err(TranslateError::UnsupportedTarget(t)) && t@ == target@,
            Ok(Some(o)) => r matches Ok(x) && opt_translation(x) == o,
        },
{
    let detection = match detect_command(input, store) {
        Ok(Some(d)) => d,
        Ok(None) => return Ok(None),
        Err(e) => return Err(TranslateError::Store(e)),
    };
    translate_detection(&detection, target)
}

} // verus!
