//! Normalized lookup keys of the command index.
use vstd::prelude::*;

use crate::text::{chars_eq, chars_of, join_chars, lower_chars, push_str, split_whitespace_chars, string_of, trim_chars};

verus! {

broadcast use vstd::string::group_string_axioms;

/// The whitespace tokens of `input`, lower-cased and joined by single spaces.
pub open spec fn spec_normalize_command(input: Seq<char>) -> Seq<char> {
    crate::text::join(crate::text::split_ws(input).map_values(|t: Seq<char>| crate::text::lower(t)), seq![' '])
}

/// `intent` trimmed and lower-cased.
pub open spec fn spec_normalize_intent(intent: Seq<char>) -> Seq<char> {
    crate::text::lower(crate::text::trim(intent))
}

/// `s` with every space replaced by an underscore.
pub open spec fn spaces_to_underscores(s: Seq<char>) -> Seq<char> {
    s.map_values(|c: char| if c == ' ' { '_' } else { c })
}

/// `category` trimmed and lower-cased, `networking` folded into `network`,
/// spaces turned into underscores.
pub open spec fn spec_normalize_category(category: Seq<char>) -> Seq<char> {
    let t = crate::text::lower(crate::text::trim(category));
    if t == "networking"@ || t == "network"@ {
        "network"@
    } else {
        spaces_to_underscores(t)
    }
}

/// The index key of an example command.
pub open spec fn spec_exact_command_key(command: Seq<char>) -> Seq<char> {
    "exact:"@ + spec_normalize_command(command)
}

/// The index key of an intent.
pub open spec fn spec_intent_key(intent: Seq<char>) -> Seq<char> {
    "intent:"@ + spec_normalize_intent(intent)
}

/// The key prefix of a category.
pub open spec fn spec_category_prefix(category: Seq<char>) -> Seq<char> {
    "category:"@ + spec_normalize_category(category) + ":"@
}

/// The index key of an intent filed under a category.
pub open spec fn spec_category_key(category: Seq<char>, intent: Seq<char>) -> Seq<char> {
    spec_category_prefix(category) + spec_normalize_intent(intent)
}

/// Lower-cases each token.
fn lower_all(parts: Vec<Vec<char>>) -> (r: Vec<Vec<char>>)
    ensures
        r@.map_values(|t: Vec<char>| t@) == parts@.map_values(|t: Vec<char>| t@).map_values(
            |t: Seq<char>| crate::text::lower(t),
        ),
{
    let ghost target = parts@.map_values(|t: Vec<char>| t@).map_values(|t: Seq<char>| crate::text::lower(t));
    let mut r: Vec<Vec<char>> = Vec::new();
    let mut i: usize = 0;
    while i < parts.len()
        invariant
            i <= parts.len(),
            target == parts@.map_values(|t: Vec<char>| t@).map_values(|t: Seq<char>| crate::text::lower(t)),
            r@.map_values(|t: Vec<char>| t@) == target.subrange(0, i as int),
        decreases parts.len() - i,
    {
        let l = lower_chars(&parts[i]);
        let ghost before = r@.map_values(|t: Vec<char>| t@);
        r.push(l);
        assert(parts@.map_values(|t: Vec<char>| t@)[i as int] == parts@[i as int]@);
        assert(target[i as int] == crate::text::lower(parts@[i as int]@));
        assert(r@.map_values(|t: Vec<char>| t@) =~= before.push(l@));
        assert(target.subrange(0, i + 1) =~= target.subrange(0, i as int).push(target[i as int]));
        i = i + 1;
    }
    assert(target.subrange(0, parts@.len() as int) =~= target);
    r
}

/// The whitespace tokens of `input`, lower-cased and joined by single spaces.
pub fn normalize_command(input: &str) -> (r: String)
    ensures
        r@ == spec_normalize_command(input@),
{
    let chars = chars_of(input);
    let parts = split_whitespace_chars(&chars);
    let lowered = lower_all(parts);
    let sep: [char; 1] = [' '];
    let joined = join_chars(&lowered, &sep);
    assert(sep@ =~= seq![' ']);
    string_of(&joined)
}

/// `intent` trimmed and lower-cased.
pub fn normalize_intent(intent: &str) -> (r: String)
    ensures
        r@ == spec_normalize_intent(intent@),
{
    let chars = chars_of(intent);
    let t = trim_chars(&chars);
    let l = lower_chars(&t);
    string_of(&l)
}

/// `category` trimmed and lower-cased, `networking` folded into `network`,
/// spaces turned into underscores.
pub fn normalize_category(category: &str) -> (r: String)
    ensures
        r@ == spec_normalize_category(category@),
{
    let chars = chars_of(category);
    let t = trim_chars(&chars);
    let l = lower_chars(&t);
    let networking = chars_of("networking");
    let network = chars_of("network");
    if chars_eq(&l, &networking) || chars_eq(&l, &network) {
        return string_of(&network);
    }
    let mut out: Vec<char> = Vec::new();
    let mut i: usize = 0;
    while i < l.len()
        invariant
            i <= l.len(),
            out@ == spaces_to_underscores(l@.subrange(0, i as int)),
        decreases l.len() - i,
    {
        let c = l[i];
        out.push(if c == ' ' { '_' } else { c });
        i = i + 1;
        assert(out@ =~= spaces_to_underscores(l@.subrange(0, i as int)));
    }
    assert(l@ =~= l@.subrange(0, l@.len() as int));
    string_of(&out)
}

/// The index key of an example command: `exact:` and its normal form.
pub fn exact_command_key(command: &str) -> (r: String)
    ensures
        r@ == spec_exact_command_key(command@),
{
    let mut key = String::new();
    push_str(&mut key, "exact:");
    let n = normalize_command(command);
    push_str(&mut key, n.as_str());
    key
}

/// The index key of an intent: `intent:` and its normal form.
pub fn intent_key(intent: &str) -> (r: String)
    ensures
        r@ == spec_intent_key(intent@),
{
    let mut key = String::new();
    push_str(&mut key, "intent:");
    let n = normalize_intent(intent);
    push_str(&mut key, n.as_str());
    key
}

/// The key prefix shared by all intents of a category.
pub fn category_prefix(category: &str) -> (r: String)
    ensures
        r@ == spec_category_prefix(category@),
{
    let mut key = String::new();
    push_str(&mut key, "category:");
    let c = normalize_category(category);
    push_str(&mut key, c.as_str());
    push_str(&mut key, ":");
    key
}

/// The index key of an intent filed under a category.
pub fn category_key(category: &str, intent: &str) -> (r: String)
    ensures
        r@ == spec_category_key(category@, intent@),
{
    let mut key = category_prefix(category);
    let i = normalize_intent(intent);
    push_str(&mut key, i.as_str());
    key
}

/// A non-empty run of non-whitespace characters.
pub open spec fn is_word(t: Seq<char>) -> bool {
    t.len() > 0 && forall|i: int| 0 <= i < t.len() ==> !crate::text::is_ws(#[trigger] t[i])
}

proof fn lemma_split_consume(a: Seq<char>, b: Seq<char>, cur: Seq<char>)
    requires
        forall|i: int| 0 <= i < a.len() ==> !crate::text::is_ws(#[trigger] a[i]),
    ensures
        crate::text::split_ws_from(a + b, cur) == crate::text::split_ws_from(b, cur + a),
    decreases a.len(),
{
    if a.len() == 0 {
        assert(a + b =~= b);
        assert(cur + a =~= cur);
    } else {
        assert((a + b)[0] == a[0]);
        assert((a + b).drop_first() =~= a.drop_first() + b);
        assert(cur.push(a[0]) + a.drop_first() =~= cur + a);
        assert forall|i: int| 0 <= i < a.drop_first().len() implies !crate::text::is_ws(#[trigger] a.drop_first()[i]) by {
            assert(a.drop_first()[i] == a[i + 1]);
        }
        lemma_split_consume(a.drop_first(), b, cur.push(a[0]));
    }
}

proof fn lemma_join_cons(ts: Seq<Seq<char>>, sep: Seq<char>)
    requires
        ts.len() >= 2,
    ensures
        crate::text::join(ts, sep) == ts[0] + sep + crate::text::join(ts.drop_first(), sep),
    decreases ts.len(),
{
    let init = ts.drop_last();
    let tail = ts.drop_first();
    if ts.len() == 2 {
        assert(crate::text::join(init, sep) == init[0]);
        assert(crate::text::join(tail, sep) == tail[0]);
    } else {
        lemma_join_cons(init, sep);
        assert(init.drop_first() =~= tail.drop_last());
        assert(tail.last() == ts.last());
        assert(init[0] == ts[0]);
        assert(crate::text::join(ts, sep) =~= ts[0] + sep + crate::text::join(tail, sep));
    }
}

/// Splitting words joined by single spaces gives the words back.
proof fn lemma_split_join(ts: Seq<Seq<char>>)
    requires
        forall|k: int| 0 <= k < ts.len() ==> is_word(#[trigger] ts[k]),
    ensures
        crate::text::split_ws(crate::text::join(ts, seq![' '])) == ts,
    decreases ts.len(),
{
    let sp = seq![' '];
    assert(crate::text::is_ws(' '));
    if ts.len() == 0 {
        assert(crate::text::join(ts, sp) =~= Seq::<char>::empty());
        assert(crate::text::split_ws(Seq::<char>::empty()) =~= ts);
    } else if ts.len() == 1 {
        assert(is_word(ts[0]));
        lemma_split_consume(ts[0], Seq::empty(), Seq::empty());
        assert(ts[0] + Seq::<char>::empty() =~= ts[0]);
        assert(Seq::<char>::empty() + ts[0] =~= ts[0]);
        assert(crate::text::split_ws(crate::text::join(ts, sp)) =~= ts);
    } else {
        lemma_join_cons(ts, sp);
        let rest = ts.drop_first();
        let j = crate::text::join(rest, sp);
        assert(is_word(ts[0]));
        assert(ts[0] + sp + j =~= ts[0] + (sp + j));
        lemma_split_consume(ts[0], sp + j, Seq::empty());
        assert(Seq::<char>::empty() + ts[0] =~= ts[0]);
        assert((sp + j)[0] == ' ');
        assert((sp + j).drop_first() =~= j);
        assert forall|k: int| 0 <= k < rest.len() implies is_word(#[trigger] rest[k]) by {
            assert(rest[k] == ts[k + 1]);
        }
        lemma_split_join(rest);
        assert(crate::text::split_ws(crate::text::join(ts, sp)) =~= seq![ts[0]] + rest);
        assert(seq![ts[0]] + rest =~= ts);
    }
}

/// The runs that splitting finds are words.
proof fn lemma_split_words(s: Seq<char>, cur: Seq<char>)
    requires
        forall|i: int| 0 <= i < cur.len() ==> !crate::text::is_ws(#[trigger] cur[i]),
    ensures
        forall|k: int| 0 <= k < crate::text::split_ws_from(s, cur).len() ==> is_word(#[trigger] crate::text::split_ws_from(s, cur)[k]),
    decreases s.len(),
{
    let r = crate::text::split_ws_from(s, cur);
    if s.len() == 0 {
        if cur.len() > 0 {
            assert(r[0] == cur);
            assert(is_word(cur));
        }
    } else if crate::text::is_ws(s[0]) {
        lemma_split_words(s.drop_first(), Seq::empty());
        if cur.len() == 0 {
            assert(r == crate::text::split_ws_from(s.drop_first(), Seq::empty()));
            assert forall|k: int| 0 <= k < r.len() implies is_word(#[trigger] r[k]) by {
                assert(r[k] == crate::text::split_ws_from(s.drop_first(), Seq::empty())[k]);
            }
        }
        if cur.len() > 0 {
            let rest = crate::text::split_ws_from(s.drop_first(), Seq::empty());
            assert(is_word(cur));
            assert forall|k: int| 0 <= k < r.len() implies is_word(#[trigger] r[k]) by {
                if k > 0 {
                    assert(r[k] == rest[k - 1]);
                } else {
                    assert(r[0] == cur);
                }
            }
        }
    } else {
        let c2 = cur.push(s[0]);
        assert forall|i: int| 0 <= i < c2.len() implies !crate::text::is_ws(#[trigger] c2[i]) by {
            if i < cur.len() {
                assert(c2[i] == cur[i]);
            }
        }
        lemma_split_words(s.drop_first(), c2);
        assert(r == crate::text::split_ws_from(s.drop_first(), c2));
        assert forall|k: int| 0 <= k < r.len() implies is_word(#[trigger] r[k]) by {
            assert(r[k] == crate::text::split_ws_from(s.drop_first(), c2)[k]);
        }
    }
}

proof fn lemma_lower_word(t: Seq<char>)
    ensures
        is_word(t) ==> is_word(crate::text::lower(t)),
        crate::text::lower(crate::text::lower(t)) == crate::text::lower(t),
{
    let l = crate::text::lower(t);
    assert(crate::text::lower(l) =~= l);
    if is_word(t) {
        assert forall|i: int| 0 <= i < l.len() implies !crate::text::is_ws(#[trigger] l[i]) by {
            assert(l[i] == crate::text::lower_char(t[i]));
            assert(!crate::text::is_ws(t[i]));
        }
    }
}

/// Law: a normalized command is its own normal form, so the key of a
/// normalized command is the key of the command.
pub proof fn law_normalize_command_idempotent(input: Seq<char>)
    ensures
        spec_normalize_command(spec_normalize_command(input)) == spec_normalize_command(input),
        spec_exact_command_key(spec_normalize_command(input)) == spec_exact_command_key(input),
{
    let ws = crate::text::split_ws(input);
    let ls = ws.map_values(|t: Seq<char>| crate::text::lower(t));
    lemma_split_words(input, Seq::empty());
    assert forall|k: int| 0 <= k < ls.len() implies is_word(#[trigger] ls[k]) by {
        lemma_lower_word(ws[k]);
    }
    lemma_split_join(ls);
    assert(ls.map_values(|t: Seq<char>| crate::text::lower(t)) =~= ls) by {
        assert forall|k: int| 0 <= k < ls.len() implies #[trigger] crate::text::lower(ls[k]) == ls[k] by {
            lemma_lower_word(ws[k]);
        }
    }
}

} // verus!
