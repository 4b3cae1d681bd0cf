//! Where the runtime data files are looked for.
//!
//! The embedding program gathers the candidate directories (from the
//! environment, the working directory, the executable's location and the
//! system data directories) and which files exist in each; the choice of
//! directory and the report of what is missing are made here.
use vstd::prelude::*;

use crate::text;
use crate::text::{chars_of, join_strings, push_char, push_str, str_eq, trim_str};

verus! {

broadcast use vstd::string::group_string_axioms;

/// The environment variable that points at the installer's bundled data.
pub const BUNDLED_DATA_DIR_ENV_VAR: &'static str = "CLI4ALL_BUNDLED_DATA_DIR";

/// A candidate data directory.
#[derive(Debug, Clone)]
pub enum CandidateDir {
    /// A directory named by the user; surrounding blanks are ignored and an
    /// empty name names nothing.
    Configured(String),
    /// A directory derived by the program.
    Fixed(String),
}

/// The directory a candidate names, if any.
pub open spec fn candidate_path(c: CandidateDir) -> Option<Seq<char>> {
    match c {
        CandidateDir::Configured(s) => if text::trim(s@).len() > 0 {
            Some(text::trim(s@))
        } else {
            None
        },
        CandidateDir::Fixed(s) => Some(s@),
    }
}

/// The pieces of `p` between its `/` separators, empty ones included.
pub open spec fn split_slash(p: Seq<char>) -> Seq<Seq<char>>
    decreases p.len(),
{
    if p.len() == 0 {
        seq![Seq::empty()]
    } else {
        let s = split_slash(p.drop_last());
        if p.last() == '/' {
            s.push(Seq::empty())
        } else {
            s.update(s.len() - 1, s.last().push(p.last()))
        }
    }
}

/// Splitting yields at least one piece.
pub proof fn lemma_split_nonempty(p: Seq<char>)
    ensures
        split_slash(p).len() >= 1,
    decreases p.len(),
{
    if p.len() > 0 {
        lemma_split_nonempty(p.drop_last());
    }
}

/// The pieces that name a directory step: neither empty nor `.`.
pub open spec fn named_parts(parts: Seq<Seq<char>>) -> Seq<Seq<char>>
    decreases parts.len(),
{
    if parts.len() == 0 {
        Seq::empty()
    } else {
        let rest = named_parts(parts.drop_last());
        if parts.last().len() == 0 || parts.last() == "."@ {
            rest
        } else {
            rest.push(parts.last())
        }
    }
}

/// The components of a path: `/` for a root, `.` for a path that starts
/// with a current-directory step, then the named steps. Repeated and
/// trailing separators and inner `.` steps leave them unchanged, so
/// `/x/data/`, `/x//data` and `/x/./data` are the same path as `/x/data`.
pub open spec fn spec_path_components(p: Seq<char>) -> Seq<Seq<char>> {
    let parts = split_slash(p);
    if p.len() > 0 && p[0] == '/' {
        seq!["/"@] + named_parts(parts)
    } else if parts[0] == "."@ {
        seq!["."@] + named_parts(parts.drop_first())
    } else {
        named_parts(parts)
    }
}

/// Two spellings name the same path.
pub open spec fn same_path(a: Seq<char>, b: Seq<char>) -> bool {
    spec_path_components(a) == spec_path_components(b)
}

/// One of `dirs` names the same path as `p`.
pub open spec fn has_path(dirs: Seq<Seq<char>>, p: Seq<char>) -> bool {
    exists|j: int| 0 <= j < dirs.len() && same_path(#[trigger] dirs[j], p)
}

/// The directories the candidates name, each path once (the first spelling
/// of it), in first-seen order.
pub open spec fn spec_candidate_dirs(cs: Seq<CandidateDir>) -> Seq<Seq<char>>
    decreases cs.len(),
{
    if cs.len() == 0 {
        Seq::empty()
    } else {
        let d = spec_candidate_dirs(cs.drop_last());
        match candidate_path(cs.last()) {
            Some(p) => if has_path(d, p) {
                d
            } else {
                d.push(p)
            },
            None => d,
        }
    }
}

/// The pieces of `p` between its separators.
fn split_path(p: &str) -> (r: Vec<String>)
    ensures
        text::views(r@) == split_slash(p@),
{
    let cs = chars_of(p);
    let mut done: Vec<String> = Vec::new();
    let mut cur = String::new();
    let mut i: usize = 0;
    assert(cs@.subrange(0, 0) =~= Seq::<char>::empty());
    assert(text::views(done@).push(cur@) =~= split_slash(Seq::<char>::empty()));
    while i < cs.len()
        invariant
            i <= cs@.len(),
            cs@ == p@,
            text::views(done@).push(cur@) == split_slash(cs@.subrange(0, i as int)),
        decreases cs.len() - i,
    {
        let ghost pre = cs@.subrange(0, i as int);
        let ghost now = cs@.subrange(0, i + 1);
        assert(now.drop_last() =~= pre);
        assert(now.last() == cs@[i as int]);
        let ghost before = text::views(done@);
        let ghost cur0 = cur@;
        if cs[i] == '/' {
            let finished = cur;
            done.push(finished);
            cur = String::new();
            assert(text::views(done@) =~= before.push(cur0));
            assert(text::views(done@).push(cur@) =~= before.push(cur0).push(Seq::<char>::empty()));
        } else {
            push_char(&mut cur, cs[i]);
            assert(text::views(done@).push(cur@) =~= before.push(cur0).update(before.len() as int, cur0.push(cs@[i as int])));
        }
        i = i + 1;
    }
    assert(cs@.subrange(0, cs@.len() as int) =~= p@);
    let ghost before = text::views(done@);
    done.push(cur);
    assert(text::views(done@) =~= before.push(cur@));
    done
}

/// The components of a path, as `spec_path_components` gives them.
pub fn path_components(p: &str) -> (r: Vec<String>)
    ensures
        text::views(r@) == spec_path_components(p@),
{
    let parts = split_path(p);
    let ghost ps = text::views(parts@);
    proof {
        lemma_split_nonempty(p@);
    }
    let mut out: Vec<String> = Vec::new();
    let mut start: usize = 0;
    let rooted = p.unicode_len() > 0 && p.get_char(0) == '/';
    if rooted {
        out.push("/".to_owned());
    } else if str_eq(parts[0].as_str(), ".") {
        out.push(".".to_owned());
        start = 1;
    }
    let ghost head = text::views(out@);
    assert(ps.subrange(start as int, start as int) =~= Seq::<Seq<char>>::empty());
    assert(head + named_parts(Seq::<Seq<char>>::empty()) =~= head);
    let mut k: usize = start;
    while k < parts.len()
        invariant
            start <= k <= parts@.len(),
            ps == text::views(parts@),
            text::views(out@) == head + named_parts(ps.subrange(start as int, k as int)),
        decreases parts.len() - k,
    {
        let ghost sub = ps.subrange(start as int, k + 1);
        assert(sub.drop_last() =~= ps.subrange(start as int, k as int));
        assert(sub.last() == parts@[k as int]@);
        let ghost before = text::views(out@);
        if parts[k].unicode_len() == 0 || str_eq(parts[k].as_str(), ".") {
        } else {
            out.push(parts[k].clone());
            assert(text::views(out@) =~= before.push(parts@[k as int]@));
        }
        k = k + 1;
    }
    assert(ps.subrange(start as int, ps.len() as int) =~= (if start == 0 { ps } else { ps.drop_first() }));
    out
}

/// The two lists hold the same strings.
fn same_strings(a: &Vec<String>, b: &Vec<String>) -> (r: bool)
    ensures
        r == (text::views(a@) == text::views(b@)),
{
    if a.len() != b.len() {
        assert(text::views(a@).len() != text::views(b@).len());
        return false;
    }
    let mut i: usize = 0;
    while i < a.len()
        invariant
            i <= a@.len(),
            a@.len() == b@.len(),
            forall|j: int| 0 <= j < i ==> (#[trigger] a@[j])@ == b@[j]@,
        decreases a.len() - i,
    {
        if !str_eq(a[i].as_str(), b[i].as_str()) {
            assert(text::views(a@)[i as int] != text::views(b@)[i as int]);
            return false;
        }
        i = i + 1;
    }
    assert(text::views(a@) =~= text::views(b@));
    true
}

/// The directories to search, each path once (its first spelling), in
/// order.
pub fn candidate_data_dirs(candidates: &Vec<CandidateDir>) -> (r: Vec<String>)
    ensures
        text::views(r@) == spec_candidate_dirs(candidates@),
{
    let mut dirs: Vec<String> = Vec::new();
    let mut keys: Vec<Vec<String>> = Vec::new();
    let mut i: usize = 0;
    assert(candidates@.subrange(0, 0) =~= Seq::<CandidateDir>::empty());
    assert(text::views(dirs@) =~= Seq::<Seq<char>>::empty());
    while i < candidates.len()
        invariant
            i <= candidates@.len(),
            text::views(dirs@) == spec_candidate_dirs(candidates@.subrange(0, i as int)),
            keys@.len() == dirs@.len(),
            forall|j: int| 0 <= j < keys@.len() ==> text::views(#[trigger] keys@[j]@) == spec_path_components(dirs@[j]@),
        decreases candidates.len() - i,
    {
        proof {
            assert(candidates@.subrange(0, i + 1).drop_last() =~= candidates@.subrange(0, i as int));
            assert(candidates@.subrange(0, i + 1).last() == candidates@[i as int]);
        }
        let path = match &candidates[i] {
            CandidateDir::Configured(s) => {
                let t = trim_str(s.as_str());
                if t.unicode_len() > 0 {
                    Some(t)
                } else {
                    None
                }
            },
            CandidateDir::Fixed(s) => Some(s.clone()),
        };
        match path {
            Some(p) => {
                let key = path_components(p.as_str());
                let ghost d = text::views(dirs@);
                let mut seen = false;
                let mut j: usize = 0;
                while j < keys.len()
                    invariant
                        j <= keys@.len(),
                        keys@.len() == dirs@.len(),
                        d == text::views(dirs@),
                        text::views(key@) == spec_path_components(p@),
                        forall|t: int| 0 <= t < keys@.len() ==> text::views(#[trigger] keys@[t]@) == spec_path_components(dirs@[t]@),
                        seen ==> has_path(d, p@),
                        !seen ==> forall|t: int| 0 <= t < j ==> !same_path(#[trigger] d[t], p@),
                    decreases keys.len() - j,
                {
                    if !seen && same_strings(&keys[j], &key) {
                        assert(d[j as int] == dirs@[j as int]@);
                        assert(same_path(d[j as int], p@));
                        seen = true;
                    }
                    proof {
                        if !seen {
                            assert(d[j as int] == dirs@[j as int]@);
                        }
                    }
                    j = j + 1;
                }
                if !seen {
                    let ghost before = text::views(dirs@);
                    dirs.push(p);
                    keys.push(key);
                    assert(text::views(dirs@) =~= before.push(p@));
                }
            },
            None => {},
        }
        i = i + 1;
    }
    assert(candidates@.subrange(0, candidates@.len() as int) =~= candidates@);
    dirs
}

/// Every required file is present in the directory.
pub open spec fn all_present(present: Seq<bool>) -> bool {
    forall|k: int| 0 <= k < present.len() ==> #[trigger] present[k]
}

/// The report of the files that could not be found, and where they were
/// looked for.
pub open spec fn spec_missing_report(required: Seq<Seq<char>>, dirs: Seq<Seq<char>>, present: Seq<Seq<bool>>) -> Seq<char> {
    "CLI4ALL could not locate required runtime data file(s): "@ + text::join(required, ", "@)
        + "\nSearched directories:\n"@ + text::join(
        Seq::new(dirs.len(), |i: int| spec_dir_line(required, dirs[i], present[i])),
        "\n"@,
    )
        + "\nSet CLI4ALL_DATA_DIR to a directory containing these files, or reinstall CLI4ALL so the bundled runtime data is restored."@
}

/// The files of `required` missing where `present` is false.
pub open spec fn missing_files(required: Seq<Seq<char>>, present: Seq<bool>) -> Seq<Seq<char>>
    decreases required.len(),
{
    if required.len() == 0 {
        Seq::empty()
    } else {
        let rest = missing_files(required.drop_last(), present);
        if required.len() - 1 < present.len() && !present[required.len() - 1] {
            rest.push(required.last())
        } else {
            rest
        }
    }
}

/// One searched directory and what it lacks.
pub open spec fn spec_dir_line(required: Seq<Seq<char>>, dir: Seq<char>, present: Seq<bool>) -> Seq<char> {
    let missing = missing_files(required, present);
    if missing.len() == 0 {
        "- "@ + dir + " (all files present but unavailable)"@
    } else {
        "- "@ + dir + " (missing: "@ + text::join(missing, ", "@) + ")"@
    }
}

fn dir_line(required: &Vec<String>, dir: &str, present: &Vec<bool>) -> (r: String)
    ensures
        r@ == spec_dir_line(text::views(required@), dir@, present@),
{
    let ghost rq = text::views(required@);
    let mut missing: Vec<String> = Vec::new();
    let mut k: usize = 0;
    assert(rq.subrange(0, 0) =~= Seq::<Seq<char>>::empty());
    assert(text::views(missing@) =~= Seq::<Seq<char>>::empty());
    while k < required.len()
        invariant
            k <= required@.len(),
            rq == text::views(required@),
            text::views(missing@) == missing_files(rq.subrange(0, k as int), present@),
        decreases required.len() - k,
    {
        proof {
            assert(rq.subrange(0, k + 1).drop_last() =~= rq.subrange(0, k as int));
            assert(rq.subrange(0, k + 1).last() == required@[k as int]@);
        }
        if k >= present.len() || present[k] {
        } else {
            let ghost before = text::views(missing@);
            missing.push(required[k].clone());
            assert(text::views(missing@) =~= before.push(required@[k as int]@));
        }
        k = k + 1;
    }
    assert(rq.subrange(0, rq.len() as int) =~= rq);
    let mut r = String::new();
    push_str(&mut r, "- ");
    push_str(&mut r, dir);
    if missing.len() == 0 {
        push_str(&mut r, " (all files present but unavailable)");
    } else {
        push_str(&mut r, " (missing: ");
        let joined = join_strings(&missing, ", ");
        push_str(&mut r, joined.as_str());
        push_str(&mut r, ")");
    }
    r
}

/// The report of the files that could not be found, and where they were
/// looked for; `present[i][k]` tells whether file `k` is in directory `i`.
pub fn format_missing_files_error(required: &Vec<String>, dirs: &Vec<String>, present: &Vec<Vec<bool>>) -> (r: String)
    requires
        present@.len() == dirs@.len(),
    ensures
        r@ == spec_missing_report(text::views(required@), text::views(dirs@), present@.map_values(|p: Vec<bool>| p@)),
{
    let ghost rq = text::views(required@);
    let ghost ds = text::views(dirs@);
    let ghost ps = present@.map_values(|p: Vec<bool>| p@);
    let mut lines: Vec<String> = Vec::new();
    let mut i: usize = 0;
    while i < dirs.len()
        invariant
            i <= dirs@.len(),
            present@.len() == dirs@.len(),
            rq == text::views(required@),
            ds == text::views(dirs@),
            ps == present@.map_values(|p: Vec<bool>| p@),
            text::views(lines@) == Seq::new(i as nat, |j: int| spec_dir_line(rq, ds[j], ps[j])),
        decreases dirs.len() - i,
    {
        let line = dir_line(required, dirs[i].as_str(), &present[i]);
        let ghost before = text::views(lines@);
        assert(ds[i as int] == dirs@[i as int]@);
        assert(ps[i as int] == present@[i as int]@);
        lines.push(line);
        assert(text::views(lines@) =~= before.push(line@));
        assert(text::views(lines@) =~= Seq::new((i + 1) as nat, |j: int| spec_dir_line(rq, ds[j], ps[j])));
        i = i + 1;
    }
    let header = join_strings(required, ", ");
    let searched = join_strings(&lines, "\n");
    let mut r = String::new();
    push_str(&mut r, "CLI4ALL could not locate required runtime data file(s): ");
    push_str(&mut r, header.as_str());
    push_str(&mut r, "\nSearched directories:\n");
    push_str(&mut r, searched.as_str());
    push_str(&mut r, "\nSet CLI4ALL_DATA_DIR to a directory containing these files, or reinstall CLI4ALL so the bundled runtime data is restored.");
    assert(r@ =~= spec_missing_report(rq, ds, ps));
    r
}

/// The first directory that holds every required file.
pub open spec fn spec_first_complete(present: Seq<Seq<bool>>) -> Option<int>
    decreases present.len(),
{
    if present.len() == 0 {
        None
    } else {
        match spec_first_complete(present.drop_last()) {
            Some(i) => Some(i),
            None => if all_present(present.last()) {
                Some(present.len() - 1)
            } else {
                None
            },
        }
    }
}

/// The index of the first directory that holds every required file, or the
/// report of what is missing where.
pub fn find_data_dir(required_files: &Vec<String>, dirs: &Vec<String>, present: &Vec<Vec<bool>>) -> (r: Result<usize, String>)
    requires
        present@.len() == dirs@.len(),
    ensures
        match spec_first_complete(present@.map_values(|p: Vec<bool>| p@)) {
            Some(i) => r == Ok::<usize, String>(i as usize),
            None => r matches Err(e) && e@ == spec_missing_report(
                text::views(required_files@),
                text::views(dirs@),
                present@.map_values(|p: Vec<bool>| p@),
            ),
        },
{
    let ghost ps = present@.map_values(|p: Vec<bool>| p@);
    let mut i: usize = 0;
    assert(ps.subrange(0, 0) =~= Seq::<Seq<bool>>::empty());
    while i < present.len()
        invariant
            i <= present@.len(),
            ps == present@.map_values(|p: Vec<bool>| p@),
            spec_first_complete(ps.subrange(0, i as int)) == None::<int>,
        decreases present.len() - i,
    {
        proof {
            assert(ps.subrange(0, i + 1).drop_last() =~= ps.subrange(0, i as int));
            assert(ps.subrange(0, i + 1).last() == present@[i as int]@);
        }
        let row = &present[i];
        let mut k: usize = 0;
        let mut all = true;
        while k < row.len()
            invariant
                k <= row@.len(),
                all == (forall|j: int| 0 <= j < k ==> #[trigger] row@[j]),
            decreases row.len() - k,
        {
            all = all && row[k];
            k = k + 1;
        }
        if all {
            proof {
                lemma_first_complete_prefix(ps, i as int + 1);
            }
            return Ok(i);
        }
        i = i + 1;
    }
    assert(ps.subrange(0, ps.len() as int) =~= ps);
    Err(format_missing_files_error(required_files, dirs, present))
}

proof fn lemma_first_complete_prefix(ps: Seq<Seq<bool>>, n: int)
    requires
        0 <= n <= ps.len(),
        spec_first_complete(ps.subrange(0, n)) is Some,
    ensures
        spec_first_complete(ps) == spec_first_complete(ps.subrange(0, n)),
    decreases ps.len() - n,
{
    if n < ps.len() {
        assert(ps.drop_last().subrange(0, n) =~= ps.subrange(0, n));
        lemma_first_complete_prefix(ps.drop_last(), n);
    } else {
        assert(ps.subrange(0, n) =~= ps);
    }
}

/// The index of the first directory that holds the file, or the report of
/// where it was looked for.
pub fn find_data_file(file_name: &str, dirs: &Vec<String>, present: &Vec<bool>) -> (r: Result<usize, String>)
    requires
        present@.len() == dirs@.len(),
    ensures
        match r {
            Ok(i) => i < present@.len() && present@[i as int] && forall|j: int| 0 <= j < i ==> !#[trigger] present@[j],
            Err(e) => (forall|j: int| 0 <= j < present@.len() ==> !#[trigger] present@[j]) && e@ == spec_missing_report(
                seq![file_name@],
                text::views(dirs@),
                present@.map_values(|b: bool| seq![b]),
            ),
        },
{
    let mut i: usize = 0;
    while i < present.len()
        invariant
            i <= present@.len(),
            forall|j: int| 0 <= j < i ==> !#[trigger] present@[j],
        decreases present.len() - i,
    {
        if present[i] {
            return Ok(i);
        }
        i = i + 1;
    }
    let mut required: Vec<String> = Vec::new();
    required.push(file_name.to_owned());
    assert(text::views(required@) =~= seq![file_name@]);
    let mut rows: Vec<Vec<bool>> = Vec::new();
    let mut k: usize = 0;
    while k < present.len()
        invariant
            k <= present@.len(),
            rows@.len() == k,
            forall|t: int| 0 <= t < k ==> (#[trigger] rows@[t])@ == seq![present@[t]],
        decreases present.len() - k,
    {
        let mut row: Vec<bool> = Vec::new();
        row.push(present[k]);
        assert(row@ =~= seq![present@[k as int]]);
        rows.push(row);
        k = k + 1;
    }
    assert(rows@.map_values(|r: Vec<bool>| r@) =~= present@.map_values(|b: bool| seq![b]));
    Err(format_missing_files_error(&required, dirs, &rows))
}

} // verus!
