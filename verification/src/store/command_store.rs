//! Command records and the store interface that looks them up.
use vstd::prelude::*;

use crate::text::{owned, str_eq};

verus! {

broadcast use vstd::string::group_string_axioms;

/// One reviewed intent: what it does, how risky it is, and the example
/// commands of every platform that express it.
///
/// `commands` pairs a platform key (`ubuntu`, `macos`, `windows_cmd`,
/// `powershell`) with its example commands. It stands for a map from
/// platform to examples: a well-formed record (`platforms_unique`) names
/// each platform once, and a lookup by platform then finds that platform's
/// one entry.
#[derive(Debug, Clone)]
pub struct CommandRecord {
    pub intent: String,
    pub description: String,
    pub category: String,
    pub risk_level: String,
    pub commands: Vec<(String, Vec<String>)>,
    pub notes: Vec<String>,
}

/// A command record as values.
pub struct CommandRecordView {
    pub intent: Seq<char>,
    pub description: Seq<char>,
    pub category: Seq<char>,
    pub risk_level: Seq<char>,
    pub commands: Seq<(Seq<char>, Seq<Seq<char>>)>,
    pub notes: Seq<Seq<char>>,
}

/// The platform/examples table of a record, as values.
pub open spec fn commands_view(c: Seq<(String, Vec<String>)>) -> Seq<(Seq<char>, Seq<Seq<char>>)> {
    c.map_values(|e: (String, Vec<String>)| (e.0@, crate::text::views(e.1@)))
}

/// The examples of `platform` in a platform table: those of its first
/// entry, or none.
pub open spec fn lookup_platform(c: Seq<(Seq<char>, Seq<Seq<char>>)>, platform: Seq<char>) -> Seq<Seq<char>>
    decreases c.len(),
{
    if c.len() == 0 {
        Seq::empty()
    } else if c[0].0 == platform {
        c[0].1
    } else {
        lookup_platform(c.drop_first(), platform)
    }
}

/// Each platform key occurs in the table at most once, as in a map.
pub open spec fn platforms_unique(c: Seq<(Seq<char>, Seq<Seq<char>>)>) -> bool {
    forall|i: int, j: int| 0 <= i < j < c.len() ==> (#[trigger] c[i]).0 != (#[trigger] c[j]).0
}

/// In a table that names each platform once, looking a platform up finds
/// the examples of its entry, wherever the entry stands.
pub proof fn lemma_unique_lookup(c: Seq<(Seq<char>, Seq<Seq<char>>)>, i: int)
    requires
        platforms_unique(c),
        0 <= i < c.len(),
    ensures
        lookup_platform(c, c[i].0) == c[i].1,
    decreases i,
{
    if i > 0 {
        let rest = c.drop_first();
        assert(c[0].0 != c[i].0);
        assert(rest[i - 1] == c[i]);
        assert(platforms_unique(rest)) by {
            assert forall|a: int, b: int| 0 <= a < b < rest.len() implies (#[trigger] rest[a]).0 != (#[trigger] rest[b]).0 by {
                assert(rest[a] == c[a + 1] && rest[b] == c[b + 1]);
            }
        }
        lemma_unique_lookup(rest, i - 1);
    }
}

/// A platform that no entry names has no examples.
pub proof fn lemma_absent_lookup(c: Seq<(Seq<char>, Seq<Seq<char>>)>, platform: Seq<char>)
    requires
        forall|i: int| 0 <= i < c.len() ==> (#[trigger] c[i]).0 != platform,
    ensures
        lookup_platform(c, platform).len() == 0,
    decreases c.len(),
{
    if c.len() > 0 {
        let rest = c.drop_first();
        assert forall|i: int| 0 <= i < rest.len() implies (#[trigger] rest[i]).0 != platform by {
            assert(rest[i] == c[i + 1]);
        }
        lemma_absent_lookup(rest, platform);
    }
}

/// The examples a record offers for the translation target `target`: the
/// platform's own, and for `windows` the PowerShell ones, or the CMD ones
/// when there are no PowerShell ones.
pub open spec fn spec_target_commands(c: Seq<(Seq<char>, Seq<Seq<char>>)>, target: Seq<char>) -> Seq<Seq<char>> {
    if target == "windows"@ {
        if lookup_platform(c, "powershell"@).len() == 0 {
            lookup_platform(c, "windows_cmd"@)
        } else {
            lookup_platform(c, "powershell"@)
        }
    } else if target == "ubuntu"@ || target == "macos"@ || target == "powershell"@ || target
        == "windows_cmd"@ {
        lookup_platform(c, target)
    } else {
        Seq::empty()
    }
}

impl CommandRecord {
    /// The platform table as values.
    pub open spec fn table(&self) -> Seq<(Seq<char>, Seq<Seq<char>>)> {
        commands_view(self.commands@)
    }

    /// The Ubuntu examples.
    pub fn ubuntu_commands(&self) -> (r: &[String])
        ensures
            crate::text::views(r@) == lookup_platform(self.table(), "ubuntu"@),
    {
        proof {
            reveal_strlit("ubuntu");
        }
        self.platform_commands("ubuntu")
    }

    /// The examples of `platform`, or none.
    pub fn platform_commands(&self, platform: &str) -> (r: &[String])
        ensures
            crate::text::views(r@) == lookup_platform(self.table(), platform@),
    {
        let mut i: usize = 0;
        assert(self.table().subrange(0, self.table().len() as int) =~= self.table());
        while i < self.commands.len()
            invariant
                i <= self.commands@.len(),
                lookup_platform(self.table(), platform@) == lookup_platform(
                    self.table().subrange(i as int, self.table().len() as int),
                    platform@,
                ),
            decreases self.commands.len() - i,
        {
            let ghost rest = self.table().subrange(i as int, self.table().len() as int);
            assert(rest.drop_first() =~= self.table().subrange(i + 1, self.table().len() as int));
            assert(rest[0] == self.table()[i as int]);
            if str_eq(self.commands[i].0.as_str(), platform) {
                let r = self.commands[i].1.as_slice();
                assert(crate::text::views(r@) =~= rest[0].1);
                return r;
            }
            i = i + 1;
        }
        let empty: &[String] = &[];
        assert(crate::text::views(empty@) =~= Seq::<Seq<char>>::empty());
        empty
    }

    /// The examples to translate into for `target` (`ubuntu`, `macos`,
    /// `windows`, `powershell` or `windows_cmd`).
    pub fn target_commands(&self, target: &str) -> (r: &[String])
        ensures
            crate::text::views(r@) == spec_target_commands(self.table(), target@),
    {
        proof {
            reveal_strlit("ubuntu");
            reveal_strlit("macos");
            reveal_strlit("windows");
            reveal_strlit("powershell");
            reveal_strlit("windows_cmd");
            assert("ubuntu"@.len() == 6 && "macos"@.len() == 5 && "windows"@.len() == 7);
        }
        if str_eq(target, "ubuntu") {
            self.platform_commands("ubuntu")
        } else if str_eq(target, "macos") {
            self.platform_commands("macos")
        } else if str_eq(target, "windows") {
            let powershell = self.platform_commands("powershell");
            assert(crate::text::views(powershell@).len() == powershell@.len());
            if powershell.len() == 0 {
                self.platform_commands("windows_cmd")
            } else {
                powershell
            }
        } else if str_eq(target, "powershell") {
            self.platform_commands("powershell")
        } else if str_eq(target, "windows_cmd") {
            self.platform_commands("windows_cmd")
        } else {
            let empty: &[String] = &[];
            assert(crate::text::views(empty@) =~= Seq::<Seq<char>>::empty());
            empty
        }
    }

    /// Whether the record names each platform once.
    pub fn has_unique_platforms(&self) -> (r: bool)
        ensures
            r == platforms_unique(self.table()),
    {
        let ghost t = self.table();
        let mut j: usize = 0;
        while j < self.commands.len()
            invariant
                t == self.table(),
                j <= t.len(),
                forall|a: int, b: int| 0 <= a < b < j ==> (#[trigger] t[a]).0 != (#[trigger] t[b]).0,
            decreases self.commands.len() - j,
        {
            let mut i: usize = 0;
            while i < j
                invariant
                    t == self.table(),
                    i <= j < t.len(),
                    forall|a: int, b: int| 0 <= a < b < j ==> (#[trigger] t[a]).0 != (#[trigger] t[b]).0,
                    forall|a: int| 0 <= a < i ==> (#[trigger] t[a]).0 != t[j as int].0,
                decreases j - i,
            {
                assert(t[i as int].0 == self.commands@[i as int].0@ && t[j as int].0 == self.commands@[j as int].0@);
                if str_eq(self.commands[i].0.as_str(), self.commands[j].0.as_str()) {
                    return false;
                }
                i = i + 1;
            }
            j = j + 1;
        }
        true
    }

    /// The platform table, entry by entry.
    pub fn iter_commands(&self) -> (r: &Vec<(String, Vec<String>)>)
        ensures
            commands_view(r@) == self.table(),
    {
        &self.commands
    }
}

impl View for CommandRecord {
    type V = CommandRecordView;

    open spec fn view(&self) -> CommandRecordView {
        CommandRecordView {
            intent: self.intent@,
            description: self.description@,
            category: self.category@,
            risk_level: self.risk_level@,
            commands: commands_view(self.commands@),
            notes: crate::text::views(self.notes@),
        }
    }
}

/// Whether every record names each platform once.
pub fn records_well_formed(records: &Vec<CommandRecord>) -> (r: bool)
    ensures
        r == forall|k: int| 0 <= k < records@.len() ==> platforms_unique(#[trigger] records@[k]@.commands),
{
    let mut k: usize = 0;
    while k < records.len()
        invariant
            k <= records@.len(),
            forall|a: int| 0 <= a < k ==> platforms_unique(#[trigger] records@[a]@.commands),
        decreases records.len() - k,
    {
        if !records[k].has_unique_platforms() {
            assert(records@[k as int]@.commands == records@[k as int].table());
            assert(!platforms_unique(records@[k as int]@.commands));
            return false;
        }
        assert(records@[k as int]@.commands == records@[k as int].table());
        k = k + 1;
    }
    true
}

/// A copy of a list of strings.
pub fn copy_strings(v: &Vec<String>) -> (r: Vec<String>)
    ensures
        crate::text::views(r@) == crate::text::views(v@),
{
    let mut r: Vec<String> = Vec::new();
    let mut i: usize = 0;
    while i < v.len()
        invariant
            i <= v.len(),
            crate::text::views(r@) == crate::text::views(v@).subrange(0, i as int),
        decreases v.len() - i,
    {
        let s = owned(v[i].as_str());
        let ghost before = crate::text::views(r@);
        r.push(s);
        assert(crate::text::views(r@) =~= before.push(s@));
        assert(crate::text::views(v@).subrange(0, i + 1) =~= crate::text::views(v@).subrange(0, i as int).push(v@[i as int]@));
        i = i + 1;
    }
    assert(crate::text::views(v@).subrange(0, v@.len() as int) =~= crate::text::views(v@));
    r
}

impl CommandRecord {
    /// A copy of this record.
    pub fn duplicate(&self) -> (r: CommandRecord)
        ensures
            r@ == self@,
    {
        let mut commands: Vec<(String, Vec<String>)> = Vec::new();
        let mut i: usize = 0;
        while i < self.commands.len()
            invariant
                i <= self.commands.len(),
                commands_view(commands@) == commands_view(self.commands@).subrange(0, i as int),
            decreases self.commands.len() - i,
        {
            let p = owned(self.commands[i].0.as_str());
            let c = copy_strings(&self.commands[i].1);
            let ghost before = commands_view(commands@);
            commands.push((p, c));
            assert(commands_view(commands@) =~= before.push((p@, crate::text::views(c@))));
            assert(commands_view(self.commands@).subrange(0, i + 1) =~= commands_view(self.commands@).subrange(0, i as int).push(commands_view(self.commands@)[i as int]));
            i = i + 1;
        }
        assert(commands_view(self.commands@).subrange(0, self.commands@.len() as int) =~= commands_view(self.commands@));
        CommandRecord {
            intent: owned(self.intent.as_str()),
            description: owned(self.description.as_str()),
            category: owned(self.category.as_str()),
            risk_level: owned(self.risk_level.as_str()),
            commands,
            notes: copy_strings(&self.notes),
        }
    }
}

/// Why the command store could not answer.
#[derive(Debug, Clone, Copy, PartialEq, Eq, Structural)]
pub enum StoreError {
    /// The index file could not be read.
    Index(crate::store::bplus_tree::IndexError),
    /// The data file is shorter than its header.
    DataTooSmall,
    /// The data file does not start with `C4D1`.
    BadDataMagic,
    UnsupportedDataVersion(u32),
    /// The data file ended inside a record.
    DataEnded,
    /// The decoded records do not match the records the data file frames.
    RecordCountMismatch,
    /// An index pointer does not address a record of the data file.
    UnknownRecord,
    /// A record holds an example command that is not a valid pattern.
    InvalidExample,
}

/// Looks command records up by example command, intent and category.
pub trait CommandStore {
    /// What `find_by_command` answers for `command`.
    spec fn command_lookup(&self, command: Seq<char>) -> Result<Option<CommandRecordView>, StoreError>;

    /// What `find_by_intent` answers for `intent`.
    spec fn intent_lookup(&self, intent: Seq<char>) -> Result<Option<CommandRecordView>, StoreError>;

    /// What `list_by_category` answers for `category`.
    spec fn category_listing(&self, category: Seq<char>) -> Result<Seq<CommandRecordView>, StoreError>;

    /// The record whose examples match `command` best.
    fn find_by_command(&self, command: &str) -> (r: Result<Option<CommandRecord>, StoreError>)
        ensures
            match r {
                Ok(Some(rec)) => self.command_lookup(command@) == Ok::<Option<CommandRecordView>, StoreError>(Some(rec@))
                    && crate::rules::examples_valid(rec@),
                Ok(None) => self.command_lookup(command@) == Ok::<Option<CommandRecordView>, StoreError>(None),
                Err(e) => self.command_lookup(command@) == Err::<Option<CommandRecordView>, StoreError>(e),
            },
    ;

    /// The record of `intent`.
    fn find_by_intent(&self, intent: &str) -> (r: Result<Option<CommandRecord>, StoreError>)
        ensures
            match r {
                Ok(Some(rec)) => self.intent_lookup(intent@) == Ok::<Option<CommandRecordView>, StoreError>(Some(rec@)),
                Ok(None) => self.intent_lookup(intent@) == Ok::<Option<CommandRecordView>, StoreError>(None),
                Err(e) => self.intent_lookup(intent@) == Err::<Option<CommandRecordView>, StoreError>(e),
            },
    ;

    /// The records filed under `category`, in key order.
    fn list_by_category(&self, category: &str) -> (r: Result<Vec<CommandRecord>, StoreError>)
        ensures
            match r {
                Ok(v) => self.category_listing(category@) == Ok::<Seq<CommandRecordView>, StoreError>(v@.map_values(|c: CommandRecord| c@)),
                Err(e) => self.category_listing(category@) == Err::<Seq<CommandRecordView>, StoreError>(e),
            },
    ;
}

} // verus!
