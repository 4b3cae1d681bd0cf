//! The host platforms the shell translates for.
use vstd::prelude::*;

use crate::text;
use crate::text::{lower_string, str_eq, trim_str};

verus! {

broadcast use vstd::string::group_string_axioms;

/// A host platform: Linux hosts use the Ubuntu command set.
#[derive(Debug, Clone, Copy, PartialEq, Eq, Structural)]
pub enum Platform {
    Macos,
    Ubuntu,
    Windows,
}

impl Platform {
    /// The key of the platform's command set.
    pub open spec fn spec_key(self) -> Seq<char> {
        match self {
            Platform::Macos => "macos"@,
            Platform::Ubuntu => "ubuntu"@,
            Platform::Windows => "windows"@,
        }
    }

    /// The name shown to users.
    pub open spec fn spec_display_name(self) -> Seq<char> {
        match self {
            Platform::Macos => "macOS"@,
            Platform::Ubuntu => "Ubuntu"@,
            Platform::Windows => "Windows"@,
        }
    }

    /// The platform of the operating system `os` names (as
    /// `std::env::consts::OS` does).
    pub fn from_os_name(os: &str) -> (r: Option<Platform>)
        ensures
            r == (if os@ == "macos"@ {
                Some(Platform::Macos)
            } else if os@ == "linux"@ {
                Some(Platform::Ubuntu)
            } else if os@ == "windows"@ {
                Some(Platform::Windows)
            } else {
                None::<Platform>
            }),
    {
        if str_eq(os, "macos") {
            Some(Platform::Macos)
        } else if str_eq(os, "linux") {
            Some(Platform::Ubuntu)
        } else if str_eq(os, "windows") {
            Some(Platform::Windows)
        } else {
            None
        }
    }

    /// The key of the platform's command set.
    pub fn key(self) -> (r: &'static str)
        ensures
            r@ == self.spec_key(),
    {
        match self {
            Platform::Macos => "macos",
            Platform::Ubuntu => "ubuntu",
            Platform::Windows => "windows",
        }
    }

    /// The name shown to users.
    pub fn display_name(self) -> (r: &'static str)
        ensures
            r@ == self.spec_display_name(),
    {
        match self {
            Platform::Macos => "macOS",
            Platform::Ubuntu => "Ubuntu",
            Platform::Windows => "Windows",
        }
    }

    /// The name shown in the shell prompt.
    pub fn prompt_name(self) -> (r: &'static str)
        ensures
            r@ == self.spec_key(),
    {
        self.key()
    }
}

/// The platform a target name denotes, ignoring surrounding blanks and case.
pub open spec fn spec_target_platform(target: Seq<char>) -> Option<Platform> {
    let t = text::lower(text::trim(target));
    if t == "macos"@ {
        Some(Platform::Macos)
    } else if t == "linux"@ || t == "ubuntu"@ {
        Some(Platform::Ubuntu)
    } else if t == "windows"@ {
        Some(Platform::Windows)
    } else {
        None
    }
}

/// The platform a target name denotes (`macos`, `linux` or `ubuntu`,
/// `windows`), ignoring surrounding blanks and case.
pub fn normalize_target_platform(target: &str) -> (r: Option<Platform>)
    ensures
        r == spec_target_platform(target@),
{
    let trimmed = trim_str(target);
    let t = lower_string(trimmed.as_str());
    if str_eq(t.as_str(), "macos") {
        Some(Platform::Macos)
    } else if str_eq(t.as_str(), "linux") || str_eq(t.as_str(), "ubuntu") {
        Some(Platform::Ubuntu)
    } else if str_eq(t.as_str(), "windows") {
        Some(Platform::Windows)
    } else {
        None
    }
}


proof fn lemma_plain_word(s: Seq<char>)
    requires
        s.len() > 0,
        forall|i: int| 0 <= i < s.len() ==> 'a' <= #[trigger] s[i] && s[i] <= 'z',
    ensures
        text::lower(text::trim(s)) == s,
{
    assert(!text::is_ws(s[0]));
    assert(text::leading_ws(s) == 0);
    assert(!text::is_ws(s.last()));
    assert(text::trailing_ws(s) == 0);
    assert(text::trim(s) =~= s);
    assert(text::lower(s) =~= s);
}

/// A platform's key names that platform again.
pub proof fn lemma_key_names_platform(p: Platform)
    ensures
        spec_target_platform(p.spec_key()) == Some(p),
{
    reveal_strlit("macos");
    reveal_strlit("ubuntu");
    reveal_strlit("windows");
    reveal_strlit("linux");
    assert("macos"@.len() == 5 && "ubuntu"@.len() == 6 && "windows"@.len() == 7 && "linux"@.len() == 5);
    match p {
        Platform::Macos => lemma_plain_word("macos"@),
        Platform::Ubuntu => {
            lemma_plain_word("ubuntu"@);
            assert("ubuntu"@ != "macos"@);
            assert("ubuntu"@ != "linux"@);
        },
        Platform::Windows => {
            lemma_plain_word("windows"@);
            assert("windows"@ != "macos"@);
            assert("windows"@ != "linux"@);
            assert("windows"@ != "ubuntu"@);
        },
    }
}

} // verus!
