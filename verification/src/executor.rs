//! Running translated commands.
//!
//! The library decides what may run; running it is the embedding
//! program's work, behind `CommandExecutor`.
use vstd::prelude::*;

use crate::platform::Platform;
use crate::text;
use crate::text::chars_of;

verus! {

broadcast use vstd::string::group_string_axioms;

/// What running a command produced.
#[derive(Debug, Clone)]
pub struct ExecutionResult {
    pub command: String,
    pub stdout: String,
    pub stderr: String,
    pub status_code: Option<i32>,
}

/// Why a command could not be run.
#[derive(Debug, Clone)]
pub struct ExecError {
    pub message: String,
}

/// Runs a translated command and reports its output.
pub trait CommandExecutor {
    fn execute(&self, command: &str) -> Result<ExecutionResult, ExecError>;
}

/// Runs commands with the native shell of a platform: `/bin/zsh -c` on
/// macOS, `/bin/bash -c` on Ubuntu, `powershell.exe -NoProfile -Command` on
/// Windows.
#[derive(Debug, Clone, Copy)]
pub struct SystemCommandExecutor {
    pub platform: Platform,
}

/// The program and arguments that run `command` on a platform.
pub open spec fn spec_invocation(platform: Platform, command: Seq<char>) -> (Seq<char>, Seq<Seq<char>>) {
    match platform {
        Platform::Macos => ("/bin/zsh"@, seq!["-c"@, command]),
        Platform::Ubuntu => ("/bin/bash"@, seq!["-c"@, command]),
        Platform::Windows => ("powershell.exe"@, seq!["-NoProfile"@, "-Command"@, command]),
    }
}

/// The command holds no line break.
pub open spec fn single_line(command: Seq<char>) -> bool {
    forall|i: int| 0 <= i < command.len() ==> #[trigger] command[i] != '\n' && command[i] != '\r'
}

impl SystemCommandExecutor {
    /// An executor for `platform`.
    pub fn new(platform: Platform) -> (r: SystemCommandExecutor)
        ensures
            r.platform == platform,
    {
        SystemCommandExecutor { platform }
    }

    /// The program and arguments that run `command`, refused for a command
    /// that spans more than one line.
    pub fn invocation(&self, command: &str) -> (r: Option<(String, Vec<String>)>)
        ensures
            match r {
                Some(inv) => single_line(command@) && (inv.0@, text::views(inv.1@)) == spec_invocation(self.platform, command@),
                None => !single_line(command@),
            },
    {
        let cs = chars_of(command);
        let mut i: usize = 0;
        while i < cs.len()
            invariant
                i <= cs@.len(),
                cs@ == command@,
                forall|k: int| 0 <= k < i ==> #[trigger] cs@[k] != '\n' && cs@[k] != '\r',
            decreases cs.len() - i,
        {
            if cs[i] == '\n' || cs[i] == '\r' {
                return None;
            }
            i = i + 1;
        }
        let mut args: Vec<String> = Vec::new();
        let program = match self.platform {
            Platform::Macos => {
                args.push("-c".to_owned());
                args.push(command.to_owned());
                "/bin/zsh".to_owned()
            },
            Platform::Ubuntu => {
                args.push("-c".to_owned());
                args.push(command.to_owned());
                "/bin/bash".to_owned()
            },
            Platform::Windows => {
                args.push("-NoProfile".to_owned());
                args.push("-Command".to_owned());
                args.push(command.to_owned());
                "powershell.exe".to_owned()
            },
        };
        assert(text::views(args@) =~= spec_invocation(self.platform, command@).1);
        Some((program, args))
    }
}

} // verus!
