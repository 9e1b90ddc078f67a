//! What a command that was run left behind.
use crate::text;
use vstd::prelude::*;

verus! {

/// The exit code, if the command ended by itself, and what it wrote.
#[derive(Debug, Clone)]
pub struct CommandOutput {
    pub code: Option<i32>,
    pub stdout: String,
    pub stderr: String,
}

#[verifier::ext_equal]
pub struct CommandView {
    pub code: Option<i32>,
    pub stdout: Seq<char>,
    pub stderr: Seq<char>,
}

impl View for CommandOutput {
    type V = CommandView;

    open spec fn view(&self) -> CommandView {
        CommandView { code: self.code, stdout: self.stdout@, stderr: self.stderr@ }
    }
}

pub open spec fn run_view(run: Option<CommandOutput>) -> Option<CommandView> {
    match run {
        Some(o) => Some(o@),
        None => None,
    }
}

/// A command that ran, or why it could not be started.
pub open spec fn start_view(run: Result<CommandOutput, String>) -> Result<CommandView, Seq<char>> {
    match run {
        Ok(o) => Ok(o@),
        Err(e) => Err(e@),
    }
}

/// What a command wrote, where it could be started and ended with exit code zero.
pub open spec fn stdout_of(run: Option<CommandView>) -> Option<Seq<char>> {
    match run {
        Some(o) => if o.code == Some(0i32) {
            Some(o.stdout)
        } else {
            None
        },
        None => None,
    }
}

pub open spec fn opt_str(s: Option<&str>) -> Option<Seq<char>> {
    match s {
        Some(s) => Some(s@),
        None => None,
    }
}

impl CommandOutput {
    pub fn succeeded(&self) -> (r: bool)
        ensures
            r == (self@.code == Some(0i32)),
    {
        match self.code {
            Some(c) => c == 0,
            None => false,
        }
    }
}

/// What a command wrote, and what it complained of if it failed.
pub open spec fn all_text(o: CommandView) -> Seq<char> {
    if o.code == Some(0i32) {
        o.stdout
    } else {
        o.stdout + o.stderr
    }
}

/// What a command wrote, and what it complained of if it failed.
pub fn full_text(o: &CommandOutput) -> (r: String)
    ensures
        r@ == all_text(o@),
{
    if o.succeeded() {
        o.stdout.clone()
    } else {
        let mut out: Vec<char> = Vec::new();
        text::put_str(&mut out, o.stdout.as_str());
        text::put_str(&mut out, o.stderr.as_str());
        assert(out@ =~= all_text(o@));
        text::string_of(out.as_slice())
    }
}

/// What a command wrote, where it could be started and ended with exit code zero.
pub fn successful_stdout(run: &Option<CommandOutput>) -> (r: Option<&str>)
    ensures
        opt_str(r) == stdout_of(run_view(*run)),
{
    match run {
        Some(o) => if o.succeeded() {
            Some(o.stdout.as_str())
        } else {
            None
        },
        None => None,
    }
}


/// A command is taken at its word only where it was started and ended with exit code zero; what
/// it complained of is told only where it did not.
pub proof fn law_exit_code_zero_is_success(code: i32, stdout: Seq<char>, stderr: Seq<char>)
    ensures
        stdout_of(None) is None,
        stdout_of(Some(CommandView { code: None, stdout, stderr })) is None,
        stdout_of(Some(CommandView { code: Some(code), stdout, stderr })) == if code == 0 {
            Some(stdout)
        } else {
            None
        },
        all_text(CommandView { code: Some(code), stdout, stderr }) == if code == 0 {
            stdout
        } else {
            stdout + stderr
        },
        all_text(CommandView { code: None, stdout, stderr }) == stdout + stderr,
{
}

} // verus!
