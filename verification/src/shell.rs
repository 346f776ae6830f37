//! What the shell does with a line it has read.
use vstd::prelude::*;
use crate::parsing::grammar::matches_ci;
use crate::parsing::parser::chars_match_ci;
use crate::text::{chars_of, trim_text, trimmed};

verus! {

/// What a line typed into the shell asks for.
#[derive(Debug, Clone, Copy, PartialEq, Eq, Structural)]
pub enum ShellCommand {
    /// `exit` or `/exit`: leave the shell.
    Exit,
    /// `help`: show the help text.
    Help,
    /// A blank line: nothing to do.
    Skip,
    /// Anything else: a query to run.
    Query,
}

/// The command a line stands for, read without surrounding white space and without
/// regard to the case of letters.
pub open spec fn shell_command_of(line: Seq<char>) -> ShellCommand {
    let t = trim_text(line);
    if matches_ci(t, "EXIT"@) || matches_ci(t, "/EXIT"@) {
        ShellCommand::Exit
    } else if matches_ci(t, "HELP"@) {
        ShellCommand::Help
    } else if t.len() == 0 {
        ShellCommand::Skip
    } else {
        ShellCommand::Query
    }
}

/// The command a line stands for.
pub fn shell_command(line: &str) -> (c: ShellCommand)
    ensures
        c == shell_command_of(line@),
{
    let t = trimmed(line);
    let v = chars_of(t.as_str());
    let n = v.len();
    assert(v@.subrange(0, n as int) =~= v@);
    if chars_match_ci(&v, 0, n, "EXIT") || chars_match_ci(&v, 0, n, "/EXIT") {
        ShellCommand::Exit
    } else if chars_match_ci(&v, 0, n, "HELP") {
        ShellCommand::Help
    } else if n == 0 {
        ShellCommand::Skip
    } else {
        ShellCommand::Query
    }
}

} // verus!
