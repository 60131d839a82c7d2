//! A command of the user that runs when a transcript is done.
use vstd::prelude::*;
use vstd::string::StringExecFns;

use crate::text;

verus! {

/// The setting that names the command.
pub const SETTING: &'static str = "after_transcript";

/// The command, from what the setting is; none where it is not set.
pub fn configured(setting: &Option<String>) -> (r: Option<String>)
    ensures
        text::owned(r) == text::owned(*setting),
{
    text::copied(setting)
}

/// The arguments of the shell that runs a command, before the folder of the
/// meeting. That folder is `$1`, so that a command can use it however it likes;
/// appended to the command, it also works for the name of a program.
pub open spec fn shell_arguments(command: Seq<char>) -> Seq<Seq<char>> {
    seq!["-c"@, command + " \"$1\""@, "sh"@]
}

/// The arguments of the shell, before the folder of the meeting; none where no
/// command is configured.
pub fn run(command: Option<&str>) -> (r: Option<Vec<String>>)
    ensures
        match (r, command) {
            (Some(arguments), Some(command)) => text::texts(arguments@) == shell_arguments(
                command@,
            ),
            (None, None) => true,
            _ => false,
        },
{
    match command {
        Some(command) => {
            let mut out: Vec<String> = Vec::new();
            out.push("-c".to_owned());
            out.push(command.to_owned().concat(" \"$1\""));
            out.push("sh".to_owned());
            proof {
                assert(text::texts(out@) =~= shell_arguments(command@));
            }
            Some(out)
        },
        None => None,
    }
}

/// How a command ended.
pub enum Ended {
    Success,
    /// With another exit status, in words.
    Failed(String),
    /// It could not be waited for.
    Lost(String),
    /// It could not be run at all.
    NotRun(String),
}

/// What is told of how a command ended, if anything is.
pub open spec fn end_report(app: Seq<char>, ended: Ended) -> Option<Seq<char>> {
    match ended {
        Ended::Success => None,
        Ended::Failed(status) => Some(app + ": after_transcript exited with "@ + status@),
        Ended::Lost(error) => Some(app + ": after_transcript: "@ + error@),
        Ended::NotRun(error) => Some(app + ": could not run after_transcript: "@ + error@),
    }
}

/// What is told of how a command ended, if anything is. `app` is the name of the
/// program.
pub fn report(app: &str, ended: &Ended) -> (r: Option<String>)
    ensures
        text::owned(r) == end_report(app@, *ended),
{
    match ended {
        Ended::Success => None,
        Ended::Failed(status) => Some(
            app.to_owned().concat(": after_transcript exited with ").concat(status.as_str()),
        ),
        Ended::Lost(error) => Some(
            app.to_owned().concat(": after_transcript: ").concat(error.as_str()),
        ),
        Ended::NotRun(error) => Some(
            app.to_owned().concat(": could not run after_transcript: ").concat(error.as_str()),
        ),
    }
}

/// A command runs through the shell with the folder of the meeting behind it, which is
/// its first argument.
pub proof fn a_command_gets_the_folder_behind_it(command: Seq<char>)
    ensures
        shell_arguments(command).len() == 3,
        shell_arguments(command)[0] == "-c"@,
        shell_arguments(command)[1] == command + " \"$1\""@,
        shell_arguments(command)[2] == "sh"@,
        SETTING@ == "after_transcript"@,
{
}

/// A command that succeeds is not told of; any other end is, with the name of the program
/// and why.
pub proof fn only_a_command_that_fails_is_told_of(app: Seq<char>, why: String)
    ensures
        end_report(app, Ended::Success) is None,
        end_report(app, Ended::Failed(why)) == Some(
            app + ": after_transcript exited with "@ + why@,
        ),
        end_report(app, Ended::Lost(why)) == Some(app + ": after_transcript: "@ + why@),
        end_report(app, Ended::NotRun(why)) == Some(
            app + ": could not run after_transcript: "@ + why@,
        ),
{
}

} // verus!
