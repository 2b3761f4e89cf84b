//! The commands that the program hands to the shell.
use vstd::prelude::*;

verus! {

/// A program to start, with its arguments and what is added to its environment.
#[derive(Debug)]
pub struct CommandLine {
    pub program: String,
    pub args: Vec<String>,
    pub env: Vec<(String, String)>,
}

/// The texts of a [`CommandLine`].
#[verifier::ext_equal]
pub struct CommandText {
    pub program: Seq<char>,
    pub args: Seq<Seq<char>>,
    pub env: Seq<(Seq<char>, Seq<char>)>,
}

impl View for CommandLine {
    type V = CommandText;

    open spec fn view(&self) -> CommandText {
        CommandText {
            program: self.program@,
            args: self.args@.map_values(|arg: String| arg@),
            env: self.env@.map_values(|pair: (String, String)| (pair.0@, pair.1@)),
        }
    }
}

/// `sh -c command`.
pub open spec fn shell_text(command: Seq<char>) -> CommandText {
    CommandText { program: "sh"@, args: seq!["-c"@, command], env: seq![] }
}

/// `command` in a shell that finds one word in `$1` and in a variable.
pub open spec fn hook_text(
    command: Seq<char>,
    variable: Seq<char>,
    value: Seq<char>,
) -> CommandText {
    CommandText {
        program: "sh"@,
        args: seq!["-c"@, command, "rkvm"@, value],
        env: seq![(variable, value)],
    }
}

/// Has the shell run `command`.
pub fn shell(command: &str) -> (r: CommandLine)
    ensures
        r@ == shell_text(command@),
{
    let mut args: Vec<String> = Vec::new();
    args.push("-c".to_owned());
    args.push(command.to_owned());
    let r = CommandLine { program: "sh".to_owned(), args, env: Vec::new() };
    assert(r@ =~= shell_text(command@));
    r
}

/// `command` in a shell that finds one word in `$1` and in a variable.
fn hook(command: &str, variable: &str, value: &str) -> (r: CommandLine)
    ensures
        r@ == hook_text(command@, variable@, value@),
{
    let mut args: Vec<String> = Vec::new();
    args.push("-c".to_owned());
    args.push(command.to_owned());
    args.push("rkvm".to_owned());
    args.push(value.to_owned());
    let mut env: Vec<(String, String)> = Vec::new();
    env.push((variable.to_owned(), value.to_owned()));
    let r = CommandLine { program: "sh".to_owned(), args, env };
    assert(r@ =~= hook_text(command@, variable@, value@));
    r
}

/// Has the shell run the command that is configured for switches. The name of the machine that
/// control moved to arrives in `$1` and in `$RKVM_TARGET`.
pub fn run_on_switch(command: &str, target: &str) -> (r: CommandLine)
    ensures
        r@ == hook_text(command@, "RKVM_TARGET"@, target@),
{
    hook(command, "RKVM_TARGET", target)
}

/// Has the shell run the command that a client has for when control arrives at it or leaves it.
/// Which of the two it is arrives in `$1` and in `$RKVM_ACTIVE`, as `true` or `false`.
pub fn run_on_active(command: &str, active: bool) -> (r: CommandLine)
    ensures
        r@ == hook_text(
            command@,
            "RKVM_ACTIVE"@,
            if active {
                "true"@
            } else {
                "false"@
            },
        ),
{
    hook(
        command,
        "RKVM_ACTIVE",
        if active {
            "true"
        } else {
            "false"
        },
    )
}

/// The shell gets a command as it is, and nothing else.
pub proof fn law_shell_gets_the_command(command: Seq<char>)
    ensures
        shell_text(command).program == "sh"@,
        shell_text(command).args == seq!["-c"@, command],
        shell_text(command).env.len() == 0,
{
}

/// A hook gets its command as it is, and one word that is in `$1` and in its variable.
pub proof fn law_hook_gets_one_word(command: Seq<char>, variable: Seq<char>, value: Seq<char>)
    ensures
        hook_text(command, variable, value).program == "sh"@,
        hook_text(command, variable, value).args == seq!["-c"@, command, "rkvm"@, value],
        hook_text(command, variable, value).env == seq![(variable, value)],
{
}

/// A command line is told by its texts, in order.
pub proof fn law_command_line_is_its_texts(line: CommandLine, i: int)
    ensures
        line@.program == line.program@,
        line@.args.len() == line.args@.len(),
        0 <= i < line.args@.len() ==> line@.args[i] == line.args@[i]@,
        line@.env.len() == line.env@.len(),
        0 <= i < line.env@.len() ==> line@.env[i] == (line.env@[i].0@, line.env@[i].1@),
{
}

} // verus!
