//! The command lines that run a script at one of its phases, and the
//! options that a mount is made with.

use crate::text::texts;
use vstd::prelude::*;
use vstd::string::StringExecFns;

verus! {

/// How commands are run.
#[derive(Debug, Clone)]
pub struct RunOpt {
    /// Whether to use 'sudo' to run the command
    pub sudo: bool,
}

/// What a script is asked to do.
#[derive(Debug, Clone, Copy, PartialEq, Eq, Structural)]
pub enum Phase {
    /// Prepare the initial filesystem.
    Prepare,
    /// Make changes that will be recorded.
    Changes,
    /// Check properties.
    Verify,
}

/// The word that tells a script its phase.
pub open spec fn phase_text(phase: Phase) -> Seq<char> {
    match phase {
        Phase::Prepare => "prepare"@,
        Phase::Changes => "changes"@,
        Phase::Verify => "verify"@,
    }
}

/// The word that tells a script its phase.
pub fn phase_word(phase: Phase) -> (word: &'static str)
    ensures
        word@ == phase_text(phase),
{
    match phase {
        Phase::Prepare => "prepare",
        Phase::Changes => "changes",
        Phase::Verify => "verify",
    }
}

/// The line that `shell_words::join` makes of `words`: each word quoted so
/// that a Unix shell reads it as it stands, with spaces between them.
pub uninterp spec fn shell_joined(words: Seq<Seq<char>>) -> Seq<char>;

/// `shell_words::join` joins arguments into a single command line for a
/// Unix shell. How it quotes is its own affair: the line is known by name
/// only.
#[verifier::external_body]
fn join_words(words: &Vec<String>) -> (line: String)
    ensures
        line@ == shell_joined(words.deep_view()),
{
    shell_words::join(words)
}

/// The arguments that run a script at a phase: the script, the word for
/// the phase, and the path that the phase works on.
pub fn script_args(script_path: &str, phase: Phase, path: &str) -> (args: Vec<String>)
    ensures
        texts(args@) == seq![script_path@, phase_text(phase), path@],
{
    let mut args: Vec<String> = Vec::new();
    args.push(String::from_str(script_path));
    args.push(String::from_str(phase_word(phase)));
    args.push(String::from_str(path));
    args
}

/// The shell command that runs a script at a phase.
pub fn script_command(script_path: &str, phase: Phase, path: &str) -> (command: String)
    ensures
        command@ == shell_joined(seq![script_path@, phase_text(phase), path@]),
{
    let args = script_args(script_path, phase, path);
    assert(args.deep_view() =~= texts(args@));
    join_words(&args)
}

/// The arguments that hand a command to the shell, with the mount path as
/// its `$1`: `/bin/sh -c COMMAND -- DEST`.
pub fn shell_args(command: &str, dest: &str) -> (args: Vec<String>)
    ensures
        texts(args@) == seq!["/bin/sh"@, "-c"@, command@, "--"@, dest@],
{
    let mut args: Vec<String> = Vec::new();
    args.push(String::from_str("/bin/sh"));
    args.push(String::from_str("-c"));
    args.push(String::from_str(command));
    args.push(String::from_str("--"));
    args.push(String::from_str(dest));
    args
}

/// The arguments as they are run: behind `/bin/sudo` if commands are to
/// run with it, and as they are if not.
pub fn command_line(args: Vec<String>, run: &RunOpt) -> (line: Vec<String>)
    ensures
        texts(line@) == if run.sudo {
            seq!["/bin/sudo"@] + texts(args@)
        } else {
            texts(args@)
        },
{
    let mut args = args;
    if run.sudo {
        args.insert(0, String::from_str("/bin/sudo"));
    }
    args
}

/// Whether a mount needs `allow_root` added to its options: it does unless
/// root makes the mount or the options ask for `allow_other`.
pub open spec fn needs_allow_root(opts: Seq<Seq<char>>, uid: u32) -> bool {
    uid != 0 && !opts.contains("allow_other"@)
}

/// The options that a mount is made with by the user `uid`: the options
/// given, behind `-o allow_root` where that is needed, so that root can use
/// what another user has mounted.
pub fn mount_options(opts: &Vec<String>, uid: u32) -> (fixed: Vec<String>)
    ensures
        texts(fixed@) == if needs_allow_root(texts(opts@), uid) {
            seq!["-o"@, "allow_root"@] + texts(opts@)
        } else {
            texts(opts@)
        },
{
    let allow_other = String::from_str("allow_other");
    let ghost given = texts(opts@);
    let mut asks_allow_other = false;
    let mut i: usize = 0;
    while i < opts.len()
        invariant
            i <= opts.len(),
            given == texts(opts@),
            allow_other@ == "allow_other"@,
            asks_allow_other == exists|j: int| 0 <= j < i && given[j] == "allow_other"@,
        decreases opts.len() - i,
    {
        assert(given[i as int] == opts@[i as int]@);
        if opts[i] == allow_other {
            asks_allow_other = true;
        }
        i += 1;
    }
    assert(asks_allow_other == given.contains("allow_other"@));
    let mut fixed: Vec<String> = Vec::new();
    if !(asks_allow_other || uid == 0) {
        fixed.push(String::from_str("-o"));
        fixed.push(String::from_str("allow_root"));
    }
    let ghost head = texts(fixed@);
    let mut k: usize = 0;
    while k < opts.len()
        invariant
            k <= opts.len(),
            texts(fixed@) == head + texts(opts@).take(k as int),
        decreases opts.len() - k,
    {
        let ghost before = texts(fixed@);
        let opt = opts[k].clone();
        fixed.push(opt);
        assert(texts(fixed@) =~= before.push(opts@[k as int]@));
        k += 1;
    }
    assert(head =~= if needs_allow_root(texts(opts@), uid) {
        seq!["-o"@, "allow_root"@]
    } else {
        Seq::<Seq<char>>::empty()
    });
    fixed
}

} // verus!
