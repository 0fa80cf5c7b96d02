//! Command-line handling: `terra-wm [--winit|--tty-udev] [-c command]`.

use vstd::prelude::*;

verus! {

/// Which backend the compositor runs on, or `Usage` when the first
/// argument names none (then the usage line is printed).
#[derive(Clone, Copy, Debug, PartialEq, Eq, Structural)]
pub enum Backend {
    Winit,
    TtyUdev,
    Usage,
}

/// What the command line asks for: a backend and, optionally, a client
/// command to spawn once the compositor runs.
#[derive(Debug)]
pub struct Invocation {
    pub backend: Backend,
    pub command: Option<String>,
}

/// Whether an argument introduces the client command.
pub open spec fn is_command_flag(arg: Seq<char>) -> bool {
    arg == "-c"@ || arg == "--command"@
}

/// The backend the first argument names.
pub open spec fn backend_of(args: Seq<Seq<char>>) -> Backend {
    if args.len() > 0 && args[0] == "--winit"@ {
        Backend::Winit
    } else if args.len() > 0 && args[0] == "--tty-udev"@ {
        Backend::TtyUdev
    } else {
        Backend::Usage
    }
}

/// The client command: the argument after the first `-c` or `--command`
/// found scanning from `i`; `None` when there is none or it is the last
/// argument.
pub open spec fn command_from(args: Seq<Seq<char>>, i: int) -> Option<Seq<char>>
    decreases args.len() - i,
{
    if i < 0 || i >= args.len() {
        None
    } else if is_command_flag(args[i]) {
        if i + 1 < args.len() {
            Some(args[i + 1])
        } else {
            None
        }
    } else {
        command_from(args, i + 1)
    }
}

/// Parse the arguments that follow the program name: the first selects the
/// backend, and among the others the first `-c`/`--command` takes the next
/// argument as the client command (later ones are ignored).
pub fn parse_args(args: &Vec<String>) -> (inv: Invocation)
    ensures
        inv.backend == backend_of(args@.map_values(|a: String| a@)),
        match inv.command {
            Some(c) => command_from(args@.map_values(|a: String| a@), 1) == Some(c@),
            None => command_from(args@.map_values(|a: String| a@), 1) == None::<Seq<char>>,
        },
{
    let ghost all = args@.map_values(|a: String| a@);
    let winit = String::from_str("--winit");
    let udev = String::from_str("--tty-udev");
    let short = String::from_str("-c");
    let long = String::from_str("--command");
    let backend = if args.len() > 0 && args[0] == winit {
        Backend::Winit
    } else if args.len() > 0 && args[0] == udev {
        Backend::TtyUdev
    } else {
        Backend::Usage
    };
    let mut command: Option<String> = None;
    let mut i: usize = 1;
    while i < args.len()
        invariant
            1 <= i,
            all == args@.map_values(|a: String| a@),
            short@ == "-c"@,
            long@ == "--command"@,
            command_from(all, 1) == command_from(all, i as int),
            backend == backend_of(all),
            command is None,
        decreases args@.len() - i,
    {
        let arg = &args[i];
        if *arg == short || *arg == long {
            assert(is_command_flag(all[i as int]));
            if i + 1 < args.len() {
                command = Some(args[i + 1].clone());
            }
            return Invocation { backend, command };
        }
        i = i + 1;
    }
    Invocation { backend, command }
}

/// The client command is the argument right after the first `-c` or
/// `--command` at or after `start`: no flag comes before that one, and
/// there is no command exactly when there is no flag, or the first flag is
/// the last argument.
pub proof fn lemma_command_follows_first_flag(args: Seq<Seq<char>>, start: int)
    requires
        0 <= start,
    ensures
        command_from(args, start) matches Some(c) ==> exists|i: int|
            start <= i && i + 1 < args.len() && is_command_flag(#[trigger] args[i]) && c == args[i + 1]
                && forall|j: int| start <= j < i ==> !is_command_flag(#[trigger] args[j]),
        command_from(args, start) is None <==> ({
            ||| forall|j: int| start <= j < args.len() ==> !is_command_flag(#[trigger] args[j])
            ||| (start <= args.len() - 1 && is_command_flag(args[args.len() - 1]) && forall|j: int|
                start <= j < args.len() - 1 ==> !is_command_flag(#[trigger] args[j]))
        }),
    decreases args.len() - start,
{
    if start < args.len() {
        lemma_command_follows_first_flag(args, start + 1);
        if is_command_flag(args[start]) {
            if start + 1 < args.len() {
                assert(forall|j: int| start <= j < start ==> !is_command_flag(#[trigger] args[j]));
                assert(!(forall|j: int| start <= j < args.len() ==> !is_command_flag(#[trigger] args[j])));
                if start <= args.len() - 1 && is_command_flag(args[args.len() - 1]) && forall|j: int|
                    start <= j < args.len() - 1 ==> !is_command_flag(#[trigger] args[j]) {
                    assert(!is_command_flag(args[start]));
                }
            } else {
                assert(forall|j: int| start <= j < args.len() - 1 ==> !is_command_flag(#[trigger] args[j]));
            }
        } else {
            if let Some(c) = command_from(args, start + 1) {
                let i = choose|i: int|
                    start + 1 <= i && i + 1 < args.len() && is_command_flag(#[trigger] args[i]) && c == args[i
                        + 1] && forall|j: int| start + 1 <= j < i ==> !is_command_flag(#[trigger] args[j]);
                assert forall|j: int| start <= j < i implies !is_command_flag(#[trigger] args[j]) by {
                    if j > start {
                        assert(!is_command_flag(args[j]));
                    }
                }
            }
        }
    }
}

} // verus!
