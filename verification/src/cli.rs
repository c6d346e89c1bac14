use vstd::prelude::*;

verus! {

/// The command-line programs of the suite.
#[derive(Debug, Clone, Copy, PartialEq, Eq, Structural)]
pub enum Program {
    Ffmpeg,
    Ffprobe,
    Ffplay,
}

/// The name each program is invoked and announced by.
pub open spec fn program_name(p: Program) -> Seq<char> {
    match p {
        Program::Ffmpeg => "ffmpeg"@,
        Program::Ffprobe => "ffprobe"@,
        Program::Ffplay => "ffplay"@,
    }
}

impl Program {
    pub fn name(self) -> (r: &'static str)
        ensures
            r@ == program_name(self),
    {
        match self {
            Program::Ffmpeg => "ffmpeg",
            Program::Ffprobe => "ffprobe",
            Program::Ffplay => "ffplay",
        }
    }
}

/// The arguments by value.
pub open spec fn args_view(args: Seq<String>) -> Seq<Seq<char>> {
    Seq::new(args.len(), |i: int| args[i]@)
}

/// Some argument after the program name is `-version` or `--version`.
pub open spec fn asks_version(args: Seq<Seq<char>>) -> bool {
    exists|i: int| 1 <= i < args.len() && (#[trigger] args[i] == "-version"@ || args[i] == "--version"@)
}

/// There is no argument after the program name, or one of them is `-h`,
/// `-help` or `--help`.
pub open spec fn asks_help(args: Seq<Seq<char>>) -> bool {
    args.len() <= 1 || exists|i: int| 1 <= i < args.len() && (#[trigger] args[i] == "-h"@ || args[i] == "-help"@ || args[i] == "--help"@)
}

pub fn wants_version(args: &Vec<String>) -> (r: bool)
    ensures
        r == asks_version(args_view(args@)),
{
    let ghost av = args_view(args@);
    let mut i: usize = 1;
    while i < args.len()
        invariant
            av == args_view(args@),
            1 <= i,
            forall|j: int| 1 <= j < i && j < av.len() ==> !(#[trigger] av[j] == "-version"@ || av[j] == "--version"@),
        decreases args@.len() - i,
    {
        let a = args[i].as_str();
        if crate::text::str_eq(a, "-version") || crate::text::str_eq(a, "--version") {
            assert(av[i as int] == a@);
            return true;
        }
        i += 1;
    }
    false
}

pub fn wants_help(args: &Vec<String>) -> (r: bool)
    ensures
        r == asks_help(args_view(args@)),
{
    let ghost av = args_view(args@);
    if args.len() <= 1 {
        return true;
    }
    let mut i: usize = 1;
    while i < args.len()
        invariant
            av == args_view(args@),
            av.len() > 1,
            1 <= i,
            forall|j: int| 1 <= j < i && j < av.len() ==> !(#[trigger] av[j] == "-h"@ || av[j] == "-help"@ || av[j] == "--help"@),
        decreases args@.len() - i,
    {
        let a = args[i].as_str();
        if crate::text::str_eq(a, "-h") || crate::text::str_eq(a, "-help") || crate::text::str_eq(a, "--help") {
            assert(av[i as int] == a@);
            return true;
        }
        i += 1;
    }
    false
}

} // verus!
