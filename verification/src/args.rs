//! The arguments of the program.

use vstd::prelude::*;

use crate::path;
use crate::path::{NodePath, Place};
use crate::text;
use crate::text::{begins_with, chars_of, owned, string_from};

verus! {

/// What is wrong with the arguments.
#[derive(Clone, Copy, Debug, PartialEq, Eq, Structural)]
pub enum ArgError {
    MissingPrefix,
    UnknownOption,
    ManyPaths,
    NotADirectory,
}

impl ArgError {
    /// What is said of the argument at fault.
    pub open spec fn wording(self, arg: Seq<char>) -> Seq<char> {
        match self {
            ArgError::MissingPrefix => "Error: --screenshot requires a prefix argument"@,
            ArgError::UnknownOption => "Unknown option: "@ + arg,
            ArgError::ManyPaths => "Error: multiple paths provided"@,
            ArgError::NotADirectory => "Error: not a directory: "@ + arg,
        }
    }

    pub fn message(self, arg: &str) -> (message: String)
        ensures
            message@ == self.wording(arg@),
    {
        match self {
            ArgError::MissingPrefix => owned("Error: --screenshot requires a prefix argument"),
            ArgError::UnknownOption => {
                let mut message = owned("Unknown option: ");
                message.append(arg);
                message
            },
            ArgError::ManyPaths => owned("Error: multiple paths provided"),
            ArgError::NotADirectory => {
                let mut message = owned("Error: not a directory: ");
                message.append(arg);
                message
            },
        }
    }

    /// Whether the usage is shown after the message.
    pub fn shows_help(self) -> (yes: bool)
        ensures
            yes == (self == ArgError::UnknownOption || self == ArgError::ManyPaths),
    {
        match self {
            ArgError::UnknownOption | ArgError::ManyPaths => true,
            _ => false,
        }
    }
}

/// What an argument asks for.
#[derive(Clone, Copy, Debug, PartialEq, Eq, Structural)]
pub enum ArgStep {
    /// Nothing yet.
    Continue,
    /// The usage.
    Help,
    /// To scan the path that it spells.
    Scan,
    /// Nothing that can be done.
    Refuse(ArgError),
}

/// What is known from the arguments so far.
pub struct Args {
    expects_prefix: bool,
    has_path: bool,
    prefix: Option<String>,
}

impl Args {
    /// Whether the next argument is the prefix of screenshots.
    pub closed spec fn expecting(&self) -> bool {
        self.expects_prefix
    }

    /// Whether there was a path.
    pub closed spec fn scans(&self) -> bool {
        self.has_path
    }

    /// The prefix of screenshots.
    pub closed spec fn screenshots(&self) -> Option<Seq<char>> {
        match self.prefix {
            Some(prefix) => Some(prefix@),
            None => None,
        }
    }

    pub fn new() -> (args: Self)
        ensures
            !args.expecting(),
            !args.scans(),
            args.screenshots() is None,
    {
        Args { expects_prefix: false, has_path: false, prefix: None }
    }

    /// Takes the next argument.
    pub fn take(&mut self, arg: &str) -> (step: ArgStep)
        ensures
            ({
                let option = text::has_prefix(arg@, "-"@);
                if old(self).expecting() {
                    &&& step == ArgStep::Continue
                    &&& !final(self).expecting()
                    &&& final(self).screenshots() == Some(arg@)
                    &&& final(self).scans() == old(self).scans()
                } else {
                    &&& step == (if arg@ == "-h"@ || arg@ == "--help"@ {
                        ArgStep::Help
                    } else if arg@ == "--screenshot"@ {
                        ArgStep::Continue
                    } else if option {
                        ArgStep::Refuse(ArgError::UnknownOption)
                    } else if old(self).scans() {
                        ArgStep::Refuse(ArgError::ManyPaths)
                    } else {
                        ArgStep::Scan
                    })
                    &&& final(self).expecting() == (arg@ == "--screenshot"@)
                    &&& final(self).scans() == (old(self).scans() || step == ArgStep::Scan)
                    &&& final(self).screenshots() == old(self).screenshots()
                }
            }),
    {
        proof {
            reveal_strlit("-h");
            reveal_strlit("--help");
            reveal_strlit("--screenshot");
            assert("-h"@.len() == 2 && "--help"@.len() == 6 && "--screenshot"@.len() == 12);
        }
        if self.expects_prefix {
            self.expects_prefix = false;
            self.prefix = Some(owned(arg));
            return ArgStep::Continue;
        }
        if arg.eq("-h") || arg.eq("--help") {
            return ArgStep::Help;
        }
        if arg.eq("--screenshot") {
            self.expects_prefix = true;
            return ArgStep::Continue;
        }
        if begins_with(arg, "-") {
            return ArgStep::Refuse(ArgError::UnknownOption);
        }
        if self.has_path {
            return ArgStep::Refuse(ArgError::ManyPaths);
        }
        self.has_path = true;
        ArgStep::Scan
    }

    /// The prefix of screenshots, where there is one, once all arguments were
    /// taken.
    pub fn finish(self) -> (prefix: Result<Option<String>, ArgError>)
        ensures
            match prefix {
                Ok(Some(prefix)) => !self.expecting() && self.screenshots() == Some(prefix@),
                Ok(None) => !self.expecting() && self.screenshots() is None,
                Err(error) => self.expecting() && error == ArgError::MissingPrefix,
            },
    {
        if self.expects_prefix {
            Err(ArgError::MissingPrefix)
        } else {
            Ok(self.prefix)
        }
    }
}

/// The path that an argument spells: one that begins with `~` lies in the
/// user's directory, where that is known.
pub open spec fn expanded(arg: Seq<char>, home: Option<Place>) -> Place {
    match home {
        Some(home) if text::has_prefix(arg, "~/"@) => path::join_place(home, arg.skip(2)),
        Some(home) if arg == "~"@ => path::join_place(home, Seq::empty()),
        _ => path::place(arg),
    }
}

/// The path that an argument spells.
pub fn expand(arg: &str, home: Option<&NodePath>) -> (path: NodePath)
    ensures
        path.place() == expanded(arg@, match home {
            Some(home) => Some(home.place()),
            None => None,
        }),
{
    if let Some(home) = home {
        if begins_with(arg, "~/") {
            proof {
                reveal_strlit("~/");
            }
            let chars = chars_of(arg);
            let rest = string_from(chars.as_slice(), 2, chars.len());
            assert(rest@ =~= arg@.skip(2));
            return home.join(rest.as_str());
        }
        if arg.eq("~") {
            proof {
                reveal_strlit("");
                assert(""@ =~= Seq::<char>::empty());
            }
            return home.join("");
        }
    }
    NodePath::new(arg)
}

/// A path may be given once: the next one is refused. Help is shown whatever came before,
/// and what follows `--screenshot` is its prefix, whatever it looks like.
pub proof fn lemma_arguments(args: &mut Args, arg: &str, step: ArgStep)
    requires
        call_ensures(Args::take, (args, arg), step),
    ensures
        !old(args).expecting() && arg@.len() > 0 && arg@[0] != '-' ==> {
            &&& old(args).scans() ==> step == ArgStep::Refuse(ArgError::ManyPaths)
            &&& !old(args).scans() ==> step == ArgStep::Scan && final(args).scans()
        },
        !old(args).expecting() && arg@ == "--help"@ ==> step == ArgStep::Help,
        old(args).expecting() ==> step == ArgStep::Continue && final(args).screenshots() == Some(
            arg@,
        ) && final(args).scans() == old(args).scans(),
        step == ArgStep::Scan ==> !old(args).scans() && !old(args).expecting(),
{
    reveal_strlit("-");
    reveal_strlit("-h");
    reveal_strlit("--help");
    reveal_strlit("--screenshot");
    assert("-h"@[0] == '-' && "--help"@[0] == '-' && "--screenshot"@[0] == '-');
    if text::has_prefix(arg@, "-"@) {
        assert(arg@.take(1)[0] == '-');
    }
}

/// A path that begins with the user's mark lies in the user's directory; any other is taken
/// as it is.
pub proof fn lemma_expanded(rest: Seq<char>, arg: Seq<char>, home: Place)
    ensures
        expanded(seq!['~', '/'] + rest, Some(home)) == path::join_place(home, rest),
        expanded(seq!['~'], Some(home)).parts == path::join_parts(home.parts, Seq::empty()),
        arg.len() == 0 || arg[0] != '~' ==> expanded(arg, Some(home)) == path::place(arg),
        expanded(arg, None) == path::place(arg),
{
    reveal_strlit("~/");
    reveal_strlit("~");
    let whole = seq!['~', '/'] + rest;
    assert(whole.take(2) =~= "~/"@);
    assert(whole.skip(2) =~= rest);
    assert(seq!['~'] =~= "~"@);
    if text::has_prefix(arg, "~/"@) {
        assert(arg.take(2)[0] == '~');
    }
}

/// A message about an argument ends with that argument, and the usage is shown after an
/// option that is not known or a second path.
pub proof fn lemma_messages(error: ArgError, arg: &str, message: String, usage: bool)
    requires
        call_ensures(ArgError::message, (error, arg), message),
        call_ensures(ArgError::shows_help, (error,), usage),
    ensures
        error is UnknownOption || error is NotADirectory ==> text::has_suffix(message@, arg@),
        usage <==> error is UnknownOption || error is ManyPaths,
{
    if error is UnknownOption || error is NotADirectory {
        assert(message@.skip(message@.len() - arg@.len()) =~= arg@);
    }
}

} // verus!
