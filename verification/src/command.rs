//! Choosing what the tool is to do from the parsed command line.

use crate::text::{has_prefix, starts_with};
use vstd::prelude::*;
use vstd::string::StringExecFns;

verus! {

/// What the tool is asked to do.
#[derive(Clone, Copy, Debug, PartialEq, Eq, Structural)]
pub enum Command {
    /// Print the version number.
    Version,
    /// Set up a new application.
    New,
    /// Generate a resource in the application at hand.
    Resource,
}

/// Why a command line names nothing to do.
#[derive(Debug)]
pub enum CommandError {
    /// The generator asked for is none that the tool has; its name is kept.
    UnknownGenerator(String),
    /// Neither the version, nor a new application, nor a generator was
    /// asked for.
    UnknownCommand,
}

impl CommandError {
    /// The diagnostic shown to the user.
    pub fn message(&self) -> (text: String)
        ensures
            text@ == match *self {
                CommandError::UnknownGenerator(name) => "Unknown generator: `"@ + name@ + "`"@,
                CommandError::UnknownCommand => "Unknown command"@,
            },
    {
        match self {
            CommandError::UnknownGenerator(name) => {
                let mut text = String::from_str("Unknown generator: `");
                text.append(name.as_str());
                text.append("`");
                text
            },
            CommandError::UnknownCommand => String::from_str("Unknown command"),
        }
    }
}

/// The command that the parsed command line stands for. The version flag
/// goes before everything, a new application before a generator, and
/// `resource` is the one generator.
pub open spec fn selected(
    version: bool,
    new: bool,
    generate: bool,
    generator: Option<Seq<char>>,
) -> Option<Command> {
    if version {
        Some(Command::Version)
    } else if new {
        Some(Command::New)
    } else if generate && generator == Some("resource"@) {
        Some(Command::Resource)
    } else {
        None
    }
}

/// The characters of `generator`, where there is one.
pub open spec fn generator_text(generator: Option<&str>) -> Option<Seq<char>> {
    match generator {
        Some(name) => Some(name@),
        None => None,
    }
}

/// Chooses the command from what the command line parser found: whether
/// the version flag, the `new` command or a `generate` command was given,
/// and the generator named. A generator other than `resource` is refused
/// by its name; a command line that asks for nothing is refused too.
pub fn select(version: bool, new: bool, generate: bool, generator: Option<&str>) -> (chosen: Result<
    Command,
    CommandError,
>)
    ensures
        match chosen {
            Ok(command) => selected(version, new, generate, generator_text(generator)) == Some(
                command,
            ),
            Err(CommandError::UnknownGenerator(name)) => {
                &&& selected(version, new, generate, generator_text(generator)) is None
                &&& generate
                &&& generator_text(generator) == Some(name@)
            },
            Err(CommandError::UnknownCommand) => {
                &&& selected(version, new, generate, generator_text(generator)) is None
                &&& !(generate && generator is Some)
            },
        },
{
    if version {
        return Ok(Command::Version);
    }
    if new {
        return Ok(Command::New);
    }
    if generate {
        match generator {
            Some(name) => {
                if has_prefix(name, "resource") && has_prefix("resource", name) {
                    assert(name@ == "resource"@) by {
                        assert(name@.subrange(0, name@.len() as int) == name@);
                        assert("resource"@.subrange(0, "resource"@.len() as int) == "resource"@);
                    }
                    return Ok(Command::Resource);
                }
                assert(name@ != "resource"@) by {
                    if name@ == "resource"@ {
                        assert(name@.subrange(0, name@.len() as int) == name@);
                        assert(starts_with(name@, "resource"@));
                    }
                }
                return Err(CommandError::UnknownGenerator(String::from_str(name)));
            },
            None => {},
        }
    }
    Err(CommandError::UnknownCommand)
}

} // verus!
