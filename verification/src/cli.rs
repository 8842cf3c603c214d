//! The commands of the tool: `latest <prefix>`, `install [prefix]` and
//! `revert [prefix]`.

use vstd::prelude::*;

use crate::archive::Archive;

verus! {

/// A command of the tool.
#[derive(Debug, Clone, PartialEq, Eq)]
pub enum Subcommands {
    /// Tell the base name of the latest archive named `prefix`.
    Latest { prefix: String },
    /// Install an archive, of the name `maybe_prefix` if one is given.
    Install { maybe_prefix: Option<String> },
    /// Go back to the archive installed before.
    Revert { maybe_prefix: Option<String> },
}

/// The arguments of the tool: the command.
#[derive(Debug, Clone, PartialEq, Eq)]
pub struct CmdArgs {
    pub subcmd: Subcommands,
}

/// The message of the `revert` command, which is not implemented.
pub open spec fn revert_message() -> Seq<char> {
    "This command is not yet implemented."@
}

/// The `revert` command: it is not implemented, and always fails so.
pub fn main_revert(maybe_prefix: Option<String>) -> (r: Result<(), String>)
    ensures
        r matches Err(m) && m@ == revert_message(),
{
    Err(String::from_str("This command is not yet implemented."))
}


/// The error logged when `install` finds no archive, of the name
/// `maybe_prefix` if one is given.
pub open spec fn no_archives_message(maybe_prefix: Option<Seq<char>>) -> Seq<char> {
    match maybe_prefix {
        Some(prefix) => "No archives found for '"@ + prefix + "'."@,
        None => "No archives found."@,
    }
}

/// What `install` does with `matching` archives found: where there are
/// none it logs the returned error and stops (successfully); otherwise it
/// goes on to ask which archive to install.
pub fn install_decision(matching: usize, maybe_prefix: Option<&str>) -> (m: Option<String>)
    ensures
        m is Some <==> matching == 0,
        m matches Some(s) ==> s@ == no_archives_message(
            match maybe_prefix {
                Some(p) => Some(p@),
                None => None::<Seq<char>>,
            },
        ),
{
    if matching != 0 {
        return None;
    }
    match maybe_prefix {
        Some(prefix) => {
            let mut s = String::from_str("No archives found for '");
            s.append(prefix);
            s.append("'.");
            Some(s)
        },
        None => Some(String::from_str("No archives found.")),
    }
}

/// The error of `install` when the prompt ends without a selection.
pub open spec fn aborted_message() -> Seq<char> {
    "aborted without selecting an archive"@
}

/// The archive `install` goes on with: the selected one, or the error that
/// the prompt was left without a selection.
pub fn require_selection<'a>(selected: Option<&'a Archive>) -> (r: Result<&'a Archive, String>)
    ensures
        match selected {
            Some(a) => r == Ok::<&'a Archive, String>(a),
            None => r matches Err(m) && m@ == aborted_message(),
        },
{
    match selected {
        Some(a) => Ok(a),
        None => Err(String::from_str("aborted without selecting an archive")),
    }
}

} // verus!
