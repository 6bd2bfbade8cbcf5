//! The arguments of an invocation, and the check of the two directories
//! among them.

use vstd::prelude::*;
use crate::fs::{absolute, is_absolute};
use crate::text::optional_text;

verus! {

/// The arguments of one invocation.
#[derive(Clone, Debug, PartialEq, Eq)]
pub struct Cli {
    /// The directory below which the files are discovered.
    pub source: String,
    /// The directory into which the files are brought.
    pub destination: String,
    /// Move the files instead of copying them.
    pub do_move: bool,
    /// Perform no write operation; show what would be done.
    pub dry_run: bool,
    /// Overwrite target files at the destination, if they exist.
    pub overwrite: bool,
}

/// Why a path is refused as a directory of the invocation.
#[derive(Clone, Copy, Debug, PartialEq, Eq, Structural)]
pub enum DirectoryError {
    /// Nothing exists at the path.
    DoesNotExist,
    /// What exists at the path is no directory.
    NotADirectory,
    /// The directory could not be resolved to an absolute path.
    Unresolvable,
}

/// What a directory argument is validated to, as plain values: the resolved
/// path of an existing directory, or the reason for which it is refused.
/// `resolved` is the absolute path that the directory resolved to, if it
/// did.
pub open spec fn validated(exists: bool, is_dir: bool, resolved: Option<Seq<char>>) -> Result<
    Seq<char>,
    DirectoryError,
> {
    if !exists {
        Err(DirectoryError::DoesNotExist)
    } else if !is_dir {
        Err(DirectoryError::NotADirectory)
    } else {
        match resolved {
            Some(path) if absolute(path) => Ok(path),
            _ => Err(DirectoryError::Unresolvable),
        }
    }
}

/// Validates a directory argument from what was found at its path: whether
/// anything exists there, whether that is a directory, and the absolute
/// path that it resolved to, if it did.
pub fn validate_directory(
    exists: bool,
    is_dir: bool,
    resolved: Option<String>,
) -> (checked: Result<String, DirectoryError>)
    ensures
        match checked {
            Ok(path) => validated(exists, is_dir, optional_text(resolved)) == Ok::<
                _,
                DirectoryError,
            >(path@) && absolute(path@),
            Err(error) => validated(exists, is_dir, optional_text(resolved)) == Err::<
                Seq<char>,
                _,
            >(error),
        },
{
    if !exists {
        Err(DirectoryError::DoesNotExist)
    } else if !is_dir {
        Err(DirectoryError::NotADirectory)
    } else {
        match resolved {
            Some(path) => {
                if is_absolute(path.as_str()) {
                    Ok(path)
                } else {
                    Err(DirectoryError::Unresolvable)
                }
            },
            None => Err(DirectoryError::Unresolvable),
        }
    }
}

impl DirectoryError {
    /// The text of the error, to be shown with the offending path.
    pub fn message(&self) -> (text: String)
        ensures
            text@ == match self {
                DirectoryError::DoesNotExist => "Directory does not exist"@,
                DirectoryError::NotADirectory => "Path is not a directory"@,
                DirectoryError::Unresolvable => "Directory cannot be resolved"@,
            },
    {
        match self {
            DirectoryError::DoesNotExist => "Directory does not exist".to_owned(),
            DirectoryError::NotADirectory => "Path is not a directory".to_owned(),
            DirectoryError::Unresolvable => "Directory cannot be resolved".to_owned(),
        }
    }
}

} // verus!
