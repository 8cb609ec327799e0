//! What is known of a configured executable on disk, and why it is refused.

use vstd::prelude::*;
use vstd::string::*;

verus! {

/// What the file system reports of a configured path.
pub enum PathStatus {
    /// Its metadata could not be read; the text of the error.
    Unreadable(String),
    /// Its metadata: whether it is a regular file, and its permission bits.
    Present { is_file: bool, mode: u32 },
}

/// Why a configured executable is refused.
pub enum ConfigError {
    /// Its metadata could not be read; the text of the error.
    Unreadable(String),
    /// The path, which is not a regular file.
    NotAFile(String),
    /// The path, which no one may execute.
    NotExecutable(String),
}

/// A refusal, as text.
pub enum Problem {
    Unreadable(Seq<char>),
    NotAFile(Seq<char>),
    NotExecutable(Seq<char>),
}

impl View for ConfigError {
    type V = Problem;

    open spec fn view(&self) -> Problem {
        match self {
            ConfigError::Unreadable(e) => Problem::Unreadable(e@),
            ConfigError::NotAFile(p) => Problem::NotAFile(p@),
            ConfigError::NotExecutable(p) => Problem::NotExecutable(p@),
        }
    }
}

/// Whether a permission mode lets someone execute the file.
pub open spec fn mode_allows_execution(mode: u32) -> bool {
    mode & 0o111u32 != 0
}

/// Why the executable at `path` with the given status is refused, if it is.
pub open spec fn path_problem(path: Seq<char>, status: PathStatus) -> Option<Problem> {
    match status {
        PathStatus::Unreadable(e) => Some(Problem::Unreadable(e@)),
        PathStatus::Present { is_file, mode } => {
            if !is_file {
                Some(Problem::NotAFile(path))
            } else if !mode_allows_execution(mode) {
                Some(Problem::NotExecutable(path))
            } else {
                None
            }
        },
    }
}

/// A regular file is accepted exactly when one of the three execute bits (owner, group,
/// others) is set in its mode, whatever else the mode holds (file type, setuid, sticky
/// bits); otherwise it is refused as not executable. What is not a regular file is
/// refused as such, whatever its mode.
pub proof fn lemma_execute_bits(path: Seq<char>, mode: u32)
    ensures
        path_problem(path, PathStatus::Present { is_file: true, mode }) == if mode % 2 == 1 || (mode
            / 8) % 2 == 1 || (mode / 64) % 2 == 1 {
            None
        } else {
            Some(Problem::NotExecutable(path))
        },
        path_problem(path, PathStatus::Present { is_file: false, mode }) == Some(
            Problem::NotAFile(path),
        ),
{
    assert((mode & 0o111u32 != 0) == (mode % 2 == 1 || (mode / 8) % 2 == 1 || (mode / 64) % 2
        == 1)) by (bit_vector);
}

/// The text of a refusal.
pub open spec fn problem_text(p: Problem) -> Seq<char> {
    match p {
        Problem::Unreadable(e) => e,
        Problem::NotAFile(path) => path + seq![' ', 'i', 's', ' ', 'n', 'o', 't', ' ', 'a', ' ', 'f', 'i', 'l', 'e'],
        Problem::NotExecutable(path) => path + seq![
            ' ', 'i', 's', ' ', 'n', 'o', 't', ' ', 'a', 'n', ' ',
            'e', 'x', 'e', 'c', 'u', 't', 'a', 'b', 'l', 'e',
        ],
    }
}

/// Checks the executable at `path`.
pub fn check_path(path: &String, status: &PathStatus) -> (res: Result<(), ConfigError>)
    ensures
        match res {
            Ok(()) => path_problem(path@, *status) is None,
            Err(e) => path_problem(path@, *status) == Some(e@),
        },
{
    match status {
        PathStatus::Unreadable(e) => Err(ConfigError::Unreadable(e.clone())),
        PathStatus::Present { is_file, mode } => {
            if !*is_file {
                Err(ConfigError::NotAFile(path.clone()))
            } else if *mode & 0o111u32 == 0 {
                Err(ConfigError::NotExecutable(path.clone()))
            } else {
                Ok(())
            }
        },
    }
}

impl ConfigError {
    /// The message of the refusal: `<path> is not a file`, `<path> is not an executable`,
    /// or the text of the error that reading the metadata gave.
    pub fn message(&self) -> (text: String)
        ensures
            text@ == problem_text(self@),
    {
        match self {
            ConfigError::Unreadable(e) => e.clone(),
            ConfigError::NotAFile(p) => {
                let mut text = p.clone();
                text.append(" is not a file");
                proof {
                    reveal_strlit(" is not a file");
                }
                text
            },
            ConfigError::NotExecutable(p) => {
                let mut text = p.clone();
                text.append(" is not an executable");
                proof {
                    reveal_strlit(" is not an executable");
                }
                text
            },
        }
    }
}

} // verus!
