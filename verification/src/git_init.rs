//! The decision behind creating a Git-backed repository: which layout to
//! initialise, from the command's arguments and what already exists on disk.
//!
//! Probing the filesystem and performing the initialisation belong to the
//! surrounding tool; the choice itself is made here.

use vstd::prelude::*;

verus! {

/// Arguments for creating a Git-backed repository.
#[derive(Debug, Clone)]
pub struct GitInitArgs {
    /// The destination directory where the repository will be created.
    pub destination: String,
    /// Whether the repository should also be a valid Git working copy,
    /// sharing its directory.
    pub colocate: bool,
    /// A path to an existing Git repository to use as the backing store.
    pub git_repo: Option<String>,
}

/// The layout to initialise.
#[derive(Debug, Clone, Copy, PartialEq, Eq, Structural)]
pub enum GitInitMode {
    /// A Git repository is created beside the new repository, sharing its
    /// working directory.
    Colocate,
    /// An existing Git repository backs the new repository.
    External,
    /// The backing Git repository lives inside the new repository's own
    /// state directory.
    Internal,
}

/// Why no repository can be created.
#[derive(Debug, Clone, Copy, PartialEq, Eq, Structural)]
pub enum GitInitError {
    /// The directory already holds a Git repository, and colocating with it
    /// was not requested.
    ExistingGitRepo,
}

impl GitInitArgs {
    /// Chooses the initialisation mode. `colocated_git_repo_exists` says
    /// whether the destination already holds a `.git` directory: colocating
    /// then reuses it, while a plain initialisation refuses to shadow it.
    pub fn init_mode(&self, colocated_git_repo_exists: bool) -> (r: Result<
        GitInitMode,
        GitInitError,
    >)
        ensures
            self.colocate && colocated_git_repo_exists ==> r == Ok::<
                GitInitMode,
                GitInitError,
            >(GitInitMode::External),
            self.colocate && !colocated_git_repo_exists ==> r == Ok::<
                GitInitMode,
                GitInitError,
            >(GitInitMode::Colocate),
            !self.colocate && self.git_repo is Some ==> r == Ok::<
                GitInitMode,
                GitInitError,
            >(GitInitMode::External),
            !self.colocate && self.git_repo is None && colocated_git_repo_exists ==> r == Err::<
                GitInitMode,
                GitInitError,
            >(GitInitError::ExistingGitRepo),
            !self.colocate && self.git_repo is None && !colocated_git_repo_exists ==> r == Ok::<
                GitInitMode,
                GitInitError,
            >(GitInitMode::Internal),
    {
        if self.colocate {
            if colocated_git_repo_exists {
                Ok(GitInitMode::External)
            } else {
                Ok(GitInitMode::Colocate)
            }
        } else if self.git_repo.is_some() {
            Ok(GitInitMode::External)
        } else if colocated_git_repo_exists {
            Err(GitInitError::ExistingGitRepo)
        } else {
            Ok(GitInitMode::Internal)
        }
    }
}

} // verus!
