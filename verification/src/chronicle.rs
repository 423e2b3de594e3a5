//! What a command asks for, given whether a repository exists here.
use vstd::prelude::*;
use crate::args::{Commands, UserArgs};
use crate::error::ChronicleError;
use crate::hashing::{
    is_valid_hash, lemma_ascii_boundary, object_file_path, split_object_hash_to_paths, valid_hash,
};

verus! {

/// The work a command leads to.
#[derive(Debug, Clone, PartialEq)]
pub enum Action {
    /// Create the repository.
    Init,
    /// Stage the file or directory at `path`.
    Stage { path: String },
    /// Commit the staged files with `message`.
    Commit { message: String },
    /// Print the object stored at `file_path`.
    Cat { file_path: String },
    /// Nothing to do.
    Nothing,
}

/// `init` needs the repository to be missing; every other command needs it to exist.
pub open spec fn repo_state_result(command: Commands, repo_exists: bool) -> Result<(), ChronicleError> {
    let is_init = command is Init;
    if repo_exists && is_init {
        Err(ChronicleError::RepoAlreadyExists)
    } else if !repo_exists && !is_init {
        Err(ChronicleError::RepoMissing)
    } else {
        Ok(())
    }
}

pub fn ensure_valid_repo_state(user_args: &UserArgs, repo_exists: bool) -> (r: Result<
    (),
    ChronicleError,
>)
    ensures
        r == repo_state_result(user_args.command, repo_exists),
{
    let command_is_init = matches!(user_args.command, Commands::Init);
    if repo_exists && command_is_init {
        return Err(ChronicleError::RepoAlreadyExists);
    } else if !repo_exists && !command_is_init {
        return Err(ChronicleError::RepoMissing);
    }
    Ok(())
}

/// The file that holds the object with hash `hash`, when the hash is valid.
pub fn obj_file_path(hash: &str) -> (r: Result<String, ChronicleError>)
    ensures
        valid_hash(hash@) ==> (r matches Ok(p) && p@ == object_file_path(hash@)),
        !valid_hash(hash@) ==> r == Err::<String, ChronicleError>(ChronicleError::InvalidHash),
{
    if !is_valid_hash(hash) {
        return Err(ChronicleError::InvalidHash);
    }
    proof {
        vstd::utf8::is_ascii_chars_encode_utf8(hash@);
        lemma_ascii_boundary(hash@, 2);
    }
    let (_, file_path) = split_object_hash_to_paths(hash);
    Ok(file_path)
}

/// What the command in `user_args` leads to, when the repository is in the
/// state it needs.
pub fn process_command(user_args: UserArgs, repo_exists: bool) -> (r: Result<Action, ChronicleError>)
    ensures
        repo_state_result(user_args.command, repo_exists) matches Err(e) ==> r == Err::<
            Action,
            ChronicleError,
        >(e),
        repo_state_result(user_args.command, repo_exists) is Ok ==> match user_args.command {
            Commands::Init => r == Ok::<Action, ChronicleError>(Action::Init),
            Commands::Add { path } => r == Ok::<Action, ChronicleError>(Action::Stage { path }),
            Commands::Commit { message } => r == Ok::<Action, ChronicleError>(
                Action::Commit { message },
            ),
            Commands::Branch(_) => r == Ok::<Action, ChronicleError>(Action::Nothing),
            Commands::Cat { hash } => if valid_hash(hash@) {
                (r matches Ok(Action::Cat { file_path }) && file_path@ == object_file_path(hash@))
            } else {
                r == Err::<Action, ChronicleError>(ChronicleError::InvalidHash)
            },
        },
{
    ensure_valid_repo_state(&user_args, repo_exists)?;
    match user_args.command {
        Commands::Init => Ok(Action::Init),
        Commands::Add { path } => Ok(Action::Stage { path }),
        Commands::Commit { message } => Ok(Action::Commit { message }),
        Commands::Branch(_branch_commands) => Ok(Action::Nothing),
        Commands::Cat { hash } => {
            let file_path = obj_file_path(hash.as_str())?;
            Ok(Action::Cat { file_path })
        },
    }
}

} // verus!
