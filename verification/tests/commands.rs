use chronicle::args::{BranchCommands, BranchSubCommands, Commands, UserArgs};
use chronicle::chronicle::{ensure_valid_repo_state, obj_file_path, process_command, Action};
use chronicle::error::ChronicleError;
use chronicle::ignore::{is_ignored, is_invalid_ignore, read_ignore_lines, IgnoreLine};

fn args(command: Commands) -> UserArgs {
    UserArgs { command }
}

#[test]
fn init_needs_no_repository() {
    assert_eq!(process_command(args(Commands::Init), false), Ok(Action::Init));
    assert_eq!(
        process_command(args(Commands::Init), true),
        Err(ChronicleError::RepoAlreadyExists)
    );
}

#[test]
fn other_commands_need_a_repository() {
    let add = args(Commands::Add { path: String::from("src") });
    assert_eq!(ensure_valid_repo_state(&add, false), Err(ChronicleError::RepoMissing));
    assert_eq!(ensure_valid_repo_state(&add, true), Ok(()));
    assert_eq!(process_command(add.clone(), false), Err(ChronicleError::RepoMissing));
    assert_eq!(process_command(add, true), Ok(Action::Stage { path: String::from("src") }));
}

#[test]
fn commit_and_branch_commands() {
    assert_eq!(
        process_command(args(Commands::Commit { message: String::from("m") }), true),
        Ok(Action::Commit { message: String::from("m") })
    );
    let branch = Commands::Branch(BranchCommands {
        commands: BranchSubCommands::Create { name: String::from("b") },
    });
    assert_eq!(process_command(args(branch), true), Ok(Action::Nothing));
}

#[test]
fn cat_checks_the_hash() {
    let hash = "da39a3ee5e6b4b0d3255bfef95601890afd80709";
    assert_eq!(
        process_command(args(Commands::Cat { hash: String::from(hash) }), true),
        Ok(Action::Cat {
            file_path: String::from(".chronicle/objects/da/39a3ee5e6b4b0d3255bfef95601890afd80709")
        })
    );
    assert_eq!(
        process_command(args(Commands::Cat { hash: String::from("abc") }), true),
        Err(ChronicleError::InvalidHash)
    );
    assert_eq!(obj_file_path("abc"), Err(ChronicleError::InvalidHash));
}

#[test]
fn invalid_ignore_lines() {
    assert!(is_invalid_ignore("."));
    assert!(is_invalid_ignore(" .. "));
    assert!(!is_invalid_ignore("..."));
    assert!(!is_invalid_ignore("./target"));
    assert!(!is_invalid_ignore(""));
}

#[test]
fn ignore_file_lines() {
    let lines = read_ignore_lines("target\n.\n ..\r\nfoo bar \n\nlast");
    assert_eq!(
        lines,
        vec![
            IgnoreLine::Path(String::from("target")),
            IgnoreLine::Skipped(String::from(".")),
            IgnoreLine::Skipped(String::from("..")),
            IgnoreLine::Path(String::from("foo bar ")),
            IgnoreLine::Path(String::from("")),
            IgnoreLine::Path(String::from("last")),
        ]
    );
    assert!(read_ignore_lines("").is_empty());
}

#[test]
fn ignored_paths_compare_by_components() {
    let ignored = vec![String::from("/repo/target"), String::from("/repo/.chronicle")];
    assert!(is_ignored("/repo/target/", &ignored));
    assert!(is_ignored("/repo//.chronicle", &ignored));
    assert!(!is_ignored("/repo/src", &ignored));
    assert!(!is_ignored("repo/target", &ignored));
}
