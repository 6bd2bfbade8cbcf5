use rawsort::cli::{validate_directory, Cli, DirectoryError};

#[test]
fn an_existing_directory_is_resolved() {
    assert_eq!(
        validate_directory(true, true, Some("/home/jane/photos".to_string())),
        Ok("/home/jane/photos".to_string())
    );
    assert_eq!(validate_directory(true, true, Some("/".to_string())), Ok("/".to_string()));
}

#[test]
fn a_missing_path_does_not_exist() {
    assert_eq!(validate_directory(false, false, None), Err(DirectoryError::DoesNotExist));
    assert_eq!(
        validate_directory(false, true, Some("/x".to_string())),
        Err(DirectoryError::DoesNotExist)
    );
}

#[test]
fn a_file_is_no_directory() {
    assert_eq!(
        validate_directory(true, false, Some("/etc/hosts".to_string())),
        Err(DirectoryError::NotADirectory)
    );
    assert_eq!(validate_directory(true, false, None), Err(DirectoryError::NotADirectory));
}

#[test]
fn a_directory_that_does_not_resolve_is_refused() {
    assert_eq!(validate_directory(true, true, None), Err(DirectoryError::Unresolvable));
    assert_eq!(
        validate_directory(true, true, Some("photos".to_string())),
        Err(DirectoryError::Unresolvable)
    );
    assert_eq!(
        validate_directory(true, true, Some("".to_string())),
        Err(DirectoryError::Unresolvable)
    );
}

#[test]
fn directory_error_messages() {
    assert_eq!(DirectoryError::DoesNotExist.message(), "Directory does not exist");
    assert_eq!(DirectoryError::NotADirectory.message(), "Path is not a directory");
    assert_eq!(DirectoryError::Unresolvable.message(), "Directory cannot be resolved");
}

#[test]
fn arguments_hold_two_directories_and_three_flags() {
    let cli = Cli {
        source: "/in".to_string(),
        destination: "/out".to_string(),
        do_move: true,
        dry_run: false,
        overwrite: true,
    };
    let copy = cli.clone();
    assert_eq!(copy, cli);
    assert_eq!(copy.source, "/in");
    assert_eq!(copy.destination, "/out");
    assert!(copy.do_move && !copy.dry_run && copy.overwrite);
}
