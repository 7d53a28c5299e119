use lsr::fault::WalkError;

#[test]
fn not_a_directory_names_the_path() {
    let error = WalkError::NotADirectory {
        path: "some/file.txt".to_string(),
    };
    assert_eq!(error.message(), "some/file.txt is not a directory");
}

#[test]
fn metadata_failure_gives_the_cause() {
    let error = WalkError::MetadataUnavailable {
        path: "top/a".to_string(),
        cause: "No such file or directory (os error 2)".to_string(),
    };
    assert_eq!(error.message(), "No such file or directory (os error 2)");
}

#[test]
fn unreadable_directory_gives_the_cause() {
    let error = WalkError::Unreadable {
        path: "top/locked".to_string(),
        cause: "Permission denied (os error 13)".to_string(),
    };
    assert_eq!(error.message(), "Permission denied (os error 13)");
}
