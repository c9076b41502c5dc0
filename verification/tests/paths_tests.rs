use scanner::paths::{
    check_index_path, format_path, get_index_path, INDEX_MISSING, INDEX_NOT_DB, NO_INDEX_PATH,
};

#[test]
fn get_index_path_empty() {
    let args = vec![];

    let result = get_index_path(args, false);
    assert!(result.is_err());
}

#[test]
fn get_index_path_not_exists() {
    let mut args: Vec<String> = Vec::new();
    args.push("./hello".to_string());

    // Nothing exists at ./hello.
    let result = get_index_path(args, false);
    assert!(result.is_err());
}

#[test]
fn get_index_path_not_db() {
    let mut args_dir: Vec<String> = Vec::new();
    args_dir.push("./test_dir".to_string());

    // The directory exists.
    let result_dir = get_index_path(args_dir, true);
    assert!(result_dir.is_err());

    // An existing file without extension.
    let mut args_file: Vec<String> = Vec::new();
    args_file.push("./test_dir/not_valid".to_string());

    let result_file = get_index_path(args_file, true);

    assert!(result_file.is_err());
}

#[test]
fn index_path_needs_exactly_two_arguments() {
    assert_eq!(get_index_path(vec![], true), Err(NO_INDEX_PATH));
    assert_eq!(get_index_path(vec!["scanner".to_string()], true), Err(NO_INDEX_PATH));
    assert_eq!(
        get_index_path(vec!["scanner".to_string(), "a.db".to_string(), "b.db".to_string()], true),
        Err(NO_INDEX_PATH)
    );
    assert_eq!(NO_INDEX_PATH, "Must provide index path.");
}

#[test]
fn index_path_that_does_not_exist() {
    let args = vec!["scanner".to_string(), "/definitely/not/here/index.db".to_string()];
    assert_eq!(get_index_path(args, false), Err(INDEX_MISSING));
    assert_eq!(INDEX_MISSING, "Invalid index path, doesn't exists.");
}

#[test]
fn index_path_that_exists_without_extension() {
    let args = vec!["scanner".to_string(), "/".to_string()];
    assert_eq!(get_index_path(args, true), Err(INDEX_NOT_DB));
    let args = vec!["scanner".to_string(), "/data/index".to_string()];
    assert_eq!(get_index_path(args, true), Err(INDEX_NOT_DB));
    let args = vec!["scanner".to_string(), "/data/.db".to_string()];
    assert_eq!(get_index_path(args, true), Err(INDEX_NOT_DB));
    assert_eq!(INDEX_NOT_DB, "Invalid index path.");
}

#[test]
fn index_path_with_the_index_extension() {
    let args = vec!["scanner".to_string(), "/data/index.db".to_string()];
    assert_eq!(get_index_path(args, true), Ok("/data/index.db".to_string()));
    let args = vec!["scanner".to_string(), "index.backup.db".to_string()];
    assert_eq!(get_index_path(args, true), Ok("index.backup.db".to_string()));
}

#[test]
fn index_path_with_another_extension() {
    let args = vec!["scanner".to_string(), "/data/index.sqlite".to_string()];
    assert_eq!(get_index_path(args, true), Err(INDEX_NOT_DB));
    let args = vec!["scanner".to_string(), "/data.db/index.txt".to_string()];
    assert_eq!(get_index_path(args, true), Err(INDEX_NOT_DB));
    let args = vec!["scanner".to_string(), "db".to_string()];
    assert_eq!(get_index_path(args, true), Err(INDEX_NOT_DB));
}

#[test]
fn index_path_verdicts() {
    let args = vec!["scanner".to_string(), "/data/index.db".to_string()];
    assert_eq!(
        check_index_path(&args, true, Some("db".to_string())),
        Ok("/data/index.db".to_string())
    );
    assert_eq!(check_index_path(&args, false, Some("db".to_string())), Err(INDEX_MISSING));
    assert_eq!(check_index_path(&args, true, Some("txt".to_string())), Err(INDEX_NOT_DB));
    assert_eq!(check_index_path(&args, true, Some("DB".to_string())), Err(INDEX_NOT_DB));
    assert_eq!(check_index_path(&args, true, None), Err(INDEX_NOT_DB));
    assert_eq!(check_index_path(&args, false, None), Err(INDEX_MISSING));
    let one = vec!["scanner".to_string()];
    assert_eq!(check_index_path(&one, true, Some("db".to_string())), Err(NO_INDEX_PATH));
}

#[test]
fn format_path_turns_backslashes_on_windows_only() {
    assert_eq!(format_path("C:\\Users\\me\\a.txt", true), "C:/Users/me/a.txt");
    assert_eq!(format_path("C:\\Users\\me\\a.txt", false), "C:\\Users\\me\\a.txt");
    assert_eq!(format_path("/home/me/a.txt", true), "/home/me/a.txt");
    assert_eq!(format_path("/home/me/a.txt", false), "/home/me/a.txt");
    assert_eq!(format_path("", true), "");
    assert_eq!(format_path("\\\\", true), "//");
}
