use helpers_disk::{
    get_only_dirs_from_slice, get_only_file_paths_from_slice, get_paths_in_dir_and_sub_dirs,
    get_paths_to_only_dirs_in_dir_and_sub_dirs, get_paths_to_only_files_in_dir_and_sub_dirs,
    PathError,
};

const DIRS: [&str; 4] = ["test", "test/test_a", "test/test_b", "test/test_b/test_c"];
const FILES: [&str; 3] = [
    "test/test_a/text_a_a.txt",
    "test/test_b/test_c/text_b_c_a.txt",
    "test/test_b/test_c/text_b_c_b.txt",
];

fn is_dir(path: &str) -> bool {
    DIRS.contains(&path)
}

fn is_file(path: &str) -> bool {
    FILES.contains(&path)
}

fn entry_is_dir(path: &str) -> Result<bool, String> {
    if is_dir(path) {
        Ok(true)
    } else if is_file(path) {
        Ok(false)
    } else {
        Err(format!("no metadata for {}", path))
    }
}

fn list_dir(path: &str) -> Result<Vec<String>, String> {
    let listing: Vec<&str> = match path {
        "test" => vec!["test/test_a", "test/test_b"],
        "test/test_a" => vec!["test/test_a/text_a_a.txt"],
        "test/test_b" => vec!["test/test_b/test_c"],
        "test/test_b/test_c" => vec![
            "test/test_b/test_c/text_b_c_a.txt",
            "test/test_b/test_c/text_b_c_b.txt",
        ],
        _ => return Err(format!("cannot read {}", path)),
    };
    Ok(listing.iter().map(|s| s.to_string()).collect())
}

fn sorted(mut v: Vec<String>) -> Vec<String> {
    v.sort();
    v
}

#[test]
fn test_get_only_dirs_from_slice() {
    let slice_of_strings = [
        "test/test_b",
        "test/test_b/test_c",
        "test/test_b/test_c/text_b_c_b.txt",
        "test/test_b/test_c/text_b_c_a.txt",
        "test/test_a",
        "test/test_a/text_a_a.txt",
    ];
    let result = get_only_dirs_from_slice(&slice_of_strings, is_dir);
    let expected = ["test/test_b", "test/test_b/test_c", "test/test_a"]
        .iter()
        .map(|item| format!("{}", item,))
        .collect::<Vec<String>>();
    assert_eq!(result, expected,)
}

#[test]
fn test_get_only_file_paths_from_slice() {
    let slice_of_strings = [
        "test/test_b",
        "test/test_b/test_c",
        "test/test_b/test_c/text_b_c_b.txt",
        "test/test_b/test_c/text_b_c_a.txt",
        "test/test_a",
        "test/test_a/text_a_a.txt",
    ];
    let result = get_only_file_paths_from_slice(&slice_of_strings, is_file);
    let expected = [
        "test/test_b/test_c/text_b_c_b.txt",
        "test/test_b/test_c/text_b_c_a.txt",
        "test/test_a/text_a_a.txt",
    ]
    .iter()
    .map(|item| format!("{}", item,))
    .collect::<Vec<String>>();
    assert_eq!(result, expected,)
}

#[test]
fn test_get_paths_in_dir_and_sub_dirs() {
    let string_path = "test";
    let result = match get_paths_in_dir_and_sub_dirs(&string_path, list_dir, entry_is_dir) {
        Ok(vec_result) => vec_result,
        Err(err) => panic!("{:?}", err),
    };
    let expected = [
        "test/test_b",
        "test/test_b/test_c",
        "test/test_b/test_c/text_b_c_b.txt",
        "test/test_b/test_c/text_b_c_a.txt",
        "test/test_a",
        "test/test_a/text_a_a.txt",
    ]
    .iter()
    .map(|item_str| item_str.to_string())
    .collect::<Vec<String>>();
    assert_eq!(result, expected)
}

#[test]
fn walk_counts_every_entry_once() {
    let result = get_paths_in_dir_and_sub_dirs("test", list_dir, entry_is_dir).unwrap();
    assert_eq!(result.len(), 3 + 3);
    let mut unique = sorted(result.clone());
    unique.dedup();
    assert_eq!(unique.len(), result.len());
}

#[test]
fn walk_twice_gives_same_set() {
    let first = get_paths_in_dir_and_sub_dirs("test", list_dir, entry_is_dir).unwrap();
    let second = get_paths_in_dir_and_sub_dirs("test", list_dir, entry_is_dir).unwrap();
    assert_eq!(sorted(first), sorted(second));
}

#[test]
fn walk_of_empty_directory_is_empty() {
    let empty = |_p: &str| -> Result<Vec<String>, String> { Ok(Vec::new()) };
    assert_eq!(get_paths_in_dir_and_sub_dirs("d", empty, entry_is_dir), Ok(Vec::new()));
}

#[test]
fn walk_fails_when_a_directory_cannot_be_read() {
    let result = get_paths_in_dir_and_sub_dirs("missing", list_dir, entry_is_dir);
    assert_eq!(
        result,
        Err(PathError::Io {
            path: "missing".to_string(),
            message: "cannot read missing".to_string()
        })
    );
    let broken = |p: &str| -> Result<Vec<String>, String> {
        if p == "test/test_b/test_c" {
            Err("denied".to_string())
        } else {
            list_dir(p)
        }
    };
    let result = get_paths_in_dir_and_sub_dirs("test", broken, entry_is_dir);
    assert_eq!(
        result,
        Err(PathError::Io {
            path: "test/test_b/test_c".to_string(),
            message: "denied".to_string()
        })
    );
}

#[test]
fn walk_fails_when_a_kind_cannot_be_read() {
    let no_kind = |_p: &str| -> Result<bool, String> { Err("stat".to_string()) };
    let result = get_paths_in_dir_and_sub_dirs("test", list_dir, no_kind);
    assert_eq!(
        result,
        Err(PathError::Io { path: "test/test_b".to_string(), message: "stat".to_string() })
    );
}

#[test]
fn test_get_paths_to_only_dirs_in_dir_and_sub_dirs() {
    let string_path = "test";
    let result = match get_paths_to_only_dirs_in_dir_and_sub_dirs(
        &string_path,
        list_dir,
        entry_is_dir,
        is_dir,
    ) {
        Ok(vec_result) => vec_result,
        Err(err) => panic!("{:?}", err,),
    };
    let expected = ["test/test_b", "test/test_b/test_c", "test/test_a"]
        .iter()
        .map(|item_str| item_str.to_string())
        .collect::<Vec<String>>();
    assert_eq!(result, expected)
}

#[test]
fn test_get_paths_to_only_files_in_dir_and_sub_dirs() {
    let string_path = "test";
    let result = match get_paths_to_only_files_in_dir_and_sub_dirs(
        &string_path,
        list_dir,
        entry_is_dir,
        is_file,
    ) {
        Ok(vec_result) => vec_result,
        Err(err) => panic!("{:?}", err,),
    };
    let expected = [
        "test/test_b/test_c/text_b_c_b.txt",
        "test/test_b/test_c/text_b_c_a.txt",
        "test/test_a/text_a_a.txt",
    ]
    .iter()
    .map(|item_str| item_str.to_string())
    .collect::<Vec<String>>();
    assert_eq!(result, expected)
}

#[test]
fn dirs_and_files_partition_the_walk() {
    let all = get_paths_in_dir_and_sub_dirs("test", list_dir, entry_is_dir).unwrap();
    let dirs = get_paths_to_only_dirs_in_dir_and_sub_dirs("test", list_dir, entry_is_dir, is_dir)
        .unwrap();
    let files =
        get_paths_to_only_files_in_dir_and_sub_dirs("test", list_dir, entry_is_dir, is_file)
            .unwrap();
    for d in &dirs {
        assert!(!files.contains(d));
    }
    let mut union = dirs.clone();
    union.extend(files.clone());
    assert_eq!(sorted(union), sorted(all));
}

#[test]
fn filters_pass_the_walk_error_on() {
    let expected = Err(PathError::Io {
        path: "missing".to_string(),
        message: "cannot read missing".to_string(),
    });
    let dirs = get_paths_to_only_dirs_in_dir_and_sub_dirs("missing", list_dir, entry_is_dir, is_dir);
    assert_eq!(dirs, expected);
    let files =
        get_paths_to_only_files_in_dir_and_sub_dirs("missing", list_dir, entry_is_dir, is_file);
    assert_eq!(files, expected);
}
