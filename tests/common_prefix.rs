use helpers_disk::{
    get_common_path, get_common_prefix, get_dir_ancestor_that_exists,
    get_paths_sorted_by_size_starting_with_shortest, PathError,
};

const FIXTURE: [&str; 7] = [
    "test",
    "test/test_a",
    "test/test_a/text_a_a.txt",
    "test/test_b",
    "test/test_b/test_c",
    "test/test_b/test_c/text_b_c_a.txt",
    "test/test_b/test_c/text_b_c_b.txt",
];

fn fixture_exists(path: &str) -> bool {
    FIXTURE.contains(&path)
}

fn on_disk(path: &str) -> bool {
    std::path::Path::new(path).exists()
}

#[test]
fn test_get_common_path() {
    let slice_of_strings = [
        "src/helpers_disk/A/B/C",
        "src/helpers_disk/A/B",
        "src/helpers_disk/A",
    ];
    let result = match get_common_path(&slice_of_strings, on_disk) {
        Ok(string_result) => string_result,
        Err(err) => panic!("{:?}", err),
    };
    let expected = "src".to_string();
    assert_eq!(result, expected)
}

#[test]
fn common_path_walks_up_to_an_existing_ancestor() {
    let exists = |p: &str| p == "/A" || p == "/";
    assert_eq!(get_common_path(&["/A/B/C", "/A/B/D"], exists), Ok("/A".to_string()));
    let exists_deeper = |p: &str| p == "/A/B";
    assert_eq!(get_common_path(&["/A/B/C", "/A/B/D"], exists_deeper), Ok("/A/B".to_string()));
}

#[test]
fn common_path_fails_without_existing_ancestor() {
    let nothing = |_p: &str| false;
    assert_eq!(get_common_path(&["/A/B", "/A/C"], nothing), Err(PathError::NoExistingAncestor("/A".to_string())));
    assert_eq!(get_common_path(&[], nothing), Err(PathError::EmptyInput));
    assert_eq!(get_common_path(&["/A", "A"], nothing), Err(PathError::NoCommonPrefix));
}

#[test]
fn test_get_common_prefix() {
    let slice_of_strings = [
        "src/helpers_disk/A/B/C",
        "src/helpers_disk/A/B",
        "src/helpers_disk/A",
    ];
    let result = match get_common_prefix(&slice_of_strings) {
        Ok(string_result) => string_result,
        Err(err) => panic!("{:?}", err),
    };
    let expected = "src/helpers_disk/A".to_string();
    assert_eq!(result, expected)
}

#[test]
fn common_prefix_respects_segment_boundaries() {
    assert_eq!(get_common_prefix(&["/A/B", "/A/Bx"]), Ok("/A".to_string()));
    assert_eq!(get_common_prefix(&["/A/Bx", "/A/B"]), Ok("/A".to_string()));
}

#[test]
fn common_prefix_does_not_depend_on_order() {
    let expected = Ok("x/y".to_string());
    assert_eq!(get_common_prefix(&["x/y/z", "x/y", "x/y/w/v"]), expected);
    assert_eq!(get_common_prefix(&["x/y/w/v", "x/y/z", "x/y"]), expected);
    assert_eq!(get_common_prefix(&["x/y", "x/y/w/v", "x/y/z", "x/y"]), expected);
}

#[test]
fn common_prefix_equal_depth_divergent_paths() {
    assert_eq!(get_common_prefix(&["/a/b/c", "/a/d/e"]), Ok("/a".to_string()));
    assert_eq!(get_common_prefix(&["a/b", "c/d"]), Ok("".to_string()));
    assert_eq!(get_common_prefix(&["/a", "/b"]), Ok("/".to_string()));
}

#[test]
fn common_prefix_single_and_duplicate_inputs() {
    assert_eq!(get_common_prefix(&["/A/B/C"]), Ok("/A/B/C".to_string()));
    assert_eq!(get_common_prefix(&["/A/B", "/A/B"]), Ok("/A/B".to_string()));
}

#[test]
fn common_prefix_errors() {
    assert_eq!(get_common_prefix(&[]), Err(PathError::EmptyInput));
    assert_eq!(get_common_prefix(&["/A/B", "A/B"]), Err(PathError::NoCommonPrefix));
}

#[test]
fn test_get_dir_ancestor_that_exists() {
    let string_path = "test/test_b/test_c/text_b_c_a.txt/A/B/C";
    let result = match get_dir_ancestor_that_exists(&string_path, fixture_exists) {
        Some(string_result) => string_result,
        None => panic!("Failed"),
    };
    let expected = "test/test_b/test_c/text_b_c_a.txt".to_string();
    assert_eq!(result, expected)
}

#[test]
fn ancestor_that_exists_may_be_none() {
    assert_eq!(get_dir_ancestor_that_exists("nowhere/at/all", fixture_exists), None);
    assert_eq!(get_dir_ancestor_that_exists("test", fixture_exists), Some("test".to_string()));
}

#[test]
fn test_get_paths_sorted_by_size_starting_with_shortest() {
    let slice_of_strings = ["/A/B/C", "/A", "/A/B"];
    let result = match get_paths_sorted_by_size_starting_with_shortest(&slice_of_strings) {
        Ok(vec_result) => vec_result,
        Err(err) => panic!("{:?}", err),
    };
    let expected = ["/A", "/A/B", "/A/B/C"]
        .iter()
        .map(|item_str| item_str.to_string())
        .collect::<Vec<String>>();
    assert_eq!(result, expected)
}

#[test]
fn sort_keeps_order_of_equal_depths() {
    let result = get_paths_sorted_by_size_starting_with_shortest(&["b/c", "z", "a/d", "y", ""]);
    let expected = ["", "z", "y", "b/c", "a/d"]
        .iter()
        .map(|item_str| item_str.to_string())
        .collect::<Vec<String>>();
    assert_eq!(result, Ok(expected));
}
