use helpers_disk::{
    expand_tilde_with_home, get_base_name, get_dir_ancestor_n_levels_up, get_dir_name,
    get_extension, get_path_joined, get_path_with_tilde_expanded_if_necessary, get_relative_path,
    get_vec_by_splitting_path, has_parent, is_absolute, is_path_inside_dir_parent, PathError,
    PathParts,
};

#[test]
fn test_get_base_name_with_extension() {
    let string_path = "test/test_a/text_a_a.txt";
    let result = match get_base_name(&string_path) {
        Some(string_result) => string_result,
        None => panic!(""),
    };
    let expected = "text_a_a.txt".to_string();
    assert_eq!(result, expected)
}

#[test]
fn test_get_base_name_on_dir() {
    let string_path = "test/test_b/test_c/text_b_c_a.txt";
    let result = match get_base_name(&string_path) {
        Some(string_result) => string_result,
        None => panic!(""),
    };
    let expected = "text_b_c_a.txt".to_string();
    assert_eq!(result, expected)
}

#[test]
fn base_name_edge_cases() {
    assert_eq!(get_base_name("/"), None);
    assert_eq!(get_base_name(""), None);
    assert_eq!(get_base_name("a/.."), None);
    assert_eq!(get_base_name("a/b/"), Some("b".to_string()));
    assert_eq!(get_base_name("a/b/."), Some("b".to_string()));
}

#[test]
fn test_get_dir_name() {
    let string_path = "test/test_b/test_c/text_b_c_a.txt";
    let result = match get_dir_name(&string_path) {
        Some(string_result) => string_result,
        None => panic!("Failed"),
    };
    let expected = "test/test_b/test_c".to_string();
    assert_eq!(result, expected)
}

#[test]
fn dir_name_edge_cases() {
    assert_eq!(get_dir_name("/A"), Some("/".to_string()));
    assert_eq!(get_dir_name("A"), Some("".to_string()));
    assert_eq!(get_dir_name("/"), None);
    assert_eq!(get_dir_name(""), None);
}

#[test]
fn test_get_dir_ancestor_n_levels_up() {
    let string_path = "test/test_b/test_c/text_b_c_a.txt";
    let int_layers_up: usize = 2;
    let result = match get_dir_ancestor_n_levels_up(&string_path, int_layers_up) {
        Some(string_result) => string_result,
        None => panic!("Failed"),
    };
    let expected = "test/test_b".to_string();
    assert_eq!(result, expected)
}

#[test]
fn ancestor_n_levels_up_bounds() {
    assert_eq!(get_dir_ancestor_n_levels_up("/A/B/C", 2), Some("/A".to_string()));
    assert_eq!(get_dir_ancestor_n_levels_up("/A/B/C", 3), Some("/".to_string()));
    assert_eq!(get_dir_ancestor_n_levels_up("/A/B/C", 4), None);
    assert_eq!(get_dir_ancestor_n_levels_up("A/B", 0), Some("A/B".to_string()));
}

#[test]
fn test_get_extension() {
    let string_path = "test/test_b/test_c/text_b_c_a.txt";
    let result = match get_extension(&string_path) {
        Some(string_result) => string_result,
        None => panic!("Failed"),
    };
    let expected = "txt".to_string();
    assert_eq!(result, expected)
}

#[test]
fn extension_edge_cases() {
    assert_eq!(get_extension("a/.bashrc"), None);
    assert_eq!(get_extension("a/b"), None);
    assert_eq!(get_extension("a/b."), Some("".to_string()));
    assert_eq!(get_extension("archive.tar.gz"), Some("gz".to_string()));
    assert_eq!(get_extension(".."), None);
}

#[test]
fn test_get_path_joined() {
    let slice_of_strings = ["A", "B", "C"];
    let result = match get_path_joined(&slice_of_strings) {
        Some(string_result) => string_result,
        None => panic!("Failed"),
    };
    let expected = "A/B/C".to_string();
    assert_eq!(result, expected)
}

#[test]
fn path_joined_absolute_part_restarts() {
    assert_eq!(get_path_joined(&["/A", "B", "C"]), Some("/A/B/C".to_string()));
    assert_eq!(get_path_joined(&["A", "/B", "C"]), Some("/B/C".to_string()));
    assert_eq!(get_path_joined(&[]), Some("".to_string()));
}

#[test]
fn test_get_relative_path() {
    let string_path_abs_root = "/A/B/C";
    let string_path_abs = "/A/B/C/D";
    let result = match get_relative_path(&string_path_abs, &string_path_abs_root) {
        Ok(string_result) => string_result,
        Err(err) => panic!("{:?}", err,),
    };
    let expected = "D".to_string();
    assert_eq!(result, expected)
}

#[test]
fn relative_path_cases() {
    assert_eq!(get_relative_path("/A/B/C/D", "/A/B"), Ok("C/D".to_string()));
    assert_eq!(get_relative_path("/A/B", "/A/B"), Ok("".to_string()));
    assert_eq!(
        get_relative_path("/A/Bx", "/A/B"),
        Err(PathError::NotUnderPrefix { path: "/A/Bx".to_string(), prefix: "/A/B".to_string() })
    );
    assert!(matches!(get_relative_path("A/B", "/A"), Err(PathError::NotUnderPrefix { .. })));
}

#[test]
fn test_get_vec_by_splitting_path() {
    let string_path = "test/test_b/test_c/text_b_c_a.txt";
    let result = match get_vec_by_splitting_path(&string_path) {
        Some(vec_result) => vec_result,
        None => panic!("Failed"),
    };
    let expected = ["test", "test_b", "test_c", "text_b_c_a.txt"]
        .iter()
        .map(|item_str| item_str.to_string())
        .collect::<Vec<String>>();
    assert_eq!(result, expected)
}

#[test]
fn splitting_absolute_path_keeps_root() {
    let result = get_vec_by_splitting_path("/A//B/./C/").unwrap();
    assert_eq!(result, vec!["/".to_string(), "A".to_string(), "B".to_string(), "C".to_string()]);
}

#[test]
fn test_is_absolute() {
    assert_eq!(is_absolute(&"/A/B/C"), true,)
}

#[test]
fn is_absolute_on_relative_paths() {
    assert!(!is_absolute("A/B"));
    assert!(!is_absolute(""));
}

#[test]
fn has_parent_cases() {
    assert!(has_parent("/A/B/C"));
    assert!(has_parent("A"));
    assert!(!has_parent("/"));
    assert!(!has_parent(""));
}

#[test]
fn test_is_path_inside_dir_parent() {
    assert_eq!(
        is_path_inside_dir_parent(&"test/test_b/test_c/text_b_c_a.txt", &"test/test_b"),
        true,
    )
}

#[test]
fn inside_dir_parent_compares_whole_segments() {
    assert!(!is_path_inside_dir_parent("/A/Bx", "/A/B"));
    assert!(is_path_inside_dir_parent("/A/B", "/A/B/"));
    assert!(!is_path_inside_dir_parent("A/B", "/A"));
}

#[test]
fn parse_and_render_normalize() {
    let parts = PathParts::parse("/usr//local/./bin/");
    assert!(parts.absolute);
    assert_eq!(parts.segments, vec!["usr".to_string(), "local".to_string(), "bin".to_string()]);
    assert_eq!(parts.render(), "/usr/local/bin".to_string());
    let relative = PathParts::parse("./a/../b");
    assert!(!relative.absolute);
    assert_eq!(relative.render(), "a/../b".to_string());
}

#[test]
fn tilde_replaced_by_given_home() {
    assert_eq!(expand_tilde_with_home("~/test", "/home/user"), "/home/user/test".to_string());
    assert_eq!(expand_tilde_with_home("~", "/home/user"), "/home/user".to_string());
    assert_eq!(expand_tilde_with_home("a/~", "/home/user"), "a/~".to_string());
    assert_eq!(expand_tilde_with_home("~/é/ü", "/h"), "/h/é/ü".to_string());
}

#[test]
fn tilde_expansion_keeps_the_rest() {
    let expanded = get_path_with_tilde_expanded_if_necessary("~/test");
    assert!(expanded.ends_with("/test"));
    assert_eq!(get_path_with_tilde_expanded_if_necessary("/A/B"), "/A/B".to_string());
}
