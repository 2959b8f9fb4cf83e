use helpers_disk::{
    are_paths_the_same, are_paths_the_same_assume_project_dir, raise_error_if_path_does_not_exist,
    raise_error_if_path_is_not_in_project, raise_error_if_path_points_to_cargo_toml,
    raise_error_if_path_points_to_main_rs, raise_error_if_path_points_to_project_root,
    raise_error_if_path_points_to_src, PathError,
};

const PROJECT: &str = "/work/helpers_disk";

fn project_exists(path: &str) -> bool {
    [
        "/work/helpers_disk",
        "/work/helpers_disk/test",
        "/work/helpers_disk/src",
        "/work/helpers_disk/src/main.rs",
        "/work/helpers_disk/Cargo.toml",
        "/work",
        "/",
    ]
    .contains(&path)
}

#[test]
fn test_raise_error_if_path_is_not_in_project_absolute() {
    let mut string_path = "/badpath";
    match raise_error_if_path_is_not_in_project(&string_path, PROJECT, project_exists) {
        Ok(()) => {
            panic!(
                "{}",
                [
                    "Did not return error on bad absolute path.".to_string(),
                    format!("string_path = {}", string_path,)
                ]
                .join("\n")
            )
        }
        Err(_err) => {}
    }
    string_path = "test";
    match raise_error_if_path_is_not_in_project(&string_path, PROJECT, project_exists) {
        Ok(()) => {}
        Err(_err) => {
            panic!(
                "{}",
                [
                    "Returned error on good relative path.".to_string(),
                    format!("string_path = {}", string_path,),
                ]
                .join("\n")
            )
        }
    }
    string_path = "bad/test";
    match raise_error_if_path_is_not_in_project(&string_path, PROJECT, project_exists) {
        Ok(()) => {
            panic!(
                "{}",
                [
                    "Did not return error on bad relative path.".to_string(),
                    format!("string_path = {}", string_path,),
                ]
                .join("\n")
            )
        }
        Err(_err) => {}
    }
}

#[test]
fn inside_project_absolute_path() {
    let result = raise_error_if_path_is_not_in_project("/work/helpers_disk/src", PROJECT, project_exists);
    assert_eq!(result, Ok(()));
    let result = raise_error_if_path_is_not_in_project("/work/helpers_diskx", PROJECT, project_exists);
    assert_eq!(result, Err(PathError::OutsideProject("/work/helpers_diskx".to_string())));
}

#[test]
fn test_raise_error_if_path_points_to_src() {
    match raise_error_if_path_points_to_src(&"src", PROJECT) {
        Ok(()) => panic!("Did not return error"),
        Err(_err) => {}
    }
    match raise_error_if_path_points_to_src(&"src/", PROJECT) {
        Ok(()) => panic!("Did not return error"),
        Err(_err) => {}
    }
    match raise_error_if_path_points_to_src(&format!("{}/src/", PROJECT), PROJECT) {
        Ok(()) => panic!("No error returned"),
        Err(_err) => {}
    }
    match raise_error_if_path_points_to_src(&"src/", PROJECT) {
        Ok(()) => panic!("No error returned"),
        Err(_err) => {}
    }
}

#[test]
fn src_guard_lets_other_paths_through() {
    assert_eq!(raise_error_if_path_points_to_src("src/lib.rs", PROJECT), Ok(()));
    assert_eq!(raise_error_if_path_points_to_src("/elsewhere/src", PROJECT), Ok(()));
    assert_eq!(raise_error_if_path_points_to_src("src", PROJECT), Err(PathError::ProtectedPath("src".to_string())));
}

#[test]
fn test_raise_error_if_path_points_to_cargo_toml() {
    let mut string_path = format!("{}/Cargo.toml", PROJECT,);
    match raise_error_if_path_points_to_cargo_toml(&string_path, PROJECT) {
        Ok(()) => {
            panic!(
                "{}",
                [
                    "Didn't raise error when passed the absolute path to Cargo.toml".to_string(),
                    format!("string_path = {}", string_path,),
                ]
                .join("\n")
            )
        }
        Err(_err) => {}
    }
    string_path = "Cargo.toml".to_string();
    match raise_error_if_path_points_to_cargo_toml(&string_path, PROJECT) {
        Ok(()) => {
            panic!(
                "{}",
                [
                    "Didn't raise error when passed the relative path to Cargo.toml".to_string(),
                    format!("string_path = {}", string_path,),
                ]
                .join("\n")
            )
        }
        Err(_err) => {}
    }
    string_path = "src".to_string();
    match raise_error_if_path_points_to_cargo_toml(&string_path, PROJECT) {
        Ok(()) => {}
        Err(_err) => {
            panic!(
                "{}",
                [
                    "Raised error when not pointing to Cargo.toml".to_string(),
                    format!("string_path = {}", string_path,),
                ]
                .join("\n")
            )
        }
    }
}

#[test]
fn test_raise_error_if_path_points_to_main_rs() {
    let mut string_path = format!("{}/src/main.rs", PROJECT,);
    match raise_error_if_path_points_to_main_rs(&string_path, PROJECT) {
        Ok(()) => {
            panic!(
                "{}",
                [
                    "Failed to return error when passed absolute path to main.rs".to_string(),
                    format!("string_path = {}", string_path,),
                ]
                .join("\n")
            )
        }
        Err(_err) => {}
    }
    string_path = "src/main.rs".to_string();
    match raise_error_if_path_points_to_main_rs(&string_path, PROJECT) {
        Ok(()) => {
            panic!(
                "{}",
                [
                    "Failed to return error when passed relative path to main.rs".to_string(),
                    format!("string_path = {}", string_path,),
                ]
                .join("\n")
            )
        }
        Err(_err) => {}
    }
    string_path = "src".to_string();
    match raise_error_if_path_points_to_main_rs(&string_path, PROJECT) {
        Ok(()) => {}
        Err(_err) => {
            panic!(
                "{}",
                [
                    "Raised error when not pointing at main.rs".to_string(),
                    format!("string_path = {}", string_path,),
                ]
                .join("\n")
            )
        }
    }
}

#[test]
fn project_root_guard() {
    assert_eq!(
        raise_error_if_path_points_to_project_root("/work/helpers_disk/", PROJECT),
        Err(PathError::ProtectedPath("/work/helpers_disk/".to_string()))
    );
    assert_eq!(raise_error_if_path_points_to_project_root("/work", PROJECT), Ok(()));
}

#[test]
fn same_paths_against_working_dir() {
    assert!(are_paths_the_same("/work/helpers_disk/test", "test", PROJECT));
    assert!(are_paths_the_same("a/b", "a//b/", "/x"));
    assert!(!are_paths_the_same("a/b", "/a/b", "/x"));
    assert!(are_paths_the_same_assume_project_dir("src", "/work/helpers_disk/src", PROJECT));
}

#[test]
fn missing_path_names_nearest_existing_ancestor() {
    assert_eq!(raise_error_if_path_does_not_exist("/work/helpers_disk/src", project_exists), Ok(()));
    assert_eq!(
        raise_error_if_path_does_not_exist("/work/helpers_disk/nope/deeper", project_exists),
        Err(PathError::DoesNotExist {
            path: "/work/helpers_disk/nope/deeper".to_string(),
            nearest_existing: Some("/work/helpers_disk".to_string()),
        })
    );
    let nothing = |_p: &str| false;
    assert_eq!(
        raise_error_if_path_does_not_exist("a/b", nothing),
        Err(PathError::DoesNotExist { path: "a/b".to_string(), nearest_existing: None })
    );
}
