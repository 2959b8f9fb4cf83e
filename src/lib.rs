//! Helpers for path texts: reading a path into segments, comparing and joining
//! paths, finding the common prefix of several paths and the deepest existing
//! ancestor of it, walking a directory tree through an explicit stack, and
//! guards against paths that leave or touch a project.
//!
//! The file system is never touched here: existence checks, kind checks and
//! directory listings are handed in as closures.

pub mod common;
pub mod error;
pub mod filter;
pub mod guards;
pub mod path_model;
pub mod paths;
pub mod tilde;
pub mod walk;

pub use common::{
    get_common_path, get_common_prefix, get_dir_ancestor_that_exists,
    get_paths_sorted_by_size_starting_with_shortest,
};
pub use error::PathError;
pub use filter::{
    get_only_dirs_from_slice, get_only_file_paths_from_slice,
    get_paths_to_only_dirs_in_dir_and_sub_dirs, get_paths_to_only_files_in_dir_and_sub_dirs,
};
pub use guards::{
    are_paths_the_same, are_paths_the_same_assume_project_dir, raise_error_if_path_does_not_exist,
    raise_error_if_path_is_not_in_project, raise_error_if_path_points_to_cargo_toml,
    raise_error_if_path_points_to_main_rs, raise_error_if_path_points_to_project_root,
    raise_error_if_path_points_to_src,
};
pub use path_model::PathParts;
pub use paths::{
    get_base_name, get_dir_ancestor_n_levels_up, get_dir_name, get_extension, get_path_joined,
    get_relative_path, get_vec_by_splitting_path, has_parent, is_absolute,
    is_path_inside_dir_parent,
};
pub use tilde::{expand_tilde_with_home, get_path_with_tilde_expanded_if_necessary};
pub use walk::get_paths_in_dir_and_sub_dirs;
