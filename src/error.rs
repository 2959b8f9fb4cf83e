use vstd::prelude::*;

verus! {

/// Why an operation on paths failed; where one path is to blame, it is named.
#[derive(Debug, Clone, PartialEq, Eq)]
pub enum PathError {
    /// No path was given where at least one is needed.
    EmptyInput,
    /// The paths share no ancestor: some start at the root and others do not.
    NoCommonPrefix,
    /// Neither the named common prefix nor any of its ancestors exists.
    NoExistingAncestor(String),
    /// The walk below the named directory met more entries than a vector can hold.
    TooManyEntries(String),
    /// The path does not lie under the prefix that was to be taken off it.
    NotUnderPrefix { path: String, prefix: String },
    /// The named path lies outside the project directory, or is missing from it.
    OutsideProject(String),
    /// The named path is a place of the project that must not be touched.
    ProtectedPath(String),
    /// The path does not exist; with the deepest ancestor that does, if any.
    DoesNotExist { path: String, nearest_existing: Option<String> },
    /// A file-system query on `path` failed with `message`.
    Io { path: String, message: String },
}

} // verus!
