use vstd::prelude::*;

verus! {

/// A source file ready for parsing.
pub struct FetchedFile {
    /// Path for error reporting (may be virtual for non-disk sources).
    pub path: String,
    /// Source text.
    pub content: String,
}

/// The files that make up one module.
pub struct FetchedModule {
    pub files: Vec<FetchedFile>,
    /// Whether the `builtin` keyword is allowed (a project-level setting).
    pub allow_builtin: bool,
}

/// Why a module could not be fetched.
#[derive(Debug)]
pub struct FetchError {
    pub message: Vec<char>,
}

} // verus!
