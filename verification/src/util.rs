//! Path helpers shared by the pipeline's callers.

use vstd::prelude::*;

verus! {

/// std's `PathBuf`, declared so it can stand in signatures; its values are
/// opaque to the proofs.
#[verifier::external_type_specification]
#[verifier::external_body]
pub struct ExPathBuf(std::path::PathBuf);

/// Relies on `OsStr::to_str` (through `Path::as_os_str`): `Some` exactly
/// when the path is valid UTF-8, and then the string is the path's text.
#[verifier::external_body]
fn path_str(path: &std::path::PathBuf) -> (r: Option<String>)
{
    path.as_os_str().to_str().map(|s| s.to_string())
}

/// The text of a path, for messages: the path's UTF-8 text when it has one,
/// and the empty string for a path that is not valid UTF-8.
pub fn path_to_string(path: &std::path::PathBuf) -> (r: String)
{
    match path_str(path) {
        Some(s) => s,
        None => String::new(),
    }
}

} // verus!
