//! Where the backing file lives: the per-user data directory under the
//! application's prefix, holding the one tasks file. Resolution goes through
//! the platform data-directory convention; reading and writing the file are
//! the caller's concern.

use vstd::prelude::*;

verus! {

/// The base-directories handle of the platform data-directory convention,
/// declared so that it can pass through signatures; opaque to the verifier.
#[verifier::external_type_specification]
#[verifier::external_body]
pub struct ExBaseDirectories(xdg::BaseDirectories);

/// A filesystem path, declared so that it can pass through signatures;
/// opaque to the verifier.
#[verifier::external_type_specification]
#[verifier::external_body]
pub struct ExPathBuf(std::path::PathBuf);

/// Relies on xdg::BaseDirectories::with_prefix: the base directories for the
/// given application prefix, or nothing when the environment gives none. The
/// result depends on the environment, so nothing is promised of it.
#[verifier::external_body]
fn xdg_with_prefix(prefix: &str) -> (r: Option<xdg::BaseDirectories>) {
    xdg::BaseDirectories::with_prefix(prefix).ok()
}

/// Relies on xdg::BaseDirectories::place_data_file: the path where the named
/// data file belongs, with its directories created, or nothing on failure.
/// The result depends on the environment, so nothing is promised of it.
#[verifier::external_body]
fn xdg_place_data_file(dirs: &xdg::BaseDirectories, name: &str) -> (r: Option<
    std::path::PathBuf,
>) {
    dirs.place_data_file(name).ok()
}

/// Relies on xdg::BaseDirectories::find_data_file: the path of the named
/// data file when it exists, nothing when it does not. The result depends on
/// what is on disk, so nothing is promised of it.
#[verifier::external_body]
fn xdg_find_data_file(dirs: &xdg::BaseDirectories, name: &str) -> (r: Option<
    std::path::PathBuf,
>) {
    dirs.find_data_file(name)
}

/// The path where the tasks file belongs, with its directories created, or
/// nothing when the platform convention cannot place it.
pub fn get_tasks_data_file_path() -> Option<std::path::PathBuf> {
    match xdg_with_prefix("tdm") {
        Some(dirs) => xdg_place_data_file(&dirs, "tasks.yaml"),
        None => None,
    }
}

/// Whether a tasks file already exists in the per-user data directory.
pub fn has_tasks_file() -> bool {
    match xdg_with_prefix("tdm") {
        Some(dirs) => xdg_find_data_file(&dirs, "tasks.yaml").is_some(),
        None => false,
    }
}

} // verus!
