//! The open vault and the errors of vault operations.

use vstd::prelude::*;
use crate::links::opt_view;

verus! {

/// The vault that is open: its directory and its name.
#[derive(Clone, Debug)]
pub struct VaultInfo {
    pub path: String,
    pub name: String,
}

/// Why a vault operation failed.
#[derive(Clone, Debug)]
pub enum VaultError {
    NoVaultOpen,
    VaultNotFound(String),
    InvalidPath(String),
    NoteNotFound(String),
    Other(String),
}


/// The checks made before a vault is opened: its path must exist and be a
/// directory.
pub fn check_vault_path(path: &str, exists: bool, is_dir: bool) -> (r: Result<(), VaultError>)
    ensures
        !exists ==> (r matches Err(VaultError::VaultNotFound(p)) && p@ == path@),
        exists && !is_dir ==> (r matches Err(VaultError::InvalidPath(p)) && p@ == path@),
        exists && is_dir ==> r is Ok,
{
    if !exists {
        return Err(VaultError::VaultNotFound(path.to_owned()));
    }
    if !is_dir {
        return Err(VaultError::InvalidPath(path.to_owned()));
    }
    Ok(())
}

/// The last component that `std::path::Path::file_name` gives for `path`.
pub uninterp spec fn path_file_name(path: Seq<char>) -> Option<Seq<char>>;

/// `std::path::Path::file_name`, as text.
/// Trusted: the name is named by `path_file_name`, not computed here.
#[verifier::external_body]
fn file_name_of(path: &str) -> (r: Option<String>)
    ensures
        opt_view(r) == path_file_name(path@),
{
    std::path::Path::new(path).file_name().map(|x| x.to_string_lossy().to_string())
}

/// The vault at `path`: named after its directory, or `vault`.
pub fn vault_info(path: &str) -> (r: VaultInfo)
    ensures
        r.path@ == path@,
        r.name@ == match path_file_name(path@) {
            Some(n) => n,
            None => "vault"@,
        },
{
    let name = match file_name_of(path) {
        Some(n) => n,
        None => "vault".to_owned(),
    };
    VaultInfo { path: path.to_owned(), name }
}

impl VaultError {
    /// The message shown for the error.
    pub fn message(&self) -> (r: String)
        ensures
            r@ == match self {
                VaultError::NoVaultOpen => "No vault is currently open"@,
                VaultError::VaultNotFound(p) => "Vault path does not exist: "@ + p@,
                VaultError::InvalidPath(p) => "Invalid path: "@ + p@,
                VaultError::NoteNotFound(p) => "Note not found: "@ + p@,
                VaultError::Other(m) => "Operation failed: "@ + m@,
            },
    {
        match self {
            VaultError::NoVaultOpen => "No vault is currently open".to_owned(),
            VaultError::VaultNotFound(p) => crate::text::concat("Vault path does not exist: ", p.as_str()),
            VaultError::InvalidPath(p) => crate::text::concat("Invalid path: ", p.as_str()),
            VaultError::NoteNotFound(p) => crate::text::concat("Note not found: ", p.as_str()),
            VaultError::Other(m) => crate::text::concat("Operation failed: ", m.as_str()),
        }
    }
}

} // verus!
