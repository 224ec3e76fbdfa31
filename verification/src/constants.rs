use vstd::prelude::*;

verus! {

/// Directory that holds the object store; an object's file lives under it.
pub const DB_ENVIRONMENT: &'static str = ".depot/objects/";

} // verus!

verus! {

/// Address recorded as the author of commits.
pub const AUTHOR_EMAIL: &'static str = "depot@localhost";

/// Given name recorded as the author of commits.
pub const AUTHOR_NAME: &'static str = "Depot";

/// Surname recorded as the author of commits.
pub const AUTHOR_SURNAME: &'static str = "User";

/// Address recorded as the committer of commits.
pub const COMMITER_EMAIL: &'static str = "depot@localhost";

/// Given name recorded as the committer of commits.
pub const COMMITER_NAME: &'static str = "Depot";

/// Surname recorded as the committer of commits.
pub const COMMITER_SURNAME: &'static str = "User";

/// Comment of a commit made without `-m`.
pub const DEFAULT_COMMENT: &'static str = "Empty comment";

} // verus!
