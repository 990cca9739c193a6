//! Calls into `std::path`.
use vstd::prelude::*;

verus! {

/// What `std::path::Path::join` makes of a base path and a further part.
pub uninterp spec fn spec_path_join(base: std::path::PathBuf, part: Seq<char>) -> std::path::PathBuf;

/// Calls `std::path::Path::join`, which never panics. Its result, which
/// depends on the base and the part alone, is left to the name
/// `spec_path_join`.
#[verifier::external_body]
pub(crate) fn path_join(base: &std::path::PathBuf, part: &str) -> (joined: std::path::PathBuf)
    ensures
        joined == spec_path_join(*base, part@),
{
    base.join(part)
}

} // verus!
