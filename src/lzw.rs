//! Entry points of the second compression method, which does no work yet:
//! both succeed and leave every file as it is.

use vstd::prelude::*;

verus! {

#[verifier::external_type_specification]
#[verifier::external_body]
pub struct ExAnyhowError(anyhow::Error);

/// Succeeds without reading or writing anything.
pub fn compress_file(file_path: &str, compressed_file_path: &str) -> (r: Result<(), anyhow::Error>)
    ensures
        r is Ok,
{
    Ok(())
}

/// Succeeds without reading or writing anything.
pub fn decompress_file(compressed_file_path: &str, restored_file_path: &str) -> (r: Result<
    (),
    anyhow::Error,
>)
    ensures
        r is Ok,
{
    Ok(())
}

} // verus!
