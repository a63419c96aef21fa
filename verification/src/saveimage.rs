//! Saving an executable image of the running process: not available on any
//! platform, so the operation always fails.

use vstd::prelude::*;

verus! {

/// The diagnostic printed by `save_image`.
pub const SAVE_IMAGE_UNAVAILABLE_MESSAGE: &'static str =
    "util_save_image: not implemented on your operating system";

/// The failure of `save_image`.
#[derive(Debug, Clone, Copy, Eq, PartialEq, Structural)]
pub struct SaveImageUnavailable;

/// Decides the outcome of saving an image: always the failure, whatever the
/// two file names. The caller prints `SAVE_IMAGE_UNAVAILABLE_MESSAGE` on it.
pub fn save_image(original_file_name: &str, save_file_name: &str) -> (r: Result<(), SaveImageUnavailable>)
    ensures
        r == Err::<(), SaveImageUnavailable>(SaveImageUnavailable),
{
    Err(SaveImageUnavailable)
}

} // verus!
