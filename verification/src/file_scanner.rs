//! File discovery: extension classification and the expansion pipeline.

pub mod file_extractor;
pub mod file_text_extractor;

use vstd::prelude::*;
use crate::file_scanner::file_text_extractor::{ext_lower_of, get_ext_name};
use crate::util::text_utils::str_eq;

verus! {

/// Whether the lower-cased extension is one of the archive formats the
/// expansion pipeline unpacks.
pub open spec fn is_archive_ext(e: Seq<char>) -> bool {
    ||| e == "zip"@
    ||| e == "rar"@
    ||| e == "7z"@
    ||| e == "tar"@
    ||| e == "wim"@
    ||| e == "xz"@
    ||| e == "cab"@
    ||| e == "iso"@
    ||| e == "msi"@
    ||| e == "rpm"@
    ||| e == "gz"@
}

/// Whether the path names an archive, judged by its extension alone.
pub open spec fn spec_is_compress_file(path: Seq<char>) -> bool {
    match ext_lower_of(path) {
        Some(e) => is_archive_ext(e),
        None => false,
    }
}

/// Archives are recognised purely by extension, against a fixed set of
/// formats the decompression tool understands.
pub fn is_compress_file(file_path: &str) -> (r: bool)
    ensures
        r == spec_is_compress_file(file_path@),
{
    match get_ext_name(file_path) {
        Some(e) => {
            let s = e.as_str();
            str_eq(s, "zip") || str_eq(s, "rar") || str_eq(s, "7z") || str_eq(s, "tar")
                || str_eq(s, "wim") || str_eq(s, "xz") || str_eq(s, "cab") || str_eq(s, "iso")
                || str_eq(s, "msi") || str_eq(s, "rpm") || str_eq(s, "gz")
        },
        None => false,
    }
}

} // verus!
