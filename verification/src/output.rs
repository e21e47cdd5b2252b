//! Header decisions and the header line printed before each file.

use vstd::prelude::*;
use vstd::string::*;

verus! {

/// Whether file name headers are shown: never with `quiet`, always with
/// `verbose` (when not quiet), otherwise only for more than one file.
pub open spec fn headers_shown(file_count: nat, quiet: bool, verbose: bool) -> bool {
    !quiet && (verbose || file_count > 1)
}

/// Determines whether headers should be shown based on file count and flags.
pub fn should_show_headers(file_count: usize, quiet: bool, verbose: bool) -> (shown: bool)
    ensures
        shown == headers_shown(file_count as nat, quiet, verbose),
{
    if quiet {
        return false;
    }
    if verbose {
        return true;
    }
    file_count > 1
}


/// The standard file header: `==> filename <==`.
pub fn header_text(filename: &str) -> (h: String)
    ensures
        h@ == "==> "@ + filename@ + " <=="@,
{
    let mut h = String::from_str("==> ");
    h.append(filename);
    h.append(" <==");
    h
}


/// Headers: `-q` always suppresses them; otherwise `-v` always shows them;
/// with neither, they are shown exactly when there are two files or more.
pub proof fn law_headers_for_several_files(file_count: nat, quiet: bool, verbose: bool)
    ensures
        quiet ==> !headers_shown(file_count, quiet, verbose),
        !quiet && verbose ==> headers_shown(file_count, quiet, verbose),
        !quiet && !verbose ==> (headers_shown(file_count, quiet, verbose) <==> file_count >= 2),
{
}

} // verus!
