//! Scans binary data for embedded textual references to banned function
//! names: printable-text extraction under two encodings (ASCII-range bytes
//! and UTF-16LE code units), banned-list sanitization, and substring
//! matching with occurrence counts.

pub mod banned;
pub mod chars;
pub mod digest;
pub mod extract;
pub mod matcher;
pub mod pattern;
pub mod render;
pub mod strutil;

use vstd::prelude::*;

use crate::extract::{
    ascii_strings_spec, extract_ascii_strings, extract_utf16le_strings, utf16_strings_spec,
    views_of,
};
use crate::matcher::{compute_matches, match_list, record_views, MatchRecord};

verus! {

/// A configuration error, reported before any scanning work begins.
#[derive(Clone, Copy, Debug, PartialEq, Eq, Structural)]
pub enum ScanError {
    /// Both extraction sources are disabled; at least one must be enabled.
    NoExtractorEnabled,
    /// The banned-name filter pattern does not compile.
    InvalidFilterPattern,
}

/// Every string a scan extracts, in order: the ASCII sub-scanner's strings,
/// then the UTF-16LE sub-scanner's, each in buffer order; a disabled
/// sub-scanner contributes nothing.
pub open spec fn all_strings_spec(
    data: Seq<u8>,
    min_len: int,
    use_ascii: bool,
    use_utf16: bool,
) -> Seq<Seq<char>> {
    (if use_ascii {
        ascii_strings_spec(data, min_len)
    } else {
        Seq::empty()
    }) + (if use_utf16 {
        utf16_strings_spec(data, min_len)
    } else {
        Seq::empty()
    })
}

/// Extracts every string of the buffer under the enabled encodings: the
/// ASCII strings first, then the UTF-16LE strings, each in buffer order.
pub fn extract_all_strings(data: &[u8], min_len: usize, use_ascii: bool, use_utf16: bool) -> (out:
    Vec<String>)
    ensures
        views_of(out@) == all_strings_spec(data@, min_len as int, use_ascii, use_utf16),
{
    let mut out: Vec<String> = if use_ascii {
        extract_ascii_strings(data, min_len)
    } else {
        Vec::new()
    };
    let mut tail: Vec<String> = if use_utf16 {
        extract_utf16le_strings(data, min_len)
    } else {
        Vec::new()
    };
    let ghost headv = out@;
    let ghost tailv = tail@;
    out.append(&mut tail);
    proof {
        assert(views_of(headv + tailv) =~= views_of(headv) + views_of(tailv));
        assert(views_of(out@) =~= all_strings_spec(data@, min_len as int, use_ascii, use_utf16));
    }
    out
}

/// Runs the string-extraction and matching core over a byte buffer: the
/// extracted strings of the enabled encodings are matched against the
/// sanitized banned-name list, yielding one record per banned name that
/// occurs, sorted by descending occurrence count (ties in banned-list
/// order). Enabling neither encoding is a configuration error and never a
/// successful empty result.
pub fn run_scan(
    data: &[u8],
    min_len: usize,
    use_ascii: bool,
    use_utf16: bool,
    ignore_case: bool,
    banned: &Vec<String>,
) -> (r: Result<Vec<MatchRecord>, ScanError>)
    ensures
        r is Err <==> (!use_ascii && !use_utf16),
        r matches Err(e) ==> e == ScanError::NoExtractorEnabled,
        r matches Ok(v) ==> record_views(v@) == match_list(
            views_of(banned@),
            all_strings_spec(data@, min_len as int, use_ascii, use_utf16),
            ignore_case,
        ),
{
    if !use_ascii && !use_utf16 {
        return Err(ScanError::NoExtractorEnabled);
    }
    let all = extract_all_strings(data, min_len, use_ascii, use_utf16);
    Ok(compute_matches(&all, banned, ignore_case))
}

} // verus!
