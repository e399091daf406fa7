//! Small shared helpers for handling file contents.

use vstd::prelude::*;
use vstd::slice::slice_subrange;

verus! {

/// How much of a file is inspected when guessing whether it is binary.
pub const BINARY_SNIFF_BYTES: usize = 8192;

/// Cap on tool output returned inline, per stream.
///
/// Anything beyond this is preserved in a file rather than dropped.
pub const MAX_OUTPUT_BYTES: usize = 256 * 1024;

/// `memchr::memchr` finds the first occurrence of a byte in a slice: the index
/// is that of the byte and no earlier one is, and there is none only if the byte
/// does not occur.
pub assume_specification[ memchr::memchr ](needle: u8, haystack: &[u8]) -> (at: Option<usize>)
    ensures
        match at {
            Some(i) => i < haystack@.len() && haystack@[i as int] == needle && forall|j: int|
                0 <= j < i ==> haystack@[j] != needle,
            None => forall|j: int| 0 <= j < haystack@.len() ==> haystack@[j] != needle,
        },
;

/// Whether the bytes look like a binary file.
///
/// A NUL in the first few kilobytes is the standard heuristic, and the same one
/// `grep` uses. Counting words or running a regex over a binary produces noise,
/// so tools skip these rather than mangling them.
pub fn looks_binary(bytes: &[u8]) -> (binary: bool)
    ensures
        binary == exists|i: int| 0 <= i < bytes@.len() && i < BINARY_SNIFF_BYTES && bytes@[i] == 0,
{
    let end: usize = if bytes.len() < BINARY_SNIFF_BYTES {
        bytes.len()
    } else {
        BINARY_SNIFF_BYTES
    };
    let sniffed = slice_subrange(bytes, 0, end);
    match memchr::memchr(0, sniffed) {
        Some(i) => {
            assert(bytes@[i as int] == 0);
            true
        },
        None => {
            assert forall|i: int|
                0 <= i < bytes@.len() && i < BINARY_SNIFF_BYTES implies bytes@[i] != 0 by {
                assert(sniffed@[i] == bytes@[i]);
            }
            false
        },
    }
}

} // verus!
