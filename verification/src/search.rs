//! Searching for bytes.
use memchr::memmem;
use vstd::prelude::*;

verus! {

/// The bytes `needle` stand in `haystack` from position `at` on.
pub open spec fn bytes_at(haystack: Seq<u8>, needle: Seq<u8>, at: int) -> bool {
    &&& 0 <= at <= haystack.len() - needle.len()
    &&& haystack.subrange(at, at + needle.len()) == needle
}

/// Finds all positions of a byte, in ascending order, by `memchr::memchr_iter`.
#[verifier::external_body]
pub(crate) fn byte_positions(needle: u8, haystack: &[u8]) -> (res: Vec<usize>)
    ensures
        forall|k: int|
            0 <= k < res@.len() ==> (#[trigger] res@[k]) < haystack@.len() && haystack@[res@[k] as int]
                == needle,
        forall|j: int, k: int| 0 <= j < k < res@.len() ==> res@[j] < res@[k],
        forall|i: int|
            0 <= i < haystack@.len() && haystack@[i] == needle ==> exists|k: int|
                0 <= k < res@.len() && #[trigger] res@[k] == i,
{
    memchr::memchr_iter(needle, haystack).collect()
}

/// `at` is the first position from `from` on at which `byte` stands.
pub open spec fn is_next(haystack: Seq<u8>, byte: u8, from: int, at: int) -> bool {
    &&& from <= at < haystack.len()
    &&& haystack[at] == byte
    &&& forall|i: int| from <= i < at ==> haystack[i] != byte
}

/// `memchr::memchr` finds the first position of a byte.
pub assume_specification[ memchr::memchr ](needle: u8, haystack: &[u8]) -> (res: Option<usize>)
    ensures
        match res {
            Some(at) => is_next(haystack@, needle, 0, at as int),
            None => forall|i: int| 0 <= i < haystack@.len() ==> haystack@[i] != needle,
        },
;

/// Finds the positions of a needle, in ascending order, by `memmem::find_iter`: the first one,
/// then the first one behind each found needle. A position that is left out lies inside a needle
/// that was found.
#[verifier::external_body]
pub(crate) fn needle_positions(haystack: &[u8], needle: &[u8]) -> (res: Vec<usize>)
    requires
        needle@.len() > 0,
    ensures
        forall|k: int| 0 <= k < res@.len() ==> bytes_at(haystack@, needle@, #[trigger] res@[k] as int),
        forall|j: int, k: int| 0 <= j < k < res@.len() ==> res@[j] + needle@.len() <= res@[k],
        forall|i: int| #[trigger]
            bytes_at(haystack@, needle@, i) ==> exists|k: int|
                0 <= k < res@.len() && (#[trigger] res@[k]) <= i < res@[k] + needle@.len(),
{
    memmem::find_iter(haystack, needle).collect()
}

/// Finds the first position from `from` on at which a byte stands.
pub(crate) fn next_byte(haystack: &[u8], byte: u8, from: usize) -> (res: Option<usize>)
    requires
        from <= haystack@.len(),
    ensures
        match res {
            Some(at) => is_next(haystack@, byte, from as int, at as int),
            None => forall|at: int| !is_next(haystack@, byte, from as int, at),
        },
{
    let len: usize = haystack.len();
    let tail = vstd::slice::slice_subrange(haystack, from, len);
    match memchr::memchr(byte, tail) {
        Some(at) => {
            proof {
                assert(tail@[at as int] == haystack@[from + at]);
                assert forall|i: int| from <= i < from + at implies haystack@[i] != byte by {
                    assert(tail@[i - from] == haystack@[i]);
                }
            }
            Some(from + at)
        },
        None => {
            proof {
                assert forall|at: int| !is_next(haystack@, byte, from as int, at) by {
                    if is_next(haystack@, byte, from as int, at) {
                        assert(tail@[at - from] == haystack@[at]);
                    }
                }
            }
            None
        },
    }
}

} // verus!
