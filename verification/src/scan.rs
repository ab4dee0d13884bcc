//! Delimiter search over a byte buffer, for callers that cut an input stream
//! into records: the delimiters are tried in order, and the first one that
//! occurs anywhere wins, at its first occurrence.

use vstd::prelude::*;

verus! {

/// The first occurrence of b in h at or after `from`.
pub open spec fn find_byte(h: Seq<u8>, b: u8, from: int) -> Option<int>
    decreases h.len() - from
        when from >= 0
{
    if from < 0 || from >= h.len() {
        None
    } else if h[from] == b {
        Some(from)
    } else {
        find_byte(h, b, from + 1)
    }
}

/// The first delimiter of ds (from index di on) that occurs in h decides the
/// result: the position of its first occurrence.
pub open spec fn first_delim_match(h: Seq<u8>, ds: Seq<u8>, di: int) -> Option<int>
    decreases ds.len() - di
        when di >= 0
{
    if di < 0 || di >= ds.len() {
        None
    } else {
        match find_byte(h, ds[di], 0) {
            Some(i) => Some(i),
            None => first_delim_match(h, ds, di + 1),
        }
    }
}

/// Relies on memchr::memchr: the index of the first occurrence of `needle` in
/// `haystack`, or None when the byte does not occur.
pub assume_specification[ memchr::memchr ](needle: u8, haystack: &[u8]) -> (r: Option<usize>)
    ensures
        match r {
            Some(i) => i < haystack@.len() && haystack@[i as int] == needle && (forall|j: int|
                0 <= j < i ==> haystack@[j] != needle),
            None => forall|j: int| 0 <= j < haystack@.len() ==> haystack@[j] != needle,
        },
;

proof fn lemma_find_byte_none(h: Seq<u8>, b: u8, from: int)
    requires
        0 <= from,
        forall|j: int| from <= j < h.len() ==> h[j] != b,
    ensures
        find_byte(h, b, from) is None,
    decreases h.len() - from,
{
    if from < h.len() {
        lemma_find_byte_none(h, b, from + 1);
    }
}

proof fn lemma_find_byte_some(h: Seq<u8>, b: u8, from: int, i: int)
    requires
        0 <= from <= i < h.len(),
        h[i] == b,
        forall|j: int| from <= j < i ==> h[j] != b,
    ensures
        find_byte(h, b, from) == Some(i),
    decreases h.len() - from,
{
    if from < i {
        lemma_find_byte_some(h, b, from + 1, i);
    }
}

/// The position just of the first occurrence of the first delimiter (in
/// delimiter order) that occurs in the buffer, if any.
pub fn find_first_delim(haystack: &[u8], delims: &[u8]) -> (r: Option<usize>)
    ensures
        match r {
            Some(i) => Some(i as int) == first_delim_match(haystack@, delims@, 0),
            None => first_delim_match(haystack@, delims@, 0) is None,
        },
{
    let mut di: usize = 0;
    while di < delims.len()
        invariant
            di <= delims@.len(),
            first_delim_match(haystack@, delims@, 0) == first_delim_match(
                haystack@,
                delims@,
                di as int,
            ),
        decreases delims@.len() - di,
    {
        let d = delims[di];
        match memchr::memchr(d, haystack) {
            Some(i) => {
                proof {
                    lemma_find_byte_some(haystack@, d, 0, i as int);
                }
                return Some(i);
            },
            None => {
                proof {
                    lemma_find_byte_none(haystack@, d, 0);
                }
                di = di + 1;
            },
        }
    }
    None
}

} // verus!
