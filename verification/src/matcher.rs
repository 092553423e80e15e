//! The pure pattern matchers.
//!
//! Each matcher works on one in-memory window and a pattern and returns the
//! first offset inside the window at which the pattern occurs, or `None` when
//! the window holds no occurrence. No matcher performs any I/O.

use vstd::prelude::*;

use crate::layout::DefaultInit;
use crate::layout::FixedLayout;

verus! {

/// The exact-byte pattern occurs in `h` at offset `i`: the needle fits in the
/// remaining bytes and every needle byte equals the window byte under it.
pub open spec fn is_match_at(h: Seq<u8>, n: Seq<u8>, i: int) -> bool {
    &&& 0 <= i
    &&& i + n.len() <= h.len()
    &&& forall|j: int| 0 <= j < n.len() ==> h[i + j] == n[j]
}

/// Tests one offset of the window for an exact-byte match.
fn match_at(haystack: &[u8], needle: &[u8], i: usize) -> (r: bool)
    requires
        i + needle@.len() <= haystack@.len(),
    ensures
        r == is_match_at(haystack@, needle@, i as int),
{
    let hl: usize = haystack.len();
    let mut j: usize = 0;
    while j < needle.len()
        invariant
            0 <= j <= needle@.len(),
            hl == haystack@.len(),
            i + needle@.len() <= haystack@.len(),
            forall|j2: int| 0 <= j2 < j ==> haystack@[i + j2] == needle@[j2],
        decreases needle@.len() - j,
    {
        if haystack[i + j] != needle[j] {
            return false;
        }
        j = j + 1;
    }
    true
}

/// Returns the first offset at which `needle` occurs contiguously in
/// `haystack`, or `None` when it never does. An empty needle matches at
/// offset 0 unconditionally.
pub fn is_sub(haystack: &[u8], needle: &[u8]) -> (r: Option<usize>)
    ensures
        match r {
            Some(i) => is_match_at(haystack@, needle@, i as int)
                && forall|i2: int| 0 <= i2 < i ==> !is_match_at(haystack@, needle@, i2),
            None => forall|i2: int| !is_match_at(haystack@, needle@, i2),
        },
{
    if needle.len() == 0 {
        return Some(0);
    }
    if needle.len() > haystack.len() {
        return None;
    }
    let last: usize = haystack.len() - needle.len();
    let mut i: usize = 0;
    while i <= last
        invariant
            needle@.len() >= 1,
            last == haystack@.len() - needle@.len(),
            last < usize::MAX,
            0 <= i <= last + 1,
            forall|i2: int| 0 <= i2 < i ==> !is_match_at(haystack@, needle@, i2),
        decreases last + 1 - i,
    {
        if match_at(haystack, needle, i) {
            return Some(i);
        }
        i = i + 1;
    }
    None
}

/// The wildcard pattern occurs in `h` at offset `i`: the pattern fits in the
/// remaining bytes, every concrete element equals the window byte under it,
/// and a `None` element is satisfied by any byte.
pub open spec fn wildcard_match_at(h: Seq<u8>, n: Seq<Option<u8>>, i: int) -> bool {
    &&& 0 <= i
    &&& i + n.len() <= h.len()
    &&& forall|j: int| 0 <= j < n.len() ==> (#[trigger] n[j] matches Some(b) ==> h[i + j] == b)
}

/// Tests one offset of the window for a wildcard match.
fn wildcard_match_at_offset(haystack: &[u8], needle: &[Option<u8>], i: usize) -> (r: bool)
    requires
        i + needle@.len() <= haystack@.len(),
    ensures
        r == wildcard_match_at(haystack@, needle@, i as int),
{
    let hl: usize = haystack.len();
    let mut j: usize = 0;
    while j < needle.len()
        invariant
            0 <= j <= needle@.len(),
            hl == haystack@.len(),
            i + needle@.len() <= haystack@.len(),
            forall|j2: int| 0 <= j2 < j ==> (#[trigger] needle@[j2] matches Some(b) ==> haystack@[i + j2] == b),
        decreases needle@.len() - j,
    {
        match needle[j] {
            Some(b) => {
                if haystack[i + j] != b {
                    return false;
                }
            },
            None => {},
        }
        j = j + 1;
    }
    true
}

/// Returns the first offset at which the wildcard pattern occurs in
/// `haystack`, or `None` when it never does. An empty pattern matches at
/// offset 0 unconditionally.
pub fn wildcard_is_sub(haystack: &[u8], needle: &[Option<u8>]) -> (r: Option<usize>)
    ensures
        match r {
            Some(i) => wildcard_match_at(haystack@, needle@, i as int)
                && forall|i2: int| 0 <= i2 < i ==> !wildcard_match_at(haystack@, needle@, i2),
            None => forall|i2: int| !wildcard_match_at(haystack@, needle@, i2),
        },
{
    if needle.len() == 0 {
        return Some(0);
    }
    if needle.len() > haystack.len() {
        return None;
    }
    let last: usize = haystack.len() - needle.len();
    let mut i: usize = 0;
    while i <= last
        invariant
            needle@.len() >= 1,
            last == haystack@.len() - needle@.len(),
            last < usize::MAX,
            0 <= i <= last + 1,
            forall|i2: int| 0 <= i2 < i ==> !wildcard_match_at(haystack@, needle@, i2),
        decreases last + 1 - i,
    {
        if wildcard_match_at_offset(haystack, needle, i) {
            return Some(i);
        }
        i = i + 1;
    }
    None
}

/// A default-initialised `T` lies in `h` at offset `i`: a full `T`-sized
/// slice exists from `i` and decodes to `T`'s canonical default value.
pub open spec fn structure_match_at<T: DefaultInit>(h: Seq<u8>, i: int) -> bool {
    &&& 0 <= i
    &&& i + T::spec_size() <= h.len()
    &&& T::spec_decode(h.subrange(i, i + T::spec_size() as int)) == T::spec_default()
}

/// Returns the first offset of `haystack` at which a full `T`-sized slice
/// decodes to `T`'s canonical default value, or `None` when no offset does.
pub fn structure_is_sub<T: DefaultInit>(haystack: &[u8]) -> (r: Option<usize>)
    ensures
        match r {
            Some(i) => structure_match_at::<T>(haystack@, i as int)
                && forall|i2: int| 0 <= i2 < i ==> !structure_match_at::<T>(haystack@, i2),
            None => forall|i2: int| !structure_match_at::<T>(haystack@, i2),
        },
{
    let size: usize = T::byte_size();
    if size > haystack.len() {
        return None;
    }
    if size == 0 {
        let window = vstd::slice::slice_subrange(haystack, 0, 0);
        let candidate: T = T::decode(window);
        if candidate.is_default_init() {
            return Some(0);
        }
        proof {
            assert forall|i2: int| !structure_match_at::<T>(haystack@, i2) by {
                if 0 <= i2 && i2 + T::spec_size() <= haystack@.len() {
                    assert(haystack@.subrange(i2, i2) =~= haystack@.subrange(0, 0));
                }
            }
        }
        return None;
    }
    let last: usize = haystack.len() - size;
    let mut i: usize = 0;
    while i <= last
        invariant
            size == T::spec_size(),
            1 <= size <= haystack@.len(),
            haystack@.len() <= usize::MAX,
            last == haystack@.len() - size,
            last < usize::MAX,
            0 <= i <= last + 1,
            i <= haystack@.len(),
            forall|i2: int| 0 <= i2 < i ==> !structure_match_at::<T>(haystack@, i2),
        decreases last + 1 - i,
    {
        let window = vstd::slice::slice_subrange(haystack, i, i + size);
        let candidate: T = T::decode(window);
        if candidate.is_default_init() {
            return Some(i);
        }
        i = i + 1;
    }
    None
}

/// Law: a window slice that carries the byte image of `T`'s canonical default
/// value is a structure match; writing the default value's bytes somewhere is
/// what makes the structure matcher find that offset.
pub proof fn lemma_default_bytes_are_structure_match<T: DefaultInit>(h: Seq<u8>, i: int)
    requires
        0 <= i,
        i + T::spec_size() <= h.len(),
        h.subrange(i, i + T::spec_size() as int) == T::spec_default().spec_encode(),
    ensures
        structure_match_at::<T>(h, i),
{
    T::lemma_decode_encode(T::spec_default());
}

/// Law: a `U32Le` window is default-initialised exactly when its four bytes
/// are all zero — the type's canonical default byte pattern. The structure
/// matcher therefore returns the first address whose `U32Le`-sized window
/// equals that pattern.
pub proof fn lemma_u32le_default_window(h: Seq<u8>, i: int)
    requires
        0 <= i,
        i + 4 <= h.len(),
    ensures
        structure_match_at::<crate::layout::U32Le>(h, i) <==> (h[i] == 0 && h[i + 1] == 0 && h[i
            + 2] == 0 && h[i + 3] == 0),
{
    let t = h.subrange(i, i + 4);
    let b0 = t[0];
    let b1 = t[1];
    let b2 = t[2];
    let b3 = t[3];
    assert(((b0 as u32) | ((b1 as u32) << 8) | ((b2 as u32) << 16) | ((b3 as u32) << 24) == 0)
        <==> (b0 == 0 && b1 == 0 && b2 == 0 && b3 == 0)) by (bit_vector);
}

/// `n2` asks no more of a window than `n1` does: both have the same length
/// and every element of `n2` is a wildcard or the element of `n1` under it.
pub open spec fn weaker_needle(n1: Seq<Option<u8>>, n2: Seq<Option<u8>>) -> bool {
    &&& n2.len() == n1.len()
    &&& forall|j: int| 0 <= j < n1.len() ==> (n2[j] is None || n2[j] == n1[j])
}

/// Law: replacing elements of a matched wildcard pattern by wildcards never
/// loses the match. Every offset matched by the stronger pattern is still
/// matched by the weaker one.
pub proof fn lemma_wildcard_weakening(h: Seq<u8>, n1: Seq<Option<u8>>, n2: Seq<Option<u8>>, i: int)
    requires
        weaker_needle(n1, n2),
        wildcard_match_at(h, n1, i),
    ensures
        wildcard_match_at(h, n2, i),
{
}

/// Law: a wildcard element of the pattern is satisfied by any byte value.
/// Rewriting the window byte under a wildcard position keeps the match.
pub proof fn lemma_wildcard_matches_any_byte(
    h: Seq<u8>,
    n: Seq<Option<u8>>,
    i: int,
    p: int,
    b: u8,
)
    requires
        wildcard_match_at(h, n, i),
        0 <= p < n.len(),
        n[p] is None,
    ensures
        wildcard_match_at(h.update(i + p, b), n, i),
{
    let h2 = h.update(i + p, b);
    assert forall|j: int| 0 <= j < n.len() implies (#[trigger] n[j] matches Some(c) ==> h2[i
        + j] == c) by {
        if i + j != i + p {
            assert(h2[i + j] == h[i + j]);
        }
    }
}

} // verus!
