//! The range scanner.
//!
//! A scan partitions `[start, end)` into consecutive, non-overlapping windows
//! of four times the pattern's logical length, reads each window whole in
//! ascending address order, and runs the signature's pure matcher on the
//! bytes read. A window that cannot be read whole is skipped; the scan never
//! aborts on a read failure. The first local match ends the scan.
//!
//! By design the windows do not overlap, so a pattern whose bytes straddle
//! two adjacent windows is not guaranteed to be found: the scan's contract
//! promises exactly the lowest match that lies whole inside one readable
//! window, a documented best-effort limitation.

use vstd::arithmetic::div_mod::lemma_fundamental_div_mod;
use vstd::arithmetic::div_mod::lemma_mod_bound;
use vstd::arithmetic::div_mod::lemma_mod_add_multiples_vanish;
use vstd::arithmetic::div_mod::lemma_mod_equivalence;
use vstd::arithmetic::div_mod::lemma_mod_multiples_basic;
use vstd::prelude::*;
use vstd::string::StringSliceAdditionalSpecFns;

use crate::layout::DefaultInit;
use crate::layout::FixedLayout;
use crate::matcher::is_match_at;
use crate::matcher::is_sub;
use crate::matcher::structure_is_sub;
use crate::matcher::structure_match_at;
use crate::matcher::weaker_needle;
use crate::matcher::wildcard_is_sub;
use crate::matcher::wildcard_match_at;
use crate::memory::bytes_at;
use crate::memory::range_mapped;
use crate::memory::MemoryManipulation;
use crate::wildcard::lemma_parse_len;
use crate::wildcard::parse_signature;
use crate::wildcard::parse_signature_spec;

verus! {

/// `w` is the start of one window of the partition of `[start, end)` into
/// consecutive windows of `w_size` bytes.
pub open spec fn is_window_start(start: int, end: int, w_size: nat, w: int) -> bool {
    &&& start <= w < end
    &&& (w - start) % (w_size as int) == 0
}

/// The window at `w` can be read whole: it lies inside the address space and
/// every one of its bytes is mapped.
pub open spec fn window_readable(m: Map<int, u8>, w: int, w_size: nat) -> bool {
    &&& w + w_size <= usize::MAX
    &&& range_mapped(m, w, w_size)
}

/// A pattern of logical length `len` at address `a` lies whole inside the
/// readable scan window starting at `w`.
pub open spec fn in_scanned_window(
    m: Map<int, u8>,
    start: int,
    end: int,
    w_size: nat,
    w: int,
    a: int,
    len: nat,
) -> bool {
    &&& is_window_start(start, end, w_size, w)
    &&& window_readable(m, w, w_size)
    &&& w <= a
    &&& a + len <= w + w_size
}

/// The needle's bytes stand in the memory at address `a`.
pub open spec fn bytes_match_at(m: Map<int, u8>, n: Seq<u8>, a: int) -> bool {
    forall|j: int| 0 <= j < n.len() ==> #[trigger] m.dom().contains(a + j) && m[a + j] == n[j]
}

/// An address the exact-byte scan of `[start, end)` can find: the needle
/// stands there and lies whole inside one readable window of the partition.
pub open spec fn exact_candidate(m: Map<int, u8>, n: Seq<u8>, start: int, end: int, a: int) -> bool {
    &&& bytes_match_at(m, n, a)
    &&& exists|w: int|
        #[trigger] in_scanned_window(m, start, end, (4 * n.len()) as nat, w, a, n.len())
}

/// Two distinct window starts of one partition lie at least a window apart.
proof fn lemma_aligned_gap(start: int, w_size: nat, x: int, y: int)
    requires
        w_size >= 1,
        (x - start) % (w_size as int) == 0,
        (y - start) % (w_size as int) == 0,
        x < y,
    ensures
        x + w_size <= y,
{
    let w = w_size as int;
    lemma_mod_equivalence(y - start, x - start, w);
    assert((y - x) % w == 0);
    lemma_fundamental_div_mod(y - x, w);
    let q = (y - x) / w;
    assert(y - x == w * q);
    assert(q >= 1) by (nonlinear_arith)
        requires
            w * q > 0,
            w > 0,
    ;
    assert(w * q >= w) by (nonlinear_arith)
        requires
            q >= 1,
            w > 0,
    ;
}

/// A pattern of length at least one that lies inside the window partition and
/// overlaps the window at the aligned address `addr` lies inside that very
/// window.
proof fn lemma_candidate_window_is_own(
    m: Map<int, u8>,
    start: int,
    end: int,
    w_size: nat,
    w: int,
    a: int,
    len: nat,
    addr: int,
)
    requires
        w_size >= 1,
        len >= 1,
        start <= addr,
        (addr - start) % (w_size as int) == 0,
        in_scanned_window(m, start, end, w_size, w, a, len),
        addr <= a < addr + w_size,
    ensures
        w == addr,
{
    if w < addr {
        lemma_aligned_gap(start, w_size, w, addr);
    } else if w > addr {
        lemma_aligned_gap(start, w_size, addr, w);
    }
}

/// Searches the windows of `[start, end)` for the given exact-byte signature.
///
/// Returns the lowest address at which the signature stands whole inside one
/// readable window of the partition, or `None` when there is no such address.
/// An empty signature matches at offset 0 of the first window. A window that
/// cannot be read is skipped; later windows are still scanned.
pub fn find<M: MemoryManipulation>(target: &M, start: usize, end: usize, signature: &[u8]) -> (r:
    Option<usize>)
    requires
        4 * signature@.len() <= usize::MAX,
    ensures
        signature@.len() == 0 ==> r == (if start < end {
            Some(start)
        } else {
            None::<usize>
        }),
        signature@.len() >= 1 ==> match r {
            Some(a) => exact_candidate(target.mem(), signature@, start as int, end as int, a as int)
                && forall|a2: int|
                exact_candidate(target.mem(), signature@, start as int, end as int, a2) ==> a <= a2,
            None => forall|a2: int|
                !exact_candidate(target.mem(), signature@, start as int, end as int, a2),
        },
{
    if signature.len() == 0 {
        if start < end {
            return Some(start);
        } else {
            return None;
        }
    }
    let ghost m = target.mem();
    let ghost n = signature@;
    let w_size: usize = 4 * signature.len();
    let ghost w_s = (4 * n.len()) as nat;
    if start >= end {
        return None;
    }
    let mut addr: usize = start;
    proof {
        lemma_mod_multiples_basic(0, w_s as int);
    }
    loop
        invariant
            n == signature@,
            n.len() >= 1,
            m == target.mem(),
            w_size == w_s,
            w_s == 4 * n.len(),
            w_size <= usize::MAX,
            start <= addr < end,
            (addr - start) % (w_s as int) == 0,
            forall|a2: int| exact_candidate(m, n, start as int, end as int, a2) ==> addr <= a2,
        decreases end as int - addr as int,
    {
        match target.read(addr, w_size) {
            Ok(buffer) => {
                match is_sub(buffer.as_slice(), signature) {
                    Some(k) => {
                        proof {
                            assert(buffer@ == bytes_at(m, addr as int, w_s));
                            assert forall|j: int| 0 <= j < n.len() implies #[trigger] m
                                .dom()
                                .contains(addr + k + j) && m[addr + k + j] == n[j] by {
                                assert(buffer@[k + j] == n[j]);
                                assert(buffer@[k + j] == m[addr as int + (k + j)]);
                            }
                            assert(bytes_match_at(m, n, addr + k as int));
                            assert(in_scanned_window(
                                m,
                                start as int,
                                end as int,
                                w_s,
                                addr as int,
                                addr + k as int,
                                n.len(),
                            ));
                            assert forall|a2: int|
                                exact_candidate(m, n, start as int, end as int, a2) implies addr + k
                                <= a2 by {
                                if a2 < addr + k {
                                    let w = choose|w: int|
                                        #[trigger] in_scanned_window(
                                            m,
                                            start as int,
                                            end as int,
                                            w_s,
                                            w,
                                            a2,
                                            n.len(),
                                        );
                                    lemma_candidate_window_is_own(
                                        m,
                                        start as int,
                                        end as int,
                                        w_s,
                                        w,
                                        a2,
                                        n.len(),
                                        addr as int,
                                    );
                                    assert forall|j: int| 0 <= j < n.len() implies buffer@[(a2
                                        - addr) + j] == n[j] by {
                                        assert(m.dom().contains(a2 + j));
                                        assert(m[a2 + j] == n[j]);
                                        assert(buffer@[(a2 - addr) + j] == m[addr as int + ((a2
                                            - addr) + j)]);
                                    }
                                    assert(is_match_at(buffer@, n, a2 - addr));
                                    assert(false);
                                }
                            }
                        }
                        return Some(addr + k);
                    },
                    None => {
                        proof {
                            assert forall|a2: int|
                                exact_candidate(m, n, start as int, end as int, a2) implies addr
                                + w_s <= a2 by {
                                if a2 < addr + w_s {
                                    let w = choose|w: int|
                                        #[trigger] in_scanned_window(
                                            m,
                                            start as int,
                                            end as int,
                                            w_s,
                                            w,
                                            a2,
                                            n.len(),
                                        );
                                    lemma_candidate_window_is_own(
                                        m,
                                        start as int,
                                        end as int,
                                        w_s,
                                        w,
                                        a2,
                                        n.len(),
                                        addr as int,
                                    );
                                    assert forall|j: int| 0 <= j < n.len() implies buffer@[(a2
                                        - addr) + j] == n[j] by {
                                        assert(m.dom().contains(a2 + j));
                                        assert(m[a2 + j] == n[j]);
                                        assert(buffer@[(a2 - addr) + j] == m[addr as int + ((a2
                                            - addr) + j)]);
                                    }
                                    assert(is_match_at(buffer@, n, a2 - addr));
                                    assert(false);
                                }
                            }
                        }
                    },
                }
            },
            Err(_) => {
                proof {
                    assert forall|a2: int|
                        exact_candidate(m, n, start as int, end as int, a2) implies addr + w_s
                        <= a2 by {
                        if a2 < addr + w_s {
                            let w = choose|w: int|
                                #[trigger] in_scanned_window(
                                    m,
                                    start as int,
                                    end as int,
                                    w_s,
                                    w,
                                    a2,
                                    n.len(),
                                );
                            lemma_candidate_window_is_own(
                                m,
                                start as int,
                                end as int,
                                w_s,
                                w,
                                a2,
                                n.len(),
                                addr as int,
                            );
                            assert(window_readable(m, addr as int, w_s));
                            assert(false);
                        }
                    }
                }
            },
        }
        if end - addr <= w_size {
            proof {
                assert forall|a2: int| !exact_candidate(m, n, start as int, end as int, a2) by {
                    if exact_candidate(m, n, start as int, end as int, a2) {
                        let w = choose|w: int|
                            #[trigger] in_scanned_window(
                                m,
                                start as int,
                                end as int,
                                w_s,
                                w,
                                a2,
                                n.len(),
                            );
                        if w > addr {
                            lemma_aligned_gap(start as int, w_s, addr as int, w);
                        }
                        assert(false);
                    }
                }
            }
            return None;
        }
        proof {
            lemma_mod_add_multiples_vanish(addr - start, w_s as int);
        }
        addr = addr + w_size;
    }
}

/// The concrete elements of the wildcard pattern stand in the memory at
/// address `a`; wildcard elements ask nothing.
pub open spec fn wild_bytes_match_at(m: Map<int, u8>, n: Seq<Option<u8>>, a: int) -> bool {
    forall|j: int|
        0 <= j < n.len() ==> (#[trigger] n[j] matches Some(b) ==> m.dom().contains(a + j) && m[a
            + j] == b)
}

/// An address the wildcard scan of `[start, end)` can find: the pattern's
/// concrete bytes stand there and the pattern lies whole inside one readable
/// window of the partition.
pub open spec fn wildcard_candidate(
    m: Map<int, u8>,
    n: Seq<Option<u8>>,
    start: int,
    end: int,
    a: int,
) -> bool {
    &&& wild_bytes_match_at(m, n, a)
    &&& exists|w: int|
        #[trigger] in_scanned_window(m, start, end, (4 * n.len()) as nat, w, a, n.len())
}

/// Searches the windows of `[start, end)` for the pattern a signature text
/// stands for, wildcards included.
///
/// The text is tokenized left to right: a token of two hexadecimal digits is
/// a concrete byte, any other token a wildcard. Returns the lowest address at
/// which the pattern stands whole inside one readable window of the
/// partition, or `None` when there is no such address. A pattern without
/// elements matches at offset 0 of the first window. A window that cannot be
/// read is skipped; later windows are still scanned.
pub fn find_wildcard<M: MemoryManipulation>(
    target: &M,
    start: usize,
    end: usize,
    signature: &str,
) -> (r: Option<usize>)
    requires
        4 * signature.spec_bytes().len() <= usize::MAX,
    ensures
        parse_signature_spec(signature.spec_bytes()).len() == 0 ==> r == (if start < end {
            Some(start)
        } else {
            None::<usize>
        }),
        parse_signature_spec(signature.spec_bytes()).len() >= 1 ==> match r {
            Some(a) => wildcard_candidate(
                target.mem(),
                parse_signature_spec(signature.spec_bytes()),
                start as int,
                end as int,
                a as int,
            ) && forall|a2: int|
                wildcard_candidate(
                    target.mem(),
                    parse_signature_spec(signature.spec_bytes()),
                    start as int,
                    end as int,
                    a2,
                ) ==> a <= a2,
            None => forall|a2: int|
                !wildcard_candidate(
                    target.mem(),
                    parse_signature_spec(signature.spec_bytes()),
                    start as int,
                    end as int,
                    a2,
                ),
        },
{
    let pattern = parse_signature(signature);
    proof {
        lemma_parse_len(signature.spec_bytes());
    }
    if pattern.len() == 0 {
        if start < end {
            return Some(start);
        } else {
            return None;
        }
    }
    let ghost m = target.mem();
    let ghost n = pattern@;
    let w_size: usize = 4 * pattern.len();
    let ghost w_s = (4 * n.len()) as nat;
    if start >= end {
        return None;
    }
    let mut addr: usize = start;
    proof {
        lemma_mod_multiples_basic(0, w_s as int);
    }
    loop
        invariant
            n == pattern@,
            n == parse_signature_spec(signature.spec_bytes()),
            n.len() >= 1,
            m == target.mem(),
            w_size == w_s,
            w_s == 4 * n.len(),
            w_size <= usize::MAX,
            start <= addr < end,
            (addr - start) % (w_s as int) == 0,
            forall|a2: int| wildcard_candidate(m, n, start as int, end as int, a2) ==> addr <= a2,
        decreases end as int - addr as int,
    {
        match target.read(addr, w_size) {
            Ok(buffer) => {
                match wildcard_is_sub(buffer.as_slice(), pattern.as_slice()) {
                    Some(k) => {
                        proof {
                            assert(buffer@ == bytes_at(m, addr as int, w_s));
                            assert forall|j: int| 0 <= j < n.len() implies (#[trigger] n[j] matches
                            Some(b) ==> m.dom().contains(addr + k + j) && m[addr + k + j]
                                == b) by {
                                if n[j] is Some {
                                    assert(buffer@[k + j] == n[j]->Some_0);
                                    assert(buffer@[k + j] == m[addr as int + (k + j)]);
                                }
                            }
                            assert(wild_bytes_match_at(m, n, addr + k as int));
                            assert(in_scanned_window(
                                m,
                                start as int,
                                end as int,
                                w_s,
                                addr as int,
                                addr + k as int,
                                n.len(),
                            ));
                            assert forall|a2: int|
                                wildcard_candidate(m, n, start as int, end as int, a2) implies addr
                                + k <= a2 by {
                                if a2 < addr + k {
                                    let w = choose|w: int|
                                        #[trigger] in_scanned_window(
                                            m,
                                            start as int,
                                            end as int,
                                            w_s,
                                            w,
                                            a2,
                                            n.len(),
                                        );
                                    lemma_candidate_window_is_own(
                                        m,
                                        start as int,
                                        end as int,
                                        w_s,
                                        w,
                                        a2,
                                        n.len(),
                                        addr as int,
                                    );
                                    assert forall|j: int| 0 <= j < n.len() implies (#[trigger] n[j] matches
                                    Some(b) ==> buffer@[(a2 - addr) + j] == b) by {
                                        if n[j] is Some {
                                            assert(m.dom().contains(a2 + j));
                                            assert(m[a2 + j] == n[j]->Some_0);
                                            assert(buffer@[(a2 - addr) + j] == m[addr as int + ((a2
                                                - addr) + j)]);
                                        }
                                    }
                                    assert(wildcard_match_at(buffer@, n, a2 - addr));
                                    assert(false);
                                }
                            }
                        }
                        return Some(addr + k);
                    },
                    None => {
                        proof {
                            assert forall|a2: int|
                                wildcard_candidate(m, n, start as int, end as int, a2) implies addr
                                + w_s <= a2 by {
                                if a2 < addr + w_s {
                                    let w = choose|w: int|
                                        #[trigger] in_scanned_window(
                                            m,
                                            start as int,
                                            end as int,
                                            w_s,
                                            w,
                                            a2,
                                            n.len(),
                                        );
                                    lemma_candidate_window_is_own(
                                        m,
                                        start as int,
                                        end as int,
                                        w_s,
                                        w,
                                        a2,
                                        n.len(),
                                        addr as int,
                                    );
                                    assert forall|j: int| 0 <= j < n.len() implies (#[trigger] n[j] matches
                                    Some(b) ==> buffer@[(a2 - addr) + j] == b) by {
                                        if n[j] is Some {
                                            assert(m.dom().contains(a2 + j));
                                            assert(m[a2 + j] == n[j]->Some_0);
                                            assert(buffer@[(a2 - addr) + j] == m[addr as int + ((a2
                                                - addr) + j)]);
                                        }
                                    }
                                    assert(wildcard_match_at(buffer@, n, a2 - addr));
                                    assert(false);
                                }
                            }
                        }
                    },
                }
            },
            Err(_) => {
                proof {
                    assert forall|a2: int|
                        wildcard_candidate(m, n, start as int, end as int, a2) implies addr + w_s
                        <= a2 by {
                        if a2 < addr + w_s {
                            let w = choose|w: int|
                                #[trigger] in_scanned_window(
                                    m,
                                    start as int,
                                    end as int,
                                    w_s,
                                    w,
                                    a2,
                                    n.len(),
                                );
                            lemma_candidate_window_is_own(
                                m,
                                start as int,
                                end as int,
                                w_s,
                                w,
                                a2,
                                n.len(),
                                addr as int,
                            );
                            assert(window_readable(m, addr as int, w_s));
                            assert(false);
                        }
                    }
                }
            },
        }
        if end - addr <= w_size {
            proof {
                assert forall|a2: int| !wildcard_candidate(m, n, start as int, end as int, a2) by {
                    if wildcard_candidate(m, n, start as int, end as int, a2) {
                        let w = choose|w: int|
                            #[trigger] in_scanned_window(
                                m,
                                start as int,
                                end as int,
                                w_s,
                                w,
                                a2,
                                n.len(),
                            );
                        if w > addr {
                            lemma_aligned_gap(start as int, w_s, addr as int, w);
                        }
                        assert(false);
                    }
                }
            }
            return None;
        }
        proof {
            lemma_mod_add_multiples_vanish(addr - start, w_s as int);
        }
        addr = addr + w_size;
    }
}

/// A default-initialised `T` stands in the memory at address `a`: the
/// `T`-sized range there is mapped and its bytes decode to `T`'s canonical
/// default value.
pub open spec fn structure_bytes_match_at<T: DefaultInit>(m: Map<int, u8>, a: int) -> bool {
    &&& range_mapped(m, a, T::spec_size())
    &&& T::spec_decode(bytes_at(m, a, T::spec_size())) == T::spec_default()
}

/// An address the structure scan of `[start, end)` can find: a
/// default-initialised `T` stands there, whole inside one readable window of
/// the partition.
pub open spec fn structure_candidate<T: DefaultInit>(
    m: Map<int, u8>,
    start: int,
    end: int,
    a: int,
) -> bool {
    &&& structure_bytes_match_at::<T>(m, a)
    &&& exists|w: int|
        #[trigger] in_scanned_window(m, start, end, (4 * T::spec_size()) as nat, w, a, T::spec_size())
}

/// Searches the windows of `[start, end)` for a structure holding `T`'s
/// canonical default value.
///
/// Returns the lowest address at which such a structure stands whole inside
/// one readable window of the partition, or `None` when there is no such
/// address. A window that cannot be read is skipped; later windows are still
/// scanned.
pub fn find_structure<T: DefaultInit, M: MemoryManipulation>(
    target: &M,
    start: usize,
    end: usize,
) -> (r: Option<usize>)
    requires
        1 <= T::spec_size(),
        4 * T::spec_size() <= usize::MAX,
    ensures
        match r {
            Some(a) => structure_candidate::<T>(target.mem(), start as int, end as int, a as int)
                && forall|a2: int|
                structure_candidate::<T>(target.mem(), start as int, end as int, a2) ==> a <= a2,
            None => forall|a2: int|
                !structure_candidate::<T>(target.mem(), start as int, end as int, a2),
        },
{
    let ghost m = target.mem();
    let size: usize = T::byte_size();
    let w_size: usize = 4 * size;
    let ghost w_s = (4 * T::spec_size()) as nat;
    if start >= end {
        return None;
    }
    let mut addr: usize = start;
    proof {
        lemma_mod_multiples_basic(0, w_s as int);
    }
    loop
        invariant
            size == T::spec_size(),
            size >= 1,
            m == target.mem(),
            w_size == w_s,
            w_s == 4 * T::spec_size(),
            w_size <= usize::MAX,
            start <= addr < end,
            (addr - start) % (w_s as int) == 0,
            forall|a2: int| structure_candidate::<T>(m, start as int, end as int, a2) ==> addr <= a2,
        decreases end as int - addr as int,
    {
        match target.read(addr, w_size) {
            Ok(buffer) => {
                match structure_is_sub::<T>(buffer.as_slice()) {
                    Some(k) => {
                        proof {
                            assert(buffer@ == bytes_at(m, addr as int, w_s));
                            assert forall|j: int| 0 <= j < T::spec_size() implies #[trigger] bytes_at(
                                m,
                                addr + k as int,
                                T::spec_size(),
                            )[j] == buffer@.subrange(k as int, k + T::spec_size() as int)[j] by {
                                assert(buffer@[k + j] == m[addr as int + (k + j)]);
                            }
                            assert(bytes_at(m, addr + k as int, T::spec_size()) =~= buffer@
                                .subrange(k as int, k + T::spec_size() as int));
                            assert(structure_bytes_match_at::<T>(m, addr + k as int));
                            assert(in_scanned_window(
                                m,
                                start as int,
                                end as int,
                                w_s,
                                addr as int,
                                addr + k as int,
                                T::spec_size(),
                            ));
                            assert forall|a2: int|
                                structure_candidate::<T>(m, start as int, end as int, a2) implies addr
                                + k <= a2 by {
                                if a2 < addr + k {
                                    let w = choose|w: int|
                                        #[trigger] in_scanned_window(
                                            m,
                                            start as int,
                                            end as int,
                                            w_s,
                                            w,
                                            a2,
                                            T::spec_size(),
                                        );
                                    lemma_candidate_window_is_own(
                                        m,
                                        start as int,
                                        end as int,
                                        w_s,
                                        w,
                                        a2,
                                        T::spec_size(),
                                        addr as int,
                                    );
                                    assert forall|j: int| 0 <= j < T::spec_size() implies #[trigger] bytes_at(
                                        m,
                                        a2,
                                        T::spec_size(),
                                    )[j] == buffer@.subrange(
                                        a2 - addr,
                                        (a2 - addr) + T::spec_size() as int,
                                    )[j] by {
                                        assert(buffer@[(a2 - addr) + j] == m[addr as int + ((a2
                                            - addr) + j)]);
                                    }
                                    assert(bytes_at(m, a2, T::spec_size()) =~= buffer@.subrange(
                                        a2 - addr,
                                        (a2 - addr) + T::spec_size() as int,
                                    ));
                                    assert(structure_match_at::<T>(buffer@, a2 - addr));
                                    assert(false);
                                }
                            }
                        }
                        return Some(addr + k);
                    },
                    None => {
                        proof {
                            assert forall|a2: int|
                                structure_candidate::<T>(m, start as int, end as int, a2) implies addr
                                + w_s <= a2 by {
                                if a2 < addr + w_s {
                                    let w = choose|w: int|
                                        #[trigger] in_scanned_window(
                                            m,
                                            start as int,
                                            end as int,
                                            w_s,
                                            w,
                                            a2,
                                            T::spec_size(),
                                        );
                                    lemma_candidate_window_is_own(
                                        m,
                                        start as int,
                                        end as int,
                                        w_s,
                                        w,
                                        a2,
                                        T::spec_size(),
                                        addr as int,
                                    );
                                    assert forall|j: int| 0 <= j < T::spec_size() implies #[trigger] bytes_at(
                                        m,
                                        a2,
                                        T::spec_size(),
                                    )[j] == buffer@.subrange(
                                        a2 - addr,
                                        (a2 - addr) + T::spec_size() as int,
                                    )[j] by {
                                        assert(buffer@[(a2 - addr) + j] == m[addr as int + ((a2
                                            - addr) + j)]);
                                    }
                                    assert(bytes_at(m, a2, T::spec_size()) =~= buffer@.subrange(
                                        a2 - addr,
                                        (a2 - addr) + T::spec_size() as int,
                                    ));
                                    assert(structure_match_at::<T>(buffer@, a2 - addr));
                                    assert(false);
                                }
                            }
                        }
                    },
                }
            },
            Err(_) => {
                proof {
                    assert forall|a2: int|
                        structure_candidate::<T>(m, start as int, end as int, a2) implies addr + w_s
                        <= a2 by {
                        if a2 < addr + w_s {
                            let w = choose|w: int|
                                #[trigger] in_scanned_window(
                                    m,
                                    start as int,
                                    end as int,
                                    w_s,
                                    w,
                                    a2,
                                    T::spec_size(),
                                );
                            lemma_candidate_window_is_own(
                                m,
                                start as int,
                                end as int,
                                w_s,
                                w,
                                a2,
                                T::spec_size(),
                                addr as int,
                            );
                            assert(window_readable(m, addr as int, w_s));
                            assert(false);
                        }
                    }
                }
            },
        }
        if end - addr <= w_size {
            proof {
                assert forall|a2: int|
                    !structure_candidate::<T>(m, start as int, end as int, a2) by {
                    if structure_candidate::<T>(m, start as int, end as int, a2) {
                        let w = choose|w: int|
                            #[trigger] in_scanned_window(
                                m,
                                start as int,
                                end as int,
                                w_s,
                                w,
                                a2,
                                T::spec_size(),
                            );
                        if w > addr {
                            lemma_aligned_gap(start as int, w_s, addr as int, w);
                        }
                        assert(false);
                    }
                }
            }
            return None;
        }
        proof {
            lemma_mod_add_multiples_vanish(addr - start, w_s as int);
        }
        addr = addr + w_size;
    }
}

/// Law: weakening a wildcard pattern — replacing any of its elements by
/// wildcards — loses no scan candidate: every address the scan could find
/// with the stronger pattern it can still find with the weaker one, so
/// `find_wildcard` keeps returning an address, no higher than before.
pub proof fn lemma_weaker_pattern_keeps_candidates(
    m: Map<int, u8>,
    n1: Seq<Option<u8>>,
    n2: Seq<Option<u8>>,
    start: int,
    end: int,
    a: int,
)
    requires
        weaker_needle(n1, n2),
        wildcard_candidate(m, n1, start, end, a),
    ensures
        wildcard_candidate(m, n2, start, end, a),
{
    assert forall|j: int| 0 <= j < n2.len() implies (#[trigger] n2[j] matches Some(b) ==> m
        .dom()
        .contains(a + j) && m[a + j] == b) by {
        if n2[j] is Some {
            assert(n2[j] == n1[j]);
        }
    }
    let w = choose|w: int|
        #[trigger] in_scanned_window(m, start, end, (4 * n1.len()) as nat, w, a, n1.len());
    assert(in_scanned_window(m, start, end, (4 * n2.len()) as nat, w, a, n2.len()));
}

/// Law: an occurrence of the needle that lies whole inside one readable
/// window is a scan candidate whatever the other windows do. In particular a
/// failed read of one window never masks a match that sits in another,
/// readable window: the scan still returns an address no higher than that
/// match.
pub proof fn lemma_readable_window_occurrence_is_candidate(
    m: Map<int, u8>,
    n: Seq<u8>,
    start: int,
    end: int,
    a: int,
)
    requires
        n.len() >= 1,
        start <= a < end,
        bytes_match_at(m, n, a),
        (a - start) % ((4 * n.len()) as int) + n.len() <= 4 * n.len(),
        window_readable(m, a - ((a - start) % ((4 * n.len()) as int)), (4 * n.len()) as nat),
    ensures
        exact_candidate(m, n, start, end, a),
{
    let w_size = (4 * n.len()) as int;
    let r = (a - start) % w_size;
    lemma_mod_bound(a - start, w_size);
    let w0 = a - r;
    lemma_fundamental_div_mod(a - start, w_size);
    let q = (a - start) / w_size;
    assert(w0 - start == q * w_size);
    lemma_mod_multiples_basic(q, w_size);
    assert((w0 - start) % w_size == 0);
    assert(in_scanned_window(m, start, end, (4 * n.len()) as nat, w0, a, n.len()));
}

/// Law: when every window of the partition is readable, the scan of
/// `[start, end)` returns the needle's true lowest offset in the range,
/// provided that lowest occurrence does not straddle a window boundary: the
/// occurrence is a candidate and every candidate lies at or above it.
pub proof fn lemma_fully_readable_scan_is_exact(
    m: Map<int, u8>,
    n: Seq<u8>,
    start: int,
    end: int,
    a: int,
)
    requires
        n.len() >= 1,
        forall|w: int|
            #[trigger] is_window_start(start, end, (4 * n.len()) as nat, w) ==> window_readable(
                m,
                w,
                (4 * n.len()) as nat,
            ),
        start <= a < end,
        bytes_match_at(m, n, a),
        (a - start) % ((4 * n.len()) as int) + n.len() <= 4 * n.len(),
        forall|a2: int| start <= a2 < a ==> !bytes_match_at(m, n, a2),
    ensures
        exact_candidate(m, n, start, end, a),
        forall|a2: int| exact_candidate(m, n, start, end, a2) ==> a <= a2,
{
    let w_size = (4 * n.len()) as int;
    let r = (a - start) % w_size;
    lemma_mod_bound(a - start, w_size);
    let w0 = a - r;
    lemma_fundamental_div_mod(a - start, w_size);
    let q = (a - start) / w_size;
    assert(w0 - start == q * w_size);
    lemma_mod_multiples_basic(q, w_size);
    assert((w0 - start) % w_size == 0);
    assert(is_window_start(start, end, (4 * n.len()) as nat, w0));
    assert(window_readable(m, w0, (4 * n.len()) as nat));
    lemma_readable_window_occurrence_is_candidate(m, n, start, end, a);
    assert forall|a2: int| exact_candidate(m, n, start, end, a2) implies a <= a2 by {
        if a2 < a {
            let w = choose|w: int|
                #[trigger] in_scanned_window(m, start, end, (4 * n.len()) as nat, w, a2, n.len());
            assert(start <= a2);
            assert(false);
        }
    }
}

} // verus!
