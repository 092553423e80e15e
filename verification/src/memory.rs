//! The memory access capability and the typed accessor built on it.
//!
//! [`MemoryManipulation`] is the sole I/O boundary of the engine: raw reads
//! and writes of bytes at addresses of a target memory space. A target's
//! memory is modelled as a partial map from addresses to bytes; the mapped
//! addresses are the accessible ones. The model describes one target at rest:
//! synchronisation against concurrent mutation of the target is the
//! capability implementor's responsibility.

use vstd::prelude::*;

use crate::error::AccessError;
use crate::error::MemoryResult;
use crate::layout::FixedLayout;

verus! {

/// Every address of `[addr, addr + len)` is mapped in `m`.
pub open spec fn range_mapped(m: Map<int, u8>, addr: int, len: nat) -> bool {
    forall|i: int| addr <= i < addr + len ==> m.dom().contains(i)
}

/// The `len` bytes of `m` starting at `addr`.
pub open spec fn bytes_at(m: Map<int, u8>, addr: int, len: nat) -> Seq<u8> {
    Seq::new(len, |i: int| m[addr + i])
}

/// `m` with the bytes of `b` stored at `addr`; no address becomes mapped or
/// unmapped.
pub open spec fn store_bytes(m: Map<int, u8>, addr: int, b: Seq<u8>) -> Map<int, u8> {
    Map::new(
        |i: int| m.dom().contains(i),
        |i: int|
            if addr <= i < addr + b.len() {
                b[i - addr]
            } else {
                m[i]
            },
    )
}

/// Raw read/write capability over one target memory space.
///
/// `mem` is the model: the bytes the target currently holds at its mapped
/// addresses. A transfer succeeds exactly when the whole requested range is
/// mapped and lies below the address space's end; a failed transfer moves no
/// bytes. Implementations supply the two operations per target (a real
/// process, a mapped image, a simulated buffer).
pub trait MemoryManipulation {
    /// The bytes the target holds, at every mapped address.
    spec fn mem(&self) -> Map<int, u8>;

    /// Reads `len` bytes starting at `address` and returns them.
    fn read(&self, address: usize, len: usize) -> (r: MemoryResult<Vec<u8>>)
        ensures
            (r is Ok) <==> (address + len <= usize::MAX && range_mapped(
                self.mem(),
                address as int,
                len as nat,
            )),
            r matches Ok(b) ==> b@ == bytes_at(self.mem(), address as int, len as nat),
    ;

    /// Writes the payload into the memory at the given address and returns
    /// the number of bytes written.
    fn write(&mut self, address: usize, payload: &[u8]) -> (r: MemoryResult<usize>)
        ensures
            (r is Ok) <==> (address + payload@.len() <= usize::MAX && range_mapped(
                old(self).mem(),
                address as int,
                payload@.len() as nat,
            )),
            r matches Ok(n) ==> n == payload@.len() && final(self).mem() == store_bytes(
                old(self).mem(),
                address as int,
                payload@,
            ),
            r is Err ==> final(self).mem() == old(self).mem(),
    ;
}

/// Reads a generic data structure at the given address: reads exactly the
/// structure's byte size and reinterprets those bytes through the structure's
/// declared layout. Any read failure propagates unmodified.
pub fn read_structure<T: FixedLayout, M: MemoryManipulation>(target: &M, address: usize) -> (r:
    MemoryResult<T>)
    ensures
        (r is Ok) <==> (address + T::spec_size() <= usize::MAX && range_mapped(
            target.mem(),
            address as int,
            T::spec_size(),
        )),
        r matches Ok(v) ==> v == T::spec_decode(
            bytes_at(target.mem(), address as int, T::spec_size()),
        ),
{
    let size: usize = T::byte_size();
    match target.read(address, size) {
        Ok(buf) => Ok(T::decode(buf.as_slice())),
        Err(e) => Err(e),
    }
}

/// Writes a generic data structure into memory at the given address:
/// serializes the value's byte layout and writes it in one transfer. Any
/// write failure propagates unmodified and leaves the memory unchanged.
pub fn write_structure<T: FixedLayout, M: MemoryManipulation>(
    target: &mut M,
    address: usize,
    payload: T,
) -> (r: MemoryResult<usize>)
    ensures
        (r is Ok) <==> (address + T::spec_size() <= usize::MAX && range_mapped(
            old(target).mem(),
            address as int,
            T::spec_size(),
        )),
        r matches Ok(n) ==> n == T::spec_size() && final(target).mem() == store_bytes(
            old(target).mem(),
            address as int,
            payload.spec_encode(),
        ),
        r is Err ==> final(target).mem() == old(target).mem(),
{
    let bytes = payload.encode();
    proof {
        T::lemma_encode_len(payload);
    }
    target.write(address, bytes.as_slice())
}

/// Law: reading a structure back right after writing it gives the written
/// value. Storing a value's byte image at a mapped address and decoding the
/// bytes found there afterwards is the identity.
pub proof fn lemma_structure_roundtrip<T: FixedLayout>(m: Map<int, u8>, address: int, v: T)
    requires
        range_mapped(m, address, T::spec_size()),
    ensures
        T::spec_decode(
            bytes_at(store_bytes(m, address, v.spec_encode()), address, T::spec_size()),
        ) == v,
        range_mapped(store_bytes(m, address, v.spec_encode()), address, T::spec_size()),
{
    T::lemma_encode_len(v);
    assert(bytes_at(store_bytes(m, address, v.spec_encode()), address, T::spec_size()) =~= v
        .spec_encode());
    T::lemma_decode_encode(v);
}

} // verus!
