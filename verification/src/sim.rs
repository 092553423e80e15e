//! A simulated memory target backed by an in-process buffer.
//!
//! One cell per address, starting at address 0; a `None` cell is an unmapped
//! hole. The simulated target makes the engine runnable without any real
//! process behind it and gives scans unreadable windows to skip.

use vstd::prelude::*;

use crate::error::AccessError;
use crate::error::MemoryResult;
use crate::memory::bytes_at;
use crate::memory::range_mapped;
use crate::memory::store_bytes;
use crate::memory::MemoryManipulation;

verus! {

/// A simulated target memory space.
pub struct SimulatedMemory {
    cells: Vec<Option<u8>>,
}

impl SimulatedMemory {
    /// The memory whose cells are given one by one, cell `i` at address `i`;
    /// `None` cells are unmapped holes.
    pub fn from_cells(cells: Vec<Option<u8>>) -> (s: Self)
        ensures
            forall|i: int|
                #[trigger] s.mem().dom().contains(i) <==> (0 <= i < cells@.len()
                    && cells@[i] is Some),
            forall|i: int|
                0 <= i < cells@.len() && #[trigger] cells@[i] is Some ==> s.mem()[i]
                    == cells@[i]->Some_0,
    {
        SimulatedMemory { cells }
    }

    /// A fully mapped memory holding the given bytes at addresses 0 onwards.
    pub fn from_bytes(bytes: &[u8]) -> (s: Self)
        ensures
            forall|i: int| #[trigger] s.mem().dom().contains(i) <==> 0 <= i < bytes@.len(),
            forall|i: int| 0 <= i < bytes@.len() ==> #[trigger] s.mem()[i] == bytes@[i],
    {
        let n: usize = bytes.len();
        let mut cells: Vec<Option<u8>> = Vec::new();
        let mut i: usize = 0;
        while i < n
            invariant
                n == bytes@.len(),
                i == cells@.len(),
                i <= n,
                forall|j: int| 0 <= j < i ==> cells@[j] == Some(bytes@[j]),
            decreases n - i,
        {
            cells.push(Some(bytes[i]));
            i = i + 1;
        }
        SimulatedMemory { cells }
    }
}

impl MemoryManipulation for SimulatedMemory {
    closed spec fn mem(&self) -> Map<int, u8> {
        Map::new(
            |i: int| 0 <= i < self.cells@.len() && self.cells@[i] is Some,
            |i: int| self.cells@[i]->Some_0,
        )
    }

    fn read(&self, address: usize, len: usize) -> (r: MemoryResult<Vec<u8>>) {
        if len == 0 {
            let out: Vec<u8> = Vec::new();
            proof {
                assert(out@ =~= bytes_at(self.mem(), address as int, len as nat));
            }
            return Ok(out);
        }
        if len > usize::MAX - address {
            return Err(AccessError::UnmappedAddress);
        }
        if address + len > self.cells.len() {
            proof {
                assert(!self.mem().dom().contains(address + len - 1));
            }
            return Err(AccessError::UnmappedAddress);
        }
        let mut out: Vec<u8> = Vec::new();
        let mut i: usize = 0;
        while i < len
            invariant
                1 <= len,
                address + len <= usize::MAX,
                address + len <= self.cells@.len(),
                0 <= i <= len,
                out@.len() == i,
                forall|j: int|
                    0 <= j < i ==> #[trigger] self.cells@[address + j] is Some && out@[j]
                        == self.cells@[address + j]->Some_0,
            decreases len - i,
        {
            match self.cells[address + i] {
                Some(b) => {
                    out.push(b);
                },
                None => {
                    proof {
                        assert(!self.mem().dom().contains(address + i));
                    }
                    return Err(AccessError::UnmappedAddress);
                },
            }
            i = i + 1;
        }
        proof {
            assert forall|k: int| address <= k < address + len implies self.mem().dom().contains(
                k,
            ) by {
                assert(self.cells@[address + (k - address)] is Some);
            }
            assert(out@ =~= bytes_at(self.mem(), address as int, len as nat));
        }
        Ok(out)
    }

    fn write(&mut self, address: usize, payload: &[u8]) -> (r: MemoryResult<usize>) {
        let len: usize = payload.len();
        if len == 0 {
            proof {
                assert(self.mem() =~= store_bytes(old(self).mem(), address as int, payload@));
            }
            return Ok(0);
        }
        if len > usize::MAX - address {
            return Err(AccessError::UnmappedAddress);
        }
        if address + len > self.cells.len() {
            proof {
                assert(!self.mem().dom().contains(address + len - 1));
            }
            return Err(AccessError::UnmappedAddress);
        }
        let mut i: usize = 0;
        while i < len
            invariant
                1 <= len == payload@.len(),
                address + len <= self.cells@.len(),
                address + len <= usize::MAX,
                0 <= i <= len,
                *self == *old(self),
                forall|j: int| 0 <= j < i ==> #[trigger] self.cells@[address + j] is Some,
            decreases len - i,
        {
            match self.cells[address + i] {
                Some(_) => {},
                None => {
                    proof {
                        assert(!self.mem().dom().contains(address + i));
                    }
                    return Err(AccessError::UnmappedAddress);
                },
            }
            i = i + 1;
        }
        proof {
            assert forall|k: int| address <= k < address + len implies old(self)
                .mem()
                .dom()
                .contains(k) by {
                assert(self.cells@[address + (k - address)] is Some);
            }
            assert(range_mapped(old(self).mem(), address as int, len as nat));
        }
        let mut i: usize = 0;
        while i < len
            invariant
                1 <= len == payload@.len(),
                address + len <= self.cells@.len(),
                address + len <= usize::MAX,
                0 <= i <= len,
                self.cells@.len() == old(self).cells@.len(),
                forall|j: int| 0 <= j < len ==> #[trigger] old(self).cells@[address + j] is Some,
                forall|j: int|
                    0 <= j < i ==> #[trigger] self.cells@[address + j] == Some(payload@[j]),
                forall|j: int|
                    0 <= j < self.cells@.len() && !(address <= j < address + i)
                        ==> #[trigger] self.cells@[j] == old(self).cells@[j],
            decreases len - i,
        {
            self.cells[address + i] = Some(payload[i]);
            i = i + 1;
        }
        proof {
            assert forall|k: int| address <= k < address + len implies self.cells@[k] == Some(
                payload@[k - address],
            ) && old(self).cells@[k] is Some by {
                assert(self.cells@[address + (k - address)] == Some(payload@[k - address]));
                assert(old(self).cells@[address + (k - address)] is Some);
            }
            assert(self.mem() =~= store_bytes(old(self).mem(), address as int, payload@));
        }
        Ok(len)
    }
}

} // verus!
