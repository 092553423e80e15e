use memscan::error::AccessError;
use memscan::layout::DefaultInit;
use memscan::layout::FixedLayout;
use memscan::layout::U32Le;
use memscan::memory::read_structure;
use memscan::memory::write_structure;
use memscan::memory::MemoryManipulation;
use memscan::sim::SimulatedMemory;

#[test]
fn read_returns_the_mapped_bytes() {
    let mem = SimulatedMemory::from_bytes(&[10, 20, 30, 40]);
    assert_eq!(mem.read(1, 2), Ok(vec![20, 30]));
    assert_eq!(mem.read(0, 4), Ok(vec![10, 20, 30, 40]));
    assert_eq!(mem.read(3, 0), Ok(Vec::new()));
}

#[test]
fn read_beyond_the_mapped_range_fails() {
    let mem = SimulatedMemory::from_bytes(&[10, 20, 30, 40]);
    assert_eq!(mem.read(3, 2), Err(AccessError::UnmappedAddress));
    assert_eq!(mem.read(100, 1), Err(AccessError::UnmappedAddress));
}

#[test]
fn read_through_a_hole_fails() {
    let cells = vec![Some(1), None, Some(3)];
    let mem = SimulatedMemory::from_cells(cells);
    assert_eq!(mem.read(0, 3), Err(AccessError::UnmappedAddress));
    assert_eq!(mem.read(2, 1), Ok(vec![3]));
}

#[test]
fn write_stores_the_payload() {
    let mut mem = SimulatedMemory::from_bytes(&[0; 4]);
    assert_eq!(mem.write(1, &[7, 8]), Ok(2));
    assert_eq!(mem.read(0, 4), Ok(vec![0, 7, 8, 0]));
}

#[test]
fn write_beyond_the_mapped_range_fails_and_changes_nothing() {
    let mut mem = SimulatedMemory::from_bytes(&[5, 5]);
    assert_eq!(mem.write(1, &[7, 8]), Err(AccessError::UnmappedAddress));
    assert_eq!(mem.read(0, 2), Ok(vec![5, 5]));
}

#[test]
fn u32le_encode_decode() {
    let v = U32Le { value: 0x0403_0201 };
    let b = v.encode();
    assert_eq!(b, vec![0x01, 0x02, 0x03, 0x04]);
    assert_eq!(U32Le::decode(&b), v);
    assert_eq!(U32Le::byte_size(), 4);
}

#[test]
fn u32le_default_init_is_zero() {
    assert!(U32Le { value: 0 }.is_default_init());
    assert!(!U32Le { value: 1 }.is_default_init());
}

#[test]
fn structure_round_trip() {
    // reading a structure back right after writing it gives the written value
    let mut mem = SimulatedMemory::from_bytes(&[0xEE; 8]);
    let v = U32Le { value: 0x1234_5678 };
    assert_eq!(write_structure(&mut mem, 2, v), Ok(4));
    assert_eq!(read_structure::<U32Le, _>(&mem, 2), Ok(v));
    // the neighbours are untouched
    assert_eq!(mem.read(0, 2), Ok(vec![0xEE, 0xEE]));
    assert_eq!(mem.read(6, 2), Ok(vec![0xEE, 0xEE]));
}

#[test]
fn structure_transfer_failures_propagate() {
    let mut mem = SimulatedMemory::from_bytes(&[0; 2]);
    assert_eq!(
        read_structure::<U32Le, _>(&mem, 0),
        Err(AccessError::UnmappedAddress)
    );
    assert_eq!(
        write_structure(&mut mem, 0, U32Le { value: 9 }),
        Err(AccessError::UnmappedAddress)
    );
    let holey = SimulatedMemory::from_cells(vec![Some(0), Some(0), None, Some(0)]);
    assert_eq!(
        read_structure::<U32Le, _>(&holey, 0),
        Err(AccessError::UnmappedAddress)
    );
}
