use memscan::scanner::find;
use memscan::scanner::find_structure;
use memscan::scanner::find_wildcard;
use memscan::layout::U32Le;
use memscan::sim::SimulatedMemory;
use memscan::wildcard::parse_signature;

#[test]
fn find_pattern_inside_first_window() {
    // window size 8 (pattern length 2); zero bytes except AA BB at offset 3
    let mut bytes = vec![0u8; 8];
    bytes[3] = 0xAA;
    bytes[4] = 0xBB;
    let mem = SimulatedMemory::from_bytes(&bytes);
    assert_eq!(find(&mem, 0, 8, &[0xAA, 0xBB]), Some(3));
}

#[test]
fn find_misses_pattern_straddling_window_boundary() {
    // window size 8; AA BB placed at offsets 7 and 8, straddling the boundary
    // between the first and the second window: the documented best-effort
    // limitation of non-overlapping windows
    let mut bytes = vec![0u8; 16];
    bytes[7] = 0xAA;
    bytes[8] = 0xBB;
    let mem = SimulatedMemory::from_bytes(&bytes);
    assert_eq!(find(&mem, 0, 16, &[0xAA, 0xBB]), None);
}

#[test]
fn find_returns_lowest_occurrence() {
    let mut bytes = vec![0u8; 8];
    bytes[1] = 0xAA;
    bytes[2] = 0xBB;
    bytes[5] = 0xAA;
    bytes[6] = 0xBB;
    let mem = SimulatedMemory::from_bytes(&bytes);
    assert_eq!(find(&mem, 0, 8, &[0xAA, 0xBB]), Some(1));
}

#[test]
fn find_with_empty_needle_matches_start_of_first_window() {
    let mem = SimulatedMemory::from_bytes(&[0u8; 4]);
    assert_eq!(find(&mem, 2, 4, &[]), Some(2));
    assert_eq!(find(&mem, 3, 3, &[]), None);
}

#[test]
fn unreadable_window_does_not_mask_later_matches() {
    // the first window of [0, 16) cannot be read (unmapped hole at address 2);
    // the match in the second window is still found
    let mut cells: Vec<Option<u8>> = vec![Some(0); 16];
    cells[2] = None;
    cells[10] = Some(0xAA);
    cells[11] = Some(0xBB);
    let mem = SimulatedMemory::from_cells(cells);
    assert_eq!(find(&mem, 0, 16, &[0xAA, 0xBB]), Some(10));
}

#[test]
fn unreadable_ragged_tail_window_is_skipped() {
    // the second window of [0, 12) reaches to address 16, beyond the mapped
    // bytes: it cannot be read whole, so a match there is not reported
    let mut bytes = vec![0u8; 12];
    bytes[9] = 0xAA;
    bytes[10] = 0xBB;
    let mem = SimulatedMemory::from_bytes(&bytes);
    assert_eq!(find(&mem, 0, 12, &[0xAA, 0xBB]), None);
}

#[test]
fn find_wildcard_matches_regardless_of_wildcard_byte() {
    // haystacks holding DE AD 00 EF and DE AD FF EF both match the signature
    // text "DE AD ?? EF" at the same place
    let mut low = vec![0u8; 16];
    low[4] = 0xDE;
    low[5] = 0xAD;
    low[6] = 0x00;
    low[7] = 0xEF;
    let mut high = low.clone();
    high[6] = 0xFF;
    let mem_low = SimulatedMemory::from_bytes(&low);
    let mem_high = SimulatedMemory::from_bytes(&high);
    assert_eq!(find_wildcard(&mem_low, 0, 16, "DE AD ?? EF"), Some(4));
    assert_eq!(find_wildcard(&mem_high, 0, 16, "DE AD ?? EF"), Some(4));
}

#[test]
fn find_wildcard_not_found() {
    let mem = SimulatedMemory::from_bytes(&[0u8; 16]);
    assert_eq!(find_wildcard(&mem, 0, 16, "DE AD ?? EF"), None);
}

#[test]
fn tokenizer_reads_byte_pairs_and_wildcards() {
    assert_eq!(
        parse_signature("DE AD ?? EF"),
        vec![Some(0xDE), Some(0xAD), None, Some(0xEF)]
    );
    assert_eq!(parse_signature(""), Vec::<Option<u8>>::new());
    assert_eq!(parse_signature("de ad"), vec![Some(0xDE), Some(0xAD)]);
    assert_eq!(parse_signature("AA :: BB"), vec![Some(0xAA), None, Some(0xBB)]);
}

#[test]
fn tokenizer_treats_unrecognized_tokens_as_wildcards() {
    // a token that is no valid byte pair defaults to a wildcard
    assert_eq!(parse_signature("xy 0G 12"), vec![None, None, Some(0x12)]);
    assert_eq!(parse_signature("DEAD"), vec![None]);
    assert_eq!(parse_signature("A"), vec![None]);
}

#[test]
fn tokenizer_skips_repeated_spaces() {
    assert_eq!(parse_signature("  AA   BB "), vec![Some(0xAA), Some(0xBB)]);
}

#[test]
fn find_structure_returns_first_default_window() {
    // window size 16 (U32Le is 4 bytes); ones everywhere except a zero run
    let mut bytes = vec![1u8; 16];
    for i in 5..9 {
        bytes[i] = 0;
    }
    let mem = SimulatedMemory::from_bytes(&bytes);
    assert_eq!(find_structure::<U32Le, _>(&mem, 0, 16), Some(5));
}

#[test]
fn find_structure_not_found() {
    let mem = SimulatedMemory::from_bytes(&[1u8; 16]);
    assert_eq!(find_structure::<U32Le, _>(&mem, 0, 16), None);
}
