use memscan::matcher::is_sub;
use memscan::matcher::structure_is_sub;
use memscan::matcher::wildcard_is_sub;
use memscan::layout::U32Le;

#[test]
fn exact_match_basic() {
    assert_eq!(is_sub(&[1, 2, 3, 4], &[3, 4]), Some(2));
    assert_eq!(is_sub(&[1, 2, 3, 4], &[1, 2, 3, 4]), Some(0));
    assert_eq!(is_sub(&[1, 2, 3], &[4]), None);
    assert_eq!(is_sub(&[1, 2], &[1, 2, 3]), None);
}

#[test]
fn exact_match_returns_first_offset() {
    assert_eq!(is_sub(&[7, 8, 7, 8], &[7, 8]), Some(0));
    assert_eq!(is_sub(&[0, 7, 8, 7, 8], &[7, 8]), Some(1));
}

#[test]
fn empty_needle_matches_at_offset_zero() {
    assert_eq!(is_sub(&[], &[]), Some(0));
    assert_eq!(is_sub(&[5, 6], &[]), Some(0));
    assert_eq!(wildcard_is_sub(&[5, 6], &[]), Some(0));
    assert_eq!(wildcard_is_sub(&[], &[]), Some(0));
}

#[test]
fn wildcard_match_basic() {
    let needle = [Some(0xDE), Some(0xAD), None, Some(0xEF)];
    assert_eq!(wildcard_is_sub(&[0xDE, 0xAD, 0x00, 0xEF], &needle), Some(0));
    assert_eq!(wildcard_is_sub(&[0xDE, 0xAD, 0xFF, 0xEF], &needle), Some(0));
    assert_eq!(wildcard_is_sub(&[0x00, 0xDE, 0xAD, 0x42, 0xEF], &needle), Some(1));
    assert_eq!(wildcard_is_sub(&[0xDE, 0xAD, 0x00, 0xEE], &needle), None);
}

#[test]
fn wildcard_needs_full_length_in_window() {
    // the concrete bytes agree, but the window has fewer bytes left than the
    // pattern is long
    let needle = [Some(0xAA), None, None];
    assert_eq!(wildcard_is_sub(&[0xAA, 0xBB], &needle), None);
}

#[test]
fn weakening_a_matched_needle_keeps_the_match() {
    let window = [9, 1, 2, 3, 9];
    let strong = [Some(1), Some(2), Some(3)];
    let got = wildcard_is_sub(&window, &strong).expect("strong pattern matches");
    // replace each element by a wildcard in turn: the match may only move down
    for p in 0..strong.len() {
        let mut weak = strong;
        weak[p] = None;
        let got_weak = wildcard_is_sub(&window, &weak).expect("weaker pattern still matches");
        assert!(got_weak <= got);
    }
}

#[test]
fn wildcard_position_matches_every_byte_value() {
    let needle = [Some(4), None, Some(6)];
    for b in 0..=255u8 {
        assert_eq!(wildcard_is_sub(&[4, b, 6], &needle), Some(0));
    }
}

#[test]
fn structure_match_finds_first_default_window() {
    // the first all-zero four-byte window starts at offset 1
    assert_eq!(structure_is_sub::<U32Le>(&[1, 0, 0, 0, 0, 1]), Some(1));
    assert_eq!(structure_is_sub::<U32Le>(&[0, 0, 0, 0]), Some(0));
    assert_eq!(structure_is_sub::<U32Le>(&[1, 1, 1, 1, 1]), None);
    // too short for a full window
    assert_eq!(structure_is_sub::<U32Le>(&[0, 0, 0]), None);
}
