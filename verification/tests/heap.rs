//! Blocks with a strict alignment.

use tlottie::heap::{aligned_address, needs_cutting, padded_size, MALLOC_ALIGN};

#[test]
fn only_strict_alignments_are_cut() {
    assert!(!needs_cutting(1));
    assert!(!needs_cutting(MALLOC_ALIGN));
    assert!(needs_cutting(2 * MALLOC_ALIGN));
}

#[test]
fn padding_has_room_for_a_word() {
    assert_eq!(padded_size(100, 64, 8), Some(172));
    assert_eq!(padded_size(usize::MAX, 64, 8), None);
    assert_eq!(padded_size(usize::MAX - 72, 64, 8), Some(usize::MAX));
    assert_eq!(padded_size(usize::MAX - 71, 64, 8), None);
}

#[test]
fn cut_blocks_are_aligned_and_fit() {
    for base in [0x1000usize, 0x1010, 0x1030, 0x1038, 0x1039] {
        let at = aligned_address(base, 64, 8);
        assert_eq!(at, (base + 8 + 63) & !63);
        assert!(at >= base + 8 && at + 100 <= base + 172);
    }
}
