use helix::runtime::gpu::{padded_bytes_per_row, readback_size, unpad_rows};

#[test]
fn rows_are_padded_to_the_alignment() {
    assert_eq!(padded_bytes_per_row(0), 0);
    assert_eq!(padded_bytes_per_row(8), 256);
    assert_eq!(padded_bytes_per_row(64), 256);
    assert_eq!(padded_bytes_per_row(65), 512);
    assert_eq!(readback_size(65, 3), 1536);
}

#[test]
fn padding_is_dropped_from_every_row() {
    let mut padded = vec![0u8; 512];
    padded[..8].copy_from_slice(&[1, 2, 3, 4, 5, 6, 7, 8]);
    padded[256..264].copy_from_slice(&[9, 10, 11, 12, 13, 14, 15, 16]);
    let tight: Vec<u8> = (1..=16).collect();
    assert_eq!(unpad_rows(&padded, 2, 2), tight);
}
