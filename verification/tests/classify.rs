use gifmask::PaletteError;
use gifmask::classify_alphas;

#[test]
fn threshold_is_strict_at_203() {
    // 203 is excluded, 204 is included
    let palette = vec![203, 203, 203, 204, 204, 204];
    let result = classify_alphas(&palette).unwrap();
    assert_eq!(result, vec![1]);
}

#[test]
fn black_and_white_palette() {
    let palette = vec![0, 0, 0, 255, 255, 255];
    let result = classify_alphas(&palette).unwrap();
    assert_eq!(result, vec![1]);
}

#[test]
fn first_entry_background() {
    let palette = vec![255, 0, 0, 10, 10, 10];
    let result = classify_alphas(&palette).unwrap();
    assert_eq!(result, vec![0]);
}

#[test]
fn empty_palette() {
    let palette: Vec<u8> = vec![];
    let result = classify_alphas(&palette).unwrap();
    assert_eq!(result, Vec::<u8>::new());
}

#[test]
fn exactly_203_is_not_background() {
    let palette = vec![203, 203, 203];
    let result = classify_alphas(&palette).unwrap();
    assert_eq!(result, Vec::<u8>::new());
}

#[test]
fn trailing_bytes_still_start_an_entry() {
    // two trailing bytes form the start of an entry; only the first channel
    // is inspected
    let palette = vec![204, 10];
    let result = classify_alphas(&palette).unwrap();
    assert_eq!(result, vec![0]);
}

#[test]
fn multiple_background_entries_in_order() {
    let palette = vec![255, 0, 0, 0, 0, 0, 210, 0, 0, 204, 0, 0];
    let result = classify_alphas(&palette).unwrap();
    assert_eq!(result, vec![0, 2, 3]);
}

#[test]
fn background_index_beyond_byte_range_is_an_error() {
    // 257 entries; the last background-eligible entry has index 256
    let mut palette = vec![0u8; 257 * 3];
    palette[256 * 3] = 255;
    let result = classify_alphas(&palette);
    assert_eq!(result, Err(PaletteError::IndexOutOfByteRange));
}

#[test]
fn oversize_palette_without_high_entries_succeeds() {
    // indices past 255 exist but none is background-eligible
    let mut palette = vec![0u8; 257 * 3];
    palette[0] = 255;
    let result = classify_alphas(&palette).unwrap();
    assert_eq!(result, vec![0]);
}
