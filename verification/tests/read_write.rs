use rust_poker::read_write::{unpacked_len, UnpackError};

#[test]
fn unpacked_len_counts_whole_values() {
    assert_eq!(unpacked_len(Some(16), 4), Ok(4));
    assert_eq!(unpacked_len(Some(0), 8), Ok(0));
    assert_eq!(unpacked_len(Some(10), 2), Ok(5));
}

#[test]
fn unpacked_len_rejects_non_multiple() {
    assert_eq!(unpacked_len(Some(3), 4), Err(UnpackError::NotMultiple));
}

#[test]
fn unpacked_len_reports_missing_bytes() {
    assert_eq!(unpacked_len(None, 4), Err(UnpackError::NotFound));
}
