use synthesizer_io::phase::{table_index, wrap_base, N_TABLE};

#[test]
fn table_index_wraps_the_truncated_phase() {
    assert_eq!(N_TABLE, 1024);
    assert_eq!(table_index(0), 0);
    assert_eq!(table_index(1023), 1023);
    assert_eq!(table_index(1024), 0);
    assert_eq!(table_index(1500), 476);
}

#[test]
fn wrap_base_masks_whole_periods() {
    assert_eq!(wrap_base(0), 0);
    assert_eq!(wrap_base(1023), 0);
    assert_eq!(wrap_base(1500), 1024);
    assert_eq!(wrap_base(2048), 2048);
    assert_eq!(wrap_base(i32::MAX), i32::MAX - 1023);
}
