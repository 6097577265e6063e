use cache_recovery::io_policy::{
    body_read_window, classify_read_error, executable_mode_fix, lock_retry_step, ReadErrorKind, RetryDecision,
};

#[test]
fn read_error_kinds() {
    assert_eq!(classify_read_error(Some(1)), ReadErrorKind::AccessDenied);
    assert_eq!(classify_read_error(Some(13)), ReadErrorKind::LockConflict);
    assert_eq!(classify_read_error(Some(2)), ReadErrorKind::Other);
    assert_eq!(classify_read_error(None), ReadErrorKind::Other);
}

#[test]
fn lock_conflicts_retry_five_times() {
    assert_eq!(lock_retry_step(0, Some(13)), RetryDecision::Retry { delay_ms: 100 });
    assert_eq!(lock_retry_step(4, Some(13)), RetryDecision::Retry { delay_ms: 500 });
    assert_eq!(lock_retry_step(5, Some(13)), RetryDecision::GiveUp);
    assert_eq!(lock_retry_step(0, Some(1)), RetryDecision::GiveUp);
    assert_eq!(lock_retry_step(0, None), RetryDecision::GiveUp);
}

#[test]
fn header_read_window() {
    let mut head = Vec::new();
    head.extend_from_slice(&0xfcfb6d1ba7725c30u64.to_le_bytes());
    head.extend_from_slice(&1u32.to_le_bytes());
    head.extend_from_slice(&40u32.to_le_bytes());
    head.extend_from_slice(&[0u8; 8]);
    assert_eq!(body_read_window(&head, 100), (64, 100));
    assert_eq!(body_read_window(&head, 10_000), (64, 4096));
    assert_eq!(body_read_window(&head[0..20], 16), (0, 16));
    assert_eq!(body_read_window(&[0u8; 24], 16), (0, 16));
}

#[test]
fn sidecar_modes() {
    assert_eq!(executable_mode_fix(0o100644), Some(0o100755));
    assert_eq!(executable_mode_fix(0o100755), None);
    assert_eq!(executable_mode_fix(0o100700), None);
}
