//! The window of StuffIt method 13.
use compcol::error::Error;
use compcol::sit13::window::{emit_literal, emit_match, WINDOW_SIZE};

#[test]
fn literal_then_match() {
    let mut out = vec![];
    for &b in b"hello" {
        emit_literal(&mut out, b);
    }
    emit_match(&mut out, 5, 5).unwrap();
    assert_eq!(&out, b"hellohello");
}

#[test]
fn overlap_run() {
    let mut out = vec![];
    emit_literal(&mut out, b'A');
    emit_match(&mut out, 1, 8).unwrap();
    assert_eq!(&out, b"AAAAAAAAA");
}

#[test]
fn overlap_two_byte_period() {
    let mut out = vec![];
    emit_literal(&mut out, b'A');
    emit_literal(&mut out, b'B');
    emit_match(&mut out, 2, 6).unwrap();
    assert_eq!(&out, b"ABABABAB");
}

#[test]
fn rejects_zero_distance() {
    let mut out = vec![1u8];
    assert_eq!(emit_match(&mut out, 0, 1), Err(Error::InvalidDistance));
}

#[test]
fn rejects_distance_before_start() {
    let mut out = vec![1u8];
    assert_eq!(emit_match(&mut out, 2, 1), Err(Error::InvalidDistance));
}

#[test]
fn rejects_distance_over_window() {
    let mut out = vec![0u8; WINDOW_SIZE + 10];
    assert_eq!(
        emit_match(&mut out, WINDOW_SIZE + 1, 1),
        Err(Error::InvalidDistance)
    );
}
