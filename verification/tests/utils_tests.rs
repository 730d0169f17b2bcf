use std::io::{Cursor, Seek, SeekFrom, Write};

use mammut_fft_lib::utils::{deinterleave_samples, interleave_channels, SharedWriter};

#[test]
fn shared_writer_hands_back_what_was_written() {
    let writer = SharedWriter::new(Cursor::new(Vec::new()));
    let handle = writer.clone_ref();
    let mut w = writer;
    assert_eq!(w.write(b"abc").unwrap(), 3);
    w.flush().unwrap();
    assert_eq!(w.seek(SeekFrom::Start(1)).unwrap(), 1);
    assert_eq!(w.write(b"Z").unwrap(), 1);
    let inner = handle.take_writer().unwrap();
    assert_eq!(inner.into_inner(), b"aZc".to_vec());
}

#[test]
fn shared_writer_after_take() {
    let writer = SharedWriter::new(Cursor::new(Vec::<u8>::new()));
    let handle = writer.clone_ref();
    let second = writer.clone_ref();
    assert!(handle.take_writer().is_some());
    assert!(second.take_writer().is_none());
    let mut w = writer;
    let err = w.write(b"x").unwrap_err();
    assert_eq!(err.to_string(), "Writer already taken");
    assert!(w.flush().is_err());
    assert!(w.seek(SeekFrom::Start(0)).is_err());
}

#[test]
fn interleave_puts_frames_in_channel_order() {
    let channels = vec![vec![1, 2, 3], vec![10, 20, 30]];
    assert_eq!(interleave_channels(&channels), vec![1, 10, 2, 20, 3, 30]);
    assert_eq!(interleave_channels(&vec![vec![7.5f64, 8.5]]), vec![7.5, 8.5]);
}

#[test]
fn deinterleave_splits_frames() {
    let buffer = vec![1, 10, 2, 20, 3, 30, 4];
    // The trailing incomplete frame is dropped.
    assert_eq!(deinterleave_samples(&buffer, 2), vec![vec![1, 2, 3], vec![10, 20, 30]]);
    assert_eq!(deinterleave_samples(&buffer, 1), vec![buffer.clone()]);
}

#[test]
fn deinterleave_undoes_interleave() {
    let channels = vec![vec![0.5f64, -0.25, 1.0, 0.0], vec![1.5, 2.5, 3.5, 4.5], vec![9.0; 4]];
    let buffer = interleave_channels(&channels);
    assert_eq!(deinterleave_samples(&buffer, 3), channels);
}
