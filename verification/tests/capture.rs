use drackpad::capture::{CaptureProgress, CaptureStep};

#[test]
fn capture_stops_at_the_limit() {
    let mut p = CaptureProgress::new(2);
    assert!(p.wants_frame());
    assert_eq!(p.on_read(true, false), CaptureStep::Process { frame: 0 });
    assert!(p.wants_frame());
    assert_eq!(p.on_read(true, false), CaptureStep::Process { frame: 1 });
    assert!(!p.wants_frame());
    assert_eq!(p.frames_done(), 2);
}

#[test]
fn capture_stops_when_the_stream_ends() {
    let mut p = CaptureProgress::new(30);
    assert_eq!(p.on_read(true, false), CaptureStep::Process { frame: 0 });
    assert_eq!(p.on_read(false, false), CaptureStep::StreamEnded { frames: 1 });
    assert_eq!(p.on_read(true, true), CaptureStep::StreamEnded { frames: 1 });
    assert_eq!(p.frames_done(), 1);
}

#[test]
fn capture_of_zero_frames_reads_nothing() {
    let p = CaptureProgress::new(0);
    assert!(!p.wants_frame());
}
