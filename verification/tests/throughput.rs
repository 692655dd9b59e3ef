use rgblast::throughput::{FrameCounter, REPORT_EVERY};

#[test]
fn new_counter_is_at_zero() {
    assert_eq!(FrameCounter::new().frames(), 0);
    assert_eq!(REPORT_EVERY, 30);
}

#[test]
fn report_is_due_every_thirtieth_frame() {
    let mut counter = FrameCounter::new();
    for n in 1..=95u128 {
        let due = counter.count_frame();
        assert_eq!(counter.frames(), n);
        assert_eq!(due, n == 30 || n == 60 || n == 90, "frame {}", n);
    }
}

#[test]
fn rate_in_tenths_of_a_frame_per_second() {
    let mut counter = FrameCounter::new();
    for _ in 0..30 {
        counter.count_frame();
    }
    assert_eq!(counter.rate_tenths(1000), 300);
    assert_eq!(counter.rate_tenths(500), 600);
    assert_eq!(counter.rate_tenths(1001), 299);
    assert_eq!(counter.rate_tenths(7), 42857);
    assert_eq!(counter.rate_tenths(400_000), 0);
}

#[test]
fn rate_of_no_frames_is_zero() {
    assert_eq!(FrameCounter::new().rate_tenths(1), 0);
}
