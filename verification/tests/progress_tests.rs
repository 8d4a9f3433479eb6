use hyperfetch::progress::{SpeedWindow, SPEED_WINDOW_LEN};

#[test]
fn window_keeps_last_ten() {
    let mut w = SpeedWindow::new();
    assert_eq!(w.span(), None);
    for i in 0..25u64 {
        w.push_sample(i * 1000, i * 10);
        assert!(w.len() <= SPEED_WINDOW_LEN);
    }
    assert_eq!(w.len(), 10);
    // samples 15..=24 remain
    assert_eq!(w.span(), Some((9000, 90)));
}

#[test]
fn window_span_saturates() {
    let mut w = SpeedWindow::new();
    w.push_sample(100, 50);
    assert_eq!(w.span(), None);
    w.push_sample(50, 20);
    assert_eq!(w.span(), Some((0, 0)));
    w.clear();
    assert_eq!(w.len(), 0);
}
