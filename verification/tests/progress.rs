use nano_downloader::progress::Progress;

#[test]
fn starts_at_zero() {
    let p = Progress::new(4);
    assert_eq!(p.parts(), 4);
    assert_eq!(p.downloaded(), 0);
    assert_eq!(p.received(3), 0);
}

#[test]
fn records_add_up() {
    let mut p = Progress::new(3);
    p.record(0, 100);
    p.record(2, 50);
    p.record(0, 25);
    assert_eq!(p.received(0), 125);
    assert_eq!(p.received(1), 0);
    assert_eq!(p.received(2), 50);
    assert_eq!(p.downloaded(), 175);
}
