use nano_downloader::window::{control_after, LoopControl, WindowSignal};

#[test]
fn close_request_exits() {
    assert_eq!(control_after(WindowSignal::CloseRequested), LoopControl::Exit);
}

#[test]
fn other_events_wait() {
    assert_eq!(control_after(WindowSignal::Other), LoopControl::Wait);
}
