use blog_os::task::keyboard::{add_scancode, ScancodeOutcome, ScancodeStream};

#[test]
fn scancodes_come_out_in_the_order_they_went_in() {
    let mut stream = ScancodeStream::new();
    assert_eq!(stream.poll_next(), None);
    assert_eq!(stream.push(0x1e), ScancodeOutcome::Queued);
    assert_eq!(stream.push(0x9e), ScancodeOutcome::Queued);
    assert_eq!(stream.push(0x30), ScancodeOutcome::Queued);
    assert_eq!(stream.poll_next(), Some(0x1e));
    assert_eq!(stream.poll_next(), Some(0x9e));
    assert_eq!(stream.poll_next(), Some(0x30));
    assert_eq!(stream.poll_next(), None);
}

#[test]
fn full_queue_drops_the_scancode() {
    let mut stream = ScancodeStream::new();
    for n in 0..100u8 {
        assert_eq!(stream.push(n), ScancodeOutcome::Queued);
    }
    assert_eq!(stream.push(200), ScancodeOutcome::QueueFull);
    assert_eq!(stream.poll_next(), Some(0));
    assert_eq!(stream.push(201), ScancodeOutcome::Queued);
    for n in 1..100u8 {
        assert_eq!(stream.poll_next(), Some(n));
    }
    assert_eq!(stream.poll_next(), Some(201));
    assert_eq!(stream.poll_next(), None);
}

#[test]
fn scancode_without_a_stream_is_reported() {
    let mut stream = None;
    assert_eq!(add_scancode(&mut stream, 0x1e), ScancodeOutcome::Uninitialized);
    assert!(stream.is_none());
}

#[test]
fn scancode_reaches_the_stream() {
    let mut stream = Some(ScancodeStream::new());
    assert_eq!(add_scancode(&mut stream, 0x1e), ScancodeOutcome::Queued);
    assert_eq!(add_scancode(&mut stream, 0x1f), ScancodeOutcome::Queued);
    let mut stream = stream.unwrap();
    assert_eq!(stream.poll_next(), Some(0x1e));
    assert_eq!(stream.poll_next(), Some(0x1f));
}
