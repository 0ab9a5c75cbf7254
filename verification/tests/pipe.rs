use futures_util::task::noop_waker;
use std::sync::atomic::{AtomicUsize, Ordering};
use std::sync::Arc;
use std::task::{Wake, Waker};
use localsend_relay::pipe::{PipeShared, ReadOutcome, WriteOutcome, PIPE_BUFFER};

fn data(r: ReadOutcome) -> Vec<u8> {
    match r {
        ReadOutcome::Data(v) => v,
        other => panic!("expected data, got {:?}", other),
    }
}

#[test]
fn test_pipe_relays_bytes_both_directions() {
    let waker = noop_waker();
    let mut pipe = PipeShared::new();

    assert_eq!(pipe.push(&waker, b"ping"), WriteOutcome::Written(4));
    let from_peer = data(pipe.poll_read(&waker, 8192));
    assert_eq!(from_peer, b"ping", "inbound bytes must reach the HTTP side");

    assert_eq!(pipe.poll_write(&waker, b"pong"), WriteOutcome::Written(4));
    let to_peer = data(pipe.poll_read_outbound(&waker, 8192));
    assert_eq!(to_peer, b"pong", "HTTP bytes must reach the outbound side");
}

#[test]
fn test_pipe_inbound_close_surfaces_eof_after_data() {
    let waker = noop_waker();
    let mut pipe = PipeShared::new();

    assert_eq!(pipe.push(&waker, b"hello"), WriteOutcome::Written(5));
    let buf = data(pipe.poll_read(&waker, 8192));
    assert_eq!(buf, b"hello");

    pipe.close();
    let eof = pipe.poll_read(&waker, 1);
    assert!(
        matches!(eof, ReadOutcome::Eof),
        "closing the inbound side must surface EOF to a read"
    );
}

#[test]
fn test_pipe_write_after_shutdown_errors() {
    let waker = noop_waker();
    let mut pipe = PipeShared::new();
    pipe.poll_shutdown(&waker);
    assert!(
        pipe.poll_write(&waker, b"late") == WriteOutcome::Closed,
        "writing after shutdown must fail"
    );
}

#[test]
fn pipe_read_waits_when_empty_and_open() {
    let waker = noop_waker();
    let mut pipe = PipeShared::new();
    assert!(matches!(pipe.poll_read(&waker, 10), ReadOutcome::Pending));
    assert!(matches!(pipe.poll_read_outbound(&waker, 10), ReadOutcome::Pending));
}

#[test]
fn pipe_read_takes_at_most_remaining() {
    let waker = noop_waker();
    let mut pipe = PipeShared::new();
    assert_eq!(pipe.push(&waker, b"abcdef"), WriteOutcome::Written(6));
    assert_eq!(data(pipe.poll_read(&waker, 4)), b"abcd");
    assert_eq!(data(pipe.poll_read(&waker, 4)), b"ef");
    pipe.close();
    assert!(matches!(pipe.poll_read(&waker, 4), ReadOutcome::Eof));
}

#[test]
fn pipe_data_before_eof_is_still_read() {
    let waker = noop_waker();
    let mut pipe = PipeShared::new();
    assert_eq!(pipe.push(&waker, b"last"), WriteOutcome::Written(4));
    pipe.close();
    assert_eq!(data(pipe.poll_read(&waker, 100)), b"last");
    assert!(matches!(pipe.poll_read(&waker, 100), ReadOutcome::Eof));
}

#[test]
fn pipe_write_backpressure_at_buffer_limit() {
    let waker = noop_waker();
    let mut pipe = PipeShared::new();
    let big = vec![7u8; PIPE_BUFFER];
    assert_eq!(pipe.poll_write(&waker, &big), WriteOutcome::Written(PIPE_BUFFER));
    assert_eq!(pipe.poll_write(&waker, b"x"), WriteOutcome::Pending);
    let got = data(pipe.poll_read_outbound(&waker, 10));
    assert_eq!(got.len(), 10);
    assert_eq!(pipe.poll_write(&waker, b"x"), WriteOutcome::Written(1));
}

#[test]
fn pipe_shutdown_surfaces_eof_to_sender_after_data() {
    let waker = noop_waker();
    let mut pipe = PipeShared::new();
    assert_eq!(pipe.poll_write(&waker, b"bye"), WriteOutcome::Written(3));
    pipe.poll_shutdown(&waker);
    assert_eq!(data(pipe.poll_read_outbound(&waker, 100)), b"bye");
    assert!(matches!(pipe.poll_read_outbound(&waker, 100), ReadOutcome::Eof));
}

#[test]
fn pipe_write_larger_than_buffer_is_taken_in_part() {
    let waker = noop_waker();
    let mut pipe = PipeShared::new();
    let big = vec![1u8; PIPE_BUFFER + 5];
    assert_eq!(pipe.poll_write(&waker, &big), WriteOutcome::Written(PIPE_BUFFER));
    assert_eq!(pipe.poll_write(&waker, &big[PIPE_BUFFER..]), WriteOutcome::Pending);
    assert_eq!(data(pipe.poll_read_outbound(&waker, 3)).len(), 3);
    assert_eq!(pipe.poll_write(&waker, &big[PIPE_BUFFER..]), WriteOutcome::Pending);
    assert_eq!(data(pipe.poll_read_outbound(&waker, 2)).len(), 2);
    assert_eq!(pipe.poll_write(&waker, &big[PIPE_BUFFER..]), WriteOutcome::Written(5));
    assert_eq!(pipe.poll_write(&waker, b""), WriteOutcome::Written(0));
}

#[test]
fn pipe_inbound_is_bounded_by_buffer() {
    let waker = noop_waker();
    let mut pipe = PipeShared::new();
    let mut big = vec![2u8; PIPE_BUFFER + 5];
    big[0] = 9;
    assert_eq!(pipe.push(&waker, &big), WriteOutcome::Written(PIPE_BUFFER));
    assert_eq!(pipe.push(&waker, b"more"), WriteOutcome::Pending);
    let got = data(pipe.poll_read(&waker, 2));
    assert_eq!(got, vec![9u8, 2u8]);
    assert_eq!(pipe.push(&waker, b"more"), WriteOutcome::Pending);
    assert_eq!(data(pipe.poll_read(&waker, 2)).len(), 2);
    assert_eq!(pipe.push(&waker, b"more"), WriteOutcome::Written(4));
    pipe.wake_inbound_writer();
    assert_eq!(pipe.push(&waker, b""), WriteOutcome::Written(0));
}

#[test]
fn pipe_keeps_order_across_interleaved_feeds_and_reads() {
    let waker = noop_waker();
    let mut pipe = PipeShared::new();
    let mut read = Vec::new();
    assert_eq!(pipe.push(&waker, b"abc"), WriteOutcome::Written(3));
    read.extend(data(pipe.poll_read(&waker, 2)));
    assert_eq!(pipe.push(&waker, b"de"), WriteOutcome::Written(2));
    read.extend(data(pipe.poll_read(&waker, 2)));
    assert_eq!(pipe.push(&waker, b"f"), WriteOutcome::Written(1));
    pipe.close();
    read.extend(data(pipe.poll_read(&waker, 100)));
    assert!(matches!(pipe.poll_read(&waker, 100), ReadOutcome::Eof));
    assert_eq!(read, b"abcdef");
}

#[test]
fn pipe_write_that_fits_is_taken_whole_or_not_at_all() {
    let waker = noop_waker();
    let mut pipe = PipeShared::new();
    assert_eq!(pipe.poll_write(&waker, &vec![0u8; 100]), WriteOutcome::Written(100));
    assert_eq!(pipe.poll_write(&waker, &vec![1u8; PIPE_BUFFER]), WriteOutcome::Pending);
    assert_eq!(pipe.poll_write(&waker, &vec![1u8; PIPE_BUFFER - 100]), WriteOutcome::Written(PIPE_BUFFER - 100));
    assert_eq!(data(pipe.poll_read_outbound(&waker, PIPE_BUFFER)).len(), PIPE_BUFFER);
    assert_eq!(pipe.poll_write(&waker, &vec![0u8; 100]), WriteOutcome::Written(100));
    assert_eq!(pipe.poll_write(&waker, &vec![2u8; PIPE_BUFFER + 1]), WriteOutcome::Written(PIPE_BUFFER - 100));
}

struct CountingWaker(AtomicUsize);

impl Wake for CountingWaker {
    fn wake(self: Arc<Self>) {
        self.0.fetch_add(1, Ordering::SeqCst);
    }
}

#[test]
fn empty_push_and_write_still_wake_the_reader() {
    let counter = Arc::new(CountingWaker(AtomicUsize::new(0)));
    let waker = Waker::from(counter.clone());
    let mut pipe = PipeShared::new();
    assert!(matches!(pipe.poll_read(&waker, 10), ReadOutcome::Pending));
    assert_eq!(pipe.push(&waker, b""), WriteOutcome::Written(0));
    assert_eq!(counter.0.load(Ordering::SeqCst), 1);
    assert!(matches!(pipe.poll_read_outbound(&waker, 10), ReadOutcome::Pending));
    assert_eq!(pipe.poll_write(&waker, b""), WriteOutcome::Written(0));
    assert_eq!(counter.0.load(Ordering::SeqCst), 2);
    assert_eq!(pipe.push(&waker, b""), WriteOutcome::Written(0));
    assert_eq!(counter.0.load(Ordering::SeqCst), 2);
}

#[test]
fn a_read_that_frees_space_wakes_the_held_back_writer() {
    let counter = Arc::new(CountingWaker(AtomicUsize::new(0)));
    let waker = Waker::from(counter.clone());
    let mut pipe = PipeShared::new();
    assert_eq!(pipe.poll_write(&waker, &vec![0u8; PIPE_BUFFER]), WriteOutcome::Written(PIPE_BUFFER));
    assert_eq!(pipe.poll_write(&waker, b"x"), WriteOutcome::Pending);
    assert_eq!(counter.0.load(Ordering::SeqCst), 0);
    assert_eq!(data(pipe.poll_read_outbound(&waker, 1)).len(), 1);
    assert_eq!(counter.0.load(Ordering::SeqCst), 1);
    assert_eq!(pipe.poll_write(&waker, b"x"), WriteOutcome::Written(1));
}
