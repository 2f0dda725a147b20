use dispatch_core::stream::{Backtrace, Pulled, Stream};
use dispatch_core::Error;

#[test]
fn peek_needs_input_then_ready() {
    let mut s = Stream::new();
    assert!(matches!(s.lookup_next_one(), Ok(Pulled::NeedInput)));
    s.feed(b"hi");
    assert!(matches!(s.lookup_next_one(), Ok(Pulled::Ready(b'h'))));
    // peeking does not consume
    assert!(matches!(s.lookup_next_one(), Ok(Pulled::Ready(b'h'))));
    assert_eq!(s.count_clone(), 0);
}

#[test]
fn take_consumes_in_order() {
    let mut s = Stream::new();
    s.feed(b"hi");
    assert!(matches!(s.take_next_one(), Ok(Pulled::Ready(b'h'))));
    assert!(matches!(s.take_next_one(), Ok(Pulled::Ready(b'i'))));
    assert_eq!(s.count_clone(), 2);
    assert!(matches!(s.take_next_one(), Ok(Pulled::NeedInput)));
    s.close();
    assert_eq!(s.take_next_one(), Err(Error::ConnectionClosed));
}

#[test]
fn peek_on_closed_empty_stream_fails() {
    let mut s = Stream::new();
    s.close();
    assert_eq!(s.lookup_next_one(), Err(Error::ConnectionClosed));
}

#[test]
fn skip_within_backlog() {
    let mut s = Stream::new();
    s.feed(b"abcd");
    assert_eq!(s.skip_next_n(2), Ok(()));
    assert!(matches!(s.lookup_next_one(), Ok(Pulled::Ready(b'c'))));
    assert_eq!(s.count_clone(), 2);
    assert_eq!(s.skip_next_one(), Ok(()));
    assert_eq!(s.count_clone(), 3);
}

#[test]
fn skip_past_backlog_is_insufficient_buffer() {
    let mut s = Stream::new();
    s.feed(b"ab");
    assert_eq!(s.skip_next_n(3), Err(Error::InsufficientBuffer));
    // the failed skip consumed nothing
    assert!(matches!(s.lookup_next_one(), Ok(Pulled::Ready(b'a'))));
    assert_eq!(s.count_clone(), 0);
}

#[test]
fn drain_returns_front_bytes() {
    let mut s = Stream::new();
    s.feed(b"abcd");
    let v = s.take_n_vec(3).unwrap();
    assert_eq!(v, b"abc".to_vec());
    assert!(matches!(s.lookup_next_one(), Ok(Pulled::Ready(b'd'))));
    assert_eq!(s.count_clone(), 3);
    assert_eq!(s.take_n_vec(2), Err(Error::InsufficientBuffer));
}

#[test]
fn whitespace_is_skipped_and_eos_swallowed() {
    let mut s = Stream::new();
    s.feed(b"   x");
    assert!(matches!(s.skip_white_space(), Pulled::Ready(())));
    assert!(matches!(s.lookup_next_one(), Ok(Pulled::Ready(b'x'))));
    assert_eq!(s.count_clone(), 3);

    let mut open = Stream::new();
    assert!(matches!(open.skip_white_space(), Pulled::NeedInput));

    let mut closed = Stream::new();
    closed.feed(b"  ");
    closed.close();
    // end of stream ends the scan without an error
    assert!(matches!(closed.skip_white_space(), Pulled::Ready(())));
}

#[test]
fn read_exact_twice_from_one_chunk() {
    let mut s = Stream::new();
    // a single network chunk larger than two reads' worth
    s.feed(b"abcdefgh");
    let first = match s.read(3) {
        Ok(Pulled::Ready(v)) => v,
        other => panic!("first read failed: {:?}", other.is_ok()),
    };
    assert_eq!(first, b"abc".to_vec());
    // the second read is satisfied from the backlog, no new input needed
    let second = match s.read(3) {
        Ok(Pulled::Ready(v)) => v,
        other => panic!("second read failed: {:?}", other.is_ok()),
    };
    assert_eq!(second, b"def".to_vec());
    assert!(matches!(s.lookup_next_one(), Ok(Pulled::Ready(b'g'))));
    // read bypasses the consumption count
    assert_eq!(s.count_clone(), 0);
}

#[test]
fn read_exact_waits_and_fails_when_closed() {
    let mut s = Stream::new();
    s.feed(b"ab");
    assert!(matches!(s.read(3), Ok(Pulled::NeedInput)));
    // nothing was consumed while waiting
    assert!(matches!(s.lookup_next_one(), Ok(Pulled::Ready(b'a'))));
    s.close();
    assert_eq!(s.read(3), Err(Error::ConnectionClosed));
}

#[test]
fn reset_count_clears_accounting() {
    let mut s = Stream::new();
    s.feed(b"abc");
    s.skip_next_n(2).unwrap();
    assert_eq!(*s.count_ref(), 2);
    s.reset_count();
    assert_eq!(s.count_clone(), 0);
}

#[test]
fn backtrace_discard_leaves_stream_untouched() {
    let mut s = Stream::new();
    s.feed(b"hello");
    {
        let mut bt: Backtrace = s.create_backtrace();
        assert!(matches!(bt.take_next_one(&s), Ok(Pulled::Ready(b'h'))));
        assert!(matches!(bt.take_next_one(&s), Ok(Pulled::Ready(b'e'))));
        assert_eq!(bt.rollback(), 2);
        // dropped without commit
    }
    assert!(matches!(s.lookup_next_one(), Ok(Pulled::Ready(b'h'))));
    assert!(matches!(s.take_next_one(), Ok(Pulled::Ready(b'h'))));
    assert_eq!(s.count_clone(), 1);
}

#[test]
fn backtrace_commit_consumes_the_prefix() {
    let mut s = Stream::new();
    s.feed(b"hello");
    let mut bt = s.create_backtrace();
    assert!(matches!(bt.take_next_one(&s), Ok(Pulled::Ready(b'h'))));
    bt.skip_next_one();
    assert_eq!(bt.commit(&mut s), Ok(()));
    assert!(matches!(s.lookup_next_one(), Ok(Pulled::Ready(b'l'))));
    assert_eq!(s.count_clone(), 2);
}

#[test]
fn backtrace_peek_and_needs_input() {
    let mut s = Stream::new();
    s.feed(b"a");
    let mut bt = s.create_backtrace();
    assert!(matches!(bt.lookup_next_one(&s), Ok(Pulled::Ready(b'a'))));
    assert!(matches!(bt.take_next_one(&s), Ok(Pulled::Ready(b'a'))));
    assert!(matches!(bt.lookup_next_one(&s), Ok(Pulled::NeedInput)));
    s.close();
    assert_eq!(bt.lookup_next_one(&s), Err(Error::ConnectionClosed));
}

#[test]
fn backtrace_drains_committed_bytes() {
    let mut s = Stream::new();
    s.feed(b"hello");
    let mut bt = s.create_backtrace();
    bt.skip_next_n(3);
    let v = bt.take_all_vec(&mut s).unwrap();
    assert_eq!(v, b"hel".to_vec());
    assert!(matches!(s.lookup_next_one(), Ok(Pulled::Ready(b'l'))));
    // draining through the cursor bypasses the count
    assert_eq!(s.count_clone(), 0);
}

#[test]
fn backtrace_commit_past_backlog_fails() {
    let mut s = Stream::new();
    s.feed(b"ab");
    let mut bt = s.create_backtrace();
    bt.skip_next_n(5);
    assert_eq!(bt.commit(&mut s), Err(Error::InsufficientBuffer));
    assert!(matches!(s.lookup_next_one(), Ok(Pulled::Ready(b'a'))));
}

#[test]
fn whitespace_run_exhausting_an_open_backlog_asks_for_more() {
    let mut s = Stream::new();
    s.feed(b"  ");
    // all spaces so far, the next byte could be another one
    assert!(matches!(s.skip_white_space(), Pulled::NeedInput));
    assert_eq!(s.count_clone(), 2);
    s.feed(b" x");
    assert!(matches!(s.skip_white_space(), Pulled::Ready(())));
    assert!(matches!(s.lookup_next_one(), Ok(Pulled::Ready(b'x'))));
    assert_eq!(s.count_clone(), 3);
}
