use platform::request::Request;
use platform::worker::{pool_size, receive, worker_count, Action};

#[test]
fn failed_read_drops_the_connection() {
    let mut request = Request::new();
    assert_eq!(request.append(b"PING"), Ok(()));
    assert_eq!(receive(&mut request, None), Action::Drop);
    assert_eq!(request.string(), "PING");
}

#[test]
fn closed_peer_drops_the_connection() {
    let mut request = Request::new();
    assert_eq!(receive(&mut request, Some(b"")), Action::Drop);
    assert_eq!(request.size(), 0);
}

#[test]
fn unfinished_line_reads_on() {
    let mut request = Request::new();
    assert_eq!(receive(&mut request, Some(b"PING a")), Action::Read);
    assert_eq!(receive(&mut request, Some(b"bc\r")), Action::Read);
    assert_eq!(request.string(), "PING abc\r");
}

#[test]
fn finished_line_is_dispatched() {
    let mut request = Request::new();
    assert_eq!(receive(&mut request, Some(b"PING a")), Action::Read);
    assert_eq!(receive(&mut request, Some(b"bc\r\n")), Action::Dispatch);
    let messages = request.messages();
    assert_eq!(messages.len(), 1);
    assert_eq!(messages[0].command(), "PING");
}

#[test]
fn terminator_alone_is_no_line() {
    let mut request = Request::new();
    assert_eq!(receive(&mut request, Some(b"\r\n")), Action::Read);
    assert_eq!(receive(&mut request, Some(b"\r\n")), Action::Dispatch);
    assert!(request.messages().is_empty());
}

#[test]
fn full_buffer_without_terminator_drops_the_connection() {
    let mut request = Request::new();
    assert_eq!(receive(&mut request, Some(&[b'a'; 511])), Action::Read);
    assert_eq!(receive(&mut request, Some(b"b")), Action::Drop);
    assert_eq!(request.size(), 512);
}

#[test]
fn full_buffer_with_terminator_is_dispatched() {
    let mut request = Request::new();
    assert_eq!(receive(&mut request, Some(&[b'a'; 510])), Action::Read);
    assert_eq!(receive(&mut request, Some(b"\r\n")), Action::Dispatch);
}

#[test]
fn bytes_that_do_not_fit_drop_the_connection_and_are_not_taken() {
    let mut request = Request::new();
    assert_eq!(receive(&mut request, Some(&[b'a'; 510])), Action::Read);
    assert_eq!(receive(&mut request, Some(b"b\r\n")), Action::Drop);
    assert_eq!(request.size(), 510);
}

#[test]
fn pool_has_one_worker_for_each_cpu_and_never_none() {
    assert_eq!(pool_size(0), 1);
    assert_eq!(pool_size(1), 1);
    assert_eq!(pool_size(8), 8);
    assert_eq!(pool_size(usize::MAX), usize::MAX);
}

#[test]
fn worker_count_is_at_least_one() {
    assert!(worker_count() >= 1);
    assert_eq!(worker_count(), pool_size(num_cpus::get()));
}
