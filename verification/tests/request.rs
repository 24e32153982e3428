use platform::message::Message;
use platform::reply::Reply;
use platform::request::Request;
use platform::BUFFER_SIZE;
use std::io::ErrorKind;

fn filled(bytes: &[u8]) -> Request {
    let mut request = Request::new();
    request.data()[..bytes.len()].copy_from_slice(bytes);
    request
}

fn commands(messages: &Vec<Message>) -> Vec<String> {
    messages.iter().map(|m| m.command().clone()).collect()
}

#[test]
fn new_request_is_empty() {
    let mut request = Request::new();
    assert_eq!(request.size(), 0);
    assert_eq!(request.string(), "");
    assert!(!request.valid());
    assert!(request.messages().is_empty());
    assert!(request.data().iter().all(|b| *b == 0));
    assert_eq!(request.data().len(), BUFFER_SIZE);
}

#[test]
fn size_is_offset_of_first_zero_byte() {
    let mut request = filled(b"abc\0def");
    assert_eq!(request.size(), 3);
    assert_eq!(request.string(), "abc");
}

#[test]
fn size_of_full_buffer_is_capacity() {
    let mut request = filled(&[b'a'; BUFFER_SIZE]);
    assert_eq!(request.size(), 512);
    assert!(!request.valid());
}

#[test]
fn size_follows_the_buffer_after_it_was_written() {
    let mut request = filled(b"PING");
    assert_eq!(request.size(), 4);
    assert!(!request.valid());
    request.data()[4..9].copy_from_slice(b" abc\r");
    assert_eq!(request.size(), 9);
    request.data()[9] = b'\n';
    assert_eq!(request.size(), 10);
    assert!(request.valid());
    assert_eq!(request.string(), "PING abc\r\n");
}

#[test]
fn valid_is_false_for_empty_and_short_buffers() {
    assert!(!filled(b"").valid());
    assert!(!filled(b"a").valid());
    assert!(!filled(b"\n").valid());
    assert!(!filled(b"ab").valid());
    assert!(!filled(b"\r\n").valid());
}

#[test]
fn valid_needs_cr_lf_at_the_end() {
    assert!(filled(b"a\r\n").valid());
    assert!(filled(b"PING abc\r\n").valid());
    assert!(!filled(b"abc").valid());
    assert!(!filled(b"PING abc\r").valid());
    assert!(!filled(b"PING abc\n").valid());
    assert!(!filled(b"PING abc\n\r").valid());
    assert!(!filled(b"PING abc\r\nx").valid());
}

#[test]
fn valid_looks_only_at_what_stands_before_the_first_zero() {
    assert!(!filled(b"ab\0PING\r\n").valid());
    assert!(filled(b"a\r\n\0garbage").valid());
}

#[test]
fn string_is_empty_where_bytes_are_not_utf8() {
    let mut request = filled(&[b'a', 0xff, b'b', b'\r', b'\n']);
    assert_eq!(request.size(), 5);
    assert!(request.valid());
    assert_eq!(request.string(), "");
    assert!(request.messages().is_empty());
}

#[test]
fn string_decodes_utf8() {
    let mut request = filled("grüße ☃\r\n".as_bytes());
    assert_eq!(request.size(), 13);
    assert_eq!(request.string(), "grüße ☃\r\n");
}

#[test]
fn messages_are_the_lines_that_are_not_empty() {
    let mut request = filled(b"NICK alice\r\n\r\nUSER a b c :Alice A\r\nPING");
    let messages = request.messages();
    assert_eq!(commands(messages), vec!["NICK", "USER", "PING"]);
    assert_eq!(messages[0].parameters(), &vec!["alice".to_string()]);
    assert_eq!(
        messages[1].parameters(),
        &vec!["a".to_string(), "b".to_string(), "c".to_string(), "Alice A".to_string()]
    );
    assert!(messages[2].parameters().is_empty());
}

#[test]
fn messages_split_only_at_cr_lf_together() {
    let mut request = filled(b"A x\ry\r\r\nB\nz\r\n");
    let messages = request.messages();
    assert_eq!(commands(messages), vec!["A", "B\nz"]);
    assert_eq!(messages[0].parameters(), &vec!["x\ry\r".to_string()]);
}

#[test]
fn messages_are_found_again_after_the_buffer_changed() {
    let mut request = filled(b"A\r\n");
    assert_eq!(commands(request.messages()), vec!["A"]);
    assert_eq!(commands(request.messages()), vec!["A"]);
    request.data()[..6].copy_from_slice(b"B\r\nC\r\n");
    assert_eq!(commands(request.messages()), vec!["B", "C"]);
}

#[test]
fn clear_data_empties_everything() {
    let mut request = filled(b"A\r\nB\r\n");
    assert_eq!(request.size(), 6);
    assert_eq!(request.messages().len(), 2);
    request.clear_data();
    assert_eq!(request.size(), 0);
    assert_eq!(request.string(), "");
    assert!(!request.valid());
    assert!(request.messages().is_empty());
    assert!(request.data().iter().all(|b| *b == 0));
}

#[test]
fn append_writes_behind_what_counts() {
    let mut request = Request::new();
    assert_eq!(request.append(b"PING"), Ok(()));
    assert_eq!(request.size(), 4);
    assert!(!request.valid());
    assert!(request.messages().len() == 1);
    assert_eq!(request.append(b" abc\r\n"), Ok(()));
    assert_eq!(request.size(), 10);
    assert!(request.valid());
    assert_eq!(request.string(), "PING abc\r\n");
    let messages = request.messages();
    assert_eq!(messages.len(), 1);
    assert_eq!(messages[0].command(), "PING");
    assert_eq!(messages[0].parameters(), &vec!["abc".to_string()]);
}

#[test]
fn append_overwrites_what_stood_behind_the_first_zero() {
    let mut request = filled(b"ab\0XYZ");
    assert_eq!(request.append(b"c"), Ok(()));
    assert_eq!(&request.data()[..6], b"abcXYZ");
    assert_eq!(request.size(), 6);
}

#[test]
fn append_of_nothing_changes_nothing() {
    let mut request = filled(b"abc");
    assert_eq!(request.append(b""), Ok(()));
    assert_eq!(request.size(), 3);
    assert_eq!(request.string(), "abc");
}

#[test]
fn append_up_to_capacity_and_not_beyond() {
    let mut request = Request::new();
    assert_eq!(request.append(&[b'a'; 500]), Ok(()));
    assert_eq!(request.append(&[b'b'; 13]), Err(ErrorKind::InvalidData));
    assert_eq!(request.size(), 500);
    assert!(request.data()[500..].iter().all(|b| *b == 0));
    assert_eq!(request.append(&[b'b'; 12]), Ok(()));
    assert_eq!(request.size(), 512);
    assert_eq!(request.append(b"c"), Err(ErrorKind::InvalidData));
    assert_eq!(request.append(b""), Ok(()));
    assert_eq!(request.string(), format!("{}{}", "a".repeat(500), "b".repeat(12)));
}

#[test]
fn what_a_reply_sends_a_request_reads_back() {
    let mut reply = Reply::new();
    let mut sent = Vec::new();
    for i in 0..20 {
        let mut m = Message::new();
        m.set_prefix("relay.example.org");
        m.set_command("PRIVMSG");
        m.add_parameter(&format!("#room{}", i));
        m.add_parameter("");
        m.add_parameter(&format!("message number {} with some words to fill the line", i));
        sent.push((m.prefix().clone(), m.command().clone(), m.parameters().clone()));
        reply.add_message(m);
    }
    let frames = reply.strings().unwrap();
    assert!(frames.len() > 1);
    let mut read = Vec::new();
    let mut request = Request::new();
    for frame in &frames {
        request.clear_data();
        assert_eq!(request.append(frame.as_bytes()), Ok(()));
        assert!(request.valid());
        for m in request.messages() {
            read.push((m.prefix().clone(), m.command().clone(), m.parameters().clone()));
        }
    }
    assert_eq!(read, sent);
}
