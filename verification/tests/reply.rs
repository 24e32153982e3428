use platform::message::Message;
use platform::reply::Reply;
use platform::BUFFER_SIZE;
use std::io::ErrorKind;

fn with_command(command: &str, parameters: &[&str]) -> Message {
    let mut m = Message::new();
    m.set_command(command);
    for p in parameters {
        m.add_parameter(p);
    }
    m
}

/// A message whose wire text takes `bytes` bytes: a command of `x` and the terminator.
fn sized(bytes: usize) -> Message {
    with_command(&"x".repeat(bytes - 2), &[])
}

#[test]
fn buffer_size_is_512() {
    assert_eq!(BUFFER_SIZE, 512);
}

#[test]
fn empty_reply_has_no_frames() {
    let reply = Reply::new();
    assert_eq!(reply.strings(), Ok(Vec::<String>::new()));
}

#[test]
fn one_message_is_one_frame() {
    let mut reply = Reply::new();
    reply.add_message(with_command("PING", &["abc"]));
    assert_eq!(reply.strings(), Ok(vec!["PING abc\r\n".to_string()]));
}

#[test]
fn small_messages_share_a_frame_in_order() {
    let mut reply = Reply::new();
    reply.add_message(with_command("A", &["1"]));
    reply.add_message(with_command("B", &["2 3"]));
    reply.add_message(with_command("C", &[]));
    assert_eq!(reply.strings(), Ok(vec!["A 1\r\nB :2 3\r\nC\r\n".to_string()]));
}

#[test]
fn ten_messages_of_60_bytes_give_frames_of_8_and_2() {
    let mut reply = Reply::new();
    for _ in 0..10 {
        let m = sized(60);
        assert_eq!(m.string().len(), 60);
        reply.add_message(m);
    }
    let frames = reply.strings().unwrap();
    assert_eq!(frames.len(), 2);
    assert_eq!(frames[0].len(), 480);
    assert_eq!(frames[1].len(), 120);
    let one = sized(60).string();
    assert_eq!(frames[0], one.repeat(8));
    assert_eq!(frames[1], one.repeat(2));
}

#[test]
fn message_of_exactly_the_limit_fills_a_frame() {
    let mut reply = Reply::new();
    reply.add_message(sized(512));
    reply.add_message(sized(2));
    let frames = reply.strings().unwrap();
    assert_eq!(frames.len(), 2);
    assert_eq!(frames[0].len(), 512);
    assert_eq!(frames[1], "\r\n");
}

#[test]
fn frame_is_filled_to_the_last_byte() {
    let mut reply = Reply::new();
    reply.add_message(sized(500));
    reply.add_message(sized(12));
    reply.add_message(sized(3));
    let frames = reply.strings().unwrap();
    assert_eq!(frames.len(), 2);
    assert_eq!(frames[0].len(), 512);
    assert_eq!(frames[1], "x\r\n");
}

#[test]
fn message_over_the_limit_fails_with_invalid_data() {
    let mut reply = Reply::new();
    reply.add_message(sized(513));
    assert_eq!(reply.strings(), Err(ErrorKind::InvalidData));
}

#[test]
fn one_long_message_among_short_ones_fails_the_whole_reply() {
    let mut reply = Reply::new();
    reply.add_message(with_command("A", &[]));
    reply.add_message(sized(600));
    reply.add_message(with_command("B", &[]));
    assert_eq!(reply.strings(), Err(ErrorKind::InvalidData));
}

#[test]
fn length_is_counted_in_bytes_not_characters() {
    // 256 characters of two bytes each, and the terminator: 514 bytes.
    let mut long = Reply::new();
    long.add_message(with_command(&"é".repeat(256), &[]));
    assert_eq!(long.strings(), Err(ErrorKind::InvalidData));
    // 255 such characters and the terminator are 512 bytes and fit.
    let mut fits = Reply::new();
    fits.add_message(with_command(&"é".repeat(255), &[]));
    fits.add_message(with_command("A", &[]));
    let frames = fits.strings().unwrap();
    assert_eq!(frames.len(), 2);
    assert_eq!(frames[0].len(), 512);
    assert_eq!(frames[0].chars().count(), 257);
    assert_eq!(frames[1], "A\r\n");
}

#[test]
fn frames_fit_and_concatenate_to_the_messages() {
    let sizes = [100usize, 200, 212, 1 + 2, 512, 300, 300, 2, 2, 508, 5, 40];
    let mut reply = Reply::new();
    let mut all = String::new();
    for size in sizes.iter() {
        let m = sized(*size);
        assert_eq!(m.string().len(), *size);
        all.push_str(&m.string());
        reply.add_message(m);
    }
    let frames = reply.strings().unwrap();
    for frame in &frames {
        assert!(!frame.is_empty());
        assert!(frame.len() <= 512);
        assert!(frame.ends_with("\r\n"));
    }
    assert_eq!(frames.concat(), all);
    let lengths: Vec<usize> = frames.iter().map(|f| f.len()).collect();
    assert_eq!(lengths, vec![512, 3, 512, 300, 304, 508, 45]);
}

#[test]
fn add_messages_moves_all_to_the_end() {
    let mut reply = Reply::new();
    reply.add_message(with_command("A", &[]));
    let mut more = vec![with_command("B", &[]), with_command("C", &[])];
    reply.add_messages(&mut more);
    assert!(more.is_empty());
    assert_eq!(reply.strings(), Ok(vec!["A\r\nB\r\nC\r\n".to_string()]));
}

#[test]
fn mut_messages_gives_the_messages_to_change() {
    let mut reply = Reply::new();
    reply.add_message(with_command("A", &[]));
    reply.add_message(with_command("B", &[]));
    {
        let messages = reply.mut_messages();
        assert_eq!(messages.len(), 2);
        assert_eq!(messages[1].command(), "B");
        messages[0].set_command("Z");
        messages.push(with_command("C", &[]));
    }
    assert_eq!(reply.strings(), Ok(vec!["Z\r\nB\r\nC\r\n".to_string()]));
}

#[test]
fn sum_of_replies_keeps_each_order() {
    let mut first = Reply::new();
    first.add_message(with_command("A", &[]));
    first.add_message(with_command("B", &[]));
    let mut second = Reply::new();
    second.add_message(with_command("C", &[]));
    second.add_message(with_command("D", &[]));
    let sum = first + second;
    assert_eq!(sum.strings(), Ok(vec!["A\r\nB\r\nC\r\nD\r\n".to_string()]));
}

#[test]
fn sum_with_empty_reply_is_the_other() {
    let mut first = Reply::new();
    first.add_message(with_command("A", &[]));
    let sum = Reply::new() + first + Reply::new();
    assert_eq!(sum.strings(), Ok(vec!["A\r\n".to_string()]));
}
