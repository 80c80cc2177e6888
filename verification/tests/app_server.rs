use ai_monitor::app_server::{request_step, RequestStep, ServerEvent, StderrTail};
use ai_monitor::codex::Error;

fn message(id: Option<u64>, has_error: bool, has_result: bool) -> ServerEvent {
    ServerEvent::Message { id, has_error, has_result }
}

#[test]
fn request_waits_for_its_own_reply() {
    assert!(matches!(request_step(3, &message(Some(2), false, true)), RequestStep::Wait));
    assert!(matches!(request_step(3, &message(None, true, false)), RequestStep::Wait));
    assert!(matches!(request_step(3, &ServerEvent::Unparsable), RequestStep::Wait));
    assert!(matches!(request_step(3, &message(Some(3), false, true)), RequestStep::Answer));
}

#[test]
fn request_failures_map_to_errors() {
    assert!(matches!(request_step(1, &message(Some(1), true, true)), RequestStep::Fail(Error::Rpc)));
    assert!(matches!(request_step(1, &message(Some(1), false, false)), RequestStep::Fail(Error::Protocol)));
    assert!(matches!(request_step(1, &ServerEvent::Closed), RequestStep::Fail(Error::Closed)));
    assert!(matches!(request_step(1, &ServerEvent::TimedOut), RequestStep::Fail(Error::Timeout)));
}

#[test]
fn stderr_tail_splits_lines_across_reads() {
    let mut tail = StderrTail::new();
    tail.feed(b"first li");
    assert!(tail.lines.is_empty());
    assert_eq!(tail.pending, "first li");
    tail.feed(b"ne\r\r\nsecond\nthi");
    assert_eq!(tail.lines, vec!["first line".to_owned(), "second".to_owned()]);
    assert_eq!(tail.pending, "thi");
    tail.feed(b"rd\r");
    tail.finish();
    assert_eq!(tail.lines, vec!["first line".to_owned(), "second".to_owned(), "third\r".to_owned()]);
    assert_eq!(tail.pending, "");
}

#[test]
fn stderr_tail_keeps_the_last_fifty_lines() {
    let mut tail = StderrTail::new();
    let mut text = String::new();
    for i in 0..120 {
        text.push_str(&format!("line {i}\n"));
    }
    tail.feed(text.as_bytes());
    assert_eq!(tail.lines.len(), 50);
    assert_eq!(tail.lines[0], "line 70");
    assert_eq!(tail.lines[49], "line 119");

    // The same text read in small pieces keeps the same lines.
    let mut pieces = StderrTail::new();
    for chunk in text.as_bytes().chunks(7) {
        pieces.feed(chunk);
    }
    assert_eq!(pieces.lines, tail.lines);
    assert_eq!(pieces.pending, tail.pending);
}

#[test]
fn stderr_tail_of_a_whole_stream_ends_with_its_last_lines() {
    let mut tail = StderrTail::new();
    let mut text = String::new();
    for i in 0..60 {
        text.push_str(&format!("warning {i}\r\n"));
    }
    text.push_str("exit");
    for chunk in text.as_bytes().chunks(13) {
        tail.feed(chunk);
    }
    tail.finish();
    assert_eq!(tail.lines.len(), 50);
    assert_eq!(tail.lines[0], "warning 11");
    assert_eq!(tail.lines[48], "warning 59");
    assert_eq!(tail.lines[49], "exit");
    assert_eq!(tail.pending, "");
}

#[test]
fn stderr_tail_decodes_invalid_bytes_lossily() {
    let mut tail = StderrTail::new();
    tail.feed(b"bad \xff byte\n");
    assert_eq!(tail.lines, vec!["bad \u{fffd} byte".to_owned()]);
}

#[test]
fn first_reply_with_the_request_id_decides() {
    let events = vec![
        ServerEvent::Unparsable,
        message(Some(6), false, true),
        message(None, true, false),
        message(Some(7), true, false),
        message(Some(7), false, true),
    ];
    let decided = events
        .iter()
        .map(|event| request_step(7, event))
        .find(|step| !matches!(step, RequestStep::Wait));
    assert!(matches!(decided, Some(RequestStep::Fail(Error::Rpc))));
}
