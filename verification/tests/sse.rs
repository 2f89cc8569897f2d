use pirs::ai::sse::{find_event_boundary, SseStream};

#[test]
fn boundary_lf() {
    assert_eq!(find_event_boundary("a\n\nb"), Some((1, 2)));
}

#[test]
fn boundary_crlf() {
    assert_eq!(find_event_boundary("a\r\n\r\nb"), Some((1, 4)));
}

#[test]
fn none() {
    assert_eq!(find_event_boundary("a\nb"), None);
}

#[test]
fn parse_single_event() {
    let mut buf = String::from("data: hello\n\nrest");
    let (pos, len) = find_event_boundary(&buf).unwrap();
    let raw: String = buf.drain(..pos + len).collect();
    assert_eq!(raw, "data: hello\n\n");
    assert_eq!(buf, "rest");
}

#[test]
fn boundary_is_counted_in_bytes() {
    assert_eq!(find_event_boundary("é\n\n"), Some((2, 2)));
}

#[test]
fn events_come_out_when_they_are_complete() {
    let mut s = SseStream::new();
    assert!(s.feed(b"data: one\nda").is_empty());
    assert_eq!(s.feed(b"ta:two\n\n: ping\n\ndata: x\r\n\r\nda"), vec!["one\ntwo", "x"]);
    assert_eq!(s.feed(b"ta: [DONE]\n\n"), vec!["[DONE]"]);
}

#[test]
fn cutting_a_stream_elsewhere_changes_nothing() {
    let text = "event: m\ndata: a\r\n\r\ndata: b\n\ndata:\n\ndata: c\ndata: d\n\n";
    let mut whole = SseStream::new();
    let all = whole.feed_text(text);
    assert_eq!(all, vec!["a", "b", "c\nd"]);
    for cut in 0..=text.len() {
        let mut s = SseStream::new();
        let mut got = s.feed_text(&text[..cut]);
        got.extend(s.feed_text(&text[cut..]));
        assert_eq!(got, all);
    }
}

#[test]
fn bytes_that_are_no_text_are_replaced() {
    let mut s = SseStream::new();
    assert_eq!(s.feed(b"data: \xff!\n\n"), vec!["\u{fffd}!"]);
}
