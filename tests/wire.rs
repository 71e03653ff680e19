use liars::util::{next_retry, retry_decision, Backoff, MAX_RETRIES};
use liars::wire::{frame_record, parse_port, port_line, LineReader};

#[test]
fn frame_appends_newline() {
    assert_eq!(frame_record(b"\"GetValue\""), Some(b"\"GetValue\"\n".to_vec()));
    assert_eq!(frame_record(b""), Some(b"\n".to_vec()));
}

#[test]
fn frame_refuses_embedded_newline() {
    assert_eq!(frame_record(b"\"Stop\"\n\"Stop\""), None);
}

#[test]
fn reader_reassembles_split_records() {
    let mut r = LineReader::new();
    assert_eq!(r.next_line(), None);
    r.feed(b"{\"Campaign\":[]}\n\"Get");
    assert_eq!(r.next_line(), Some(b"{\"Campaign\":[]}".to_vec()));
    assert_eq!(r.next_line(), None);
    assert!(r.has_partial());
    r.feed(b"Value\"\n\"Stop\"\n");
    assert_eq!(r.next_line(), Some(b"\"GetValue\"".to_vec()));
    assert_eq!(r.next_line(), Some(b"\"Stop\"".to_vec()));
    assert_eq!(r.next_line(), None);
    assert!(!r.has_partial());
}

#[test]
fn framing_round_trip() {
    let payloads: [&[u8]; 3] = [b"\"GetValue\"", b"", b"{\"Quorum\":[]}"];
    let mut r = LineReader::new();
    for p in payloads {
        r.feed(&frame_record(p).unwrap());
    }
    for p in payloads {
        assert_eq!(r.next_line(), Some(p.to_vec()));
    }
    assert!(!r.has_partial());
}

#[test]
fn empty_stream_is_clean_close() {
    let r = LineReader::new();
    assert!(!r.has_partial());
}

#[test]
fn port_line_is_decimal_with_newline() {
    assert_eq!(port_line(8080), b"8080\n".to_vec());
    assert_eq!(port_line(0), b"0\n".to_vec());
    assert_eq!(port_line(65535), b"65535\n".to_vec());
    assert_eq!(port_line(7), b"7\n".to_vec());
}

#[test]
fn parse_port_accepts_decimal() {
    assert_eq!(parse_port(b"8080"), Some(8080));
    assert_eq!(parse_port(b"+80"), Some(80));
    assert_eq!(parse_port(b"007"), Some(7));
    assert_eq!(parse_port(b"65535"), Some(65535));
    assert_eq!(parse_port(b"0"), Some(0));
}

#[test]
fn parse_port_rejects_malformed() {
    assert_eq!(parse_port(b""), None);
    assert_eq!(parse_port(b"+"), None);
    assert_eq!(parse_port(b"65536"), None);
    assert_eq!(parse_port(b"123456789012"), None);
    assert_eq!(parse_port(b"12a"), None);
    assert_eq!(parse_port(b"-1"), None);
    assert_eq!(parse_port(b" 80"), None);
    assert_eq!(parse_port(b"80\n"), None);
}

#[test]
fn port_round_trip() {
    for port in [0u16, 1, 9, 10, 99, 1024, 40000, 65535] {
        let line = port_line(port);
        let mut r = LineReader::new();
        r.feed(&line);
        let got = r.next_line().unwrap();
        assert_eq!(parse_port(&got), Some(port));
    }
}

#[test]
fn retry_decision_quadratic_backoff() {
    assert_eq!(MAX_RETRIES, 10);
    assert_eq!(retry_decision(0, true, 17), Some(Backoff { secs: 0, nanos: 17 }));
    assert_eq!(retry_decision(3, true, 5), Some(Backoff { secs: 9, nanos: 5 }));
    assert_eq!(retry_decision(8, true, 0), Some(Backoff { secs: 64, nanos: 0 }));
    assert_eq!(retry_decision(9, true, 0), None);
    assert_eq!(retry_decision(3, false, 5), None);
}

#[test]
fn next_retry_adds_sub_second_jitter() {
    for _ in 0..50 {
        let b = next_retry(2, true).unwrap();
        assert_eq!(b.secs, 4);
        assert!(b.nanos < 1_000_000_000);
    }
    assert_eq!(next_retry(2, false), None);
    assert_eq!(next_retry(9, true), None);
}
