use powersession::event::{event_to_line, parse_event_line, Direction, Event, FormatError};
use powersession::header::{header_to_line, parse_header_line, EnvVar, RecordHeader};

fn var(name: &str, value: &str) -> EnvVar {
    EnvVar { name: name.to_string(), value: value.to_string() }
}

#[test]
fn event_line_exact_text() {
    let e = Event { time_us: 1_500_000, direction: Direction::Output, content: "hi".to_string() };
    assert_eq!(event_to_line(&e), b"[1.500000,\"o\",\"hi\"]".to_vec());
}

#[test]
fn event_line_escapes_content() {
    let e = Event {
        time_us: 42,
        direction: Direction::Output,
        content: "a\"b\\c\nd\u{1}".to_string(),
    };
    let line = event_to_line(&e);
    assert_eq!(line, b"[0.000042,\"o\",\"a\\\"b\\\\c\\nd\\u0001\"]".to_vec());
    assert!(!line.contains(&b'\n'));
}

#[test]
fn event_line_round_trip() {
    for (t, text) in [(0u64, ""), (7u64, "plain"), (12_345_678u64, "tab\there \u{e9}\u{1F600}"), (u64::MAX, "\r\n")] {
        let e = Event { time_us: t, direction: Direction::Output, content: text.to_string() };
        let back = parse_event_line(&event_to_line(&e)).unwrap();
        assert_eq!(back.time_us, t);
        assert_eq!(back.direction, Direction::Output);
        assert_eq!(back.content, text);
    }
}

#[test]
fn input_event_round_trip() {
    let e = Event { time_us: 3, direction: Direction::Input, content: "ls".to_string() };
    let back = parse_event_line(&event_to_line(&e)).unwrap();
    assert_eq!(back.direction, Direction::Input);
    assert_eq!(back.content, "ls");
}

#[test]
fn event_line_with_blanks_and_long_fraction() {
    let e = parse_event_line(b" [ 0.5 , \"o\" , \"x\" ] ").unwrap();
    assert_eq!(e.time_us, 500_000);
    assert_eq!(e.content, "x");
    let e = parse_event_line(b"[1.2345678,\"o\",\"a\"]").unwrap();
    assert_eq!(e.time_us, 1_234_567);
    let e = parse_event_line(b"[3,\"o\",\"\\u00e9\"]").unwrap();
    assert_eq!(e.time_us, 3_000_000);
    assert_eq!(e.content, "\u{e9}");
}

#[test]
fn malformed_event_lines() {
    for line in [
        &b""[..],
        b"{}",
        b"[\"o\",\"x\"]",
        b"[1.,\"o\",\"x\"]",
        b"[1,\"x\",\"x\"]",
        b"[1,\"o\",\"x\"",
        b"[1,\"o\",\"x\"] extra",
        b"[1,\"o\",\"x]",
        b"[99999999999999999999,\"o\",\"x\"]",
    ] {
        assert_eq!(parse_event_line(line).err(), Some(FormatError::Malformed), "{:?}", line);
    }
}

#[test]
fn bad_string_in_event_line() {
    assert_eq!(parse_event_line(b"[1,\"o\",\"\\q\"]").err(), Some(FormatError::BadString));
}

#[test]
fn header_line_exact_text() {
    let h = RecordHeader {
        version: 2,
        width: 140,
        height: -80,
        timestamp: 1_700_000_000,
        environment: vec![var("SHELL", "powershell.exe"), var("TERM", "xterm")],
    };
    assert_eq!(
        String::from_utf8(header_to_line(&h)).unwrap(),
        "{\"version\":2,\"width\":140,\"height\":-80,\"timestamp\":1700000000,\"env\":{\"SHELL\":\"powershell.exe\",\"TERM\":\"xterm\"}}"
    );
}

#[test]
fn header_round_trip() {
    let h = RecordHeader {
        version: 2,
        width: -32768,
        height: 32767,
        timestamp: u64::MAX,
        environment: vec![var("A", "1"), var("quote\"d", "line\nbreak"), var("", "")],
    };
    let back = parse_header_line(&header_to_line(&h)).unwrap();
    assert_eq!(back.version, 2);
    assert_eq!(back.width, -32768);
    assert_eq!(back.height, 32767);
    assert_eq!(back.timestamp, u64::MAX);
    assert_eq!(back.environment.len(), 3);
    assert_eq!(back.environment[1].name, "quote\"d");
    assert_eq!(back.environment[1].value, "line\nbreak");
}

#[test]
fn header_with_empty_environment() {
    let h = RecordHeader { version: 2, width: 1, height: 1, timestamp: 0, environment: vec![] };
    let line = header_to_line(&h);
    assert_eq!(line, b"{\"version\":2,\"width\":1,\"height\":1,\"timestamp\":0,\"env\":{}}".to_vec());
    assert!(parse_header_line(&line).unwrap().environment.is_empty());
}

#[test]
fn header_repeated_name_keeps_last_value() {
    let line = b"{\"version\":2,\"width\":80,\"height\":24,\"timestamp\":5,\"env\":{\"A\":\"1\",\"A\":\"2\"}}";
    let h = parse_header_line(line).unwrap();
    assert_eq!(h.environment.len(), 1);
    assert_eq!(h.environment[0].value, "2");
}

#[test]
fn malformed_header_lines() {
    for line in [
        &b"{\"version\":2}"[..],
        b"{\"version\":256,\"width\":80,\"height\":24,\"timestamp\":5,\"env\":{}}",
        b"{\"version\":2,\"width\":40000,\"height\":24,\"timestamp\":5,\"env\":{}}",
        b"{\"version\":2,\"width\":80,\"height\":24,\"timestamp\":5,\"env\":{\"A\" \"1\"}}",
        b"{\"version\":2,\"width\":80,\"height\":24,\"timestamp\":5,\"env\":{}}x",
    ] {
        assert_eq!(parse_header_line(line).err(), Some(FormatError::Malformed), "{:?}", line);
    }
}

#[test]
fn shortest_float_lines() {
    let e = parse_event_line(b"[0.5,\"o\",\"hello\"]").unwrap();
    assert_eq!((e.time_us, e.direction, e.content.as_str()), (500_000, Direction::Output, "hello"));
    let e = parse_event_line(b"[1.25,\"i\",\"x\"]").unwrap();
    assert_eq!((e.time_us, e.direction, e.content.as_str()), (1_250_000, Direction::Input, "x"));
}

#[test]
fn exponent_timestamps() {
    assert_eq!(parse_event_line(b"[5e-6,\"o\",\"a\"]").unwrap().time_us, 5);
    assert_eq!(parse_event_line(b"[1.5E2,\"o\",\"a\"]").unwrap().time_us, 150_000_000);
    assert_eq!(parse_event_line(b"[2.5e+1,\"o\",\"a\"]").unwrap().time_us, 25_000_000);
    assert_eq!(parse_event_line(b"[1e-9,\"o\",\"a\"]").unwrap().time_us, 0);
    assert_eq!(parse_event_line(b"[1e,\"o\",\"a\"]").err(), Some(FormatError::Malformed));
    assert_eq!(parse_event_line(b"[1e999,\"o\",\"a\"]").err(), Some(FormatError::Malformed));
    assert_eq!(parse_event_line(b"[9e30,\"o\",\"a\"]").err(), Some(FormatError::Malformed));
}

#[test]
fn invalid_text_literals() {
    assert!(parse_event_line(b"[1,\"o\",\"a\x01b\"]").is_err());
    assert!(parse_event_line(b"[1,\"o\",\"a\\xb\"]").is_err());
    assert!(parse_event_line(b"[1,\"o\",\"\\u0041\\/\"]").unwrap().content == "A/");
}

#[test]
fn non_header_lines_are_refused() {
    assert!(parse_header_line(b"[0.5,\"o\",\"x\"]").is_err());
    assert!(parse_header_line(b"").is_err());
    assert!(parse_header_line(b"{\"version\":2,\"width\":80,\"height\":24,\"timestamp\":-5,\"env\":{}}").is_err());
}
