use powersession::api::{ApiService, Auth, Upload, UploadError};
use powersession::event::Direction;
use powersession::header::EnvVar;
use powersession::playback::{check_play_target, relative_delays, Play, PlayError};
use powersession::record::{check_record_target, ChunkAction, Record, TargetAction};
use std::cell::Cell;

fn lines_of(bytes: &[u8]) -> Vec<Vec<u8>> {
    bytes.split(|b| *b == b'\n').filter(|l| !l.is_empty()).map(|l| l.to_vec()).collect()
}

#[test]
fn test_play() {
    let recording = b"{\"version\":2,\"width\":80,\"height\":24,\"timestamp\":1600000000,\"env\":{\"SHELL\":\"cmd.exe\"}}\n[0.1,\"o\",\"a\"]\n[0.2,\"o\",\"b\\r\\n\"]\n";
    let lines = lines_of(recording);
    let mut play = Play::new(Some(&lines[0])).unwrap();
    assert_eq!(play.header().width, 80);
    let mut shown = Vec::new();
    for line in &lines[1..] {
        let frame = play.next_frame(line).unwrap();
        shown.extend_from_slice(frame.bytes());
    }
    assert_eq!(shown, b"ab\r\n".to_vec());
}

#[test]
fn delays_follow_absolute_times() {
    assert_eq!(relative_delays(&vec![0, 500_000, 1_200_000]), vec![0, 500_000, 700_000]);
    assert_eq!(relative_delays(&vec![]), Vec::<u64>::new());
    assert_eq!(relative_delays(&vec![900, 400]), vec![0, 0]);
}

#[test]
fn playback_waits_between_events() {
    let mut play = Play::new(Some(&b"{\"version\":2,\"width\":1,\"height\":1,\"timestamp\":0,\"env\":{}}"[..])).unwrap();
    let mut waits = Vec::new();
    for line in [&b"[0.0,\"o\",\"x\"]"[..], b"[0.5,\"o\",\"y\"]", b"[1.2,\"o\",\"z\"]"] {
        waits.push(play.next_frame(line).unwrap().delay_us);
    }
    assert_eq!(waits, vec![0, 500_000, 700_000]);
}

#[test]
fn first_event_plays_at_once() {
    let mut play = Play::new(Some(&b"{\"version\":2,\"width\":1,\"height\":1,\"timestamp\":0,\"env\":{}}"[..])).unwrap();
    assert_eq!(play.next_frame(b"[2.5,\"o\",\"x\"]").unwrap().delay_us, 0);
    assert_eq!(play.next_frame(b"[3.0,\"o\",\"y\"]").unwrap().delay_us, 500_000);
}

#[test]
fn play_refuses_missing_or_empty_or_bad_files() {
    assert_eq!(check_play_target(false), Err(PlayError::Missing));
    assert_eq!(check_play_target(true), Ok(()));
    assert!(matches!(Play::new(None), Err(PlayError::Empty)));
    assert!(matches!(Play::new(Some(&b"not a header"[..])), Err(PlayError::BadHeader(_))));
}

#[test]
fn malformed_event_stops_playback() {
    let mut play = Play::new(Some(&b"{\"version\":2,\"width\":1,\"height\":1,\"timestamp\":0,\"env\":{}}"[..])).unwrap();
    assert!(play.next_frame(b"[0.1,\"o\"]").is_err());
}

#[test]
fn overwrite_guard() {
    assert_eq!(check_record_target(false, false), TargetAction::Create);
    assert_eq!(check_record_target(false, true), TargetAction::Create);
    assert_eq!(check_record_target(true, false), TargetAction::Refuse);
    assert_eq!(check_record_target(true, true), TargetAction::Replace);
}

#[test]
fn record_command_defaults() {
    let r = Record::new("a.cast".to_string(), None, None, None);
    assert_eq!(r.command(), "powershell.exe");
    assert_eq!(r.filename(), "a.cast");
    let r = Record::new("a.cast".to_string(), None, None, Some("bash".to_string()));
    assert_eq!(r.command(), "bash");
    let r = Record::new("a.cast".to_string(), None, Some("cmd.exe".to_string()), Some("bash".to_string()));
    assert_eq!(r.command(), "cmd.exe");
}

fn env_of(header_line: &[u8]) -> Vec<(String, String)> {
    let play = Play::new(Some(&header_line[..header_line.len() - 1])).unwrap();
    play.header().environment.iter().map(|v| (v.name.clone(), v.value.clone())).collect()
}

#[test]
fn recorded_environment() {
    let given = vec![
        EnvVar { name: "A".to_string(), value: "1".to_string() },
        EnvVar { name: "A".to_string(), value: "2".to_string() },
    ];
    let mut r = Record::new("a.cast".to_string(), Some(given), None, None);
    let header = r.execute(None, Some("abc".to_string()), Some("xterm".to_string()), 3_000_000, 100, 30);
    assert_eq!(
        env_of(&header),
        vec![
            ("A".to_string(), "2".to_string()),
            ("SHELL".to_string(), "powershell.exe".to_string()),
            ("TERM".to_string(), "windows-terminal".to_string()),
        ]
    );
    let mut r = Record::new("a.cast".to_string(), None, None, None);
    let header = r.execute(Some("bash".to_string()), Some(String::new()), Some("xterm".to_string()), 0, 1, 1);
    assert_eq!(
        env_of(&header),
        vec![("SHELL".to_string(), "bash".to_string()), ("TERM".to_string(), "xterm".to_string())]
    );
    let mut r = Record::new("a.cast".to_string(), None, None, None);
    let header = r.execute(None, None, None, 0, 1, 1);
    assert_eq!(env_of(&header), vec![("SHELL".to_string(), "powershell.exe".to_string())]);
}

#[test]
fn header_reports_size_and_start() {
    let mut r = Record::new("a.cast".to_string(), None, None, None);
    let header = r.execute(None, None, None, 1_700_000_123_456_789, 120, 40);
    assert_eq!(*header.last().unwrap(), b'\n');
    let play = Play::new(Some(&header[..header.len() - 1])).unwrap();
    assert_eq!(play.header().version, 2);
    assert_eq!(play.header().width, 120);
    assert_eq!(play.header().height, 40);
    assert_eq!(play.header().timestamp, 1_700_000_123);
}

#[test]
fn record_then_play_gives_same_bytes() {
    let mut r = Record::new("a.cast".to_string(), None, None, None);
    let mut sink = r.execute(None, None, None, 10_000_000, 80, 24);
    let chunks: Vec<&[u8]> = vec![b"hello ", "w\u{f6}rld\r\n".as_bytes(), b"\"quoted\"\t\\", b"\x1b[31mred\x1b[0m"];
    let mut echoed = Vec::new();
    for (i, chunk) in chunks.iter().enumerate() {
        match r.on_chunk(chunk, 10_000_000 + 250_000 * i as u64) {
            ChunkAction::Write { line, echo } => {
                assert_eq!(line.iter().filter(|b| **b == b'\n').count(), 1);
                assert_eq!(*line.last().unwrap(), b'\n');
                sink.extend_from_slice(&line);
                echoed.extend_from_slice(&echo);
            }
            other => panic!("unexpected {:?}", other),
        }
    }
    assert!(matches!(r.on_chunk(b"", 20_000_000), ChunkAction::Finish));
    assert_eq!(*sink.last().unwrap(), b'\n');
    let lines = lines_of(&sink);
    assert_eq!(lines.len(), 1 + chunks.len());
    let mut play = Play::new(Some(&lines[0])).unwrap();
    let mut played = Vec::new();
    let mut waits = Vec::new();
    for line in &lines[1..] {
        let frame = play.next_frame(line).unwrap();
        assert_eq!(frame.direction, Direction::Output);
        waits.push(frame.delay_us);
        played.extend_from_slice(frame.bytes());
    }
    assert_eq!(played, chunks.concat());
    assert_eq!(echoed, chunks.concat());
    assert_eq!(waits, vec![0, 250_000, 250_000, 250_000]);
}

#[test]
fn event_times_never_run_backwards() {
    let mut r = Record::new("a.cast".to_string(), None, None, None);
    let _ = r.execute(None, None, None, 5_000_000, 80, 24);
    let mut times = Vec::new();
    for now in [6_000_000u64, 5_500_000, 4_000_000, 7_000_000] {
        if let ChunkAction::Write { line, .. } = r.on_chunk(b"x", now) {
            let text = String::from_utf8(line).unwrap();
            times.push(text[1..text.find(',').unwrap()].to_string());
        }
    }
    assert_eq!(times, vec!["1.000000", "1.000000", "1.000000", "2.000000"]);
}

#[test]
fn end_of_stream_sentinel_finishes() {
    let mut r = Record::new("a.cast".to_string(), None, None, None);
    let _ = r.execute(None, None, None, 0, 80, 24);
    assert!(matches!(r.on_chunk(&[], 1), ChunkAction::Finish));
}

#[test]
fn non_utf8_output_aborts() {
    let mut r = Record::new("a.cast".to_string(), None, None, None);
    let _ = r.execute(None, None, None, 0, 80, 24);
    assert!(matches!(r.on_chunk(&[0xff, 0xfe], 1), ChunkAction::Abort));
    let mut r = Record::new("a.cast".to_string(), None, None, None);
    let _ = r.execute(None, None, None, 0, 80, 24);
    assert!(matches!(r.on_chunk(&"\u{e9}".as_bytes()[..1], 1), ChunkAction::Abort));
}

struct FakeService {
    auths: Cell<u32>,
}

impl ApiService for FakeService {
    fn auth(&self) {
        self.auths.set(self.auths.get() + 1);
    }

    fn upload(&self, filepath: &str) -> Option<String> {
        Some(format!("https://example.org/a/{}", filepath))
    }
}

#[test]
fn auth_asks_the_service() {
    let auth = Auth::new(FakeService { auths: Cell::new(0) });
    auth.execute();
    auth.execute();
}

#[test]
fn upload_needs_an_existing_file() {
    assert!(matches!(Upload::new(FakeService { auths: Cell::new(0) }, "x.cast".to_string(), false), Err(UploadError::Missing)));
    let up = Upload::new(FakeService { auths: Cell::new(0) }, "x.cast".to_string(), true).ok().unwrap();
    assert_eq!(up.filepath(), "x.cast");
    assert_eq!(up.execute(), Some("https://example.org/a/x.cast".to_string()));
}

#[test]
fn header_unchanged_by_events() {
    let mut r = Record::new("a.cast".to_string(), None, None, None);
    let header = r.execute(Some("pwsh".to_string()), None, Some("xterm".to_string()), 9_000_000, 90, 33);
    let mut play = Play::new(Some(&header[..header.len() - 1])).unwrap();
    for i in 0..50u64 {
        if let ChunkAction::Write { line, .. } = r.on_chunk(b"event", 9_000_000 + i) {
            play.next_frame(&line[..line.len() - 1]).unwrap();
        }
    }
    assert_eq!(play.header().width, 90);
    assert_eq!(play.header().height, 33);
    assert_eq!(play.header().environment.len(), 2);
    assert_eq!(play.header().environment[0].value, "pwsh");
    assert_eq!(play.header().environment[1].value, "xterm");
}
