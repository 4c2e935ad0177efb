//! One line of a recording after its header: `[<seconds>, "<tag>", "<text>"]`.
use vstd::prelude::*;
use vstd::utf8::*;

use crate::json::{
    closing_quote, find_closing_quote, json_quote, literal_flaw, lemma_escaped_no_newline, lemma_escaped_scan,
    quote_str, skip_blanks, skip_blanks_spec, unquote, escaped, QUOTE,
};
use crate::number::{
    is_digit, lemma_seconds_read_back, parse_seconds, push_seconds, seconds_end, seconds_text,
    seconds_value, seconds_well_formed,
};

verus! {

pub const OPEN_BRACKET: u8 = 0x5b;

pub const CLOSE_BRACKET: u8 = 0x5d;

pub const COMMA: u8 = 0x2c;

pub const NEWLINE: u8 = 0x0a;

/// Which stream of the terminal an event belongs to.
#[derive(PartialEq, Eq, Structural, Clone, Copy, Debug)]
pub enum Direction {
    Output,
    Input,
}

/// A chunk of terminal text with the time it was seen, in microseconds since
/// the recording started.
#[derive(Clone, Debug)]
pub struct Event {
    pub time_us: u64,
    pub direction: Direction,
    pub content: String,
}

/// Why an event or header line could not be read.
#[derive(PartialEq, Eq, Structural, Clone, Copy, Debug)]
pub enum FormatError {
    /// The line does not have the shape of the format.
    Malformed,
    /// A string literal in the line is not valid JSON text.
    BadString,
}

pub open spec fn tag_byte(d: Direction) -> u8 {
    match d {
        Direction::Output => 0x6fu8,
        Direction::Input => 0x69u8,
    }
}

pub open spec fn direction_of_tag(b: u8) -> Direction {
    if b == 0x69u8 {
        Direction::Input
    } else {
        Direction::Output
    }
}

/// The line written for an event, without its line break.
pub open spec fn event_line(time_us: nat, d: Direction, content: Seq<char>) -> Seq<u8> {
    seq![OPEN_BRACKET] + seconds_text(time_us) + seq![COMMA, QUOTE, tag_byte(d), QUOTE, COMMA]
        + json_quote(encode_utf8(content)) + seq![CLOSE_BRACKET]
}

impl Event {
    pub open spec fn line(&self) -> Seq<u8> {
        event_line(self.time_us as nat, self.direction, self.content@)
    }
}

/// How a line splits into the fields of an event: the time, the tag, and the
/// span of the text's literal (from its opening quote to past its closing
/// quote). Blanks may stand between the tokens.
pub open spec fn event_fields(s: Seq<u8>) -> Option<(nat, Direction, int, int)> {
    let a = skip_blanks_spec(s, 0);
    if !(a < s.len() && s[a] == OPEN_BRACKET) {
        None
    } else {
        let b = skip_blanks_spec(s, a + 1);
        if !seconds_well_formed(s, b) {
            None
        } else {
            let c = skip_blanks_spec(s, seconds_end(s, b));
            if !(c < s.len() && s[c] == COMMA) {
                None
            } else {
                let d = skip_blanks_spec(s, c + 1);
                if !(d + 2 < s.len() && s[d] == QUOTE && (s[d + 1] == 0x6fu8 || s[d + 1]
                    == 0x69u8) && s[d + 2] == QUOTE) {
                    None
                } else {
                    let e = skip_blanks_spec(s, d + 3);
                    if !(e < s.len() && s[e] == COMMA) {
                        None
                    } else {
                        let f = skip_blanks_spec(s, e + 1);
                        if !(f < s.len() && s[f] == QUOTE && closing_quote(s.skip(f + 1)) >= 0) {
                            None
                        } else {
                            let q = f + 1 + closing_quote(s.skip(f + 1));
                            let g = skip_blanks_spec(s, q + 1);
                            if !(g < s.len() && s[g] == CLOSE_BRACKET && skip_blanks_spec(
                                s,
                                g + 1,
                            ) == s.len()) {
                                None
                            } else {
                                Some((seconds_value(s, b), direction_of_tag(s[d + 1]), f, q + 1))
                            }
                        }
                    }
                }
            }
        }
    }
}

/// The text literal of a line of event shape, quotes included.
pub open spec fn text_literal(s: Seq<u8>) -> Seq<u8> {
    s.subrange(event_fields(s)->Some_0.2, event_fields(s)->Some_0.3)
}

/// Writes the line of an event, without its line break.
pub fn event_to_line(event: &Event) -> (r: Vec<u8>)
    ensures
        r@ == event.line(),
{
    let mut out: Vec<u8> = Vec::new();
    out.push(OPEN_BRACKET);
    push_seconds(&mut out, event.time_us);
    out.push(COMMA);
    out.push(QUOTE);
    match event.direction {
        Direction::Output => out.push(0x6fu8),
        Direction::Input => out.push(0x69u8),
    }
    out.push(QUOTE);
    out.push(COMMA);
    let quoted = quote_str(event.content.as_str());
    let mut lit = match quoted {
        Some(v) => v,
        None => Vec::new(),
    };
    out.append(&mut lit);
    out.push(CLOSE_BRACKET);
    assert(out@ =~= event.line());
    out
}

/// Reads an event line (without its line break).
///
/// A line of the shape of `event_fields` gives an event with the time and the
/// tag found there, unless its time overflows; a line written by
/// `event_to_line` gives back the event that was written.
pub fn parse_event_line(line: &[u8]) -> (r: Result<Event, FormatError>)
    ensures
        event_fields(line@) is None ==> r == Err::<Event, FormatError>(FormatError::Malformed),
        r matches Ok(e) ==> (event_fields(line@) matches Some((t, d, _, _)) && e.time_us == t
            && e.direction == d),
        r matches Err(FormatError::BadString) ==> event_fields(line@) is Some,
        event_fields(line@) is Some && literal_flaw(text_literal(line@)) ==> r is Err,
        forall|c: Seq<char>|
            event_fields(line@) is Some && event_fields(line@)->Some_0.0 <= u64::MAX
                && text_literal(line@) == #[trigger] json_quote(encode_utf8(c)) ==> (r matches Ok(
                e,
            ) && e.time_us == event_fields(line@)->Some_0.0 && e.direction == event_fields(
                line@,
            )->Some_0.1 && e.content@ == c),
        forall|t: nat, d: Direction, c: Seq<char>|
            t <= u64::MAX && line@ == #[trigger] event_line(t, d, c) ==> (r matches Ok(e) && e.time_us
                == t && e.direction == d && e.content@ == c),
{
    let ghost s = line@;
    proof {
        lemma_event_line_round_trip(s);
    }
    let a = skip_blanks(line, 0);
    if !(a < line.len() && line[a] == OPEN_BRACKET) {
        return Err(FormatError::Malformed);
    }
    let b = skip_blanks(line, a + 1);
    let (time_us, e1) = match parse_seconds(line, b) {
        Some(p) => p,
        None => {
            proof {
                lemma_event_line_fields_total(s);
            }
            return Err(FormatError::Malformed);
        },
    };
    let c = skip_blanks(line, e1);
    if !(c < line.len() && line[c] == COMMA) {
        return Err(FormatError::Malformed);
    }
    let d = skip_blanks(line, c + 1);
    if !(d < line.len() && line.len() - d > 2 && line[d] == QUOTE && (line[d + 1] == 0x6fu8
        || line[d + 1] == 0x69u8) && line[d + 2] == QUOTE) {
        return Err(FormatError::Malformed);
    }
    let direction = if line[d + 1] == 0x69u8 {
        Direction::Input
    } else {
        Direction::Output
    };
    let e = skip_blanks(line, d + 3);
    if !(e < line.len() && line[e] == COMMA) {
        return Err(FormatError::Malformed);
    }
    let f = skip_blanks(line, e + 1);
    if !(f < line.len() && line[f] == QUOTE) {
        return Err(FormatError::Malformed);
    }
    let q = match find_closing_quote(line, f + 1) {
        Some(q) => q,
        None => {
            return Err(FormatError::Malformed);
        },
    };
    let g = skip_blanks(line, q + 1);
    if !(g < line.len() && line[g] == CLOSE_BRACKET) {
        return Err(FormatError::Malformed);
    }
    let h = skip_blanks(line, g + 1);
    if h != line.len() {
        return Err(FormatError::Malformed);
    }
    let lit = &line[f..q + 1];
    assert(event_fields(s) == Some((time_us as nat, direction, f as int, q + 1)));
    assert(lit@ == text_literal(s));
    let decoded = unquote(lit);
    proof {
        assert forall|t: nat, d2: Direction, c: Seq<char>|
            t <= u64::MAX && s == #[trigger] event_line(t, d2, c) implies (decoded matches Some(v)
                && v@ == c) && time_us == t && direction == d2 by {
            lemma_event_line_layout(t, d2, c);
            assert(lit@ == json_quote(encode_utf8(c)));
        }
    }
    match decoded {
        Some(content) => Ok(Event { time_us, direction, content }),
        None => Err(FormatError::BadString),
    }
}

/// The timestamp of a written event line reads back as the time written.
proof fn lemma_event_line_fields_total(s: Seq<u8>)
    ensures
        forall|t: nat, d: Direction, c: Seq<char>|
            t <= u64::MAX && s == #[trigger] event_line(t, d, c) ==> seconds_value(
                s,
                skip_blanks_spec(s, skip_blanks_spec(s, 0) + 1),
            ) == t && seconds_well_formed(s, skip_blanks_spec(s, skip_blanks_spec(s, 0) + 1)),
{
    assert forall|t: nat, d: Direction, c: Seq<char>|
        t <= u64::MAX && s == #[trigger] event_line(t, d, c) implies seconds_value(
        s,
        skip_blanks_spec(s, skip_blanks_spec(s, 0) + 1),
    ) == t && seconds_well_formed(s, skip_blanks_spec(s, skip_blanks_spec(s, 0) + 1)) by {
        lemma_event_line_layout(t, d, c);
    }
}

/// Where the pieces of a written event line stand.
proof fn lemma_event_line_layout(t: nat, d: Direction, c: Seq<char>)
    ensures
        ({
            let s = event_line(t, d, c);
            let n = seconds_text(t).len() as int;
            let body = escaped(encode_utf8(c));
            &&& skip_blanks_spec(s, 0) == 0
            &&& s[0] == OPEN_BRACKET
            &&& skip_blanks_spec(s, 1) == 1
            &&& seconds_well_formed(s, 1)
            &&& seconds_end(s, 1) == 1 + n
            &&& seconds_value(s, 1) == t
            &&& skip_blanks_spec(s, 1 + n) == 1 + n
            &&& s[1 + n] == COMMA
            &&& skip_blanks_spec(s, 2 + n) == 2 + n
            &&& s[2 + n] == QUOTE
            &&& s[3 + n] == tag_byte(d)
            &&& s[4 + n] == QUOTE
            &&& skip_blanks_spec(s, 5 + n) == 5 + n
            &&& s[5 + n] == COMMA
            &&& skip_blanks_spec(s, 6 + n) == 6 + n
            &&& s[6 + n] == QUOTE
            &&& closing_quote(s.skip(7 + n)) == body.len()
            &&& skip_blanks_spec(s, 8 + n + body.len()) == 8 + n + body.len()
            &&& s[8 + n + body.len()] == CLOSE_BRACKET
            &&& s.len() == 9 + n + body.len()
            &&& skip_blanks_spec(s, 9 + n + body.len()) == s.len()
            &&& s.subrange(6 + n, 8 + n + body.len()) == json_quote(encode_utf8(c))
        }),
{
    let s = event_line(t, d, c);
    let st = seconds_text(t);
    let n = st.len() as int;
    let body = escaped(encode_utf8(c));
    let lit = json_quote(encode_utf8(c));
    assert(s.subrange(1, 1 + n) =~= st);
    assert(s[1 + n] == COMMA);
    lemma_seconds_read_back(s, 1, t);
    assert(s.skip(7 + n) =~= body + seq![QUOTE, CLOSE_BRACKET]);
    lemma_escaped_scan(encode_utf8(c), seq![QUOTE, CLOSE_BRACKET]);
    assert(s.subrange(6 + n, 8 + n + body.len()) =~= lit);
    assert(s[8 + n + body.len()] == CLOSE_BRACKET);
    assert(s[6 + n] == QUOTE);
    crate::number::lemma_decimal(t / 1_000_000);
    assert(is_digit(s[1])) by {
        assert(s[1] == st[0]);
    }
}

proof fn lemma_event_line_round_trip(s: Seq<u8>)
    ensures
        forall|t: nat, d: Direction, c: Seq<char>|
            s == #[trigger] event_line(t, d, c) ==> event_fields(s) == Some(
                (
                    t,
                    d,
                    (6 + seconds_text(t).len()) as int,
                    (8 + seconds_text(t).len() + escaped(encode_utf8(c)).len()) as int,
                ),
            ),
{
    assert forall|t: nat, d: Direction, c: Seq<char>| s == #[trigger] event_line(t, d, c) implies event_fields(
        s,
    ) == Some(
        (
            t,
            d,
            (6 + seconds_text(t).len()) as int,
            (8 + seconds_text(t).len() + escaped(encode_utf8(c)).len()) as int,
        ),
    ) by {
        lemma_event_line_layout(t, d, c);
        assert(direction_of_tag(tag_byte(d)) == d);
    }
}

/// A written event line has the shape of an event line, with the time and
/// direction written, and its text literal is the quoted text.
pub proof fn lemma_written_line_fields(t: nat, d: Direction, c: Seq<char>)
    ensures
        event_fields(event_line(t, d, c)) is Some,
        event_fields(event_line(t, d, c))->Some_0.0 == t,
        event_fields(event_line(t, d, c))->Some_0.1 == d,
        text_literal(event_line(t, d, c)) == json_quote(encode_utf8(c)),
{
    let s = event_line(t, d, c);
    lemma_event_line_round_trip(s);
    lemma_event_line_layout(t, d, c);
}

/// An event line holds no line break: written one per line, events never
/// share a line.
pub proof fn lemma_event_line_single_line(t: nat, d: Direction, c: Seq<char>)
    ensures
        forall|k: int| 0 <= k < event_line(t, d, c).len() ==> #[trigger] event_line(t, d, c)[k] != NEWLINE,
{
    let s = event_line(t, d, c);
    let st = seconds_text(t);
    let n = st.len() as int;
    let body = escaped(encode_utf8(c));
    lemma_escaped_no_newline(encode_utf8(c));
    crate::number::lemma_decimal(t / 1_000_000);
    crate::number::lemma_padded(t % 1_000_000, 6);
    assert forall|k: int| 0 <= k < s.len() implies #[trigger] s[k] != NEWLINE by {
        if 1 <= k < 1 + n {
            assert(s[k] == st[k - 1]);
            let w = crate::number::decimal(t / 1_000_000);
            if k - 1 < w.len() {
                assert(st[k - 1] == w[k - 1]);
            } else if k - 1 > w.len() {
                assert(st[k - 1] == crate::number::padded(t % 1_000_000, 6)[k - 2 - w.len()]);
            }
        } else if 7 + n <= k < 7 + n + body.len() {
            assert(s[k] == body[k - 7 - n]);
        }
    }
}

} // verus!
