//! Playing a recording back: the header is read first, then each event line
//! gives the text to show and how long to wait before showing it.
use vstd::prelude::*;
use vstd::utf8::*;

use crate::event::{event_fields, event_line, parse_event_line, text_literal, Direction, FormatError};
use crate::json::{json_quote, literal_flaw};
use crate::header::{header_numbers, is_header_line, parse_header_line, RecordHeader};

verus! {

/// Why playback cannot start.
#[derive(PartialEq, Eq, Structural, Clone, Copy, Debug)]
pub enum PlayError {
    /// The recording file does not exist.
    Missing,
    /// The recording has no header line.
    Empty,
    /// The header line cannot be read.
    BadHeader(FormatError),
}

/// Playback starts only on a recording that exists.
pub fn check_play_target(exists: bool) -> (r: Result<(), PlayError>)
    ensures
        r is Ok <==> exists,
        r is Err ==> r == Err::<(), PlayError>(PlayError::Missing),
{
    if exists {
        Ok(())
    } else {
        Err(PlayError::Missing)
    }
}

/// Wait before an event at `current`, after one at `previous`; a time that
/// runs backwards waits for nothing.
pub open spec fn gap(previous: nat, current: nat) -> nat {
    if current >= previous {
        (current - previous) as nat
    } else {
        0
    }
}

/// Waits before each of a run of events: none before the first, then the time
/// since the one before.
pub open spec fn delays(times: Seq<nat>) -> Seq<nat> {
    Seq::new(times.len(), |k: int| if k == 0 { 0 } else { gap(times[k - 1], times[k]) })
}

pub open spec fn sum_prefix(d: Seq<nat>, k: int) -> nat
    decreases k,
{
    if k <= 0 || k > d.len() {
        0
    } else {
        sum_prefix(d, k - 1) + d[k - 1]
    }
}

pub open spec fn non_decreasing(times: Seq<nat>) -> bool {
    forall|i: int, j: int| 0 <= i <= j < times.len() ==> times[i] <= times[j]
}

/// Waits come from the times themselves, not from adding up earlier waits:
/// for times that never run backwards, the waits up to an event add up to its
/// time since the first event.
pub proof fn lemma_delays_track_times(times: Seq<nat>, k: int)
    requires
        non_decreasing(times),
        0 <= k < times.len(),
    ensures
        sum_prefix(delays(times), k + 1) == times[k] - times[0],
    decreases k,
{
    let d = delays(times);
    assert(sum_prefix(d, k + 1) == sum_prefix(d, k) + d[k]);
    if k > 0 {
        lemma_delays_track_times(times, k - 1);
        assert(times[k - 1] <= times[k]);
        assert(d[k] == times[k] - times[k - 1]);
    } else {
        assert(sum_prefix(d, 0) == 0);
        assert(d[0] == 0);
    }
}

/// The waits of a run of events, in microseconds.
pub fn relative_delays(times: &Vec<u64>) -> (r: Vec<u64>)
    ensures
        r@.len() == times@.len(),
        forall|k: int| 0 <= k < r@.len() ==> r@[k] == delays(times@.map_values(|t: u64| t as nat))[k],
{
    let mut out: Vec<u64> = Vec::new();
    let mut k: usize = 0;
    while k < times.len()
        invariant
            k <= times@.len(),
            out@.len() == k,
            forall|m: int| 0 <= m < k ==> out@[m] == delays(times@.map_values(|t: u64| t as nat))[m],
        decreases times@.len() - k,
    {
        let d = if k == 0 {
            0
        } else if times[k] >= times[k - 1] {
            times[k] - times[k - 1]
        } else {
            0
        };
        out.push(d);
        k = k + 1;
    }
    out
}

/// What to show next, after how long a wait.
#[derive(Debug)]
pub struct Frame {
    pub delay_us: u64,
    pub direction: Direction,
    pub text: String,
}

impl Frame {
    /// The bytes to write to the terminal.
    pub fn bytes(&self) -> (r: &[u8])
        ensures
            r@ == encode_utf8(self.text@),
    {
        self.text.as_str().as_bytes()
    }
}

/// A recording being played: its header, and the time of the last event shown.
pub struct Play {
    header: RecordHeader,
    previous_us: u64,
    started: bool,
}

impl Play {
    pub closed spec fn previous(&self) -> nat {
        self.previous_us as nat
    }

    pub closed spec fn started(&self) -> bool {
        self.started
    }

    pub closed spec fn spec_header(&self) -> RecordHeader {
        self.header
    }

    /// The header read when playback opened.
    pub fn header(&self) -> (r: &RecordHeader)
        ensures
            *r == self.spec_header(),
    {
        &self.header
    }

    /// Opens playback on the first line of a recording, if there is one.
    pub fn new(first_line: Option<&[u8]>) -> (r: Result<Play, PlayError>)
        ensures
            first_line is None ==> r == Err::<Play, PlayError>(PlayError::Empty),
            r matches Ok(p) ==> !p.started() && p.spec_header().wf(),
            first_line is Some && header_numbers(first_line->Some_0@) is None ==> r matches Err(
                PlayError::BadHeader(_),
            ),
            r matches Ok(p) ==> first_line is Some && header_numbers(first_line->Some_0@) == Some(
                (
                    p.spec_header().version as nat,
                    p.spec_header().width as int,
                    p.spec_header().height as int,
                    p.spec_header().timestamp as nat,
                ),
            ),
            forall|v: nat, w: int, h: int, t: nat, env: Seq<(Seq<char>, Seq<char>)>|
                (first_line is Some && #[trigger] is_header_line(first_line->Some_0@, v, w, h, t, env)) ==> (
                r matches Ok(p) && p.spec_header().version == v && p.spec_header().width == w
                    && p.spec_header().height == h && p.spec_header().timestamp == t
                    && p.spec_header().env() == env),
    {
        match first_line {
            None => Err(PlayError::Empty),
            Some(line) => match parse_header_line(line) {
                Ok(header) => Ok(Play { header, previous_us: 0, started: false }),
                Err(e) => Err(PlayError::BadHeader(e)),
            },
        }
    }

    /// Reads the next event line and says what to show and after how long a
    /// wait: none for the first event, then the time since the event before.
    pub fn next_frame(&mut self, line: &[u8]) -> (r: Result<Frame, FormatError>)
        ensures
            final(self).spec_header() == old(self).spec_header(),
            r is Err ==> final(self).previous() == old(self).previous() && final(self).started()
                == old(self).started(),
            r matches Ok(f) ==> final(self).started() && f.delay_us == (if old(self).started() {
                gap(old(self).previous(), final(self).previous())
            } else {
                0
            }),
            forall|t: nat, d: Direction, c: Seq<char>|
                t <= u64::MAX && line@ == #[trigger] event_line(t, d, c) ==> (r matches Ok(f)
                    && f.text@ == c && f.direction == d && final(self).previous() == t),
            event_fields(line@) is None ==> r is Err,
            event_fields(line@) is Some && literal_flaw(text_literal(line@)) ==> r is Err,
            r matches Ok(f) ==> (event_fields(line@) is Some && final(self).previous()
                == event_fields(line@)->Some_0.0 && f.direction == event_fields(line@)->Some_0.1),
            forall|c: Seq<char>|
                event_fields(line@) is Some && event_fields(line@)->Some_0.0 <= u64::MAX
                    && text_literal(line@) == #[trigger] json_quote(encode_utf8(c)) ==> (r matches Ok(
                    f,
                ) && f.text@ == c),
    {
        match parse_event_line(line) {
            Err(e) => Err(e),
            Ok(event) => {
                let delay_us = if !self.started {
                    0
                } else if event.time_us >= self.previous_us {
                    event.time_us - self.previous_us
                } else {
                    0
                };
                self.previous_us = event.time_us;
                self.started = true;
                Ok(Frame { delay_us, direction: event.direction, text: event.content })
            },
        }
    }
}

} // verus!
