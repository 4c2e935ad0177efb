//! Recording a session: which file to write, the environment to record, the
//! header, and what to do with each chunk of output the terminal produces.
use vstd::prelude::*;
use vstd::utf8::*;

use crate::event::{
    event_fields, event_line, event_to_line, lemma_event_line_single_line, lemma_written_line_fields,
    text_literal, Direction, Event, NEWLINE,
};
use crate::json::json_quote;
use crate::header::{
    copy_env, lemma_header_no_newline,
    env_model, header_line, header_to_line, names_unique, push_all, set_env_var, set_var, EnvVar,
    RecordHeader, FORMAT_VERSION,
};

verus! {

/// What to do with the target file before recording.
#[derive(PartialEq, Eq, Structural, Clone, Copy, Debug)]
pub enum TargetAction {
    /// The file does not exist: create it.
    Create,
    /// The file exists and may be overwritten: delete it, then create it.
    Replace,
    /// The file exists and may not be overwritten: leave it and stop.
    Refuse,
}

/// A recording never touches an existing file unless told to overwrite it.
pub fn check_record_target(exists: bool, overwrite: bool) -> (r: TargetAction)
    ensures
        r == (if !exists {
            TargetAction::Create
        } else if overwrite {
            TargetAction::Replace
        } else {
            TargetAction::Refuse
        }),
{
    if !exists {
        TargetAction::Create
    } else if overwrite {
        TargetAction::Replace
    } else {
        TargetAction::Refuse
    }
}

/// Where a recording stands.
#[derive(PartialEq, Eq, Structural, Clone, Copy, Debug)]
pub enum RecordState {
    Created,
    Recording,
    Finished,
}

/// What to do with a chunk of terminal output.
#[derive(Debug)]
pub enum ChunkAction {
    /// Append `line` to the recording and show `echo` on the terminal.
    Write { line: Vec<u8>, echo: Vec<u8> },
    /// The output has ended: the recording is complete.
    Finish,
    /// The output is not UTF-8 text: the recording stops.
    Abort,
}

/// Relies on String::from_utf8: it accepts exactly the valid UTF-8 byte
/// strings, and the text it gives is the one they encode.
#[verifier::external_body]
fn text_of(bytes: &[u8]) -> (r: Option<String>)
    ensures
        r is Some <==> valid_utf8(bytes@),
        r is Some ==> r->Some_0@ == decode_utf8(bytes@),
{
    String::from_utf8(bytes.to_vec()).ok()
}

/// The environment built from variables given in order, a later one winning.
pub open spec fn env_from(vars: Seq<(Seq<char>, Seq<char>)>) -> Seq<(Seq<char>, Seq<char>)>
    decreases vars.len(),
{
    if vars.len() == 0 {
        seq![]
    } else {
        set_var(env_from(vars.drop_last()), vars.last().0, vars.last().1)
    }
}

/// The command recorded when none is given: the shell named by `SHELL`, else
/// PowerShell.
pub open spec fn default_command(shell: Option<Seq<char>>) -> Seq<char> {
    match shell {
        Some(s) => s,
        None => "powershell.exe"@,
    }
}

/// The `TERM` to record: Windows Terminal when a session of it is running,
/// else the `TERM` in effect, if any.
pub open spec fn term_value(wt_session: Option<Seq<char>>, term: Option<Seq<char>>) -> Option<
    Seq<char>,
> {
    if wt_session is Some && wt_session->Some_0.len() > 0 {
        Some("windows-terminal"@)
    } else {
        term
    }
}

/// The environment written to the header: the given variables, then `SHELL`,
/// then `TERM` when there is one.
pub open spec fn recorded_env(
    env: Seq<(Seq<char>, Seq<char>)>,
    shell: Option<Seq<char>>,
    wt_session: Option<Seq<char>>,
    term: Option<Seq<char>>,
) -> Seq<(Seq<char>, Seq<char>)> {
    let with_shell = set_var(env, "SHELL"@, default_command(shell));
    match term_value(wt_session, term) {
        Some(t) => set_var(with_shell, "TERM"@, t),
        None => with_shell,
    }
}

/// Time of an event seen at `now`, for a recording that started at `start`
/// and whose last event came at `last`: never before the last one.
pub open spec fn event_time(start: nat, last: nat, now: nat) -> nat {
    let elapsed = if now >= start {
        (now - start) as nat
    } else {
        0
    };
    if elapsed >= last {
        elapsed
    } else {
        last
    }
}

pub open spec fn no_newline(line: Seq<u8>) -> bool {
    forall|k: int| 0 <= k < line.len() ==> line[k] != NEWLINE
}

/// A recording in progress.
pub struct Record {
    filename: String,
    env: Vec<EnvVar>,
    command: String,
    state: RecordState,
    start_us: u64,
    last_us: u64,
    lines: Ghost<Seq<Seq<u8>>>,
    times: Ghost<Seq<nat>>,
}

impl Record {
    pub closed spec fn spec_filename(&self) -> Seq<char> {
        self.filename@
    }

    pub closed spec fn spec_command(&self) -> Seq<char> {
        self.command@
    }

    pub closed spec fn spec_env(&self) -> Seq<(Seq<char>, Seq<char>)> {
        env_model(self.env@)
    }

    pub closed spec fn state(&self) -> RecordState {
        self.state
    }

    pub closed spec fn start(&self) -> nat {
        self.start_us as nat
    }

    pub closed spec fn last(&self) -> nat {
        self.last_us as nat
    }

    /// The lines written so far, each without its line break.
    pub closed spec fn lines(&self) -> Seq<Seq<u8>> {
        self.lines@
    }

    /// The times of the events written so far.
    pub closed spec fn times(&self) -> Seq<nat> {
        self.times@
    }

    /// No written line holds a line break, event times never run backwards,
    /// and the last of them is the latest time seen.
    pub closed spec fn wf(&self) -> bool {
        &&& names_unique(env_model(self.env@))
        &&& forall|k: int| 0 <= k < self.lines@.len() ==> no_newline(#[trigger] self.lines@[k])
        &&& forall|i: int, j: int|
            0 <= i <= j < self.times@.len() ==> self.times@[i] <= self.times@[j]
        &&& forall|k: int| 0 <= k < self.times@.len() ==> #[trigger] self.times@[k] <= self.last_us
        &&& self.state == RecordState::Created ==> self.lines@.len() == 0 && self.times@.len() == 0
        &&& self.state != RecordState::Created ==> self.lines@.len() == self.times@.len() + 1
    }

    /// Prepares a recording of `command` (else of the shell in `shell`, else
    /// of PowerShell) into `filename`, with the given variables.
    pub fn new(
        filename: String,
        env: Option<Vec<EnvVar>>,
        command: Option<String>,
        shell: Option<String>,
    ) -> (r: Record)
        ensures
            r.wf(),
            r.state() == RecordState::Created,
            r.spec_filename() == filename@,
            r.spec_env() == (match env {
                Some(v) => env_from(env_model(v@)),
                None => seq![],
            }),
            r.spec_command() == (match command {
                Some(c) => c@,
                None => default_command(
                    match shell {
                        Some(s) => Some(s@),
                        None => None,
                    },
                ),
            }),
    {
        let mut vars: Vec<EnvVar> = Vec::new();
        match env {
            Some(given) => {
                let ghost g = env_model(given@);
                let mut k: usize = 0;
                while k < given.len()
                    invariant
                        k <= given@.len(),
                        g == env_model(given@),
                        names_unique(env_model(vars@)),
                        env_model(vars@) == env_from(g.take(k as int)),
                    decreases given@.len() - k,
                {
                    assert(g.take(k + 1).drop_last() =~= g.take(k as int));
                    set_env_var(&mut vars, given[k].name.clone(), given[k].value.clone());
                    k = k + 1;
                }
                assert(g.take(k as int) =~= g);
            },
            None => {
                assert(env_model(vars@) =~= seq![]);
            },
        }
        let command = match command {
            Some(c) => c,
            None => match shell {
                Some(s) => s,
                None => "powershell.exe".to_owned(),
            },
        };
        Record {
            filename,
            env: vars,
            command,
            state: RecordState::Created,
            start_us: 0,
            last_us: 0,
            lines: Ghost(Seq::empty()),
            times: Ghost(Seq::empty()),
        }
    }

    pub fn filename(&self) -> (r: &String)
        ensures
            r@ == self.spec_filename(),
    {
        &self.filename
    }

    pub fn command(&self) -> (r: &String)
        ensures
            r@ == self.spec_command(),
    {
        &self.command
    }

    /// Adds `SHELL` and `TERM` to the recorded environment from the values in
    /// effect: `shell` is `SHELL`, `wt_session` is `WT_SESSION`, `term` is
    /// `TERM`.
    pub fn prepare_environment(
        &mut self,
        shell: Option<String>,
        wt_session: Option<String>,
        term: Option<String>,
    )
        requires
            old(self).wf(),
            old(self).state() == RecordState::Created,
        ensures
            final(self).wf(),
            final(self).state() == RecordState::Created,
            final(self).spec_filename() == old(self).spec_filename(),
            final(self).spec_command() == old(self).spec_command(),
            final(self).spec_env() == recorded_env(
                old(self).spec_env(),
                match shell {
                    Some(s) => Some(s@),
                    None => None,
                },
                match wt_session {
                    Some(s) => Some(s@),
                    None => None,
                },
                match term {
                    Some(s) => Some(s@),
                    None => None,
                },
            ),
    {
        let shell_value = match shell {
            Some(s) => s,
            None => "powershell.exe".to_owned(),
        };
        set_env_var(&mut self.env, "SHELL".to_owned(), shell_value);
        let in_windows_terminal = match &wt_session {
            Some(s) => !s.as_str().is_empty(),
            None => false,
        };
        if in_windows_terminal {
            set_env_var(&mut self.env, "TERM".to_owned(), "windows-terminal".to_owned());
        } else {
            match term {
                Some(t) => set_env_var(&mut self.env, "TERM".to_owned(), t),
                None => {},
            }
        }
    }

    /// Completes the environment from the values in effect, then starts
    /// recording; gives the header line to write first.
    pub fn execute(
        &mut self,
        shell: Option<String>,
        wt_session: Option<String>,
        term: Option<String>,
        start_us: u64,
        width: i16,
        height: i16,
    ) -> (r: Vec<u8>)
        requires
            old(self).wf(),
            old(self).state() == RecordState::Created,
        ensures
            final(self).wf(),
            final(self).state() == RecordState::Recording,
            final(self).start() == start_us,
            final(self).spec_command() == old(self).spec_command(),
            final(self).spec_filename() == old(self).spec_filename(),
            final(self).spec_env() == recorded_env(
                old(self).spec_env(),
                match shell {
                    Some(s) => Some(s@),
                    None => None,
                },
                match wt_session {
                    Some(s) => Some(s@),
                    None => None,
                },
                match term {
                    Some(s) => Some(s@),
                    None => None,
                },
            ),
            r@ == header_line(
                FORMAT_VERSION as nat,
                width as int,
                height as int,
                (start_us / 1_000_000) as nat,
                final(self).spec_env(),
            ) + seq![NEWLINE],
    {
        self.prepare_environment(shell, wt_session, term);
        self.begin(start_us, width, height)
    }

    /// Starts recording at `start_us` (microseconds since the Unix epoch) on a
    /// terminal of the given size; gives the header line to write first.
    pub fn begin(&mut self, start_us: u64, width: i16, height: i16) -> (r: Vec<u8>)
        requires
            old(self).wf(),
            old(self).state() == RecordState::Created,
        ensures
            final(self).wf(),
            final(self).state() == RecordState::Recording,
            final(self).start() == start_us,
            final(self).last() == 0,
            final(self).spec_env() == old(self).spec_env(),
            final(self).spec_filename() == old(self).spec_filename(),
            final(self).spec_command() == old(self).spec_command(),
            r@ == header_line(
                FORMAT_VERSION as nat,
                width as int,
                height as int,
                (start_us / 1_000_000) as nat,
                old(self).spec_env(),
            ) + seq![NEWLINE],
            final(self).lines() == seq![r@.drop_last()],
            final(self).times() == Seq::<nat>::empty(),
    {
        let header = RecordHeader {
            version: FORMAT_VERSION,
            width,
            height,
            timestamp: start_us / 1_000_000,
            environment: copy_env(&self.env),
        };
        let mut line = header_to_line(&header);
        proof {
            lemma_header_no_newline(
                header.version as nat,
                header.width as int,
                header.height as int,
                header.timestamp as nat,
                header.env(),
            );
        }
        let ghost written = line@;
        line.push(NEWLINE);
        self.state = RecordState::Recording;
        self.start_us = start_us;
        self.last_us = 0;
        self.lines = Ghost(Seq::empty().push(written));
        assert(line@.drop_last() =~= written);
        line
    }

    /// Handles a chunk of terminal output seen at `now_us` (microseconds since
    /// the Unix epoch). An empty chunk ends the output; text is written as an
    /// output event and shown; bytes that are not UTF-8 stop the recording.
    pub fn on_chunk(&mut self, chunk: &[u8], now_us: u64) -> (r: ChunkAction)
        requires
            old(self).wf(),
            old(self).state() == RecordState::Recording,
        ensures
            final(self).wf(),
            final(self).start() == old(self).start(),
            final(self).spec_env() == old(self).spec_env(),
            final(self).spec_command() == old(self).spec_command(),
            final(self).spec_filename() == old(self).spec_filename(),
            chunk@.len() == 0 ==> r is Finish && final(self).state() == RecordState::Finished
                && final(self).lines() == old(self).lines() && final(self).times() == old(self).times(),
            chunk@.len() > 0 && !valid_utf8(chunk@) ==> r is Abort && final(self).state()
                == RecordState::Finished && final(self).lines() == old(self).lines() && final(self).times() == old(self).times(),
            chunk@.len() > 0 && valid_utf8(chunk@) ==> ({
                let t = event_time(old(self).start(), old(self).last(), now_us as nat);
                let l = event_line(t, Direction::Output, decode_utf8(chunk@));
                &&& r matches ChunkAction::Write { line, echo } && line@ == l + seq![NEWLINE]
                    && echo@ == chunk@
                &&& final(self).state() == RecordState::Recording
                &&& final(self).last() == t
                &&& final(self).lines() == old(self).lines().push(l)
                &&& final(self).times() == old(self).times().push(t)
            }),
    {
        if chunk.len() == 0 {
            self.state = RecordState::Finished;
            return ChunkAction::Finish;
        }
        let text = match text_of(chunk) {
            Some(t) => t,
            None => {
                self.state = RecordState::Finished;
                return ChunkAction::Abort;
            },
        };
        let elapsed = if now_us >= self.start_us {
            now_us - self.start_us
        } else {
            0
        };
        let time_us = if elapsed >= self.last_us {
            elapsed
        } else {
            self.last_us
        };
        let event = Event { time_us, direction: Direction::Output, content: text };
        let mut line = event_to_line(&event);
        proof {
            lemma_event_line_single_line(time_us as nat, Direction::Output, event.content@);
        }
        let ghost written = line@;
        line.push(NEWLINE);
        let mut echo: Vec<u8> = Vec::new();
        push_all(&mut echo, chunk);
        self.last_us = time_us;
        self.lines = Ghost(self.lines@.push(written));
        self.times = Ghost(self.times@.push(time_us as nat));
        assert(echo@ =~= chunk@);
        ChunkAction::Write { line, echo }
    }
}


/// Recording keeps the bytes: a chunk of UTF-8 output is stored as its text,
/// and that text encodes back to exactly the chunk that was read.
pub proof fn lemma_chunk_text_round_trip(chunk: Seq<u8>)
    requires
        valid_utf8(chunk),
    ensures
        encode_utf8(decode_utf8(chunk)) == chunk,
{
    decode_utf8_encode_utf8(chunk);
}

/// Every line a recording has written is whole, and its events keep their
/// order in time: no line holds a line break, so each event occupies exactly
/// one line of the file.
pub proof fn lemma_lines_whole(r: Record)
    requires
        r.wf(),
    ensures
        forall|k: int| 0 <= k < r.lines().len() ==> no_newline(#[trigger] r.lines()[k]),
        forall|i: int, j: int|
            0 <= i <= j < r.times().len() ==> r.times()[i] <= r.times()[j],
        r.state() != RecordState::Created ==> r.lines().len() == r.times().len() + 1,
{
}

/// What recording writes for a chunk of output, playback gives back: the line
/// stands alone, reads back with the chunk's time and direction, and its text
/// literal quotes a text whose encoding is exactly the chunk's bytes.
pub proof fn lemma_recorded_chunk_plays_back(t: nat, chunk: Seq<u8>)
    requires
        valid_utf8(chunk),
    ensures
        no_newline(event_line(t, Direction::Output, decode_utf8(chunk))),
        event_fields(event_line(t, Direction::Output, decode_utf8(chunk))) is Some,
        event_fields(event_line(t, Direction::Output, decode_utf8(chunk)))->Some_0.0 == t,
        event_fields(event_line(t, Direction::Output, decode_utf8(chunk)))->Some_0.1
            == Direction::Output,
        text_literal(event_line(t, Direction::Output, decode_utf8(chunk))) == json_quote(
            encode_utf8(decode_utf8(chunk)),
        ),
        encode_utf8(decode_utf8(chunk)) == chunk,
{
    lemma_event_line_single_line(t, Direction::Output, decode_utf8(chunk));
    lemma_written_line_fields(t, Direction::Output, decode_utf8(chunk));
    decode_utf8_encode_utf8(chunk);
}

} // verus!
