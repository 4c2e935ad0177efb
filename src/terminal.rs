//! The pseudo-terminal as plain values: its size, taken from the console
//! window; the console modes that make the console pass bytes through; and
//! the order in which its handles are released.
use vstd::prelude::*;

verus! {

pub const FALLBACK_WIDTH: i16 = 140;

pub const FALLBACK_HEIGHT: i16 = 80;

pub const ENABLE_PROCESSED_INPUT: u32 = 0x0001;

pub const ENABLE_LINE_INPUT: u32 = 0x0002;

pub const ENABLE_ECHO_INPUT: u32 = 0x0004;

pub const ENABLE_VIRTUAL_TERMINAL_INPUT: u32 = 0x0200;

pub const ENABLE_PROCESSED_OUTPUT: u32 = 0x0001;

pub const ENABLE_VIRTUAL_TERMINAL_PROCESSING: u32 = 0x0004;

/// The visible window of a console screen buffer, as inclusive cell
/// coordinates.
#[derive(PartialEq, Eq, Structural, Clone, Copy, Debug)]
pub struct ConsoleWindow {
    pub left: i16,
    pub top: i16,
    pub right: i16,
    pub bottom: i16,
}

/// Number of cells from `lo` to `hi`, both included.
pub open spec fn extent(lo: i16, hi: i16) -> int {
    hi - lo + 1
}

pub open spec fn usable(n: int) -> bool {
    1 <= n <= i16::MAX
}

/// The size of the pseudo-terminal: that of the console window when it could
/// be read and makes sense, else 140 by 80.
pub open spec fn console_size_spec(window: Option<ConsoleWindow>) -> (int, int) {
    match window {
        Some(w) => if usable(extent(w.left, w.right)) && usable(extent(w.top, w.bottom)) {
            (extent(w.left, w.right), extent(w.top, w.bottom))
        } else {
            (FALLBACK_WIDTH as int, FALLBACK_HEIGHT as int)
        },
        None => (FALLBACK_WIDTH as int, FALLBACK_HEIGHT as int),
    }
}

pub fn console_size(window: Option<ConsoleWindow>) -> (r: (i16, i16))
    ensures
        (r.0 as int, r.1 as int) == console_size_spec(window),
{
    match window {
        Some(w) => {
            let width: i32 = w.right as i32 - w.left as i32 + 1;
            let height: i32 = w.bottom as i32 - w.top as i32 + 1;
            if 1 <= width && width <= 32767 && 1 <= height && height <= 32767 {
                (width as i16, height as i16)
            } else {
                (FALLBACK_WIDTH, FALLBACK_HEIGHT)
            }
        },
        None => (FALLBACK_WIDTH, FALLBACK_HEIGHT),
    }
}

/// The input mode that delivers keys as bytes: no line buffering, no echo, no
/// processing of control keys, and terminal sequences passed through; other
/// flags stay as they were.
pub fn raw_input_mode(mode: u32) -> (r: u32)
    ensures
        r & ENABLE_ECHO_INPUT == 0,
        r & ENABLE_LINE_INPUT == 0,
        r & ENABLE_PROCESSED_INPUT == 0,
        r & ENABLE_VIRTUAL_TERMINAL_INPUT == ENABLE_VIRTUAL_TERMINAL_INPUT,
        r & !0x0207u32 == mode & !0x0207u32,
{
    let r = (mode & !(ENABLE_ECHO_INPUT | ENABLE_LINE_INPUT | ENABLE_PROCESSED_INPUT))
        | ENABLE_VIRTUAL_TERMINAL_INPUT;
    assert(r & 0x0004u32 == 0 && r & 0x0002u32 == 0 && r & 0x0001u32 == 0 && r & 0x0200u32
        == 0x0200u32 && r & !0x0207u32 == mode & !0x0207u32) by (bit_vector)
        requires
            r == (mode & !(0x0004u32 | 0x0002u32 | 0x0001u32)) | 0x0200u32,
    ;
    r
}

/// The output mode that interprets terminal sequences and control
/// characters; other flags stay as they were.
pub fn raw_output_mode(mode: u32) -> (r: u32)
    ensures
        r & ENABLE_PROCESSED_OUTPUT == ENABLE_PROCESSED_OUTPUT,
        r & ENABLE_VIRTUAL_TERMINAL_PROCESSING == ENABLE_VIRTUAL_TERMINAL_PROCESSING,
        r & !0x0005u32 == mode & !0x0005u32,
{
    let r = mode | ENABLE_PROCESSED_OUTPUT | ENABLE_VIRTUAL_TERMINAL_PROCESSING;
    assert(r & 0x0001u32 == 0x0001u32 && r & 0x0004u32 == 0x0004u32 && r & !0x0005u32 == mode
        & !0x0005u32) by (bit_vector)
        requires
            r == mode | 0x0001u32 | 0x0004u32,
    ;
    r
}

/// What the process attached to a pseudo-terminal is doing.
#[derive(PartialEq, Eq, Structural, Clone, Copy, Debug)]
pub enum ChildStatus {
    NotStarted,
    Running,
    Exited(u32),
}

/// A handle release, in the order a teardown performs them.
#[derive(PartialEq, Eq, Structural, Clone, Copy, Debug)]
pub enum Release {
    /// Close the pipe ends this process writes input to and reads output from.
    ClosePipes,
    /// Close the pseudo-console.
    ClosePseudoConsole,
    /// Close the handles of the child process and its main thread.
    CloseProcessHandles,
}

#[derive(PartialEq, Eq, Structural, Clone, Copy, Debug)]
pub enum TeardownError {
    /// The child still runs: the pseudo-console may not be closed under it.
    ChildRunning,
}

/// A pseudo-terminal: its size, the working directory of its child, and
/// where its child stands. The handles themselves live with the caller.
pub struct WindowsTerminal {
    width: i16,
    height: i16,
    cwd: String,
    child: ChildStatus,
}

impl WindowsTerminal {
    pub closed spec fn spec_cwd(&self) -> Seq<char> {
        self.cwd@
    }

    pub closed spec fn child(&self) -> ChildStatus {
        self.child
    }

    pub closed spec fn spec_width(&self) -> i16 {
        self.width
    }

    pub closed spec fn spec_height(&self) -> i16 {
        self.height
    }

    pub fn width(&self) -> (r: i16)
        ensures
            r == self.spec_width(),
    {
        self.width
    }

    pub fn height(&self) -> (r: i16)
        ensures
            r == self.spec_height(),
    {
        self.height
    }

    /// A pseudo-terminal for a child working in `cwd`, sized after the
    /// console window when it could be read.
    pub fn new(cwd: String, window: Option<ConsoleWindow>) -> (r: WindowsTerminal)
        ensures
            (r.spec_width() as int, r.spec_height() as int) == console_size_spec(window),
            r.spec_cwd() == cwd@,
            r.child() == ChildStatus::NotStarted,
    {
        let (width, height) = console_size(window);
        WindowsTerminal { width, height, cwd, child: ChildStatus::NotStarted }
    }

    pub fn cwd(&self) -> (r: &String)
        ensures
            r@ == self.spec_cwd(),
    {
        &self.cwd
    }

    /// Notes that the child has been started.
    pub fn child_started(&mut self)
        requires
            old(self).child() == ChildStatus::NotStarted,
        ensures
            final(self).child() == ChildStatus::Running,
            final(self).spec_cwd() == old(self).spec_cwd(),
            final(self).spec_width() == old(self).spec_width(),
            final(self).spec_height() == old(self).spec_height(),
    {
        self.child = ChildStatus::Running;
    }

    /// Notes that the child has exited with `code`.
    pub fn child_exited(&mut self, code: u32)
        requires
            old(self).child() == ChildStatus::Running,
        ensures
            final(self).child() == ChildStatus::Exited(code),
            final(self).spec_cwd() == old(self).spec_cwd(),
            final(self).spec_width() == old(self).spec_width(),
            final(self).spec_height() == old(self).spec_height(),
    {
        self.child = ChildStatus::Exited(code);
    }

    /// The releases that tear the pseudo-terminal down: pipes first, then the
    /// pseudo-console, then the child's handles if there is a child. Refused
    /// while the child runs.
    pub fn teardown(&self) -> (r: Result<Vec<Release>, TeardownError>)
        ensures
            self.child() == ChildStatus::Running <==> r is Err,
            self.child() == ChildStatus::NotStarted ==> (r matches Ok(v) && v@ == seq![
                Release::ClosePipes,
                Release::ClosePseudoConsole,
            ]),
            self.child() is Exited ==> (r matches Ok(v) && v@ == seq![
                Release::ClosePipes,
                Release::ClosePseudoConsole,
                Release::CloseProcessHandles,
            ]),
    {
        match self.child {
            ChildStatus::Running => Err(TeardownError::ChildRunning),
            ChildStatus::NotStarted => {
                let mut v: Vec<Release> = Vec::new();
                v.push(Release::ClosePipes);
                v.push(Release::ClosePseudoConsole);
                Ok(v)
            },
            ChildStatus::Exited(_) => {
                let mut v: Vec<Release> = Vec::new();
                v.push(Release::ClosePipes);
                v.push(Release::ClosePseudoConsole);
                v.push(Release::CloseProcessHandles);
                Ok(v)
            },
        }
    }
}

} // verus!
