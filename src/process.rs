//! Launching the child process of a pseudo-terminal, step by step: the
//! caller performs each step with the operating system and reports how it
//! went; the launch decides what comes next. The attribute list that binds the
//! pseudo-console is allocated once and released exactly once, after process
//! creation returns or as soon as an earlier step fails.
use vstd::prelude::*;

verus! {

/// The next thing to do with the operating system.
#[derive(PartialEq, Eq, Structural, Clone, Copy, Debug)]
pub enum LaunchStep {
    /// Ask how many bytes an attribute list with one attribute needs.
    ProbeAttributeListSize,
    /// Allocate a buffer of `size` bytes and initialise it as an attribute
    /// list with room for one attribute.
    InitializeAttributeList { size: usize },
    /// Put the pseudo-console into the attribute list.
    BindPseudoConsole,
    /// Create the process with the attribute list, extended startup
    /// information and a Unicode environment.
    CreateProcess,
    /// Release the attribute list and its buffer.
    ReleaseAttributeList,
    /// The child runs.
    Launched,
    /// The launch failed; nothing is left to release.
    Failed,
}

pub open spec fn is_final(step: LaunchStep) -> bool {
    step == LaunchStep::Launched || step == LaunchStep::Failed
}

/// The step that follows a probe: a size is needed, and the probe must fail
/// as it does by design when given no list.
pub open spec fn after_probe(succeeded: bool, size: usize) -> LaunchStep {
    if succeeded || size == 0 {
        LaunchStep::Failed
    } else {
        LaunchStep::InitializeAttributeList { size }
    }
}

/// The step that follows any other step; a failure goes straight to the
/// release, and no step is ever tried twice.
pub open spec fn after_step(step: LaunchStep, succeeded: bool, created: bool) -> LaunchStep {
    match step {
        LaunchStep::InitializeAttributeList { .. } => if succeeded {
            LaunchStep::BindPseudoConsole
        } else {
            LaunchStep::ReleaseAttributeList
        },
        LaunchStep::BindPseudoConsole => if succeeded {
            LaunchStep::CreateProcess
        } else {
            LaunchStep::ReleaseAttributeList
        },
        LaunchStep::CreateProcess => LaunchStep::ReleaseAttributeList,
        _ => if created {
            LaunchStep::Launched
        } else {
            LaunchStep::Failed
        },
    }
}

/// A child process being launched, then running, then done.
pub struct Process {
    command: String,
    working_dir: String,
    step: LaunchStep,
    allocated: bool,
    created: bool,
    exit_code: Option<u32>,
    releases: Ghost<nat>,
}

impl Process {
    pub closed spec fn step(&self) -> LaunchStep {
        self.step
    }

    pub closed spec fn spec_command(&self) -> Seq<char> {
        self.command@
    }

    pub closed spec fn spec_working_dir(&self) -> Seq<char> {
        self.working_dir@
    }

    /// Whether the attribute list buffer has been allocated.
    pub closed spec fn allocated(&self) -> bool {
        self.allocated
    }

    /// Whether process creation succeeded.
    pub closed spec fn created(&self) -> bool {
        self.created
    }

    /// How many times the attribute list has been released.
    pub closed spec fn releases(&self) -> nat {
        self.releases@
    }

    pub closed spec fn spec_exit_code(&self) -> Option<u32> {
        self.exit_code
    }

    /// The buffer is live exactly between its allocation and its release; it
    /// is released once at most, and once for sure by the end; the child
    /// exists only if creation succeeded.
    pub closed spec fn wf(&self) -> bool {
        &&& self.releases@ <= 1
        &&& self.releases@ == 1 ==> self.allocated
        &&& match self.step {
            LaunchStep::ProbeAttributeListSize => !self.allocated && !self.created,
            LaunchStep::InitializeAttributeList { .. } => !self.allocated && !self.created,
            LaunchStep::BindPseudoConsole => self.allocated && self.releases@ == 0
                && !self.created,
            LaunchStep::CreateProcess => self.allocated && self.releases@ == 0 && !self.created,
            LaunchStep::ReleaseAttributeList => self.allocated && self.releases@ == 0,
            LaunchStep::Launched => self.created && self.allocated && self.releases@ == 1,
            LaunchStep::Failed => !self.created && (self.allocated <==> self.releases@ == 1),
        }
        &&& self.exit_code is Some ==> self.step == LaunchStep::Launched
    }

    pub fn pending(&self) -> (r: LaunchStep)
        ensures
            r == self.step(),
    {
        self.step
    }

    pub fn command(&self) -> (r: &String)
        ensures
            r@ == self.spec_command(),
    {
        &self.command
    }

    pub fn working_dir(&self) -> (r: &String)
        ensures
            r@ == self.spec_working_dir(),
    {
        &self.working_dir
    }

    /// Takes the outcome of the size probe.
    pub fn probe_done(&mut self, succeeded: bool, size: usize)
        requires
            old(self).wf(),
            old(self).step() == LaunchStep::ProbeAttributeListSize,
        ensures
            final(self).wf(),
            final(self).step() == after_probe(succeeded, size),
            final(self).releases() == 0,
            final(self).created() == old(self).created(),
            final(self).allocated() == old(self).allocated(),
            final(self).spec_command() == old(self).spec_command(),
            final(self).spec_working_dir() == old(self).spec_working_dir(),
    {
        if succeeded || size == 0 {
            self.step = LaunchStep::Failed;
        } else {
            self.step = LaunchStep::InitializeAttributeList { size };
        }
    }

    /// Takes the outcome of the pending step, other than the probe.
    pub fn step_done(&mut self, succeeded: bool)
        requires
            old(self).wf(),
            old(self).step() != LaunchStep::ProbeAttributeListSize,
            !is_final(old(self).step()),
        ensures
            final(self).wf(),
            final(self).step() == after_step(old(self).step(), succeeded, final(self).created()),
            final(self).created() == (old(self).created() || (old(self).step()
                == LaunchStep::CreateProcess && succeeded)),
            final(self).allocated() == (old(self).allocated() || old(self).step() is InitializeAttributeList),
            final(self).releases() == old(self).releases() + (if old(self).step()
                == LaunchStep::ReleaseAttributeList {
                1nat
            } else {
                0nat
            }),
            final(self).spec_command() == old(self).spec_command(),
            final(self).spec_working_dir() == old(self).spec_working_dir(),
    {
        match self.step {
            LaunchStep::InitializeAttributeList { .. } => {
                self.allocated = true;
                if succeeded {
                    self.step = LaunchStep::BindPseudoConsole;
                } else {
                    self.step = LaunchStep::ReleaseAttributeList;
                }
            },
            LaunchStep::BindPseudoConsole => {
                if succeeded {
                    self.step = LaunchStep::CreateProcess;
                } else {
                    self.step = LaunchStep::ReleaseAttributeList;
                }
            },
            LaunchStep::CreateProcess => {
                self.created = succeeded;
                self.step = LaunchStep::ReleaseAttributeList;
            },
            _ => {
                self.releases = Ghost(self.releases@ + 1);
                if self.created {
                    self.step = LaunchStep::Launched;
                } else {
                    self.step = LaunchStep::Failed;
                }
            },
        }
    }

    /// Takes the exit status of the child once it has ended.
    pub fn exited(&mut self, code: u32)
        requires
            old(self).wf(),
            old(self).step() == LaunchStep::Launched,
        ensures
            final(self).wf(),
            final(self).step() == LaunchStep::Launched,
            final(self).spec_exit_code() == Some(code),
    {
        self.exit_code = Some(code);
    }

    pub fn exit_code(&self) -> (r: Option<u32>)
        ensures
            r == self.spec_exit_code(),
    {
        self.exit_code
    }
}

/// Starts launching `command` in `working_dir`: the first step is the probe.
pub fn start_process(command: &str, working_dir: &str) -> (r: Process)
    ensures
        r.wf(),
        r.step() == LaunchStep::ProbeAttributeListSize,
        r.releases() == 0,
        !r.created(),
        !r.allocated(),
        r.spec_exit_code() is None,
        r.spec_command() == command@,
        r.spec_working_dir() == working_dir@,
{
    Process {
        command: command.to_owned(),
        working_dir: working_dir.to_owned(),
        step: LaunchStep::ProbeAttributeListSize,
        allocated: false,
        created: false,
        exit_code: None,
        releases: Ghost(0),
    }
}

/// Whatever the operating system reports, a launch that has ended has
/// released the attribute list exactly once if it allocated one, and a child
/// runs only if creation succeeded.
pub proof fn lemma_launch_end(p: Process)
    requires
        p.wf(),
        is_final(p.step()),
    ensures
        p.releases() == (if p.allocated() {
            1nat
        } else {
            0nat
        }),
        p.step() == LaunchStep::Launched <==> p.created(),
{
}

} // verus!
