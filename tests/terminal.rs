use powersession::process::{start_process, LaunchStep};
use powersession::terminal::{
    console_size, raw_input_mode, raw_output_mode, ChildStatus, ConsoleWindow, Release, TeardownError,
    WindowsTerminal,
};

#[test]
fn console_size_from_window() {
    let w = ConsoleWindow { left: 0, top: 10, right: 119, bottom: 39 };
    assert_eq!(console_size(Some(w)), (120, 30));
}

#[test]
fn console_size_falls_back() {
    assert_eq!(console_size(None), (140, 80));
    let w = ConsoleWindow { left: 5, top: 0, right: 4, bottom: 10 };
    assert_eq!(console_size(Some(w)), (140, 80));
    let w = ConsoleWindow { left: -32768, top: 0, right: 32767, bottom: 10 };
    assert_eq!(console_size(Some(w)), (140, 80));
}

#[test]
fn raw_modes() {
    assert_eq!(raw_input_mode(0x01f7), 0x03f0);
    assert_eq!(raw_input_mode(0), 0x0200);
    assert_eq!(raw_output_mode(0x0002), 0x0007);
    assert_eq!(raw_output_mode(0xffff_fff0), 0xffff_fff5);
}

#[test]
fn terminal_teardown_order() {
    let mut t = WindowsTerminal::new("C:\\work".to_string(), None);
    assert_eq!((t.width(), t.height()), (140, 80));
    assert_eq!(t.cwd(), "C:\\work");
    assert_eq!(t.teardown(), Ok(vec![Release::ClosePipes, Release::ClosePseudoConsole]));
    t.child_started();
    assert_eq!(t.teardown(), Err(TeardownError::ChildRunning));
    t.child_exited(3);
    assert_eq!(
        t.teardown(),
        Ok(vec![Release::ClosePipes, Release::ClosePseudoConsole, Release::CloseProcessHandles])
    );
    let _ = ChildStatus::Exited(3);
}

#[test]
fn launch_succeeds() {
    let mut p = start_process("cmd.exe", "C:\\");
    assert_eq!(p.command(), "cmd.exe");
    assert_eq!(p.working_dir(), "C:\\");
    assert_eq!(p.pending(), LaunchStep::ProbeAttributeListSize);
    p.probe_done(false, 48);
    assert_eq!(p.pending(), LaunchStep::InitializeAttributeList { size: 48 });
    p.step_done(true);
    assert_eq!(p.pending(), LaunchStep::BindPseudoConsole);
    p.step_done(true);
    assert_eq!(p.pending(), LaunchStep::CreateProcess);
    p.step_done(true);
    assert_eq!(p.pending(), LaunchStep::ReleaseAttributeList);
    p.step_done(true);
    assert_eq!(p.pending(), LaunchStep::Launched);
    p.exited(7);
    assert_eq!(p.exit_code(), Some(7));
}

#[test]
fn launch_failures_release_once() {
    let mut p = start_process("x", "y");
    p.probe_done(true, 48);
    assert_eq!(p.pending(), LaunchStep::Failed);
    let mut p = start_process("x", "y");
    p.probe_done(false, 0);
    assert_eq!(p.pending(), LaunchStep::Failed);
    let mut p = start_process("x", "y");
    p.probe_done(false, 8);
    p.step_done(true);
    p.step_done(false);
    assert_eq!(p.pending(), LaunchStep::ReleaseAttributeList);
    p.step_done(true);
    assert_eq!(p.pending(), LaunchStep::Failed);
    let mut p = start_process("x", "y");
    p.probe_done(false, 8);
    p.step_done(true);
    p.step_done(true);
    p.step_done(false);
    assert_eq!(p.pending(), LaunchStep::ReleaseAttributeList);
    p.step_done(true);
    assert_eq!(p.pending(), LaunchStep::Failed);
}
