use rust_study::shell::{
    built_in_kind, cd_target, parse_cmd, split_char, BuiltIn, ChildEvent, ExitDecision, FgDecision,
    JobNotice, ProcInfo, ProcState, ShellMsg, SpawnRefusal, Worker,
};

#[test]
fn parse_cmd_pipeline() {
    let cmds = parse_cmd("ls -l | grep  foo ").unwrap();
    assert_eq!(cmds, vec![("ls", vec!["-l"]), ("grep", vec!["foo"])]);
    let one = parse_cmd("  echo").unwrap();
    assert_eq!(one, vec![("echo", vec![])]);
}

#[test]
fn parse_cmd_empty_group() {
    assert_eq!(parse_cmd("ls |"), Err("Empty command group"));
    assert_eq!(parse_cmd("| ls"), Err("Empty command group"));
    assert_eq!(parse_cmd(""), Err("Empty command group"));
    assert_eq!(parse_cmd("a || b"), Err("Empty command group"));
}

#[test]
fn split_char_keeps_empty_pieces() {
    assert_eq!(split_char("a|b||c", '|'), vec!["a", "b", "", "c"]);
    assert_eq!(split_char("", '|'), vec![""]);
    assert_eq!(split_char("|", '|'), vec!["", ""]);
}

#[test]
fn built_in_kinds() {
    assert_eq!(built_in_kind(&parse_cmd("exit").unwrap()), Some(BuiltIn::Exit));
    assert_eq!(built_in_kind(&parse_cmd("jobs").unwrap()), Some(BuiltIn::Jobs));
    assert_eq!(built_in_kind(&parse_cmd("fg 1").unwrap()), Some(BuiltIn::Fg));
    assert_eq!(built_in_kind(&parse_cmd("cd /tmp").unwrap()), Some(BuiltIn::Cd));
    assert_eq!(built_in_kind(&parse_cmd("ls").unwrap()), None);
    assert_eq!(built_in_kind(&parse_cmd("exit | cat").unwrap()), None);
}

#[test]
fn cd_targets() {
    assert_eq!(cd_target(&["x"]), None);
    assert_eq!(cd_target(&["x", "/tmp"]), Some("/tmp"));
}

fn proc_in(pgid: i32) -> ProcInfo {
    ProcInfo { state: ProcState::Run, pgid }
}

#[test]
fn worker_job_life() {
    let mut w = Worker::new(100);
    assert_eq!(w.spawn_plan(1), Ok(0));
    w.start_job(0, 200, vec![(200, proc_in(200)), (201, proc_in(200))], "cat | wc");
    assert_eq!(w.foreground(), Some(200));
    assert_eq!(w.spawn_plan(2), Ok(1));
    assert_eq!(w.spawn_plan(3), Err(SpawnRefusal::TooManyCommands));

    // One process of the foreground job ends: nothing to report yet.
    assert!(matches!(w.child_event(ChildEvent::Exited(200, 0)), JobNotice::Unchanged));
    // The other stops: the job is stopped, the shell takes the terminal back.
    assert!(w.knows_pid(201));
    match w.child_event(ChildEvent::Stopped(201)) {
        JobNotice::Stopped(j, line) => {
            assert_eq!(j, 0);
            assert_eq!(line, "cat | wc");
        }
        other => panic!("unexpected {:?}", other),
    }
    assert_eq!(w.foreground(), None);
    assert_eq!(w.run_jobs(), vec![(0, true, "cat | wc".to_string())]);
    assert_eq!(w.exit_val(), 0);

    // exit is refused while a job exists.
    assert_eq!(w.run_exit(&["2", "3"]), ExitDecision::JobsRunning);
    assert_eq!(w.exit_val(), 1);

    // It runs again and ends by a signal in the background.
    assert!(matches!(w.child_event(ChildEvent::Continued(201)), JobNotice::Unchanged));
    assert_eq!(w.run_jobs(), vec![(0, false, "cat | wc".to_string())]);
    match w.child_event(ChildEvent::Signaled(201, 9, false)) {
        JobNotice::BackgroundFinished(j, line) => {
            assert_eq!(j, 0);
            assert_eq!(line, "cat | wc");
        }
        other => panic!("unexpected {:?}", other),
    }
    assert_eq!(w.exit_val(), 137);
    assert_eq!(w.run_jobs(), vec![]);
    assert_eq!(w.spawn_plan(1), Ok(0));
    assert!(!w.knows_pid(201));
    assert!(!w.has_proc(201));
    assert!(!w.has_proc(200));
    // A process id that the system gives out again can start a new job.
    w.start_job(0, 201, vec![(201, proc_in(201))], "true");
    assert!(w.has_proc(201));
}

#[test]
fn prompt_faces() {
    assert_eq!(rust_study::shell::prompt_face(0), '\u{1F642}');
    assert_eq!(rust_study::shell::prompt_face(1), '\u{1F480}');
}

#[test]
fn worker_foreground_job_finishes() {
    let mut w = Worker::new(7);
    w.start_job(0, 300, vec![(300, proc_in(300))], "sleep 1");
    w.start_job(1, 400, vec![(400, proc_in(400))], "sleep 2");
    assert_eq!(w.foreground(), Some(400));
    assert_eq!(
        w.run_jobs(),
        vec![(0, false, "sleep 1".to_string()), (1, false, "sleep 2".to_string())]
    );
    match w.child_event(ChildEvent::Exited(400, 5)) {
        JobNotice::Finished(j, line) => {
            assert_eq!(j, 1);
            assert_eq!(line, "sleep 2");
        }
        other => panic!("unexpected {:?}", other),
    }
    assert_eq!(w.exit_val(), 5);
    assert_eq!(w.foreground(), None);
    assert_eq!(w.shell_pgid(), 7);
    // An unknown process changes nothing.
    assert!(matches!(w.child_event(ChildEvent::Exited(999, 1)), JobNotice::Unchanged));
    assert_eq!(w.exit_val(), 1);
}

#[test]
fn worker_fg_and_exit() {
    let mut w = Worker::new(1);
    assert!(matches!(w.run_fg(&["1"]), FgDecision::Usage));
    assert!(matches!(w.run_fg(&["fg", "0"]), FgDecision::NotFound));
    w.start_job(0, 50, vec![(50, proc_in(50))], "vim");
    w.set_shell_fg();
    match w.run_fg(&["x", "+0"]) {
        FgDecision::Resume(j, g, cmd) => {
            assert_eq!((j, g), (0, 50));
            assert_eq!(cmd, "vim");
        }
        other => panic!("unexpected {:?}", other),
    }
    assert_eq!(w.foreground(), Some(50));
    assert!(matches!(w.run_fg(&["x", "-0"]), FgDecision::NotFound));
    assert!(matches!(w.run_fg(&["x", "a"]), FgDecision::NotFound));
    assert_eq!(w.exit_val(), 1);

    let mut e = Worker::new(1);
    assert_eq!(e.run_exit(&["exit"]), ExitDecision::Quit(0));
    assert_eq!(e.run_exit(&["a", "-12"]), ExitDecision::Quit(-12));
    assert_eq!(e.run_exit(&["a", "+7"]), ExitDecision::Quit(7));
    assert_eq!(e.run_exit(&["a", "x1"]), ExitDecision::NotInteger);
    assert_eq!(e.run_exit(&["a", "99999999999"]), ExitDecision::NotInteger);
    assert_eq!(e.exit_val(), 1);
    assert_eq!(e.run_exit(&[]), ExitDecision::Quit(1));
    assert_eq!(e.cd_done(true), ShellMsg::Continue(0));
    assert_eq!(e.cd_done(false), ShellMsg::Continue(1));
}
