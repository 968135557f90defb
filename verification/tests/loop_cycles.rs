use lorri::build_loop::{
    root_plan, AddRootError, BuildError, BuildLoop, CycleInput, Event, NotifyError, Project,
    UnrecoverableErrors,
};
use lorri::builder::{parse_build_output, Error, EvaluatorOutput, ExitInfo, Info};
use lorri::reduce::reduce_paths;

fn v(s: &[u8]) -> Vec<u8> {
    s.to_vec()
}

fn project() -> Project {
    Project {
        nix_file: v(b"/proj/shell.nix"),
        gc_root_dir: v(b"/gc"),
    }
}

fn output(stdout: &[u8], stderr: &[u8], code: i32) -> EvaluatorOutput {
    EvaluatorOutput {
        stdout: v(stdout),
        stderr: v(stderr),
        exec_result: ExitInfo {
            success: code == 0,
            code,
        },
    }
}

fn named_root<'a>(named: &'a [(Vec<u8>, Vec<u8>)], key: &[u8]) -> Option<&'a Vec<u8>> {
    named.iter().find(|p| p.0 == key).map(|p| &p.1)
}

#[test]
fn happy_path_roots_and_watch() {
    let mut bl = BuildLoop::new(&project());
    let out = output(
        b"/nix/store/aaa-shell.drv\n",
        b"evaluating file '/a.nix'\nevaluating file '/b.nix'\ntrace: lorri attribute: 'shell' -> '/nix/store/aaa-shell.drv'\n",
        0,
    );
    let r = bl.once(Ok(out), None);
    let res = r.expect("expected a completed build");
    assert_eq!(named_root(&res.named_drvs, b"shell"), Some(&v(b"/gc/attr-shell")));
    assert_eq!(res.drvs.len(), 1);
    assert_eq!(res.drvs[0], v(b"/gc/build-0"));
    assert!(bl.watched.contains(&v(b"/a.nix")));
    assert!(bl.watched.contains(&v(b"/b.nix")));
}

#[test]
fn copied_source_watches_the_source() {
    let mut bl = BuildLoop::new(&project());
    let out = output(b"", b"copied source '/src/x' -> '/nix/store/xxx-x'\n", 0);
    bl.once(Ok(out), None).expect("expected a completed build");
    assert!(bl.watched.contains(&v(b"/src/x")));
    assert!(!bl.watched.contains(&v(b"/nix/store/xxx-x")));
}

#[test]
fn evaluator_failure_preserves_log_lines() {
    let mut bl = BuildLoop::new(&project());
    let mut stderr: Vec<u8> = Vec::new();
    let mut expected: Vec<Vec<u8>> = Vec::new();
    for i in 0..10 {
        let line = format!("arbitrary text line {}", i);
        stderr.extend_from_slice(line.as_bytes());
        stderr.push(b'\n');
        expected.push(line.into_bytes());
    }
    let r = bl.once(Ok(output(b"", &stderr, 1)), None);
    match r {
        Err(BuildError::Recoverable(f)) => assert_eq!(f.log_lines, expected),
        other => panic!("expected a recoverable failure, got {:?}", other),
    }
}

#[test]
fn failure_then_next_cycle_continues() {
    let mut bl = BuildLoop::new(&project());
    let cycle = |code: i32| CycleInput {
        eval: Ok(output(b"", b"boom\n", code)),
        root_add: None,
        wait: Ok(()),
    };
    let mut sink: Vec<Event> = Vec::new();
    let aborted = bl.forever(vec![cycle(1), cycle(0)], &mut sink);
    assert!(aborted.is_none());
    assert_eq!(sink.len(), 4);
    assert!(matches!(sink[0], Event::Started));
    assert!(matches!(sink[1], Event::Failure(_)));
    assert!(matches!(sink[2], Event::Started));
    assert!(matches!(sink[3], Event::Completed(_)));
}

#[test]
fn non_utf8_line_lands_in_log_lines() {
    let mut bl = BuildLoop::new(&project());
    let bad = v(b"\xff\xfe not unicode");
    let mut stderr = bad.clone();
    stderr.push(b'\n');
    let r = bl.once(Ok(output(b"", &stderr, 1)), None);
    match r {
        Err(BuildError::Recoverable(f)) => assert_eq!(f.log_lines, vec![bad]),
        other => panic!("expected a recoverable failure, got {:?}", other),
    }
}

#[test]
fn burst_of_changes_coalesces_into_one_cycle() {
    // five change events during a build reach the loop as one completed
    // wait: the driver runs exactly one additional cycle, not five
    let mut bl = BuildLoop::new(&project());
    let cycle = || CycleInput {
        eval: Ok(output(b"", b"evaluating file '/a.nix'\n", 0)),
        root_add: None,
        wait: Ok(()),
    };
    let mut sink: Vec<Event> = Vec::new();
    let aborted = bl.forever(vec![cycle(), cycle()], &mut sink);
    assert!(aborted.is_none());
    let starts = sink.iter().filter(|e| matches!(e, Event::Started)).count();
    assert_eq!(starts, 2);
    assert_eq!(sink.len(), 4);
}

#[test]
fn duplicate_attribute_last_write_wins() {
    let out = output(
        b"",
        b"trace: lorri attribute: 'shell' -> '/nix/store/aaa-first.drv'\ntrace: lorri attribute: 'shell' -> '/nix/store/bbb-second.drv'\n",
        0,
    );
    let info = parse_build_output(&out);
    assert_eq!(info.named_drvs.len(), 1);
    assert_eq!(info.named_drvs[0].0, v(b"shell"));
    assert_eq!(info.named_drvs[0].1, v(b"/nix/store/bbb-second.drv"));
}

#[test]
fn spawn_failure_is_unrecoverable() {
    let mut bl = BuildLoop::new(&project());
    let r = bl.once(Err(Error::Io(String::from("no such executable"))), None);
    assert!(matches!(
        r,
        Err(BuildError::Unrecoverable(UnrecoverableErrors::Build(Error::Io(_))))
    ));
    assert!(bl.watched.is_empty());
}

#[test]
fn root_failure_is_unrecoverable() {
    let mut bl = BuildLoop::new(&project());
    let out = output(b"", b"evaluating file '/a.nix'\n", 0);
    let r = bl.once(
        Ok(out),
        Some(AddRootError {
            msg: String::from("permission denied"),
        }),
    );
    assert!(matches!(
        r,
        Err(BuildError::Unrecoverable(UnrecoverableErrors::AddRoot(_)))
    ));
    // a failed registration does not extend the watch set
    assert!(bl.watched.is_empty());
}

#[test]
fn watcher_failure_ends_the_session() {
    let mut bl = BuildLoop::new(&project());
    let cycles = vec![
        CycleInput {
            eval: Ok(output(b"", b"", 0)),
            root_add: None,
            wait: Err(NotifyError {
                msg: String::from("watch descriptor lost"),
            }),
        },
        CycleInput {
            eval: Ok(output(b"", b"", 0)),
            root_add: None,
            wait: Ok(()),
        },
    ];
    let mut sink: Vec<Event> = Vec::new();
    let aborted = bl.forever(cycles, &mut sink);
    assert!(matches!(aborted, Some(UnrecoverableErrors::Notify(_))));
    // the second cycle never ran
    assert_eq!(sink.len(), 2);
    assert!(matches!(sink[0], Event::Started));
    assert!(matches!(sink[1], Event::Completed(_)));
}

#[test]
fn unrecoverable_cycle_emits_started_alone() {
    let mut bl = BuildLoop::new(&project());
    let cycles = vec![CycleInput {
        eval: Err(Error::Io(String::from("spawn failed"))),
        root_add: None,
        wait: Ok(()),
    }];
    let mut sink: Vec<Event> = Vec::new();
    let aborted = bl.forever(cycles, &mut sink);
    assert!(matches!(
        aborted,
        Some(UnrecoverableErrors::Build(Error::Io(_)))
    ));
    assert_eq!(sink.len(), 1);
    assert!(matches!(sink[0], Event::Started));
}

#[test]
fn reduce_drops_dominated_and_repeated_paths() {
    let paths = vec![v(b"/a"), v(b"/a/b"), v(b"/c"), v(b"/a"), v(b"/ab")];
    let reduced = reduce_paths(&paths);
    assert_eq!(reduced, vec![v(b"/a"), v(b"/c"), v(b"/ab")]);
    // idempotent: reducing the reduction changes nothing
    assert_eq!(reduce_paths(&reduced), reduced);
}

#[test]
fn watch_set_only_grows() {
    let mut bl = BuildLoop::new(&project());
    bl.once(Ok(output(b"", b"evaluating file '/a.nix'\n", 0)), None)
        .expect("expected a completed build");
    let first = bl.watched.clone();
    bl.once(Ok(output(b"", b"evaluating file '/b.nix'\n", 0)), None)
        .expect("expected a completed build");
    assert_eq!(&bl.watched[..first.len()], &first[..]);
    assert!(bl.watched.contains(&v(b"/b.nix")));
    // repeated discovery adds nothing
    let snapshot = bl.watched.clone();
    bl.once(Ok(output(b"", b"evaluating file '/a.nix'\n", 0)), None)
        .expect("expected a completed build");
    assert_eq!(bl.watched, snapshot);
}

#[test]
fn plan_names_follow_the_discipline() {
    let mut drvs: Vec<Vec<u8>> = Vec::new();
    for i in 0..11 {
        drvs.push(format!("/nix/store/drv-{}", i).into_bytes());
    }
    let info = Info {
        exec_result: ExitInfo {
            success: true,
            code: 0,
        },
        named_drvs: vec![(v(b"shell"), v(b"/nix/store/aaa-shell.drv"))],
        drvs,
        paths: Vec::new(),
        log_lines: Vec::new(),
    };
    let plan = root_plan(&info);
    assert_eq!(plan.len(), 12);
    assert_eq!(plan[0].0, v(b"attr-shell"));
    assert_eq!(plan[0].1, v(b"/nix/store/aaa-shell.drv"));
    assert_eq!(plan[1].0, v(b"build-0"));
    assert_eq!(plan[11].0, v(b"build-10"));
    assert_eq!(plan[11].1, v(b"/nix/store/drv-10"));
}

#[test]
fn stdout_lines_become_positional_artifacts() {
    let out = output(b"/nix/store/one.drv\n/nix/store/two.drv\n", b"", 0);
    let info = parse_build_output(&out);
    assert_eq!(info.drvs, vec![v(b"/nix/store/one.drv"), v(b"/nix/store/two.drv")]);
    assert!(info.paths.is_empty());
    assert!(info.log_lines.is_empty());
}

#[test]
fn forever_threads_the_watch_set_across_cycles() {
    let mut bl = BuildLoop::new(&project());
    let cycle = |stderr: &[u8]| CycleInput {
        eval: Ok(output(b"", stderr, 0)),
        root_add: None,
        wait: Ok(()),
    };
    let mut sink: Vec<Event> = Vec::new();
    let aborted = bl.forever(
        vec![
            cycle(b"evaluating file '/a.nix'\n"),
            cycle(b"evaluating file '/b.nix'\n"),
        ],
        &mut sink,
    );
    assert!(aborted.is_none());
    assert_eq!(bl.watched, vec![v(b"/a.nix"), v(b"/b.nix")]);
}
