use buildq::freshness::Freshness;
use buildq::job_queue::{
    warning_lines, Action, BuildError, Event, JobError, JobQueue, StatusKind, WarningLine,
};
use buildq::unit::{CompileMode, Job, Key, Kind, Target, TargetKind, Unit};

fn unit(pkg: u64, target_id: u64, kind: TargetKind, mode: CompileMode) -> Unit {
    Unit { pkg, target: Target { id: target_id, kind }, profile: 0, kind: Kind::Host, mode }
}

fn drive_actions(acts: &[Action], events: &mut Vec<Event>) {
    // Stand in for the embedding program: grant every requested token and
    // pretend every dispatched job succeeds.
    for a in acts {
        match a {
            Action::RequestToken => events.push(Event::Token(Ok(()))),
            Action::RunInline(k, _) | Action::Spawn(k, _) => {
                events.push(Event::Finish(*k, Ok(())));
            }
            _ => {}
        }
    }
}

#[test]
fn leaf_runs_before_root() {
    // Scenario: leaf (no deps, Dirty) and root (depends on leaf, Dirty).
    let leaf = unit(1, 1, TargetKind::Lib, CompileMode::Build);
    let root = unit(2, 2, TargetKind::Bin, CompileMode::Build);
    let mut q = JobQueue::new(false, false);
    q.enqueue(&leaf, &vec![], Job { id: 10 }, Freshness::Dirty).unwrap();
    q.enqueue(&root, &vec![leaf], Job { id: 20 }, Freshness::Dirty).unwrap();
    q.start();

    let acts = q.schedule();
    // Only the leaf is unblocked; the root must not be dispatched yet.
    let spawned: Vec<u64> = acts
        .iter()
        .filter_map(|a| match a {
            Action::Spawn(k, _) | Action::RunInline(k, _) => Some(k.pkg),
            _ => None,
        })
        .collect();
    assert_eq!(spawned, vec![1]);

    // The leaf finishes; only then is the root dequeued and dispatched.
    let acts2 = q.on_event(Event::Finish(Key::new(&leaf), Ok(())), false);
    assert!(acts2.is_empty());
    let acts3 = q.schedule();
    let spawned3: Vec<u64> = acts3
        .iter()
        .filter_map(|a| match a {
            Action::Spawn(k, _) | Action::RunInline(k, _) => Some(k.pkg),
            _ => None,
        })
        .collect();
    assert_eq!(spawned3, vec![2]);

    q.on_event(Event::Finish(Key::new(&root), Ok(())), false);
    let final_acts = q.schedule();
    assert!(final_acts.is_empty());
    assert!(q.done());
    // Both packages were reported as compiled.
    assert!(q.compiled.contains(&1));
    assert!(q.compiled.contains(&2));
    assert!(q.outcome().is_ok());
}

#[test]
fn fresh_unit_runs_inline() {
    // Scenario: one Fresh unit with no deps: no worker is spawned, and as
    // the package's only job the verbose "Fresh" line is the only report.
    let x = unit(7, 1, TargetKind::Lib, CompileMode::Build);
    let mut q = JobQueue::new(false, false);
    q.enqueue(&x, &vec![], Job { id: 1 }, Freshness::Fresh).unwrap();
    q.start();
    let acts = q.schedule();
    let mut saw_inline = false;
    let mut reports = Vec::new();
    for a in &acts {
        match a {
            Action::Spawn(_, _) => panic!("a fresh job must not need a worker"),
            Action::RunInline(k, j) => {
                assert_eq!(k.pkg, 7);
                assert_eq!(j.id, 1);
                saw_inline = true;
            }
            Action::Report(kind, pkg) => reports.push((*kind, *pkg)),
            _ => {}
        }
    }
    assert!(saw_inline);
    assert_eq!(reports, vec![(StatusKind::Fresh, 7)]);
    q.on_event(Event::Finish(Key::new(&x), Ok(())), false);
    assert!(q.done());
    assert!(q.outcome().is_ok());
}

#[test]
fn partial_failure_drains_and_returns_first_error() {
    // Scenario: A independent and slow, B fails fast, C depends on B.
    // A runs to completion, C is never dispatched, and B's error comes
    // back as the result.
    let a = unit(1, 1, TargetKind::Lib, CompileMode::Build);
    let b = unit(2, 2, TargetKind::Lib, CompileMode::Build);
    let c = unit(3, 3, TargetKind::Lib, CompileMode::Build);
    let mut q = JobQueue::new(false, false);
    q.enqueue(&a, &vec![], Job { id: 1 }, Freshness::Dirty).unwrap();
    q.enqueue(&b, &vec![], Job { id: 2 }, Freshness::Dirty).unwrap();
    q.enqueue(&c, &vec![b], Job { id: 3 }, Freshness::Dirty).unwrap();
    q.start();

    let acts = q.schedule();
    // A is dispatched at once; a token was requested for B.
    assert!(acts.iter().any(|x| matches!(x, Action::Spawn(k, _) if k.pkg == 1)));
    assert!(acts.iter().any(|x| matches!(x, Action::RequestToken)));
    q.on_event(Event::Token(Ok(())), false);
    let acts2 = q.schedule();
    assert!(acts2.iter().any(|x| matches!(x, Action::Spawn(k, _) if k.pkg == 2)));

    // B fails while A still runs: the error is recorded, a notice asks
    // for patience, and scheduling stops launching new work.
    let fail = q.on_event(
        Event::Finish(Key::new(&b), Err(JobError { message: "compiler exited".to_string() })),
        false,
    );
    assert!(fail.iter().any(|x| matches!(x, Action::EmitWarnings { framed: true, .. })));
    assert!(fail.iter().any(
        |x| matches!(x, Action::Warn(m) if m == "build failed, waiting for other jobs to finish..."),
    ));
    assert!(fail.iter().any(|x| matches!(x, Action::ReportError(m) if m == "compiler exited")));
    assert!(!q.done());

    let acts3 = q.schedule();
    assert!(acts3.iter().all(|x| !matches!(x, Action::Spawn(_, _) | Action::RunInline(_, _))));

    // A finishes; the loop is over and C was never dispatched.
    q.on_event(Event::Finish(Key::new(&a), Ok(())), false);
    let acts4 = q.schedule();
    assert!(acts4.iter().all(|x| !matches!(x, Action::Spawn(_, _) | Action::RunInline(_, _))));
    assert!(q.done());
    assert_eq!(q.active, 0);
    match q.outcome() {
        Err(BuildError::JobFailed { key, message }) => {
            assert_eq!(key.pkg, 2);
            assert_eq!(message, "compiler exited");
        }
        other => panic!("unexpected outcome: {:?}", other.is_ok()),
    }
}

#[test]
fn active_workers_never_exceed_tokens_plus_one() {
    // Many independent dirty units; grant tokens one by one and watch the
    // bound hold at every step.
    let mut q = JobQueue::new(false, false);
    let mut units = Vec::new();
    for p in 0..5u64 {
        let u = unit(p + 1, p + 1, TargetKind::Lib, CompileMode::Build);
        q.enqueue(&u, &vec![], Job { id: p }, Freshness::Dirty).unwrap();
        units.push(u);
    }
    q.start();
    let mut granted = 0usize;
    let mut running: Vec<Key> = Vec::new();
    loop {
        let acts = q.schedule();
        assert!(q.active <= q.tokens + 1, "token bound violated");
        for a in &acts {
            if let Action::Spawn(k, _) | Action::RunInline(k, _) = a {
                running.push(*k);
            }
        }
        if q.done() {
            break;
        }
        let requests = acts.iter().filter(|a| matches!(a, Action::RequestToken)).count();
        if requests > 0 && granted < 4 {
            granted += 1;
            q.on_event(Event::Token(Ok(())), false);
            assert!(q.active <= q.tokens + 1);
            continue;
        }
        if let Some(k) = running.pop() {
            q.on_event(Event::Finish(k, Ok(())), false);
            assert!(q.active <= q.tokens + 1);
        } else {
            break;
        }
    }
    assert_eq!(q.active, 0);
}

#[test]
fn one_compiling_line_per_package() {
    // Two dirty units of the same package: only one "Compiling" line.
    let u1 = unit(9, 1, TargetKind::Lib, CompileMode::Build);
    let u2 = unit(9, 2, TargetKind::Bin, CompileMode::Build);
    let mut q = JobQueue::new(false, false);
    q.enqueue(&u1, &vec![], Job { id: 1 }, Freshness::Dirty).unwrap();
    q.enqueue(&u2, &vec![], Job { id: 2 }, Freshness::Dirty).unwrap();
    q.start();
    let mut lines = Vec::new();
    let mut events = Vec::new();
    loop {
        let acts = q.schedule();
        for a in &acts {
            if let Action::Report(kind, pkg) = a {
                lines.push((*kind, *pkg));
            }
        }
        if q.done() {
            break;
        }
        events.clear();
        drive_actions(&acts, &mut events);
        if events.is_empty() {
            break;
        }
        let acts2 = q.on_event(events.remove(0), false);
        for a in &acts2 {
            if let Action::Report(kind, pkg) = a {
                lines.push((*kind, *pkg));
            }
        }
    }
    let compiling = lines
        .iter()
        .filter(|(k, p)| *p == 9 && matches!(k, StatusKind::Compiling | StatusKind::Checking))
        .count();
    assert_eq!(compiling, 1);
}

#[test]
fn documenting_and_compiling_are_counted_separately() {
    // A doc job and a build job of the same package each get their line.
    let ud = unit(4, 1, TargetKind::Lib, CompileMode::Doc { deps: false });
    let ub = unit(4, 2, TargetKind::Lib, CompileMode::Build);
    let mut q = JobQueue::new(false, false);
    q.enqueue(&ud, &vec![], Job { id: 1 }, Freshness::Dirty).unwrap();
    q.enqueue(&ub, &vec![], Job { id: 2 }, Freshness::Dirty).unwrap();
    q.start();
    let acts = q.schedule();
    q.on_event(Event::Token(Ok(())), false);
    let acts2 = q.schedule();
    let mut lines: Vec<(StatusKind, u64)> = Vec::new();
    for a in acts.iter().chain(acts2.iter()) {
        if let Action::Report(kind, pkg) = a {
            lines.push((*kind, *pkg));
        }
    }
    assert!(lines.contains(&(StatusKind::Documenting, 4)));
    assert!(lines.contains(&(StatusKind::Compiling, 4)));
    assert_eq!(lines.len(), 2);
}

#[test]
fn doctest_placeholder_never_reports() {
    let u = unit(5, 1, TargetKind::Lib, CompileMode::Doctest);
    let mut q = JobQueue::new(false, false);
    q.enqueue(&u, &vec![], Job { id: 1 }, Freshness::Fresh).unwrap();
    q.start();
    let acts = q.schedule();
    assert!(acts.iter().all(|a| !matches!(a, Action::Report(_, _))));
}

#[test]
fn token_failure_is_fatal_but_drains() {
    let a = unit(1, 1, TargetKind::Lib, CompileMode::Build);
    let b = unit(2, 2, TargetKind::Lib, CompileMode::Build);
    let mut q = JobQueue::new(false, false);
    q.enqueue(&a, &vec![], Job { id: 1 }, Freshness::Dirty).unwrap();
    q.enqueue(&b, &vec![], Job { id: 2 }, Freshness::Dirty).unwrap();
    q.start();
    let _ = q.schedule();
    // the coordination mechanism fails: nothing new is launched, the
    // running job still drains
    q.on_event(Event::Token(Err("pipe closed".to_string())), false);
    let acts = q.schedule();
    assert!(acts.iter().all(|x| !matches!(x, Action::Spawn(_, _) | Action::RunInline(_, _))));
    assert!(!q.done());
    q.on_event(Event::Finish(Key::new(&a), Ok(())), false);
    assert!(q.done());
    match q.outcome() {
        Err(BuildError::TokenFailed { message }) => assert_eq!(message, "pipe closed"),
        _ => panic!("expected the token failure to be the terminal error"),
    }
}

#[test]
fn excess_tokens_are_trimmed() {
    let a = unit(1, 1, TargetKind::Lib, CompileMode::Build);
    let mut q = JobQueue::new(false, false);
    q.enqueue(&a, &vec![], Job { id: 1 }, Freshness::Dirty).unwrap();
    q.start();
    let _ = q.schedule();
    assert_eq!(q.active, 1);
    // two stray grants arrive; the next turn keeps none of them (one
    // worker needs no token) and releases both
    q.on_event(Event::Token(Ok(())), false);
    q.on_event(Event::Token(Ok(())), false);
    assert_eq!(q.tokens, 2);
    let acts = q.schedule();
    let releases = acts.iter().filter(|x| matches!(x, Action::ReleaseToken)).count();
    assert_eq!(releases, 2);
    assert_eq!(q.tokens, 0);
    assert!(q.active <= q.tokens + 1);
}

#[test]
fn run_event_echoes_verbose_line() {
    let mut q = JobQueue::new(false, false);
    q.start();
    let acts = q.on_event(Event::Run("rustc --crate-name foo".to_string()), false);
    assert_eq!(acts.len(), 1);
    match &acts[0] {
        Action::Echo(buildq::job_queue::EchoKind::RunningVerbose, s) => {
            assert_eq!(s, "rustc --crate-name foo");
        }
        _ => panic!("expected a verbose running echo"),
    }
}

#[test]
fn custom_build_success_flushes_warnings_when_asked() {
    let u = unit(3, 1, TargetKind::CustomBuild, CompileMode::RunCustomBuild);
    let mut q = JobQueue::new(false, false);
    q.enqueue(&u, &vec![], Job { id: 1 }, Freshness::Dirty).unwrap();
    q.start();
    let _ = q.schedule();
    let acts = q.on_event(Event::Finish(Key::new(&u), Ok(())), true);
    assert!(acts.iter().any(|x| matches!(x, Action::EmitWarnings { framed: false, .. })));
}

#[test]
fn warning_flush_frames_and_closes_with_a_blank_line() {
    let ws = vec!["w1".to_string(), "w2".to_string()];
    let framed = warning_lines(&ws, true);
    assert_eq!(framed.len(), 5);
    assert!(matches!(
        &framed[0],
        WarningLine::Plain(m) if m == "The following warnings were emitted during compilation:"
    ));
    assert!(matches!(&framed[1], WarningLine::Plain(m) if m.is_empty()));
    assert!(matches!(&framed[2], WarningLine::Warn(w) if w == "w1"));
    assert!(matches!(&framed[3], WarningLine::Warn(w) if w == "w2"));
    assert!(matches!(&framed[4], WarningLine::Plain(m) if m.is_empty()));
    let bare = warning_lines(&ws, false);
    assert_eq!(bare.len(), 2);
    assert!(matches!(&bare[0], WarningLine::Warn(w) if w == "w1"));
    assert!(matches!(&bare[1], WarningLine::Warn(w) if w == "w2"));
    // nothing buffered: the framing message is not printed either
    let none = warning_lines(&vec![], true);
    assert!(none.is_empty());
}

#[test]
fn dirty_dependency_taints_dependent_unit() {
    // The dependent's pending record combines the dependency's verdict.
    let leaf = unit(1, 1, TargetKind::Lib, CompileMode::Build);
    let root = unit(2, 2, TargetKind::Bin, CompileMode::Build);
    let mut q = JobQueue::new(false, false);
    q.enqueue(&leaf, &vec![], Job { id: 1 }, Freshness::Dirty).unwrap();
    q.enqueue(&root, &vec![leaf], Job { id: 2 }, Freshness::Fresh).unwrap();
    q.start();
    let _ = q.schedule();
    q.on_event(Event::Finish(Key::new(&leaf), Ok(())), false);
    let acts = q.schedule();
    // the root's own job is fresh, but its dirty dependency makes its
    // effective freshness dirty: it goes to a worker
    assert!(acts.iter().any(|x| matches!(x, Action::Spawn(k, _) if k.pkg == 2)));
}

#[test]
fn empty_build_finishes_at_once() {
    let mut q = JobQueue::new(true, false);
    q.start();
    let acts = q.schedule();
    assert!(acts.is_empty());
    assert!(q.done());
    assert!(q.outcome().is_ok());
}

#[test]
fn missing_dependency_is_an_internal_error() {
    // The planner guarantees an acyclic, closed graph; a dependency that
    // is never enqueued leaves the queue non-empty with nothing ready,
    // which the machine reports as an internal fault.
    let ghostly = unit(99, 99, TargetKind::Lib, CompileMode::Build);
    let root = unit(1, 1, TargetKind::Bin, CompileMode::Build);
    let mut q = JobQueue::new(false, false);
    q.enqueue(&root, &vec![ghostly], Job { id: 1 }, Freshness::Dirty).unwrap();
    q.start();
    let acts = q.schedule();
    assert!(acts.is_empty());
    assert!(q.done());
    assert!(matches!(q.outcome(), Err(BuildError::Internal)));
}

#[test]
fn one_token_request_per_job_beyond_the_first() {
    // Three independent dirty units from an idle start: the first job
    // rides the implicit slot, the other two each ask for a token.
    let mut q = JobQueue::new(false, false);
    for p in 1..=3u64 {
        let u = unit(p, p, TargetKind::Lib, CompileMode::Build);
        q.enqueue(&u, &vec![], Job { id: p }, Freshness::Dirty).unwrap();
    }
    q.start();
    let acts = q.schedule();
    let requests = acts.iter().filter(|a| matches!(a, Action::RequestToken)).count();
    assert_eq!(requests, 2);
    // with no tokens yet, exactly one job was handed out
    let dispatched = acts
        .iter()
        .filter(|a| matches!(a, Action::Spawn(_, _) | Action::RunInline(_, _)))
        .count();
    assert_eq!(dispatched, 1);
}
