//! End-to-end tests of the shell's verified core: the pipeline parser,
//! the worker state machine, and the scenario walks.

use zerosh::model::{ChildStatus, JobState};
use zerosh::parse::{builtin_of, job_ref, parse, parse_num, BuiltinName, ParseError};
use zerosh::prompt;
use zerosh::worker::{
    Directive, Note, Reply, SignalDisposition, Worker, SIGCHLD, SIGINT, SIGTSTP,
};
use zerosh::Shell;

fn argv_of(plan: &zerosh::parse::SpawnPlan, stage: usize) -> Vec<String> {
    plan.stages[stage].argv.clone()
}

#[test]
fn parse_simple_command() {
    let plan = parse("echo hello").unwrap();
    assert_eq!(plan.stages.len(), 1);
    assert_eq!(argv_of(&plan, 0), vec!["echo".to_string(), "hello".to_string()]);
    assert!(!plan.background);
    assert!(plan.redirect.is_none());
    assert_eq!(plan.line, "echo hello");
}

#[test]
fn parse_pipeline_two_stages() {
    let plan = parse("ls -l | wc -l").unwrap();
    assert_eq!(plan.stages.len(), 2);
    assert_eq!(argv_of(&plan, 0), vec!["ls".to_string(), "-l".to_string()]);
    assert_eq!(argv_of(&plan, 1), vec!["wc".to_string(), "-l".to_string()]);
}

#[test]
fn parse_pipeline_without_spaces() {
    let plan = parse("a|b").unwrap();
    assert_eq!(plan.stages.len(), 2);
    assert_eq!(argv_of(&plan, 0), vec!["a".to_string()]);
    assert_eq!(argv_of(&plan, 1), vec!["b".to_string()]);
}

#[test]
fn parse_background_marker() {
    let plan = parse("sleep 100 &").unwrap();
    assert!(plan.background);
    assert_eq!(plan.stages.len(), 1);
    assert_eq!(argv_of(&plan, 0), vec!["sleep".to_string(), "100".to_string()]);
}

#[test]
fn parse_redirect_target() {
    let plan = parse("echo hi > out.txt").unwrap();
    assert_eq!(plan.redirect.as_deref(), Some("out.txt"));
    assert_eq!(argv_of(&plan, 0), vec!["echo".to_string(), "hi".to_string()]);
}

#[test]
fn parse_error_empty_command() {
    assert_eq!(parse("   ").unwrap_err(), ParseError::EmptyCommand);
}

#[test]
fn parse_error_empty_stage() {
    assert_eq!(parse("a | | b").unwrap_err(), ParseError::EmptyStage);
    assert_eq!(parse("a |").unwrap_err(), ParseError::EmptyStage);
}

#[test]
fn parse_error_bad_redirect() {
    assert_eq!(parse("echo >").unwrap_err(), ParseError::BadRedirect);
    assert_eq!(parse("a > f | b").unwrap_err(), ParseError::BadRedirect);
    assert_eq!(parse("a > f > g").unwrap_err(), ParseError::BadRedirect);
}

#[test]
fn builtin_recognition() {
    assert_eq!(builtin_of(&parse("jobs").unwrap()), Some(BuiltinName::Jobs));
    assert_eq!(builtin_of(&parse("cd /tmp").unwrap()), Some(BuiltinName::Cd));
    assert_eq!(builtin_of(&parse("exit 3").unwrap()), Some(BuiltinName::Exit));
    assert_eq!(builtin_of(&parse("fg %1").unwrap()), Some(BuiltinName::Fg));
    assert_eq!(builtin_of(&parse("bg %1").unwrap()), Some(BuiltinName::Bg));
    // a builtin name never participates in a multi-stage pipeline
    assert_eq!(builtin_of(&parse("exit | cat").unwrap()), None);
    assert_eq!(builtin_of(&parse("echo cd").unwrap()), None);
}

#[test]
fn numbers_and_job_refs() {
    assert_eq!(parse_num("42"), Some(42));
    assert_eq!(parse_num("0"), Some(0));
    assert_eq!(parse_num(""), None);
    assert_eq!(parse_num("4x2"), None);
    assert_eq!(parse_num("18446744073709551615"), Some(u64::MAX));
    assert_eq!(parse_num("18446744073709551616"), None);
    assert_eq!(parse_num("99999999999999999999999"), None);
    assert_eq!(job_ref("%3"), Some(3));
    assert_eq!(job_ref("3"), None);
    assert_eq!(job_ref("%"), None);
    assert_eq!(job_ref("%x"), None);
}

#[test]
fn prompt_glyphs() {
    assert_eq!(prompt(0), "ZeroSh \u{1F642} %>");
    assert_eq!(prompt(1), "ZeroSh \u{1F480} %>");
    assert_ne!(prompt(0), prompt(17));
}

#[test]
fn shell_config_keeps_log_file() {
    let sh = Shell::new("history.txt".to_string());
    assert_eq!(sh.log_file, "history.txt");
}

#[test]
fn scenario_echo_hello_done_immediately() {
    // input `echo hello`: one process, job Done at once, reply Continue{0}
    let mut w = Worker::new();
    let d = w.on_command("echo hello");
    let plan = match d {
        Directive::Spawn { plan } => plan,
        _ => panic!("expected a spawn directive"),
    };
    assert_eq!(plan.stages.len(), 1);
    let out = w.on_spawned(plan.line.clone(), plan.background, &vec![101]);
    assert!(out.take_terminal);
    assert_eq!(out.reply, None);
    assert_eq!(out.job_id, 1);
    let reap = w.on_child(101, ChildStatus::Exited { code: 0 });
    assert_eq!(reap.reply, Some(0));
    assert!(reap.notice.is_none());
    assert!(w.jobs_list().is_empty());
}

#[test]
fn scenario_false_reports_code_one() {
    // input `false`: the process exits 1 and the prompt shows failure
    let mut w = Worker::new();
    let d = w.on_command("false");
    let plan = match d {
        Directive::Spawn { plan } => plan,
        _ => panic!("expected a spawn directive"),
    };
    let out = w.on_spawned(plan.line.clone(), plan.background, &vec![102]);
    assert_eq!(out.reply, None);
    let reap = w.on_child(102, ChildStatus::Exited { code: 1 });
    assert_eq!(reap.reply, Some(1));
    assert_ne!(prompt(1), prompt(0));
}

#[test]
fn scenario_background_sleep() {
    // input `sleep 100 &`: replied at once, listed Running, notice on exit
    let mut w = Worker::new();
    let d = w.on_command("sleep 100 &");
    let plan = match d {
        Directive::Spawn { plan } => plan,
        _ => panic!("expected a spawn directive"),
    };
    assert!(plan.background);
    let out = w.on_spawned(plan.line.clone(), plan.background, &vec![202]);
    assert!(!out.take_terminal);
    assert_eq!(out.reply, Some(Reply::Continue { code: 0 }));
    let rows = w.jobs_list();
    assert_eq!(rows.len(), 1);
    assert_eq!(rows[0].id, 1);
    assert_eq!(rows[0].state, JobState::Running);
    assert_eq!(rows[0].cmd, "sleep 100 &");
    // after the child finally exits, a completion notice is queued once
    let reap = w.on_child(202, ChildStatus::Exited { code: 0 });
    assert!(reap.reply.is_none());
    let notice = reap.notice.expect("completion notice");
    assert_eq!(notice.job, 1);
    assert_eq!(notice.code, 0);
    assert_eq!(notice.cmd, "sleep 100 &");
    assert!(w.jobs_list().is_empty());
}

#[test]
fn scenario_failed_pipeline_leaves_nothing() {
    // `cmd1 | cmd2` where cmd1 fails to spawn: nothing registered,
    // reply Continue with a non-zero code
    let mut w = Worker::new();
    let d = w.on_command("cmd1 | cmd2");
    match d {
        Directive::Spawn { plan } => assert_eq!(plan.stages.len(), 2),
        _ => panic!("expected a spawn directive"),
    }
    let r = w.on_spawn_failed();
    assert_eq!(r, Reply::Continue { code: 127 });
    assert!(w.jobs_list().is_empty());
}

#[test]
fn scenario_exit_refused_then_forced() {
    // `exit` with a stopped job: refused once with a warning, then forced
    let mut w = Worker::new();
    let d = w.on_command("sleep 9");
    let plan = match d {
        Directive::Spawn { plan } => plan,
        _ => panic!("expected a spawn directive"),
    };
    w.on_spawned(plan.line.clone(), plan.background, &vec![301]);
    let reap = w.on_child(301, ChildStatus::Stopped { sig: 20 });
    assert_eq!(reap.reply, Some(128 + 20));
    assert_eq!(w.jobs_list()[0].state, JobState::Stopped);
    match w.on_command("exit") {
        Directive::Reply { reply, note } => {
            assert_eq!(reply, Reply::Continue { code: 1 });
            assert_eq!(note, Some(Note::ExitRefused));
        },
        _ => panic!("expected a refused exit"),
    }
    match w.on_command("exit") {
        Directive::Reply { reply, note } => {
            assert_eq!(reply, Reply::Quit { code: 0 });
            assert_eq!(note, None);
        },
        _ => panic!("expected a forced quit"),
    }
}

#[test]
fn exit_warning_reset_by_other_command() {
    // a command between the two exits resets the refusal
    let mut w = Worker::new();
    let d = w.on_command("sleep 9 &");
    let plan = match d {
        Directive::Spawn { plan } => plan,
        _ => panic!("expected a spawn directive"),
    };
    w.on_spawned(plan.line.clone(), plan.background, &vec![310]);
    assert!(matches!(w.on_command("exit"), Directive::Reply { note: Some(Note::ExitRefused), .. }));
    assert!(matches!(w.on_command("jobs"), Directive::ShowJobs));
    assert!(matches!(w.on_command("exit"), Directive::Reply { note: Some(Note::ExitRefused), .. }));
}

#[test]
fn scenario_fg_bg_round_trip() {
    // a stopped job brought to the foreground, stopped again via the
    // Ctrl-Z path, is listed with the right state at each step
    let mut w = Worker::new();
    let d = w.on_command("cat");
    let plan = match d {
        Directive::Spawn { plan } => plan,
        _ => panic!("expected a spawn directive"),
    };
    w.on_spawned(plan.line.clone(), plan.background, &vec![401]);
    // Ctrl-Z: the signal is forwarded to the foreground group
    assert_eq!(w.on_signal(SIGTSTP), SignalDisposition::Forward { pgid: 401 });
    let reap = w.on_child(401, ChildStatus::Stopped { sig: 20 });
    assert_eq!(reap.reply, Some(148));
    assert_eq!(w.jobs_list()[0].state, JobState::Stopped);
    // fg %1: SIGCONT, terminal to the group, job Running again
    match w.on_command("fg %1") {
        Directive::ResumeFg { pgid, send_cont } => {
            assert_eq!(pgid, 401);
            assert!(send_cont);
        },
        _ => panic!("expected a foreground resume"),
    }
    assert_eq!(w.jobs_list()[0].state, JobState::Running);
    // Ctrl-Z again
    assert_eq!(w.on_signal(SIGTSTP), SignalDisposition::Forward { pgid: 401 });
    let reap = w.on_child(401, ChildStatus::Stopped { sig: 20 });
    assert_eq!(reap.reply, Some(148));
    assert_eq!(w.jobs_list()[0].state, JobState::Stopped);
    // bg %1 resumes it without taking the terminal
    match w.on_command("bg %1") {
        Directive::ResumeBg { pgid } => assert_eq!(pgid, 401),
        _ => panic!("expected a background resume"),
    }
    assert_eq!(w.jobs_list()[0].state, JobState::Running);
    // now that it runs in the background, Ctrl-C is swallowed
    assert_eq!(w.on_signal(SIGINT), SignalDisposition::Ignore);
}

#[test]
fn reap_same_event_twice_reports_once() {
    // delivering the same SIGCHLD notification twice must not report twice
    let mut w = Worker::new();
    let d = w.on_command("sleep 1 &");
    let plan = match d {
        Directive::Spawn { plan } => plan,
        _ => panic!("expected a spawn directive"),
    };
    w.on_spawned(plan.line.clone(), plan.background, &vec![501]);
    let first = w.on_child(501, ChildStatus::Exited { code: 0 });
    assert!(first.notice.is_some());
    let second = w.on_child(501, ChildStatus::Exited { code: 0 });
    assert!(second.notice.is_none());
    assert!(second.reply.is_none());
    assert!(w.jobs_list().is_empty());
}

#[test]
fn unknown_pid_is_ignored() {
    // a delivery gap: a report for an untracked pid changes nothing
    let mut w = Worker::new();
    let d = w.on_command("sleep 5 &");
    let plan = match d {
        Directive::Spawn { plan } => plan,
        _ => panic!("expected a spawn directive"),
    };
    w.on_spawned(plan.line.clone(), plan.background, &vec![601]);
    let reap = w.on_child(9999, ChildStatus::Exited { code: 0 });
    assert!(reap.reply.is_none() && reap.notice.is_none());
    assert_eq!(w.jobs_list().len(), 1);
}

#[test]
fn job_ids_are_fresh_and_listed_in_order() {
    // every pid maps to one job; ids are unique while alive
    let mut w = Worker::new();
    for (line, pid) in [("sleep 1 &", 701), ("sleep 2 &", 702)] {
        let plan = match w.on_command(line) {
            Directive::Spawn { plan } => plan,
            _ => panic!("expected a spawn directive"),
        };
        w.on_spawned(plan.line.clone(), plan.background, &vec![pid]);
    }
    let rows = w.jobs_list();
    assert_eq!(rows.len(), 2);
    assert_eq!((rows[0].id, rows[1].id), (1, 2));
    assert_eq!(rows[0].cmd, "sleep 1 &");
    assert_eq!(rows[1].cmd, "sleep 2 &");
    // reaping the first keeps the second untouched
    let reap = w.on_child(701, ChildStatus::Exited { code: 0 });
    assert_eq!(reap.notice.map(|n| n.job), Some(1));
    let rows = w.jobs_list();
    assert_eq!(rows.len(), 1);
    assert_eq!(rows[0].id, 2);
}

#[test]
fn pipeline_reply_uses_last_stage_code() {
    // a multi-process foreground job is Done only when all members
    // finished, with the last stage's code
    let mut w = Worker::new();
    let plan = match w.on_command("a | b") {
        Directive::Spawn { plan } => plan,
        _ => panic!("expected a spawn directive"),
    };
    w.on_spawned(plan.line.clone(), plan.background, &vec![801, 802]);
    let first = w.on_child(801, ChildStatus::Exited { code: 3 });
    assert!(first.reply.is_none());
    let second = w.on_child(802, ChildStatus::Exited { code: 4 });
    assert_eq!(second.reply, Some(4));
}

#[test]
fn signaled_child_maps_to_posix_code() {
    let mut w = Worker::new();
    let plan = match w.on_command("cat") {
        Directive::Spawn { plan } => plan,
        _ => panic!("expected a spawn directive"),
    };
    w.on_spawned(plan.line.clone(), plan.background, &vec![901]);
    assert_eq!(w.on_signal(SIGINT), SignalDisposition::Forward { pgid: 901 });
    let reap = w.on_child(901, ChildStatus::Signaled { sig: 2 });
    assert_eq!(reap.reply, Some(130));
}

#[test]
fn signal_dispositions() {
    let w = Worker::new();
    assert_eq!(w.on_signal(SIGCHLD), SignalDisposition::Drain);
    assert_eq!(w.on_signal(SIGINT), SignalDisposition::Ignore);
    assert_eq!(w.on_signal(SIGTSTP), SignalDisposition::Ignore);
    assert_eq!(w.on_signal(64), SignalDisposition::Ignore);
}

#[test]
fn builtin_replies() {
    let mut w = Worker::new();
    // exit with an explicit code, no jobs outstanding
    match w.on_command("exit 5") {
        Directive::Reply { reply, note } => {
            assert_eq!(reply, Reply::Quit { code: 5 });
            assert_eq!(note, None);
        },
        _ => panic!("expected a quit"),
    }
    match w.on_command("exit abc") {
        Directive::Reply { reply, note } => {
            assert_eq!(reply, Reply::Continue { code: 1 });
            assert_eq!(note, Some(Note::BadExitCode));
        },
        _ => panic!("expected a bad-code reply"),
    }
    // cd hands the directory to the surrounding program
    match w.on_command("cd /tmp") {
        Directive::ChangeDir { dir } => assert_eq!(dir.as_deref(), Some("/tmp")),
        _ => panic!("expected a directory change"),
    }
    match w.on_command("cd") {
        Directive::ChangeDir { dir } => assert_eq!(dir, None),
        _ => panic!("expected a directory change"),
    }
    assert_eq!(w.on_cd_result(true), Reply::Continue { code: 0 });
    assert_eq!(w.on_cd_result(false), Reply::Continue { code: 1 });
    assert_eq!(w.on_eof(), Reply::Quit { code: 0 });
    // parse errors are reported and the loop continues
    match w.on_command("a | | b") {
        Directive::Reply { reply, note } => {
            assert_eq!(reply, Reply::Continue { code: 1 });
            assert_eq!(note, Some(Note::ParseFailed { err: ParseError::EmptyStage }));
        },
        _ => panic!("expected a parse failure"),
    }
}

#[test]
fn fg_bg_argument_errors() {
    let mut w = Worker::new();
    match w.on_command("fg") {
        Directive::Reply { note, .. } => assert_eq!(note, Some(Note::BadJobArg)),
        _ => panic!("expected a bad-argument reply"),
    }
    match w.on_command("fg %7") {
        Directive::Reply { note, .. } => assert_eq!(note, Some(Note::UnknownJob { id: 7 })),
        _ => panic!("expected an unknown-job reply"),
    }
    let plan = match w.on_command("sleep 4 &") {
        Directive::Spawn { plan } => plan,
        _ => panic!("expected a spawn directive"),
    };
    w.on_spawned(plan.line.clone(), plan.background, &vec![111]);
    match w.on_command("bg %1") {
        Directive::Reply { note, .. } => {
            assert_eq!(note, Some(Note::AlreadyRunning { id: 1 }))
        },
        _ => panic!("expected an already-running reply"),
    }
}

#[test]
fn fg_after_first_stage_exited_still_completes() {
    // a two-stage pipeline whose first stage exited and whose second is
    // stopped: resuming must not revive the finished stage, and the
    // job still completes with the second stage's code
    let mut w = Worker::new();
    let plan = match w.on_command("a | b") {
        Directive::Spawn { plan } => plan,
        _ => panic!("expected a spawn directive"),
    };
    w.on_spawned(plan.line.clone(), plan.background, &vec![121, 122]);
    let first = w.on_child(121, ChildStatus::Exited { code: 0 });
    assert!(first.reply.is_none());
    let second = w.on_child(122, ChildStatus::Stopped { sig: 20 });
    assert_eq!(second.reply, Some(148));
    assert_eq!(w.jobs_list()[0].state, JobState::Stopped);
    match w.on_command("fg %1") {
        Directive::ResumeFg { pgid, send_cont } => {
            assert_eq!(pgid, 121);
            assert!(send_cont);
        },
        _ => panic!("expected a foreground resume"),
    }
    assert_eq!(w.jobs_list()[0].state, JobState::Running);
    let done = w.on_child(122, ChildStatus::Exited { code: 7 });
    assert_eq!(done.reply, Some(7));
    assert!(done.notice.is_none());
    assert!(w.jobs_list().is_empty());
}

#[test]
fn no_children_clears_foreground() {
    // the foreground wait ran out of children: the worker returns the
    // terminal, replies with a failure code, and accepts more commands
    let mut w = Worker::new();
    let plan = match w.on_command("a") {
        Directive::Spawn { plan } => plan,
        _ => panic!("expected a spawn directive"),
    };
    w.on_spawned(plan.line.clone(), plan.background, &vec![131]);
    assert_eq!(w.on_no_children(), Reply::Continue { code: 1 });
    assert!(matches!(w.on_command("jobs"), Directive::ShowJobs));
}

#[test]
fn tracks_pid_reports_table_membership() {
    let mut w = Worker::new();
    assert!(!w.tracks_pid(141));
    let plan = match w.on_command("sleep 3 &") {
        Directive::Spawn { plan } => plan,
        _ => panic!("expected a spawn directive"),
    };
    w.on_spawned(plan.line.clone(), plan.background, &vec![141]);
    assert!(w.tracks_pid(141));
    assert!(!w.tracks_pid(142));
    w.on_child(141, ChildStatus::Exited { code: 0 });
    assert!(!w.tracks_pid(141));
}
