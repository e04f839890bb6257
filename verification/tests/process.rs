use expense_manager::BuildMode;
use expense_manager::supervisor::{
    BackendProcess, BackendSlot, PollAction, ProbeStatus, ReadinessPoll, get_backend_binary_path,
    health_url, is_success_status, log_file_name, log_header, parent_dir, start_plan,
};

#[test]
fn test_backend_binary_path() {
    let result = get_backend_binary_path(BuildMode::Development, "/opt/app/bin/shell");
    assert!(result.is_ok());
}

#[test]
fn development_invocation_is_the_package_runner() {
    let (program, args) =
        get_backend_binary_path(BuildMode::Development, "/opt/app/bin/shell").unwrap();
    assert_eq!(program, "poetry".to_string());
    assert_eq!(args, vec!["run".to_string(), "uvicorn".to_string(), "app.main:app".to_string()]);
}

#[test]
fn production_binary_sits_under_the_bundle_resources() {
    let (program, args) = get_backend_binary_path(
        BuildMode::Production,
        "/Applications/App.app/Contents/MacOS/app",
    )
    .unwrap();
    assert_eq!(
        program,
        "/Applications/App.app/Contents/Resources/backend/expense-manager-backend".to_string()
    );
    assert!(args.is_empty());
    assert!(get_backend_binary_path(BuildMode::Production, "no-slashes").is_err());
}

#[test]
fn production_binary_resolves_behind_backslashes() {
    let (program, _) = get_backend_binary_path(
        BuildMode::Production,
        "C:\\App\\bin\\shell.exe",
    )
    .unwrap();
    assert_eq!(program, "C:\\App/Resources/backend/expense-manager-backend".to_string());
    assert_eq!(parent_dir("C:\\App\\bin"), Some("C:\\App".to_string()));
}

#[test]
fn start_plan_carries_flags_and_environment() {
    let plan = start_plan(BuildMode::Development, "/x/y/exe", "/data/expense.db", 8123).unwrap();
    assert_eq!(plan.program, "poetry".to_string());
    assert_eq!(
        plan.args,
        vec![
            "run".to_string(),
            "uvicorn".to_string(),
            "app.main:app".to_string(),
            "--host".to_string(),
            "127.0.0.1".to_string(),
            "--port".to_string(),
            "8123".to_string(),
        ]
    );
    assert_eq!(plan.env_database_path, "/data/expense.db".to_string());
    assert_eq!(plan.env_port, "8123".to_string());

    let prod = start_plan(BuildMode::Production, "/a/b/c", "/d.db", 9000).unwrap();
    assert!(prod.args.is_empty());
    assert_eq!(prod.env_port, "9000".to_string());
}

#[test]
fn parent_dir_strips_the_last_component() {
    assert_eq!(parent_dir("/a/b/c"), Some("/a/b".to_string()));
    assert_eq!(parent_dir("/a"), Some("".to_string()));
    assert_eq!(parent_dir("plain"), None);
}

#[test]
fn health_probe_url_and_rule_are_exact() {
    assert_eq!(health_url(8042), "http://127.0.0.1:8042/api/health".to_string());
    assert!(is_success_status(200));
    assert!(is_success_status(204));
    assert!(!is_success_status(199));
    assert!(!is_success_status(300));
    assert!(!is_success_status(404));
    assert!(!is_success_status(500));
}

#[test]
fn log_naming_is_exact() {
    assert_eq!(log_file_name(1700000000), "backend-1700000000.log".to_string());
    assert_eq!(
        log_header("2024-01-01 00:00:00"),
        "=== Backend Log Started at 2024-01-01 00:00:00 ===\n".to_string()
    );
}

#[test]
fn unhealthy_endpoint_times_out_within_the_deadline() {
    // Against an endpoint that never answers healthy, the poll asks
    // for exactly 25 probes at 200 ms and then gives up: 5 s waited.
    let mut poll = ReadinessPoll::new(5000, 200);
    let mut probes: u32 = 0;
    let mut slept_ms: u64 = 0;
    loop {
        match poll.next_action() {
            PollAction::GiveUp => break,
            PollAction::CheckHealth => {
                probes += 1;
                assert!(probes <= 25);
                // The endpoint answers unhealthy; the driver sleeps.
                poll.record_unhealthy();
                slept_ms += 200;
            },
        }
    }
    assert_eq!(probes, 25);
    assert_eq!(slept_ms, 5000);

    // The spawned process is surrendered for killing, never owned.
    let res = BackendProcess::finish_start(4321, 8000, false);
    match res {
        Ok(_) => panic!("a process that never became ready must not be owned"),
        Err((pid, msg)) => {
            assert_eq!(pid, 4321);
            assert_eq!(msg, "Backend failed to start within timeout".to_string());
        },
    }
}

#[test]
fn healthy_endpoint_is_accepted_before_any_sleep() {
    let poll = ReadinessPoll::new(5000, 200);
    assert!(matches!(poll.next_action(), PollAction::CheckHealth));
    // First probe healthy: the handle is owned with no sleep taken.
    let handle = BackendProcess::finish_start(77, 8200, true).unwrap();
    assert!(handle.is_running(ProbeStatus::Running));
    assert_eq!(poll.elapsed_ms, 0);
}

#[test]
fn stop_without_a_process_is_a_no_op() {
    let mut handle = BackendProcess::started(10, 8000);
    assert_eq!(handle.stop(), Some(10));
    // A second stop owns nothing: nothing to kill, no error.
    assert_eq!(handle.stop(), None);
    assert!(!handle.is_running(ProbeStatus::Running));

    let mut slot = BackendSlot::empty();
    assert_eq!(slot.clear(), None);
}

#[test]
fn replacement_surrenders_the_old_process_first() {
    let mut slot = BackendSlot::empty();
    slot.install(BackendProcess::started(111, 8000));
    assert!(slot.is_running(ProbeStatus::Running));

    // Replacing: the slot must be cleared first, which hands the old
    // process over for killing before the new handle is owned.
    let to_kill = slot.clear();
    assert_eq!(to_kill, Some(111));
    assert!(!slot.is_running(ProbeStatus::Running));
    slot.install(BackendProcess::started(222, 8000));
    assert!(slot.is_running(ProbeStatus::Running));
    assert!(!slot.is_running(ProbeStatus::Down));
}
