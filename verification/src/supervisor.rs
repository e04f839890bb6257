//! The pure core of the backend process supervisor.
//!
//! Everything the supervisor decides is here: how the backend is
//! invoked for each build mode, how the log file for a launch is
//! named, how the readiness poll advances, and who owns the one
//! process handle.  The caller performs the actions these functions
//! return — spawning, killing, sleeping, probing the health endpoint
//! — and feeds the outcomes back in as plain values.

use vstd::prelude::*;

use crate::BuildMode;
use crate::num::dec_digits;

verus! {

/// A path separator: either direction's slash, so bundle paths on
/// every platform resolve.
pub open spec fn is_sep(c: char) -> bool {
    c == '/' || c == '\\'
}

/// The index of the last separator in `p`, or -1 when absent.
pub open spec fn last_sep_index(p: Seq<char>) -> int
    decreases p.len(),
{
    if p.len() == 0 {
        -1
    } else if is_sep(p.last()) {
        p.len() - 1
    } else {
        last_sep_index(p.drop_last())
    }
}

/// The directory part of a path, if it has one.
pub open spec fn spec_parent(p: Seq<char>) -> Option<Seq<char>> {
    let i = last_sep_index(p);
    if i >= 0 {
        Some(p.take(i))
    } else {
        None
    }
}

proof fn lemma_last_sep_suffix(p: Seq<char>, i: int)
    requires
        0 <= i <= p.len(),
        forall|k: int| i <= k < p.len() ==> !is_sep(#[trigger] p[k]),
    ensures
        last_sep_index(p) == last_sep_index(p.take(i)),
    decreases p.len() - i,
{
    if i == p.len() {
        assert(p.take(i) =~= p);
    } else {
        assert(!is_sep(p.last()));
        assert(p.drop_last() =~= p.take(p.len() - 1));
        lemma_last_sep_suffix(p.take(p.len() - 1), i);
        assert(p.take(p.len() - 1).take(i) =~= p.take(i));
    }
}

/// The directory part of a path: everything before the last
/// separator.
pub fn parent_dir(p: &str) -> (r: Option<String>)
    ensures
        r.deep_view() == spec_parent(p@),
{
    let n = p.unicode_len();
    let mut i: usize = n;
    while i > 0
        invariant
            0 <= i <= n,
            n == p@.len(),
            forall|k: int| i <= k < n ==> !is_sep(#[trigger] p@[k]),
        decreases i,
    {
        let c = p.get_char(i - 1);
        if c == '/' || c == '\\' {
            let d = p.substring_char(0, i - 1).to_owned();
            proof {
                lemma_last_sep_suffix(p@, i as int);
                assert(p@.take(i as int).last() == p@[i - 1]);
                assert(last_sep_index(p@.take(i as int)) == i - 1);
                assert(p@.take(i as int).take(i - 1) =~= p@.take(i - 1));
                assert(d@ =~= p@.take(i - 1));
            }
            return Some(d);
        }
        i = i - 1;
    }
    proof {
        lemma_last_sep_suffix(p@, 0);
        assert(p@.take(0) =~= Seq::<char>::empty());
    }
    None
}

/// How the backend is to be launched: the program, its arguments,
/// and the two environment values every launch carries.
pub struct StartPlan {
    pub program: String,
    pub args: Vec<String>,
    pub env_database_path: String,
    pub env_port: String,
}

/// The development invocation: the package runner with explicit
/// host and port flags.
pub open spec fn dev_args(port: u16) -> Seq<Seq<char>> {
    seq![
        "run"@,
        "uvicorn"@,
        "app.main:app"@,
        "--host"@,
        "127.0.0.1"@,
        "--port"@,
        dec_digits(port as nat),
    ]
}

/// The production binary, relative to the running executable: two
/// directories up, under the bundled resources.
pub open spec fn spec_production_binary(exe_path: Seq<char>) -> Option<Seq<char>> {
    match spec_parent(exe_path) {
        None => None,
        Some(exe_dir) => match spec_parent(exe_dir) {
            None => None,
            Some(contents) => Some(contents + "/Resources/backend/expense-manager-backend"@),
        },
    }
}

/// Resolve the program and arguments that start the backend.
/// Development mode runs the package wrapper; production mode names
/// the bundled binary.  Whether that binary exists on disk is the
/// caller's check, as is every other touch of the filesystem.
pub fn get_backend_binary_path(mode: BuildMode, exe_path: &str) -> (r: Result<
    (String, Vec<String>),
    String,
>)
    ensures
        match mode {
            BuildMode::Development => {
                &&& r is Ok
                &&& r.unwrap().0@ == "poetry"@
                &&& r.unwrap().1.deep_view() == seq!["run"@, "uvicorn"@, "app.main:app"@]
            },
            BuildMode::Production => match spec_production_binary(exe_path@) {
                Some(b) => r is Ok && r.unwrap().0@ == b && r.unwrap().1.deep_view() == Seq::<
                    Seq<char>,
                >::empty(),
                None => r is Err,
            },
        },
{
    match mode {
        BuildMode::Development => {
            let mut args: Vec<String> = Vec::new();
            args.push(String::from_str("run"));
            args.push(String::from_str("uvicorn"));
            args.push(String::from_str("app.main:app"));
            proof {
                assert(args.deep_view() =~= seq!["run"@, "uvicorn"@, "app.main:app"@]);
            }
            Ok((String::from_str("poetry"), args))
        },
        BuildMode::Production => {
            let exe_dir = match parent_dir(exe_path) {
                Some(d) => d,
                None => {
                    return Err(String::from_str("Failed to get executable directory"));
                },
            };
            let contents = match parent_dir(exe_dir.as_str()) {
                Some(d) => d,
                None => {
                    return Err(String::from_str("Failed to get parent directory"));
                },
            };
            let mut binary = contents;
            binary.append("/Resources/backend/expense-manager-backend");
            let args: Vec<String> = Vec::new();
            proof {
                assert(args.deep_view() =~= Seq::<Seq<char>>::empty());
            }
            Ok((binary, args))
        },
    }
}

/// Assemble the whole launch: program, arguments and environment.
/// In development mode the host and port ride on the command line as
/// well as in the environment; in production only the environment
/// carries them.
pub fn start_plan(mode: BuildMode, exe_path: &str, database_path: &str, port: u16) -> (r: Result<
    StartPlan,
    String,
>)
    ensures
        match r {
            Ok(plan) => {
                &&& plan.env_database_path@ == database_path@
                &&& plan.env_port@ == dec_digits(port as nat)
                &&& match mode {
                    BuildMode::Development => plan.program@ == "poetry"@
                        && plan.args.deep_view() == dev_args(port),
                    BuildMode::Production => spec_production_binary(exe_path@) == Some(
                        plan.program@,
                    ) && plan.args.deep_view() == Seq::<Seq<char>>::empty(),
                }
            },
            Err(_) => mode is Production && spec_production_binary(exe_path@) is None,
        },
{
    let (program, mut args) = match get_backend_binary_path(mode, exe_path) {
        Ok(p) => p,
        Err(e) => {
            return Err(e);
        },
    };
    let port_str = crate::num::u64_to_string(port as u64);
    match mode {
        BuildMode::Development => {
            proof {
                assert(args.deep_view() == seq!["run"@, "uvicorn"@, "app.main:app"@]);
                assert(args.deep_view().len() == 3);
                assert(args@.len() == 3);
            }
            args.push(String::from_str("--host"));
            args.push(String::from_str("127.0.0.1"));
            args.push(String::from_str("--port"));
            args.push(port_str.clone());
            proof {
                assert(args@.len() == 7);
                assert(args.deep_view().len() == 7);
                assert(args.deep_view()[0] == args@[0]@);
                assert(args.deep_view()[1] == args@[1]@);
                assert(args.deep_view()[2] == args@[2]@);
                assert(args.deep_view()[3] == args@[3]@);
                assert(args.deep_view()[4] == args@[4]@);
                assert(args.deep_view()[5] == args@[5]@);
                assert(args.deep_view()[6] == args@[6]@);
                assert(args.deep_view() =~= dev_args(port));
            }
        },
        BuildMode::Production => {},
    }
    Ok(
        StartPlan {
            program,
            args,
            env_database_path: database_path.to_owned(),
            env_port: port_str,
        },
    )
}

/// The log file name for a launch at the given epoch second.
pub fn log_file_name(timestamp_secs: u64) -> (r: String)
    ensures
        r@ == "backend-"@ + dec_digits(timestamp_secs as nat) + ".log"@,
{
    let mut s = String::from_str("backend-");
    let digits = crate::num::u64_to_string(timestamp_secs);
    s.append(digits.as_str());
    s.append(".log");
    s
}

/// The health endpoint polled during startup, on the loopback host
/// at the backend's port.
pub fn health_url(port: u16) -> (r: String)
    ensures
        r@ == "http://127.0.0.1:"@ + dec_digits(port as nat) + "/api/health"@,
{
    let mut s = String::from_str("http://127.0.0.1:");
    let digits = crate::num::u64_to_string(port as u64);
    s.append(digits.as_str());
    s.append("/api/health");
    s
}

/// The readiness rule: exactly a success-class status answers
/// "ready"; everything else, like a connection failure, is "not
/// yet".
pub fn is_success_status(code: u16) -> (r: bool)
    ensures
        r == (200 <= code < 300),
{
    200 <= code && code < 300
}

/// The first line of a launch's log file, around the caller's local
/// timestamp rendering.
pub fn log_header(local_time: &str) -> (r: String)
    ensures
        r@ == "=== Backend Log Started at "@ + local_time@ + " ===\n"@,
{
    let mut s = String::from_str("=== Backend Log Started at ");
    s.append(local_time);
    s.append(" ===\n");
    s
}

// ---------------------------------------------------------------
// The readiness poll.
// ---------------------------------------------------------------

/// What the poll asks of its driver next.
#[derive(PartialEq, Eq, Structural)]
pub enum PollAction {
    /// Probe the health endpoint once more.
    CheckHealth,
    /// The deadline has passed: give up and kill the process.
    GiveUp,
}

/// The readiness poll: how long has been waited, against a fixed
/// deadline and a fixed probe interval, both in milliseconds.
pub struct ReadinessPoll {
    pub elapsed_ms: u64,
    pub timeout_ms: u64,
    pub interval_ms: u64,
}

impl ReadinessPoll {
    /// A fresh poll: nothing waited yet.
    pub fn new(timeout_ms: u64, interval_ms: u64) -> (r: ReadinessPoll)
        ensures
            r.elapsed_ms == 0,
            r.timeout_ms == timeout_ms,
            r.interval_ms == interval_ms,
    {
        ReadinessPoll { elapsed_ms: 0, timeout_ms, interval_ms }
    }

    /// Probe again while the deadline has not passed; the deadline
    /// alone ends the loop, exactly as an unhealthy answer does not.
    pub fn next_action(&self) -> (r: PollAction)
        ensures
            r == PollAction::CheckHealth <==> self.elapsed_ms < self.timeout_ms,
    {
        if self.elapsed_ms < self.timeout_ms {
            PollAction::CheckHealth
        } else {
            PollAction::GiveUp
        }
    }

    /// Account one unhealthy probe: the driver sleeps one interval
    /// before the poll is consulted again.
    pub fn record_unhealthy(&mut self)
        requires
            old(self).elapsed_ms + old(self).interval_ms <= u64::MAX,
        ensures
            final(self).elapsed_ms == old(self).elapsed_ms + old(self).interval_ms,
            final(self).timeout_ms == old(self).timeout_ms,
            final(self).interval_ms == old(self).interval_ms,
    {
        self.elapsed_ms = self.elapsed_ms + self.interval_ms;
    }
}

/// How many unhealthy probes a poll admits before it gives up:
/// the deadline divided by the interval, rounded up.
pub open spec fn polls_until_giveup(timeout_ms: nat, interval_ms: nat) -> nat {
    ((timeout_ms + interval_ms - 1) / interval_ms as int) as nat
}

/// Against an endpoint that never answers healthy, the poll gives up
/// after finitely many probes, and the total time slept stays within
/// one interval of the deadline.
pub proof fn lemma_poll_gives_up(timeout_ms: nat, interval_ms: nat)
    requires
        interval_ms >= 1,
        timeout_ms >= 1,
    ensures
        polls_until_giveup(timeout_ms, interval_ms) * interval_ms >= timeout_ms,
        polls_until_giveup(timeout_ms, interval_ms) * interval_ms < timeout_ms + interval_ms,
{
    let n = polls_until_giveup(timeout_ms, interval_ms);
    let s = (timeout_ms + interval_ms - 1) as int;
    vstd::arithmetic::div_mod::lemma_fundamental_div_mod(s, interval_ms as int);
    assert(s == interval_ms * (s / (interval_ms as int)) + s % (interval_ms as int));
    assert(0 <= s % (interval_ms as int) && s % (interval_ms as int) < interval_ms);
    assert(n * interval_ms == interval_ms * (s / interval_ms as int)) by (nonlinear_arith)
        requires
            n == s / interval_ms as int,
    ;
    assert(n * interval_ms == s - s % (interval_ms as int));
}

/// A fresh poll with any deadline at all asks for a probe at once:
/// an endpoint that answers healthy immediately is accepted before
/// any sleep.
pub proof fn lemma_fresh_poll_probes_first(p: ReadinessPoll)
    requires
        p.elapsed_ms == 0,
        p.timeout_ms >= 1,
    ensures
        p.elapsed_ms < p.timeout_ms,
{
}

// ---------------------------------------------------------------
// The process handle and its one slot.
// ---------------------------------------------------------------

/// What the operating system reports of a probed child process.
#[derive(PartialEq, Eq, Structural, Clone, Copy)]
pub enum ProbeStatus {
    /// The child has not exited.
    Running,
    /// The child has exited, or the probe itself failed.
    Down,
}

/// A handle to at most one live backend process, by its identifier,
/// with the port it was told to use.
pub struct BackendProcess {
    process: Option<u64>,
    port: u16,
}

impl BackendProcess {
    pub closed spec fn spec_process(&self) -> Option<u64> {
        self.process
    }

    pub closed spec fn spec_port(&self) -> u16 {
        self.port
    }

    /// Own a freshly spawned process.
    pub fn started(pid: u64, port: u16) -> (r: BackendProcess)
        ensures
            r.spec_process() == Some(pid),
            r.spec_port() == port,
    {
        BackendProcess { process: Some(pid), port }
    }

    /// Give up ownership for teardown: the handle keeps no process,
    /// and the caller must kill and wait on the returned identifier.
    /// With no process owned this is a no-op and returns nothing.
    pub fn stop(&mut self) -> (r: Option<u64>)
        ensures
            final(self).spec_process() is None,
            final(self).spec_port() == old(self).spec_port(),
            r == old(self).spec_process(),
    {
        let r = self.process;
        self.process = None;
        r
    }

    /// Whether the owned process is still running, given the
    /// operating system's report on it: false with no process owned,
    /// and false when the probe reports an exit or itself failed.
    pub fn is_running(&self, probe: ProbeStatus) -> (r: bool)
        ensures
            r == (self.spec_process() is Some && probe == ProbeStatus::Running),
    {
        match self.process {
            Some(_) => match probe {
                ProbeStatus::Running => true,
                ProbeStatus::Down => false,
            },
            None => false,
        }
    }

    /// Conclude a supervised start: a handle only for a process that
    /// became ready.  One that never did is surrendered by its
    /// identifier, for the caller to kill before reporting failure.
    pub fn finish_start(pid: u64, port: u16, became_ready: bool) -> (r: Result<
        BackendProcess,
        (u64, String),
    >)
        ensures
            became_ready ==> r is Ok && r.unwrap().spec_process() == Some(pid)
                && r.unwrap().spec_port() == port,
            !became_ready ==> (r matches Err(e) && e.0 == pid && e.1@
                == "Backend failed to start within timeout"@),
    {
        if became_ready {
            Ok(BackendProcess { process: Some(pid), port })
        } else {
            Err((pid, String::from_str("Backend failed to start within timeout")))
        }
    }
}

/// The application's single slot for the live backend handle.
/// Replacement goes through `clear` first: the slot must be empty —
/// the old process surrendered for killing — before a new handle can
/// be installed, so no two backend processes are ever owned at once.
pub struct BackendSlot {
    backend: Option<BackendProcess>,
}

impl BackendSlot {
    pub closed spec fn spec_backend(&self) -> Option<BackendProcess> {
        self.backend
    }

    /// An empty slot: no backend supervised yet.
    pub fn empty() -> (r: BackendSlot)
        ensures
            r.spec_backend() is None,
    {
        BackendSlot { backend: None }
    }

    /// Drop the current handle, handing back the process to kill.
    /// On an empty slot this is a no-op and returns nothing.
    pub fn clear(&mut self) -> (r: Option<u64>)
        ensures
            final(self).spec_backend() is None,
            match old(self).spec_backend() {
                Some(b) => r == b.spec_process(),
                None => r is None,
            },
    {
        match self.backend.take() {
            Some(mut b) => b.stop(),
            None => None,
        }
    }

    /// Install a new handle.  Only an empty slot accepts one: the
    /// prior process must already have been surrendered by `clear`.
    pub fn install(&mut self, b: BackendProcess)
        requires
            old(self).spec_backend() is None,
        ensures
            final(self).spec_backend() == Some(b),
    {
        self.backend = Some(b);
    }

    /// Whether the supervised process is running, given the
    /// operating system's report; false for an empty slot.
    pub fn is_running(&self, probe: ProbeStatus) -> (r: bool)
        ensures
            r == match self.spec_backend() {
                Some(b) => b.spec_process() is Some && probe == ProbeStatus::Running,
                None => false,
            },
    {
        match &self.backend {
            Some(b) => b.is_running(probe),
            None => false,
        }
    }
}

} // verus!
