//! The health-check sandbox: what a probe is run with, and what its run means.
//!
//! Spawning the process belongs to the host program. This module fixes the
//! environment that the host hands to the process and turns what the host
//! observed into the outcome that the score ledger records.

use vstd::prelude::*;
use vstd::utf8::{decode_utf8, valid_utf8};

verus! {

/// Seconds after which a probe that has not exited counts as down.
pub const PROBE_TIMEOUT_SECS: u64 = 5;

/// Result of one probe execution.
#[derive(Debug)]
pub struct TestOutput {
    /// Whether the service answered as it should.
    pub up: bool,
    /// What the probe wrote to its standard output.
    pub message: String,
    /// What the probe wrote to its standard error, or the reason it is down.
    pub error: String,
}

/// Mathematical value of a [`TestOutput`].
pub struct TestOutputView {
    pub up: bool,
    pub message: Seq<char>,
    pub error: Seq<char>,
}

impl View for TestOutput {
    type V = TestOutputView;

    open spec fn view(&self) -> TestOutputView {
        TestOutputView { up: self.up, message: self.message@, error: self.error@ }
    }
}

/// What the host observed of one probe process.
#[derive(Debug)]
pub enum ProbeRun {
    /// The process had not exited when the time limit elapsed.
    TimedOut,
    /// The process could not be started, or its output could not be read.
    Unreadable,
    /// The process ran to its end.
    Exited {
        /// Whether the exit status reports success.
        success: bool,
        /// Bytes written to standard output.
        stdout: Vec<u8>,
        /// Bytes written to standard error.
        stderr: Vec<u8>,
    },
}

/// Text that the permissive UTF-8 decoding of std yields for `bytes`.
pub uninterp spec fn utf8_lossy(bytes: Seq<u8>) -> Seq<char>;

/// Calls `String::from_utf8_lossy` of std and takes ownership of the text.
/// Two things are claimed of the call and not proved: the text depends on
/// the bytes alone, and bytes that are valid UTF-8 come back as the text
/// that they encode. What invalid bytes are replaced by is only named.
#[verifier::external_body]
fn decode_lossy(bytes: &Vec<u8>) -> (text: String)
    ensures
        text@ == utf8_lossy(bytes@),
        valid_utf8(bytes@) ==> text@ == decode_utf8(bytes@),
{
    String::from_utf8_lossy(bytes).into_owned()
}

/// The outcome that a probe run stands for.
pub open spec fn outcome_spec(run: ProbeRun) -> Result<TestOutputView, ()> {
    match run {
        ProbeRun::TimedOut => Ok(
            TestOutputView { up: false, message: Seq::empty(), error: "timeout"@ },
        ),
        ProbeRun::Unreadable => Err(()),
        ProbeRun::Exited { success, stdout, stderr } => Ok(
            TestOutputView {
                up: success,
                message: utf8_lossy(stdout@),
                error: utf8_lossy(stderr@),
            },
        ),
    }
}

/// View of an optional outcome.
pub open spec fn outcome_view(outcome: Result<TestOutput, ()>) -> Result<TestOutputView, ()> {
    match outcome {
        Ok(output) => Ok(output@),
        Err(_) => Err(()),
    }
}

impl TestOutput {
    /// The down result recorded for a probe that ran out of time.
    pub fn timeout() -> (output: TestOutput)
        ensures
            output@ == (TestOutputView { up: false, message: Seq::empty(), error: "timeout"@ }),
    {
        TestOutput { up: false, message: String::new(), error: "timeout".to_owned() }
    }

    /// The result of a probe that exited, given its decoded output streams.
    pub fn exited(success: bool, message: String, error: String) -> (output: TestOutput)
        ensures
            output@ == (TestOutputView { up: success, message: message@, error: error@ }),
    {
        TestOutput { up: success, message, error }
    }
}

/// What is known of an outcome's text beyond its name: an output stream
/// that is valid UTF-8 is reported as the text that it encodes.
pub open spec fn decodes_valid_output(run: ProbeRun, outcome: Result<TestOutput, ()>) -> bool {
    match (run, outcome) {
        (ProbeRun::Exited { success, stdout, stderr }, Ok(output)) => {
            &&& valid_utf8(stdout@) ==> output.message@ == decode_utf8(stdout@)
            &&& valid_utf8(stderr@) ==> output.error@ == decode_utf8(stderr@)
        },
        _ => true,
    }
}

/// Classifies a probe run: a timeout is a valid down result, a process whose
/// output could not be retrieved is a failure of the sandbox itself, and an
/// exited process is up exactly when its status reports success. The output
/// streams of an exited process are decoded permissively: valid UTF-8 is
/// taken as it is, and invalid bytes are replaced, never fatal.
pub fn outcome_of(run: ProbeRun) -> (outcome: Result<TestOutput, ()>)
    ensures
        outcome_view(outcome) == outcome_spec(run),
        decodes_valid_output(run, outcome),
{
    match run {
        ProbeRun::TimedOut => Ok(TestOutput::timeout()),
        ProbeRun::Unreadable => Err(()),
        ProbeRun::Exited { success, stdout, stderr } => {
            let message = decode_lossy(&stdout);
            let error = decode_lossy(&stderr);
            Ok(TestOutput::exited(success, message, error))
        },
    }
}

/// View of a list of environment variables.
pub open spec fn env_view(env: Seq<(String, String)>) -> Seq<(Seq<char>, Seq<char>)> {
    Seq::new(env.len(), |i: int| (env[i].0@, env[i].1@))
}

/// An independent copy of a list of environment variables.
pub fn duplicate_env(env: &Vec<(String, String)>) -> (copy: Vec<(String, String)>)
    ensures
        env_view(copy@) == env_view(env@),
{
    let mut copy: Vec<(String, String)> = Vec::new();
    let mut i: usize = 0;
    while i < env.len()
        invariant
            i <= env.len(),
            copy.len() == i,
            forall|k: int|
                0 <= k < i ==> (#[trigger] copy@[k]).0@ == env@[k].0@ && copy@[k].1@ == env@[k].1@,
        decreases env.len() - i,
    {
        copy.push((env[i].0.clone(), env[i].1.clone()));
        i += 1;
    }
    assert(env_view(copy@) =~= env_view(env@));
    copy
}

/// Value of `PATH` when the host has none.
pub open spec fn default_path() -> Seq<char> {
    "/usr/bin:/bin:/usr/sbin:/sbin"@
}

/// The whole environment of a probe: `PATH`, then the team's overrides.
pub open spec fn sandbox_env_spec(
    host_path: Option<Seq<char>>,
    overrides: Seq<(Seq<char>, Seq<char>)>,
) -> Seq<(Seq<char>, Seq<char>)> {
    let path = match host_path {
        Some(p) => p,
        None => default_path(),
    };
    seq![("PATH"@, path)] + overrides
}

/// View of an optional string.
pub open spec fn opt_view(text: Option<String>) -> Option<Seq<char>> {
    match text {
        Some(t) => Some(t@),
        None => None,
    }
}

/// Builds the environment that a probe runs in. Every variable of the host
/// is left out except `PATH`, which falls back to a fixed value when the
/// host has none; the team's overrides follow in their order.
pub fn sandbox_env(host_path: Option<String>, overrides: &Vec<(String, String)>) -> (env: Vec<
    (String, String),
>)
    ensures
        env_view(env@) == sandbox_env_spec(opt_view(host_path), env_view(overrides@)),
{
    let path = match host_path {
        Some(p) => p,
        None => "/usr/bin:/bin:/usr/sbin:/sbin".to_owned(),
    };
    let mut env: Vec<(String, String)> = Vec::new();
    env.push(("PATH".to_owned(), path));
    let mut i: usize = 0;
    while i < overrides.len()
        invariant
            i <= overrides.len(),
            env.len() == i + 1,
            env@[0].0@ == "PATH"@,
            env@[0].1@ == path@,
            forall|k: int|
                0 <= k < i ==> env@[k + 1].0@ == overrides@[k].0@ && env@[k + 1].1@
                    == overrides@[k].1@,
        decreases overrides.len() - i,
    {
        let key = overrides[i].0.clone();
        let value = overrides[i].1.clone();
        env.push((key, value));
        i += 1;
    }
    assert(env_view(env@) =~= sandbox_env_spec(opt_view(host_path), env_view(overrides@)));
    env
}

} // verus!
