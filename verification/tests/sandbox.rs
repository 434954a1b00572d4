use scoreboard::probe::{
    duplicate_env, outcome_of, sandbox_env, ProbeRun, TestOutput, PROBE_TIMEOUT_SECS,
};

fn owned(s: &str) -> String {
    s.to_string()
}

#[test]
fn timeout_is_a_down_result() {
    let out = outcome_of(ProbeRun::TimedOut).expect("a timeout is an outcome");
    assert!(!out.up);
    assert_eq!(out.message, "");
    assert_eq!(out.error, "timeout");
    assert_eq!(PROBE_TIMEOUT_SECS, 5);
}

#[test]
fn timeout_constructor_matches_the_outcome() {
    let out = TestOutput::timeout();
    assert!(!out.up);
    assert_eq!(out.message, "");
    assert_eq!(out.error, "timeout");
}

#[test]
fn unreadable_run_is_a_sandbox_failure() {
    assert!(outcome_of(ProbeRun::Unreadable).is_err());
}

#[test]
fn successful_exit_is_up_with_its_output() {
    let run = ProbeRun::Exited {
        success: true,
        stdout: b"hello\n".to_vec(),
        stderr: Vec::new(),
    };
    let out = outcome_of(run).expect("an exit is an outcome");
    assert!(out.up);
    assert_eq!(out.message, "hello\n");
    assert_eq!(out.error, "");
}

#[test]
fn failed_exit_is_down_with_its_stderr() {
    let run = ProbeRun::Exited {
        success: false,
        stdout: Vec::new(),
        stderr: b"connection refused".to_vec(),
    };
    let out = outcome_of(run).expect("an exit is an outcome");
    assert!(!out.up);
    assert_eq!(out.message, "");
    assert_eq!(out.error, "connection refused");
}

#[test]
fn invalid_bytes_are_replaced_not_fatal() {
    let run = ProbeRun::Exited {
        success: true,
        stdout: vec![b'o', b'k', 0xff, b'!'],
        stderr: vec![0xc3, 0x28],
    };
    let out = outcome_of(run).expect("an exit is an outcome");
    assert!(out.up);
    assert_eq!(out.message, "ok\u{fffd}!");
    assert_eq!(out.error, "\u{fffd}(");
}

#[test]
fn multibyte_output_is_decoded() {
    let run = ProbeRun::Exited {
        success: true,
        stdout: "gr\u{fc}\u{df}e".as_bytes().to_vec(),
        stderr: Vec::new(),
    };
    let out = outcome_of(run).expect("an exit is an outcome");
    assert_eq!(out.message, "gr\u{fc}\u{df}e");
    assert_eq!(out.message.chars().count(), 5);
}

#[test]
fn exited_keeps_its_parts() {
    let out = TestOutput::exited(true, owned("m"), owned("e"));
    assert!(out.up);
    assert_eq!(out.message, "m");
    assert_eq!(out.error, "e");
}

#[test]
fn sandbox_env_takes_the_host_path_first() {
    let overrides = vec![(owned("TARGET"), owned("10.0.0.1")), (owned("PORT"), owned("80"))];
    let env = sandbox_env(Some(owned("/opt/bin")), &overrides);
    assert_eq!(
        env,
        vec![
            (owned("PATH"), owned("/opt/bin")),
            (owned("TARGET"), owned("10.0.0.1")),
            (owned("PORT"), owned("80")),
        ]
    );
}

#[test]
fn sandbox_env_falls_back_to_the_fixed_path() {
    let env = sandbox_env(None, &Vec::new());
    assert_eq!(env, vec![(owned("PATH"), owned("/usr/bin:/bin:/usr/sbin:/sbin"))]);
}

#[test]
fn sandbox_env_keeps_an_override_of_path_after_the_host_path() {
    let overrides = vec![(owned("PATH"), owned("/team/bin"))];
    let env = sandbox_env(Some(owned("/bin")), &overrides);
    assert_eq!(env, vec![(owned("PATH"), owned("/bin")), (owned("PATH"), owned("/team/bin"))]);
}

#[test]
fn duplicate_env_copies_every_pair() {
    let env = vec![(owned("A"), owned("1")), (owned("B"), owned(""))];
    let copy = duplicate_env(&env);
    assert_eq!(copy, env);
    assert!(duplicate_env(&Vec::new()).is_empty());
}

#[test]
fn valid_output_is_taken_as_it_is() {
    let text = "ok \u{2713} 100%\n";
    let run = ProbeRun::Exited {
        success: false,
        stdout: text.as_bytes().to_vec(),
        stderr: text.as_bytes().to_vec(),
    };
    let out = outcome_of(run).expect("an exit is an outcome");
    assert_eq!(out.message, text);
    assert_eq!(out.error, text);
    assert_eq!(out.message.as_bytes(), text.as_bytes());
}
