use scoreboard::board::{edit_service, remove_service};
use scoreboard::catalogue::{add_service, find_service, ConfigError};
use scoreboard::config::{check_result, Check, CheckResult, Config, TeamError};
use scoreboard::effect::SideEffect;
use scoreboard::inject::{load_injects, EffectFailure, Inject, YamlInject};
use scoreboard::probe::{outcome_of, ProbeRun, TestOutput};
use scoreboard::score::Score;
use scoreboard::service::Service;
use scoreboard::team::Team;
use std::collections::VecDeque;

fn st(s: &str) -> String {
    s.to_string()
}

fn svc(name: &str, command: &str, multiplier: u8) -> Service {
    Service { name: st(name), command: st(command), multiplier }
}

fn inject(start: u32, duration: u32, effects: Option<Vec<SideEffect>>) -> Inject {
    Inject {
        name: st("inject"),
        file: st("inject.md"),
        start,
        duration,
        side_effects: effects,
        completed: false,
    }
}

fn names(config: &Config) -> Vec<String> {
    config.services.iter().map(|s| s.name.clone()).collect()
}

fn result(team: &str, service: &str, up: bool) -> CheckResult {
    CheckResult { team: st(team), service: st(service), up }
}

#[test]
fn new_state_is_empty_and_inactive() {
    let c = Config::new();
    assert!(!c.is_active());
    assert_eq!(c.start, 0);
    assert!(c.services.is_empty());
    assert!(c.teams.is_empty());
    assert!(c.injects.is_empty());
    assert!(c.checks().is_empty());
}

#[test]
fn run_time_counts_from_the_start() {
    let mut c = Config::new();
    c.start = 1000;
    c.active = true;
    assert!(c.is_active());
    assert_eq!(c.run_time(1000), 0);
    assert_eq!(c.run_time(1012), 12);
    assert_eq!(c.run_time(999), 0);
    assert_eq!(c.run_time(u64::MAX), u64::MAX - 1000);
}

#[test]
fn add_service_appends() {
    let mut c = Config::new();
    assert_eq!(c.add_service(svc("web", "exit 0", 2)), Ok(()));
    assert_eq!(c.add_service(svc("dns", "dig x", 1)), Ok(()));
    assert_eq!(names(&c), vec![st("web"), st("dns")]);
    assert_eq!(c.services[0].command, "exit 0");
    assert_eq!(c.services[0].multiplier, 2);
}

#[test]
fn add_service_rejects_invalid_and_duplicate() {
    let mut c = Config::new();
    assert_eq!(c.add_service(svc("", "exit 0", 1)), Err(ConfigError::InvalidService));
    assert_eq!(c.add_service(svc("web", "", 1)), Err(ConfigError::InvalidService));
    assert!(c.services.is_empty());
    assert_eq!(c.add_service(svc("web", "exit 0", 1)), Ok(()));
    assert_eq!(c.add_service(svc("web", "exit 1", 9)), Err(ConfigError::ServiceExists));
    assert_eq!(c.services.len(), 1);
    assert_eq!(c.services[0].command, "exit 0");
    assert_eq!(c.services[0].multiplier, 1);
}

#[test]
fn remove_service_removes_or_reports_missing() {
    let mut c = Config::new();
    c.add_service(svc("a", "x", 1)).unwrap();
    c.add_service(svc("b", "x", 1)).unwrap();
    c.add_service(svc("c", "x", 1)).unwrap();
    assert_eq!(c.remove_service(&st("b")), Ok(()));
    assert_eq!(names(&c), vec![st("a"), st("c")]);
    assert_eq!(c.remove_service(&st("b")), Err(ConfigError::ServiceNotFound));
    assert_eq!(names(&c), vec![st("a"), st("c")]);
    assert_eq!(c.remove_service(&st("")), Err(ConfigError::ServiceNotFound));
}

#[test]
fn edit_service_replaces_in_place() {
    let mut c = Config::new();
    c.add_service(svc("a", "x", 1)).unwrap();
    c.add_service(svc("b", "x", 1)).unwrap();
    assert_eq!(c.edit_service(&st("a"), svc("a", "y", 3)), Ok(()));
    assert_eq!(names(&c), vec![st("a"), st("b")]);
    assert_eq!(c.services[0].command, "y");
    assert_eq!(c.services[0].multiplier, 3);
    assert_eq!(c.edit_service(&st("a"), svc("z", "y", 3)), Ok(()));
    assert_eq!(names(&c), vec![st("z"), st("b")]);
}

#[test]
fn edit_service_rejections_change_nothing() {
    let mut c = Config::new();
    c.add_service(svc("a", "x", 1)).unwrap();
    c.add_service(svc("b", "x", 1)).unwrap();
    assert_eq!(c.edit_service(&st("a"), svc("", "y", 1)), Err(ConfigError::InvalidService));
    assert_eq!(c.edit_service(&st("a"), svc("a", "", 1)), Err(ConfigError::InvalidService));
    assert_eq!(c.edit_service(&st("q"), svc("q", "y", 1)), Err(ConfigError::ServiceNotFound));
    assert_eq!(c.edit_service(&st("a"), svc("b", "y", 1)), Err(ConfigError::ServiceExists));
    assert_eq!(c.edit_service(&st("q"), svc("", "", 1)), Err(ConfigError::InvalidService));
    assert_eq!(names(&c), vec![st("a"), st("b")]);
    assert_eq!(c.services[0].command, "x");
    assert_eq!(c.services[1].command, "x");
}

#[test]
fn catalogue_functions_work_on_plain_lists() {
    let mut list: Vec<Service> = Vec::new();
    let mut teams: Vec<(String, Team)> = vec![(st("red"), Team::new(Vec::new()))];
    assert_eq!(add_service(&mut list, svc("a", "x", 1)), Ok(()));
    assert_eq!(add_service(&mut list, svc("b", "x", 1)), Ok(()));
    assert_eq!(find_service(&list, &st("a")), 0);
    assert_eq!(find_service(&list, &st("b")), 1);
    assert_eq!(find_service(&list, &st("c")), 2);
    teams[0].1.record(&st("a"), 1, true);
    teams[0].1.record(&st("b"), 2, true);
    assert_eq!(edit_service(&mut list, &mut teams, &st("b"), svc("c", "x", 1)), Ok(()));
    assert_eq!(find_service(&list, &st("c")), 1);
    assert_eq!(teams[0].1.scores[1].0, "c");
    assert_eq!(teams[0].1.scores[1].1.score, 2);
    assert_eq!(remove_service(&mut list, &mut teams, &st("a")), Ok(()));
    assert_eq!(list.len(), 1);
    assert_eq!(list[0].name, "c");
    assert_eq!(teams[0].1.scores.len(), 1);
    assert_eq!(teams[0].1.scores[0].0, "c");
    assert_eq!(
        remove_service(&mut list, &mut teams, &st("a")),
        Err(ConfigError::ServiceNotFound)
    );
    assert_eq!(list.len(), 1);
    assert_eq!(teams[0].1.scores.len(), 1);
}

#[test]
fn add_team_rejects_empty_and_taken_names() {
    let mut c = Config::new();
    assert_eq!(c.add_team(st(""), Vec::new()), Err(TeamError::InvalidName));
    assert_eq!(c.add_team(st("red"), vec![(st("IP"), st("10.0.0.1"))]), Ok(()));
    assert_eq!(c.add_team(st("red"), Vec::new()), Err(TeamError::AlreadyExists));
    assert_eq!(c.add_team(st("blue"), Vec::new()), Ok(()));
    assert_eq!(c.teams.len(), 2);
    assert_eq!(c.teams[0].0, "red");
    assert_eq!(c.teams[0].1.env, vec![(st("IP"), st("10.0.0.1"))]);
    assert!(c.teams[0].1.scores.is_empty());
    assert_eq!(c.teams[1].0, "blue");
    assert_eq!(c.find_team(&st("red")), 0);
    assert_eq!(c.find_team(&st("blue")), 1);
    assert_eq!(c.find_team(&st("green")), 2);
}

#[test]
fn side_effect_apply_runs_the_named_operation() {
    let mut c = Config::new();
    assert_eq!(SideEffect::AddService(svc("a", "x", 1)).apply(&mut c), Ok(()));
    assert_eq!(
        SideEffect::AddService(svc("a", "x", 1)).apply(&mut c),
        Err(ConfigError::ServiceExists)
    );
    assert_eq!(SideEffect::EditService(st("a"), svc("b", "y", 2)).apply(&mut c), Ok(()));
    assert_eq!(names(&c), vec![st("b")]);
    assert_eq!(
        SideEffect::DeleteService(st("a")).apply(&mut c),
        Err(ConfigError::ServiceNotFound)
    );
    assert_eq!(SideEffect::DeleteService(st("b")).apply(&mut c), Ok(()));
    assert!(c.services.is_empty());
}

#[test]
fn side_effect_apply_to_leaves_the_effect_usable() {
    let effect = SideEffect::AddService(svc("a", "x", 1));
    let mut one: Vec<Service> = Vec::new();
    let mut two: Vec<Service> = Vec::new();
    let mut teams: Vec<(String, Team)> = Vec::new();
    assert_eq!(effect.apply_to(&mut one, &mut teams), Ok(()));
    assert_eq!(effect.apply_to(&mut two, &mut teams), Ok(()));
    assert_eq!(effect.apply_to(&mut two, &mut teams), Err(ConfigError::ServiceExists));
    assert_eq!(one.len(), 1);
    assert_eq!(two.len(), 1);
}

#[test]
fn inject_window_is_half_open() {
    let i = inject(10, 5, None);
    assert!(!i.is_due(0));
    assert!(!i.is_due(9));
    assert!(i.is_due(10));
    assert!(i.is_due(12));
    assert!(i.is_due(14));
    assert!(!i.is_due(15));
    assert!(!i.is_due(100));
    assert!(!inject(10, 0, None).is_due(10));
    let wide = inject(u32::MAX, u32::MAX, None);
    assert!(wide.is_due(u32::MAX as u64));
    assert!(wide.is_due(2 * (u32::MAX as u64) - 1));
    assert!(!wide.is_due(2 * (u32::MAX as u64)));
}

#[test]
fn inject_fires_at_12_and_never_again() {
    let mut c = Config::new();
    c.injects.push(inject(10, 5, Some(vec![SideEffect::AddService(svc("late", "x", 1))])));
    assert!(c.inject_tick(9).is_empty());
    assert!(!c.injects[0].completed);
    assert!(c.services.is_empty());
    assert!(c.inject_tick(12).is_empty());
    assert!(c.injects[0].completed);
    assert_eq!(names(&c), vec![st("late")]);
    // a second firing would be reported as a duplicate
    assert!(c.inject_tick(13).is_empty());
    assert!(c.inject_tick(100).is_empty());
    assert!(c.inject_tick(12).is_empty());
    assert!(c.injects[0].completed);
    assert_eq!(names(&c), vec![st("late")]);
    assert!(!c.injects[0].is_due(12));
}

#[test]
fn inject_outside_its_window_stays_pending() {
    let mut c = Config::new();
    c.injects.push(inject(10, 5, Some(vec![SideEffect::AddService(svc("late", "x", 1))])));
    assert!(c.inject_tick(15).is_empty());
    assert!(c.inject_tick(1000).is_empty());
    assert!(!c.injects[0].completed);
    assert!(c.services.is_empty());
}

#[test]
fn inject_adds_a_service_exactly_once() {
    let mut c = Config::new();
    c.injects.push(inject(0, 60, Some(vec![SideEffect::AddService(svc("s", "exit 0", 1))])));
    assert!(c.inject_tick(1).is_empty());
    assert_eq!(names(&c), vec![st("s")]);
    assert!(c.injects[0].completed);
    assert!(c.inject_tick(30).is_empty());
    assert_eq!(names(&c), vec![st("s")]);
    assert!(c.injects[0].completed);
}

#[test]
fn failed_side_effect_is_reported_and_the_rest_still_runs() {
    let mut c = Config::new();
    c.add_service(svc("a", "x", 1)).unwrap();
    c.injects.push(inject(0, 10, None));
    c.injects.push(inject(
        0,
        10,
        Some(vec![
            SideEffect::DeleteService(st("missing")),
            SideEffect::AddService(svc("a", "x", 1)),
            SideEffect::AddService(svc("b", "", 1)),
            SideEffect::AddService(svc("c", "x", 1)),
            SideEffect::EditService(st("a"), svc("c", "x", 1)),
            SideEffect::DeleteService(st("a")),
        ]),
    ));
    let failures = c.inject_tick(5);
    assert_eq!(
        failures,
        vec![
            EffectFailure { inject: 1, effect: 0, error: ConfigError::ServiceNotFound },
            EffectFailure { inject: 1, effect: 1, error: ConfigError::ServiceExists },
            EffectFailure { inject: 1, effect: 2, error: ConfigError::InvalidService },
            EffectFailure { inject: 1, effect: 4, error: ConfigError::ServiceExists },
        ]
    );
    assert_eq!(names(&c), vec![st("c")]);
    assert!(c.injects[0].completed);
    assert!(c.injects[1].completed);
    assert!(c.inject_tick(5).is_empty());
}

#[test]
fn injects_run_in_schedule_order() {
    let mut c = Config::new();
    c.injects.push(inject(0, 10, Some(vec![SideEffect::AddService(svc("a", "x", 1))])));
    c.injects.push(inject(20, 10, Some(vec![SideEffect::AddService(svc("never", "x", 1))])));
    c.injects.push(inject(0, 10, Some(vec![SideEffect::EditService(st("a"), svc("b", "y", 4))])));
    assert!(c.inject_tick(3).is_empty());
    assert_eq!(names(&c), vec![st("b")]);
    assert_eq!(c.services[0].multiplier, 4);
    assert!(c.injects[0].completed);
    assert!(!c.injects[1].completed);
    assert!(c.injects[2].completed);
}

#[test]
fn inject_tick_reports_through_its_own_index() {
    let mut services: Vec<Service> = Vec::new();
    let mut teams: Vec<(String, Team)> = Vec::new();
    let mut i = inject(0, 1, Some(vec![SideEffect::DeleteService(st("x"))]));
    let failures = i.tick(7, 0, &mut services, &mut teams);
    assert_eq!(
        failures,
        vec![EffectFailure { inject: 7, effect: 0, error: ConfigError::ServiceNotFound }]
    );
    assert!(i.completed);
    assert!(i.tick(7, 0, &mut services, &mut teams).is_empty());
}

#[test]
fn load_injects_builds_pending_injects() {
    let entries = vec![
        (
            st("alpha"),
            YamlInject {
                file: st("alpha.md"),
                start: 10,
                duration: 5,
                side_effects: Some(vec![SideEffect::DeleteService(st("web"))]),
            },
        ),
        (st("beta"), YamlInject { file: st("beta.md"), start: 0, duration: 60, side_effects: None }),
    ];
    let injects = load_injects(&entries);
    assert_eq!(injects.len(), 2);
    assert_eq!(injects[0].name, "alpha");
    assert_eq!(injects[0].file, "alpha.md");
    assert_eq!(injects[0].start, 10);
    assert_eq!(injects[0].duration, 5);
    assert!(!injects[0].completed);
    assert!(matches!(
        injects[0].side_effects.as_deref(),
        Some([SideEffect::DeleteService(n)]) if n == "web"
    ));
    assert_eq!(injects[1].name, "beta");
    assert!(injects[1].side_effects.is_none());
    assert!(!injects[1].completed);
    assert!(load_injects(&Vec::new()).is_empty());
}

#[test]
fn from_yaml_takes_every_field_and_starts_pending() {
    let yaml = YamlInject {
        file: st("f.md"),
        start: 3,
        duration: 4,
        side_effects: Some(vec![SideEffect::AddService(svc("a", "x", 2))]),
    };
    let i = Inject::from_yaml(st("n"), yaml);
    assert_eq!(i.name, "n");
    assert_eq!(i.file, "f.md");
    assert_eq!(i.start, 3);
    assert_eq!(i.duration, 4);
    assert!(!i.completed);
    assert!(matches!(
        i.side_effects.as_deref(),
        Some([SideEffect::AddService(s)]) if s.name == "a" && s.command == "x" && s.multiplier == 2
    ));
}

#[test]
fn checks_list_every_service_for_every_team() {
    let mut c = Config::new();
    c.add_service(svc("web", "curl x", 1)).unwrap();
    c.add_service(svc("dns", "dig x", 1)).unwrap();
    c.add_team(st("red"), vec![(st("IP"), st("1"))]).unwrap();
    c.add_team(st("blue"), vec![(st("IP"), st("2"))]).unwrap();
    let checks = c.checks();
    let got: Vec<(String, String, String, Vec<(String, String)>)> = checks
        .into_iter()
        .map(|k| (k.team, k.service, k.command, k.env))
        .collect();
    assert_eq!(
        got,
        vec![
            (st("red"), st("web"), st("curl x"), vec![(st("IP"), st("1"))]),
            (st("red"), st("dns"), st("dig x"), vec![(st("IP"), st("1"))]),
            (st("blue"), st("web"), st("curl x"), vec![(st("IP"), st("2"))]),
            (st("blue"), st("dns"), st("dig x"), vec![(st("IP"), st("2"))]),
        ]
    );
}

#[test]
fn score_tick_records_each_result_with_the_service_weight() {
    let mut c = Config::new();
    c.add_service(svc("web", "x", 2)).unwrap();
    c.add_service(svc("dns", "x", 5)).unwrap();
    c.add_team(st("red"), Vec::new()).unwrap();
    c.add_team(st("blue"), Vec::new()).unwrap();
    c.score_tick(&vec![
        result("red", "web", true),
        result("red", "dns", false),
        result("blue", "dns", true),
        result("green", "web", true),
        result("red", "smtp", true),
    ]);
    assert_eq!(c.teams.len(), 2);
    let red = &c.teams[0].1;
    assert_eq!(red.scores.len(), 2);
    assert_eq!(red.scores[0].0, "web");
    assert_eq!(red.scores[0].1.score, 2);
    assert!(red.scores[0].1.up);
    assert_eq!(red.scores[1].0, "dns");
    assert_eq!(red.scores[1].1.score, 0);
    assert!(!red.scores[1].1.up);
    assert_eq!(red.scores[1].1.history, VecDeque::from(vec![false]));
    assert_eq!(red.score(), 2);
    let blue = &c.teams[1].1;
    assert_eq!(blue.scores.len(), 1);
    assert_eq!(blue.scores[0].0, "dns");
    assert_eq!(blue.scores[0].1.score, 5);
    assert_eq!(blue.score(), 5);
    c.score_tick(&vec![result("red", "web", true), result("red", "web", true)]);
    assert_eq!(c.teams[0].1.scores[0].1.score, 6);
    assert_eq!(
        c.teams[0].1.scores[0].1.history,
        VecDeque::from(vec![true, true, true])
    );
    assert_eq!(c.teams[0].1.score(), 6);
}

#[test]
fn one_round_of_an_up_service() {
    let mut live = Config::new();
    live.active = true;
    live.add_service(svc("web", "exit 0", 2)).unwrap();
    live.add_team(st("red"), Vec::new()).unwrap();
    // snapshot, compute on the copy, merge
    let mut copy = live.clone();
    assert!(copy.is_active());
    assert!(copy.inject_tick(10).is_empty());
    let mut results = Vec::new();
    for check in copy.checks() {
        assert_eq!(check.command, "exit 0");
        let run = ProbeRun::Exited { success: true, stdout: Vec::new(), stderr: Vec::new() };
        if let Some(result) = check_result(check, outcome_of(run)) {
            results.push(result);
        }
    }
    copy.score_tick(&results);
    assert!(live.merge_round(copy, 10).is_empty());
    assert_eq!(live.teams[0].1.scores.len(), 1);
    let (name, score) = &live.teams[0].1.scores[0];
    assert_eq!(name, "web");
    assert_eq!(score.score, 2);
    assert!(score.up);
    assert_eq!(score.history, VecDeque::from(vec![true]));
    assert_eq!(live.teams[0].1.score(), 2);
}

#[test]
fn one_round_of_a_probe_that_times_out() {
    let mut live = Config::new();
    live.active = true;
    live.add_service(svc("web", "sleep 10", 2)).unwrap();
    live.add_team(st("red"), Vec::new()).unwrap();
    let mut copy = live.clone();
    let mut results = Vec::new();
    let mut errors = Vec::new();
    for check in copy.checks() {
        assert_eq!(check.command, "sleep 10");
        let out = outcome_of(ProbeRun::TimedOut).expect("a timeout is an outcome");
        errors.push(out.error.clone());
        results.push(CheckResult { team: check.team, service: check.service, up: out.up });
    }
    assert_eq!(errors, vec![st("timeout")]);
    copy.score_tick(&results);
    live.smart_combine(copy);
    let (_, score) = &live.teams[0].1.scores[0];
    assert_eq!(score.score, 0);
    assert!(!score.up);
    assert_eq!(score.history, VecDeque::from(vec![false]));
}

#[test]
fn sandbox_failure_skips_only_that_pair() {
    let mut c = Config::new();
    c.add_service(svc("web", "x", 1)).unwrap();
    c.add_service(svc("dns", "y", 1)).unwrap();
    c.add_team(st("red"), Vec::new()).unwrap();
    let mut results = Vec::new();
    for check in c.checks() {
        let run = if check.service == "web" {
            ProbeRun::Unreadable
        } else {
            ProbeRun::Exited { success: true, stdout: Vec::new(), stderr: Vec::new() }
        };
        if let Some(result) = check_result(check, outcome_of(run)) {
            results.push(result);
        }
    }
    assert_eq!(results.len(), 1);
    c.score_tick(&results);
    assert_eq!(c.teams[0].1.scores.len(), 1);
    assert_eq!(c.teams[0].1.scores[0].0, "dns");
    assert_eq!(c.teams[0].1.scores[0].1.score, 1);
}

#[test]
fn deleted_service_is_not_resurrected_by_a_stale_merge() {
    let mut live = Config::new();
    live.add_service(svc("svcA", "x", 3)).unwrap();
    live.add_service(svc("svcB", "x", 1)).unwrap();
    live.add_team(st("red"), Vec::new()).unwrap();
    let mut stale = live.clone();
    stale.score_tick(&vec![result("red", "svcA", true), result("red", "svcB", true)]);
    assert_eq!(SideEffect::DeleteService(st("svcA")).apply(&mut live), Ok(()));
    assert_eq!(names(&live), vec![st("svcB")]);
    live.smart_combine(stale);
    assert_eq!(names(&live), vec![st("svcB")]);
    assert_eq!(live.teams[0].1.scores.len(), 1);
    assert_eq!(live.teams[0].1.scores[0].0, "svcB");
    assert_eq!(live.teams[0].1.scores[0].1.score, 1);
    assert_eq!(live.teams[0].1.find_score(&st("svcA")), 1);
}

#[test]
fn service_removed_by_an_inject_during_the_round_takes_no_update() {
    let mut live = Config::new();
    live.add_service(svc("svcA", "x", 3)).unwrap();
    live.add_team(st("red"), Vec::new()).unwrap();
    let mut copy = live.clone();
    copy.score_tick(&vec![result("red", "svcA", true)]);
    // the inject arrives in the live state between snapshot and merge
    live.injects.push(inject(0, 100, Some(vec![SideEffect::DeleteService(st("svcA"))])));
    assert!(live.merge_round(copy, 50).is_empty());
    assert!(live.services.is_empty());
    assert!(live.injects[0].completed);
    assert!(live.teams[0].1.scores.is_empty());
}

#[test]
fn merge_overwrites_existing_scores_and_keeps_live_structure() {
    let mut live = Config::new();
    live.add_service(svc("web", "x", 1)).unwrap();
    live.add_team(st("red"), Vec::new()).unwrap();
    live.add_team(st("blue"), Vec::new()).unwrap();
    live.score_tick(&vec![result("red", "web", false)]);
    let mut copy = live.clone();
    copy.score_tick(&vec![result("red", "web", true), result("blue", "web", true)]);
    // administrative changes made while the round was computing
    live.add_service(svc("dns", "y", 1)).unwrap();
    live.add_team(st("green"), Vec::new()).unwrap();
    copy.add_team(st("ghost"), Vec::new()).unwrap();
    copy.score_tick(&vec![result("ghost", "web", true)]);
    copy.active = true;
    copy.start = 77;
    live.smart_combine(copy);
    assert_eq!(names(&live), vec![st("web"), st("dns")]);
    assert!(!live.active);
    assert_eq!(live.start, 0);
    assert_eq!(live.teams.len(), 3);
    assert_eq!(live.teams[0].0, "red");
    assert_eq!(live.teams[0].1.scores.len(), 1);
    assert_eq!(live.teams[0].1.scores[0].1.score, 1);
    assert!(live.teams[0].1.scores[0].1.up);
    assert_eq!(live.teams[0].1.scores[0].1.history, VecDeque::from(vec![false, true]));
    assert_eq!(live.teams[1].0, "blue");
    assert_eq!(live.teams[1].1.scores.len(), 1);
    assert_eq!(live.teams[1].1.scores[0].1.score, 1);
    assert_eq!(live.teams[2].0, "green");
    assert!(live.teams[2].1.scores.is_empty());
}

#[test]
fn config_clone_is_equal_and_independent() {
    let mut c = Config::new();
    c.start = 5;
    c.active = true;
    c.add_service(svc("web", "x", 2)).unwrap();
    c.add_team(st("red"), vec![(st("K"), st("V"))]).unwrap();
    c.injects.push(inject(1, 2, Some(vec![SideEffect::DeleteService(st("web"))])));
    c.score_tick(&vec![result("red", "web", true)]);
    let mut copy = c.clone();
    assert_eq!(copy.start, 5);
    assert!(copy.active);
    assert_eq!(names(&copy), vec![st("web")]);
    assert_eq!(copy.teams[0].0, "red");
    assert_eq!(copy.teams[0].1.env, vec![(st("K"), st("V"))]);
    assert_eq!(copy.teams[0].1.scores[0].1.score, 2);
    assert_eq!(copy.injects.len(), 1);
    assert_eq!(copy.injects[0].name, "inject");
    assert_eq!(copy.injects[0].start, 1);
    assert_eq!(copy.injects[0].duration, 2);
    assert!(matches!(
        copy.injects[0].side_effects.as_deref(),
        Some([SideEffect::DeleteService(n)]) if n == "web"
    ));
    assert!(copy.inject_tick(1).is_empty());
    assert!(copy.services.is_empty());
    assert_eq!(names(&c), vec![st("web")]);
    assert!(!c.injects[0].completed);
}

#[test]
fn stored_score_survives_a_merge_without_updates() {
    let mut live = Config::new();
    live.add_service(svc("web", "x", 1)).unwrap();
    live.add_team(st("red"), Vec::new()).unwrap();
    live.teams[0].1.store(&st("web"), Score { score: 9, up: true, history: VecDeque::new() });
    let copy = Config::new();
    live.smart_combine(copy);
    assert_eq!(live.teams[0].1.scores[0].1.score, 9);
}

fn a_check(team: &str, service: &str) -> Check {
    Check { team: st(team), service: st(service), command: st("x"), env: Vec::new() }
}

fn held(team: &Team) -> Vec<(String, u32)> {
    team.scores.iter().map(|(name, score)| (name.clone(), score.score)).collect()
}

#[test]
fn check_result_carries_the_outcome_of_a_probe_that_ran() {
    let up = check_result(a_check("red", "web"), Ok(TestOutput::exited(true, st("m"), st(""))));
    let up = up.expect("a probe that ran gives a result");
    assert_eq!(up.team, "red");
    assert_eq!(up.service, "web");
    assert!(up.up);
    let down = check_result(a_check("blue", "dns"), Ok(TestOutput::timeout()));
    let down = down.expect("a timeout gives a result");
    assert_eq!(down.team, "blue");
    assert_eq!(down.service, "dns");
    assert!(!down.up);
}

#[test]
fn check_result_of_a_sandbox_failure_is_none() {
    assert!(check_result(a_check("red", "web"), Err(())).is_none());
    assert!(check_result(a_check("red", "web"), outcome_of(ProbeRun::Unreadable)).is_none());
}

#[test]
fn removing_a_service_drops_its_record_in_every_team() {
    let mut c = Config::new();
    c.add_service(svc("svcA", "x", 3)).unwrap();
    c.add_service(svc("svcB", "x", 1)).unwrap();
    c.add_team(st("red"), Vec::new()).unwrap();
    c.add_team(st("blue"), Vec::new()).unwrap();
    c.add_team(st("idle"), Vec::new()).unwrap();
    c.score_tick(&vec![
        result("red", "svcA", true),
        result("red", "svcB", true),
        result("blue", "svcB", true),
        result("blue", "svcA", false),
    ]);
    assert_eq!(held(&c.teams[0].1), vec![(st("svcA"), 3), (st("svcB"), 1)]);
    assert_eq!(c.teams[0].1.score(), 4);
    assert_eq!(c.remove_service(&st("svcA")), Ok(()));
    assert_eq!(names(&c), vec![st("svcB")]);
    assert_eq!(held(&c.teams[0].1), vec![(st("svcB"), 1)]);
    assert_eq!(held(&c.teams[1].1), vec![(st("svcB"), 1)]);
    assert!(c.teams[2].1.scores.is_empty());
    assert_eq!(c.teams[0].1.score(), 1);
    assert_eq!(c.teams[1].1.score(), 1);
    assert_eq!(c.teams[0].0, "red");
    assert_eq!(c.teams[1].0, "blue");
}

#[test]
fn failed_removal_leaves_services_and_records() {
    let mut c = Config::new();
    c.add_service(svc("svcA", "x", 3)).unwrap();
    c.add_team(st("red"), Vec::new()).unwrap();
    c.score_tick(&vec![result("red", "svcA", true)]);
    assert_eq!(c.remove_service(&st("svcB")), Err(ConfigError::ServiceNotFound));
    assert_eq!(names(&c), vec![st("svcA")]);
    assert_eq!(held(&c.teams[0].1), vec![(st("svcA"), 3)]);
    assert_eq!(
        SideEffect::DeleteService(st("svcB")).apply(&mut c),
        Err(ConfigError::ServiceNotFound)
    );
    assert_eq!(held(&c.teams[0].1), vec![(st("svcA"), 3)]);
}

#[test]
fn held_record_of_a_deleted_service_is_gone_after_a_stale_merge() {
    let mut live = Config::new();
    live.add_service(svc("svcA", "x", 3)).unwrap();
    live.add_service(svc("svcB", "x", 1)).unwrap();
    live.add_team(st("red"), Vec::new()).unwrap();
    live.score_tick(&vec![result("red", "svcA", true), result("red", "svcB", true)]);
    assert_eq!(held(&live.teams[0].1), vec![(st("svcA"), 3), (st("svcB"), 1)]);
    // the snapshot is taken, and the round computes on it
    let mut stale = live.clone();
    stale.score_tick(&vec![result("red", "svcA", true), result("red", "svcB", true)]);
    assert_eq!(held(&stale.teams[0].1), vec![(st("svcA"), 6), (st("svcB"), 2)]);
    // meanwhile the service leaves the live catalogue
    assert_eq!(SideEffect::DeleteService(st("svcA")).apply(&mut live), Ok(()));
    assert_eq!(names(&live), vec![st("svcB")]);
    assert_eq!(held(&live.teams[0].1), vec![(st("svcB"), 1)]);
    live.smart_combine(stale);
    assert_eq!(names(&live), vec![st("svcB")]);
    assert_eq!(held(&live.teams[0].1), vec![(st("svcB"), 2)]);
    assert_eq!(live.teams[0].1.find_score(&st("svcA")), live.teams[0].1.scores.len());
    let sum: u32 = live.teams[0].1.scores.iter().map(|(_, s)| s.score).sum();
    assert_eq!(sum, 2);
    assert_eq!(live.teams[0].1.score(), 2);
}

#[test]
fn inject_that_deletes_a_service_drops_held_records_before_the_merge() {
    let mut live = Config::new();
    live.add_service(svc("svcA", "x", 3)).unwrap();
    live.add_service(svc("svcB", "x", 1)).unwrap();
    live.add_team(st("red"), Vec::new()).unwrap();
    live.score_tick(&vec![result("red", "svcA", true), result("red", "svcB", false)]);
    live.injects.push(inject(0, 100, Some(vec![SideEffect::DeleteService(st("svcA"))])));
    let mut copy = live.clone();
    copy.injects.clear();
    copy.score_tick(&vec![result("red", "svcA", true), result("red", "svcB", true)]);
    assert!(live.merge_round(copy, 50).is_empty());
    assert_eq!(names(&live), vec![st("svcB")]);
    assert!(live.injects[0].completed);
    assert_eq!(held(&live.teams[0].1), vec![(st("svcB"), 1)]);
    assert_eq!(
        live.teams[0].1.scores[0].1.history,
        VecDeque::from(vec![false, true])
    );
    assert_eq!(live.teams[0].1.score(), 1);
}

#[test]
fn renamed_service_keeps_its_record_under_the_new_name() {
    let mut c = Config::new();
    c.add_service(svc("a", "x", 2)).unwrap();
    c.add_service(svc("b", "x", 5)).unwrap();
    c.add_team(st("red"), Vec::new()).unwrap();
    c.add_team(st("blue"), Vec::new()).unwrap();
    c.score_tick(&vec![
        result("red", "a", true),
        result("red", "b", true),
        result("red", "a", false),
        result("blue", "b", true),
    ]);
    assert_eq!(c.edit_service(&st("a"), svc("z", "y", 7)), Ok(()));
    assert_eq!(names(&c), vec![st("z"), st("b")]);
    assert_eq!(held(&c.teams[0].1), vec![(st("z"), 2), (st("b"), 5)]);
    assert_eq!(c.teams[0].1.scores[0].1.history, VecDeque::from(vec![true, false]));
    assert!(!c.teams[0].1.scores[0].1.up);
    assert_eq!(held(&c.teams[1].1), vec![(st("b"), 5)]);
    // the record goes on under the new name, with the new weight
    c.score_tick(&vec![result("red", "z", true), result("red", "a", true)]);
    assert_eq!(held(&c.teams[0].1), vec![(st("z"), 9), (st("b"), 5)]);
    assert_eq!(c.teams[0].1.score(), 14);
}

#[test]
fn edit_that_keeps_the_name_leaves_the_records() {
    let mut c = Config::new();
    c.add_service(svc("a", "x", 2)).unwrap();
    c.add_team(st("red"), Vec::new()).unwrap();
    c.score_tick(&vec![result("red", "a", true)]);
    assert_eq!(c.edit_service(&st("a"), svc("a", "y", 9)), Ok(()));
    assert_eq!(held(&c.teams[0].1), vec![(st("a"), 2)]);
    assert_eq!(SideEffect::EditService(st("a"), svc("a", "z", 1)).apply(&mut c), Ok(()));
    assert_eq!(held(&c.teams[0].1), vec![(st("a"), 2)]);
}

#[test]
fn rejected_edit_leaves_the_records() {
    let mut c = Config::new();
    c.add_service(svc("a", "x", 2)).unwrap();
    c.add_service(svc("b", "x", 2)).unwrap();
    c.add_team(st("red"), Vec::new()).unwrap();
    c.score_tick(&vec![result("red", "a", true), result("red", "b", true)]);
    assert_eq!(c.edit_service(&st("a"), svc("b", "y", 9)), Err(ConfigError::ServiceExists));
    assert_eq!(c.edit_service(&st("q"), svc("r", "y", 9)), Err(ConfigError::ServiceNotFound));
    assert_eq!(c.edit_service(&st("a"), svc("", "y", 9)), Err(ConfigError::InvalidService));
    assert_eq!(held(&c.teams[0].1), vec![(st("a"), 2), (st("b"), 2)]);
}

#[test]
fn stale_update_under_an_old_name_is_dropped_after_a_rename() {
    let mut live = Config::new();
    live.add_service(svc("a", "x", 2)).unwrap();
    live.add_team(st("red"), Vec::new()).unwrap();
    live.score_tick(&vec![result("red", "a", true)]);
    let mut stale = live.clone();
    stale.score_tick(&vec![result("red", "a", true)]);
    assert_eq!(live.edit_service(&st("a"), svc("z", "x", 2)), Ok(()));
    live.smart_combine(stale);
    assert_eq!(names(&live), vec![st("z")]);
    assert_eq!(held(&live.teams[0].1), vec![(st("z"), 2)]);
}
