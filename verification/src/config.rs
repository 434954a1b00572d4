//! The shared competition state and the steps of a round.
//!
//! A round takes a copy of the state, lets the injects and the score ledger
//! run on the copy, and merges the copy's score records back into the live
//! state. The probes themselves run outside: the state names the checks to
//! run and takes their results.

use crate::board::{
    board_of, edit_service, lemma_added_keeps_wf, remove_service, report_of, team_names,
    teams_view, Board,
};
use crate::catalogue::{add_service, find_service, service_names, services_view, ConfigError};
use crate::inject::{
    board_after_injects, failures_of_injects, injects_after, injects_view, lemma_injects_keep_wf,
    EffectFailure, Inject, InjectView,
};
use crate::lookup::{has_name, lemma_position_first, lemma_position_found, position};
use crate::probe::{duplicate_env, env_view, outcome_view, TestOutput, TestOutputView};
use crate::service::{Service, ServiceView};
use crate::team::{
    all_within_window, lemma_merged_catalogued, lemma_with_score_catalogued, score_of, Team,
    TeamView,
};
use vstd::prelude::*;

verus! {

/// Why a team was not created.
#[derive(Clone, Copy, Debug, PartialEq, Eq, Structural)]
pub enum TeamError {
    /// The name is empty.
    InvalidName,
    /// Another team already has the name.
    AlreadyExists,
}

/// The whole state of a competition.
#[derive(Debug)]
pub struct Config {
    /// Second, on the host's clock, at which the competition started.
    pub start: u64,
    /// Whether rounds are being played.
    pub active: bool,
    /// The service catalogue.
    pub services: Vec<Service>,
    /// The teams, each under its name.
    pub teams: Vec<(String, Team)>,
    /// The schedule of injects.
    pub injects: Vec<Inject>,
}

/// Mathematical value of a [`Config`].
pub struct ConfigView {
    pub start: u64,
    pub active: bool,
    pub services: Seq<ServiceView>,
    pub teams: Seq<(Seq<char>, TeamView)>,
    pub injects: Seq<InjectView>,
}

/// One probe to run in a round: a service to check for a team.
#[derive(Debug)]
pub struct Check {
    /// Name of the team.
    pub team: String,
    /// Name of the service.
    pub service: String,
    /// Probe command of the service.
    pub command: String,
    /// Variables that the team hands to its probes.
    pub env: Vec<(String, String)>,
}

/// Mathematical value of a [`Check`].
pub struct CheckView {
    pub team: Seq<char>,
    pub service: Seq<char>,
    pub command: Seq<char>,
    pub env: Seq<(Seq<char>, Seq<char>)>,
}

impl View for Check {
    type V = CheckView;

    open spec fn view(&self) -> CheckView {
        CheckView {
            team: self.team@,
            service: self.service@,
            command: self.command@,
            env: env_view(self.env@),
        }
    }
}

/// What a probe found: whether a service of a team is up.
#[derive(Debug)]
pub struct CheckResult {
    /// Name of the team.
    pub team: String,
    /// Name of the service.
    pub service: String,
    /// Whether the probe found the service up.
    pub up: bool,
}

/// Mathematical value of a [`CheckResult`].
pub struct CheckResultView {
    pub team: Seq<char>,
    pub service: Seq<char>,
    pub up: bool,
}

impl View for CheckResult {
    type V = CheckResultView;

    open spec fn view(&self) -> CheckResultView {
        CheckResultView { team: self.team@, service: self.service@, up: self.up }
    }
}

/// What the score ledger is told of a check: the result that carries the
/// check's team and service and the outcome's state, or nothing where the
/// sandbox itself failed.
pub open spec fn result_of(check: CheckView, outcome: Result<TestOutputView, ()>) -> Option<
    CheckResultView,
> {
    match outcome {
        Ok(output) => Some(
            CheckResultView { team: check.team, service: check.service, up: output.up },
        ),
        Err(_) => None,
    }
}

/// View of an optional result.
pub open spec fn opt_result_view(result: Option<CheckResult>) -> Option<CheckResultView> {
    match result {
        Some(r) => Some(r@),
        None => None,
    }
}

/// Turns the outcome of a check's probe into what the score ledger
/// records. A probe that ran, up or down or out of time, gives a result for
/// its team and service. A probe that the sandbox could not run gives none:
/// that pair is not scored in this round, and the round goes on.
pub fn check_result(check: Check, outcome: Result<TestOutput, ()>) -> (result: Option<CheckResult>)
    ensures
        opt_result_view(result) == result_of(check@, outcome_view(outcome)),
{
    match outcome {
        Ok(output) => Some(CheckResult { team: check.team, service: check.service, up: output.up }),
        Err(_) => None,
    }
}

/// View of a list of checks.
pub open spec fn checks_view(checks: Seq<Check>) -> Seq<CheckView> {
    Seq::new(checks.len(), |i: int| checks[i]@)
}

/// View of a list of results.
pub open spec fn results_view(results: Seq<CheckResult>) -> Seq<CheckResultView> {
    Seq::new(results.len(), |i: int| results[i]@)
}

/// The checks of one team: one for each service, in the catalogue's order.
pub open spec fn team_checks(
    name: Seq<char>,
    team: TeamView,
    services: Seq<ServiceView>,
) -> Seq<CheckView> {
    Seq::new(
        services.len(),
        |s: int|
            CheckView {
                team: name,
                service: services[s].name,
                command: services[s].command,
                env: team.env,
            },
    )
}

/// The checks of a round: those of each team, in the order of the teams.
pub open spec fn all_checks(
    teams: Seq<(Seq<char>, TeamView)>,
    services: Seq<ServiceView>,
) -> Seq<CheckView>
    decreases teams.len(),
{
    if teams.len() == 0 {
        Seq::empty()
    } else {
        all_checks(teams.drop_last(), services) + team_checks(
            teams.last().0,
            teams.last().1,
            services,
        )
    }
}

/// The team called `name` after the records of the copy's team of the same
/// name were merged into it; unchanged where the copy has no such team.
pub open spec fn merged_team(
    name: Seq<char>,
    team: TeamView,
    computed: Seq<(Seq<char>, TeamView)>,
    catalogue: Seq<Seq<char>>,
) -> TeamView {
    if has_name(team_names(computed), name) {
        team.merged(computed[position(team_names(computed), name) as int].1.scores, catalogue)
    } else {
        team
    }
}

impl View for Config {
    type V = ConfigView;

    open spec fn view(&self) -> ConfigView {
        ConfigView {
            start: self.start,
            active: self.active,
            services: services_view(self.services@),
            teams: teams_view(self.teams@),
            injects: injects_view(self.injects@),
        }
    }
}

/// Outcome of creating a team called `name`: it goes to the end of the teams
/// with no score record, unless the name is empty or taken.
pub open spec fn team_added(
    teams: Seq<(Seq<char>, TeamView)>,
    name: Seq<char>,
    env: Seq<(Seq<char>, Seq<char>)>,
) -> Result<Seq<(Seq<char>, TeamView)>, TeamError> {
    if name.len() == 0 {
        Err(TeamError::InvalidName)
    } else if has_name(team_names(teams), name) {
        Err(TeamError::AlreadyExists)
    } else {
        Ok(teams.push((name, TeamView { scores: Seq::empty(), env })))
    }
}

impl ConfigView {
    /// The catalogue of the state together with its teams.
    pub open spec fn board(self) -> Board {
        Board { services: self.services, teams: self.teams }
    }

    /// The state with another catalogue and other teams.
    pub open spec fn with_board(self, board: Board) -> ConfigView {
        ConfigView { services: board.services, teams: board.teams, ..self }
    }

    /// The board of the state is well formed: names are unique, services
    /// valid, histories within the window, and every score record belongs
    /// to a service of the catalogue.
    pub open spec fn wf(self) -> bool {
        self.board().wf()
    }

    /// The state with other teams.
    pub open spec fn with_teams(self, teams: Seq<(Seq<char>, TeamView)>) -> ConfigView {
        ConfigView { teams, ..self }
    }

    /// The state after the inject scheduler ran once at `clock`.
    pub open spec fn after_injects(self, clock: u64) -> ConfigView {
        ConfigView {
            injects: injects_after(self.injects, clock),
            ..self.with_board(board_after_injects(self.board(), self.injects, clock))
        }
    }

    /// The failures that the inject scheduler reports for a run at `clock`.
    pub open spec fn inject_failures(self, clock: u64) -> Seq<EffectFailure> {
        failures_of_injects(self.board(), self.injects, clock)
    }

    /// The checks that a round runs: every service for every team.
    pub open spec fn checks(self) -> Seq<CheckView> {
        all_checks(self.teams, self.services)
    }

    /// The state after the score ledger recorded one result. The record of
    /// the named service of the named team is ticked with the weight that
    /// the catalogue gives the service. A result that names no team of the
    /// state, or no service of the catalogue, changes nothing.
    pub open spec fn checked(self, result: CheckResultView) -> ConfigView {
        let t = position(team_names(self.teams), result.team) as int;
        let s = position(service_names(self.services), result.service) as int;
        if t < self.teams.len() && s < self.services.len() {
            self.with_teams(
                self.teams.update(
                    t,
                    (
                        self.teams[t].0,
                        self.teams[t].1.recorded(
                            result.service,
                            self.services[s].multiplier,
                            result.up,
                        ),
                    ),
                ),
            )
        } else {
            self
        }
    }

    /// The state after the score ledger recorded the results in order.
    pub open spec fn after_checks(self, results: Seq<CheckResultView>) -> ConfigView
        decreases results.len(),
    {
        if results.len() == 0 {
            self
        } else {
            self.after_checks(results.drop_last()).checked(results.last())
        }
    }

    /// The live state after the score records of a computed copy were
    /// merged in. Teams are matched by name; nothing but the score records
    /// of the live teams changes.
    pub open spec fn combined(self, computed: ConfigView) -> ConfigView {
        self.with_teams(
            Seq::new(
                self.teams.len(),
                |t: int|
                    (
                        self.teams[t].0,
                        merged_team(
                            self.teams[t].0,
                            self.teams[t].1,
                            computed.teams,
                            service_names(self.services),
                        ),
                    ),
            ),
        )
    }

    /// Every history among the score records is within the window.
    pub open spec fn histories_within_window(self) -> bool {
        forall|t: int|
            0 <= t < self.teams.len() ==> all_within_window((#[trigger] self.teams[t]).1.scores)
    }

    /// Seconds of competition played at the second `now` of the host's
    /// clock; none before the start.
    pub open spec fn run_time(self, now: u64) -> u64 {
        if now >= self.start {
            (now - self.start) as u64
        } else {
            0
        }
    }
}

impl Config {
    /// The state before anything is set up: no service, team or inject, and
    /// no round being played.
    pub fn new() -> (config: Config)
        ensures
            config@ == (ConfigView {
                start: 0,
                active: false,
                services: Seq::empty(),
                teams: Seq::empty(),
                injects: Seq::empty(),
            }),
            config@.wf(),
    {
        let config = Config {
            start: 0,
            active: false,
            services: Vec::new(),
            teams: Vec::new(),
            injects: Vec::new(),
        };
        assert(config@.services =~= Seq::empty());
        assert(config@.teams =~= Seq::empty());
        assert(config@.injects =~= Seq::empty());
        assert(service_names(config@.services) =~= Seq::empty());
        assert(team_names(config@.teams) =~= Seq::empty());
        config
    }

    /// Whether rounds are being played.
    pub fn is_active(&self) -> (active: bool)
        ensures
            active == self@.active,
    {
        self.active
    }

    /// Seconds of competition played at the second `now` of the host's
    /// clock.
    pub fn run_time(&self, now: u64) -> (seconds: u64)
        ensures
            seconds == self@.run_time(now),
    {
        if now >= self.start {
            now - self.start
        } else {
            0
        }
    }

    /// Adds a service at the end of the catalogue. An invalid service or a
    /// taken name is rejected and changes nothing. No team changes.
    pub fn add_service(&mut self, service: Service) -> (outcome: Result<(), ConfigError>)
        ensures
            outcome == report_of(old(self)@.board().added(service@)),
            final(self)@ == old(self)@.with_board(
                old(self)@.board().settled(old(self)@.board().added(service@)),
            ),
            old(self)@.wf() ==> final(self)@.wf(),
    {
        proof {
            if self@.wf() {
                lemma_added_keeps_wf(self@.board(), service@);
            }
        }
        add_service(&mut self.services, service)
    }

    /// Removes the service called `name` from the catalogue, and with it
    /// the score record that each team holds of it. Where there is no such
    /// service, the call is rejected and changes nothing.
    pub fn remove_service(&mut self, name: &String) -> (outcome: Result<(), ConfigError>)
        ensures
            outcome == report_of(old(self)@.board().removed(name@)),
            final(self)@ == old(self)@.with_board(
                old(self)@.board().settled(old(self)@.board().removed(name@)),
            ),
            old(self)@.wf() ==> final(self)@.wf(),
    {
        remove_service(&mut self.services, &mut self.teams, name)
    }

    /// Replaces the service called `name` by `service`, in its place, and
    /// keeps each team's score record of it under the name that `service`
    /// has. An invalid service, a missing name or a name taken by a third
    /// service is rejected and changes nothing.
    pub fn edit_service(&mut self, name: &String, service: Service) -> (outcome: Result<
        (),
        ConfigError,
    >)
        ensures
            outcome == report_of(old(self)@.board().edited(name@, service@)),
            final(self)@ == old(self)@.with_board(
                old(self)@.board().settled(old(self)@.board().edited(name@, service@)),
            ),
            old(self)@.wf() ==> final(self)@.wf(),
    {
        edit_service(&mut self.services, &mut self.teams, name, service)
    }

    /// Runs the inject scheduler once at the second `clock` of the
    /// competition. Every pending inject whose window holds the clock fires:
    /// its side effects change the catalogue in order, and it is completed.
    /// The failed side effects are reported; none stops the round.
    pub fn inject_tick(&mut self, clock: u64) -> (failures: Vec<EffectFailure>)
        ensures
            final(self)@ == old(self)@.after_injects(clock),
            failures@ == old(self)@.inject_failures(clock),
            old(self)@.wf() ==> final(self)@.wf(),
    {
        let ghost before = self@;
        proof {
            if before.wf() {
                lemma_injects_keep_wf(before.board(), before.injects, clock);
            }
        }
        let mut failures: Vec<EffectFailure> = Vec::new();
        let mut i: usize = 0;
        while i < self.injects.len()
            invariant
                i <= self.injects.len(),
                self.injects.len() == before.injects.len(),
                self.start == before.start,
                self.active == before.active,
                forall|k: int| 0 <= k < i ==> (#[trigger] self.injects@[k])@ == before.injects[k].after(clock),
                forall|k: int|
                    i <= k < self.injects.len() ==> (#[trigger] self.injects@[k])@
                        == before.injects[k],
                board_of(self.services@, self.teams@) == board_after_injects(
                    before.board(),
                    before.injects.take(i as int),
                    clock,
                ),
                failures@ == failures_of_injects(
                    before.board(),
                    before.injects.take(i as int),
                    clock,
                ),
            decreases self.injects.len() - i,
        {
            proof {
                assert(before.injects.take(i + 1).drop_last() =~= before.injects.take(i as int));
                assert(before.injects.take(i + 1).last() == before.injects[i as int]);
            }
            let mut more = self.injects[i].tick(i, clock, &mut self.services, &mut self.teams);
            failures.append(&mut more);
            i += 1;
        }
        assert(before.injects.take(i as int) =~= before.injects);
        assert(self@.injects =~= injects_after(before.injects, clock));
        failures
    }

    /// Lists the checks of a round: every service of the catalogue for
    /// every team, team by team, each with what its probe needs.
    pub fn checks(&self) -> (checks: Vec<Check>)
        ensures
            checks_view(checks@) == self@.checks(),
    {
        let ghost teams = self@.teams;
        let ghost services = self@.services;
        let mut checks: Vec<Check> = Vec::new();
        let mut t: usize = 0;
        while t < self.teams.len()
            invariant
                t <= self.teams.len(),
                teams == self@.teams,
                services == self@.services,
                checks_view(checks@) == all_checks(teams.take(t as int), services),
            decreases self.teams.len() - t,
        {
            let ghost done = checks_view(checks@);
            let ghost mine = team_checks(teams[t as int].0, teams[t as int].1, services);
            let mut s: usize = 0;
            while s < self.services.len()
                invariant
                    s <= self.services.len(),
                    t < self.teams.len(),
                    teams == self@.teams,
                    services == self@.services,
                    mine == team_checks(teams[t as int].0, teams[t as int].1, services),
                    checks_view(checks@) == done + mine.take(s as int),
                decreases self.services.len() - s,
            {
                let check = Check {
                    team: self.teams[t].0.clone(),
                    service: self.services[s].name.clone(),
                    command: self.services[s].command.clone(),
                    env: duplicate_env(&self.teams[t].1.env),
                };
                assert(check@ == mine[s as int]);
                let ghost listed = checks_view(checks@);
                checks.push(check);
                assert(checks_view(checks@) =~= listed.push(check@));
                assert(done + mine.take(s + 1) =~= (done + mine.take(s as int)).push(
                    mine[s as int],
                ));
                s += 1;
            }
            proof {
                assert(mine.take(s as int) =~= mine);
                assert(teams.take(t + 1).drop_last() =~= teams.take(t as int));
                assert(teams.take(t + 1).last() == teams[t as int]);
            }
            t += 1;
        }
        assert(teams.take(t as int) =~= teams);
        checks
    }

    /// Records one result in the score ledger: the record of the named
    /// service of the named team is ticked with the service's weight. A
    /// result for a team or a service that the state does not hold is
    /// dropped.
    pub fn record_check(&mut self, result: &CheckResult)
        ensures
            final(self)@ == old(self)@.checked(result@),
            old(self)@.wf() ==> final(self)@.wf(),
    {
        let t = self.find_team(&result.team);
        let s = find_service(&self.services, &result.service);
        if t < self.teams.len() && s < self.services.len() {
            let multiplier = self.services[s].multiplier;
            let ghost names = team_names(self@.teams);
            self.teams[t].1.record(&result.service, multiplier, result.up);
            proof {
                let team = old(self)@.teams[t as int];
                assert(self@.teams =~= old(self)@.teams.update(
                    t as int,
                    (team.0, team.1.recorded(result@.service, multiplier, result@.up)),
                ));
                assert(team_names(self@.teams) =~= names);
                if old(self)@.wf() {
                    let catalogue = service_names(self@.services);
                    assert forall|i: int| 0 <= i < self@.teams.len() implies (
                    #[trigger] self@.board().teams[i]).0.len() > 0 && self@.teams[i].1.wf()
                        && self@.teams[i].1.within(catalogue) by {
                        assert(old(self)@.board().teams[i].1.wf());
                        if i != t {
                            assert(self@.teams[i] == old(self)@.teams[i]);
                        } else {
                            lemma_with_score_catalogued(
                                team.1.scores,
                                result@.service,
                                score_of(team.1.scores, result@.service).ticked(
                                    multiplier,
                                    result@.up,
                                ),
                                catalogue,
                            );
                        }
                    }
                }
            }
        }
    }

    /// Records the results of a round in the score ledger, in their order.
    pub fn score_tick(&mut self, results: &Vec<CheckResult>)
        ensures
            final(self)@ == old(self)@.after_checks(results_view(results@)),
            old(self)@.wf() ==> final(self)@.wf(),
    {
        let ghost all = results_view(results@);
        let mut i: usize = 0;
        while i < results.len()
            invariant
                i <= results.len(),
                all == results_view(results@),
                self@ == old(self)@.after_checks(all.take(i as int)),
                old(self)@.wf() ==> self@.wf(),
            decreases results.len() - i,
        {
            proof {
                assert(all.take(i + 1).drop_last() =~= all.take(i as int));
                assert(all.take(i + 1).last() == results@[i as int]@);
            }
            self.record_check(&results[i]);
            i += 1;
        }
        assert(all.take(i as int) =~= all);
    }

    /// Merges the score records that a round computed on a copy into the
    /// live state. Teams are matched by name and records by service name. A
    /// record whose service is still in the live catalogue overwrites the
    /// live record, or becomes it where there was none; a record whose
    /// service has left the live catalogue is dropped. Nothing else of the
    /// copy is taken.
    pub fn smart_combine(&mut self, computed: Config)
        ensures
            final(self)@ == old(self)@.combined(computed@),
            old(self)@.wf() && computed@.histories_within_window() ==> final(self)@.wf(),
    {
        let ghost before = self@;
        let ghost catalogue = service_names(self@.services);
        let ghost names = team_names(self@.teams);
        let mut t: usize = 0;
        while t < self.teams.len()
            invariant
                t <= self.teams.len(),
                self.teams.len() == before.teams.len(),
                self.start == before.start,
                self.active == before.active,
                self@.services == before.services,
                self@.injects == before.injects,
                catalogue == service_names(before.services),
                names == team_names(before.teams),
                team_names(self@.teams) == names,
                forall|k: int|
                    0 <= k < t ==> (#[trigger] self@.teams[k]).1 == merged_team(
                        before.teams[k].0,
                        before.teams[k].1,
                        computed@.teams,
                        catalogue,
                    ),
                forall|k: int| t <= k < self.teams.len() ==> (#[trigger] self@.teams[k]) == before.teams[k],
                before.wf() && computed@.histories_within_window() ==> forall|k: int|
                    0 <= k < self.teams.len() ==> (#[trigger] self@.teams[k]).1.wf()
                        && self@.teams[k].1.within(catalogue),
            decreases self.teams.len() - t,
        {
            let ghost current = self@.teams;
            let c = computed.find_team(&self.teams[t].0);
            if c < computed.teams.len() {
                proof {
                    assert(computed@.histories_within_window() ==> all_within_window(
                        computed@.teams[c as int].1.scores,
                    ));
                    assert(before.wf() && computed@.histories_within_window()
                        ==> current[t as int].1.wf() && current[t as int].1.within(catalogue));
                    if before.wf() && computed@.histories_within_window() {
                        lemma_merged_catalogued(
                            current[t as int].1.scores,
                            computed@.teams[c as int].1.scores,
                            catalogue,
                        );
                        assert(computed@.teams[c as int].1 == computed.teams@[c as int].1@);
                    }
                }
                self.teams[t].1.merge(&computed.teams[c].1.scores, &self.services);
            }
            proof {
                assert(team_names(self@.teams) =~= names);
                assert forall|k: int| 0 <= k < t + 1 implies (#[trigger] self@.teams[k]).1
                    == merged_team(
                    before.teams[k].0,
                    before.teams[k].1,
                    computed@.teams,
                    catalogue,
                ) by {
                    if k < t {
                        assert(self@.teams[k] == current[k]);
                    } else {
                        assert(current[k] == before.teams[k]);
                        assert(current[k].0 == self.teams@[k].0@);
                        if c < computed.teams.len() {
                            assert(computed@.teams[c as int].1 == computed.teams@[c as int].1@);
                        }
                    }
                }
                assert forall|k: int| t + 1 <= k < self.teams.len() implies (
                #[trigger] self@.teams[k]) == before.teams[k] by {
                    assert(self@.teams[k] == current[k]);
                }
                if before.wf() && computed@.histories_within_window() {
                    assert forall|k: int| 0 <= k < self.teams.len() implies (
                    #[trigger] self@.teams[k]).1.wf() && self@.teams[k].1.within(catalogue) by {
                        if k != t {
                            assert(self@.teams[k] == current[k]);
                        }
                    }
                }
            }
            t += 1;
        }
        proof {
            assert forall|k: int| 0 <= k < self@.teams.len() implies self@.teams[k]
                == before.combined(computed@).teams[k] by {
                assert(self@.teams[k].0 == team_names(self@.teams)[k]);
                assert(before.teams[k].0 == names[k]);
            }
            assert(self@.teams =~= before.combined(computed@).teams);
            if before.wf() && computed@.histories_within_window() {
                assert forall|i: int| 0 <= i < self@.teams.len() implies (
                #[trigger] self@.board().teams[i]).0.len() > 0 && self@.teams[i].1.wf()
                    && self@.teams[i].1.within(service_names(self@.services)) by {
                    assert(self@.teams[i].0 == names[i]);
                    assert(before.board().teams[i].0 == names[i]);
                    assert(self@.teams[i].1.wf() && self@.teams[i].1.within(catalogue));
                }
            }
        }
    }

    /// The merge step of a round at the second `clock` of the competition:
    /// the inject scheduler runs on the live state first, so that the
    /// catalogue is current, and the score records computed on the copy are
    /// merged in after it. A service that an inject removed in this step
    /// takes no record from the copy.
    pub fn merge_round(&mut self, computed: Config, clock: u64) -> (failures: Vec<EffectFailure>)
        ensures
            final(self)@ == old(self)@.after_injects(clock).combined(computed@),
            failures@ == old(self)@.inject_failures(clock),
            old(self)@.wf() && computed@.histories_within_window() ==> final(self)@.wf(),
    {
        let failures = self.inject_tick(clock);
        self.smart_combine(computed);
        failures
    }


    /// Index of the team called `name`, or the number of teams.
    pub fn find_team(&self, name: &String) -> (index: usize)
        ensures
            index == position(team_names(self@.teams), name@),
    {
        let ghost names = team_names(self@.teams);
        let mut i: usize = 0;
        while i < self.teams.len()
            invariant
                i <= self.teams.len(),
                names == team_names(self@.teams),
                forall|k: int| 0 <= k < i ==> names[k] != name@,
            decreases self.teams.len() - i,
        {
            if self.teams[i].0 == *name {
                proof {
                    lemma_position_found(names, name@, i as int);
                }
                return i;
            }
            i += 1;
        }
        proof {
            lemma_position_found(names, name@, i as int);
        }
        i
    }

    /// Creates a team without score records. An empty or taken name is
    /// rejected and changes nothing.
    pub fn add_team(&mut self, name: String, env: Vec<(String, String)>) -> (outcome: Result<
        (),
        TeamError,
    >)
        ensures
            match team_added(old(self)@.teams, name@, env_view(env@)) {
                Ok(teams) => outcome == Ok::<(), TeamError>(()) && final(self)@ == old(
                    self,
                )@.with_teams(teams),
                Err(error) => outcome == Err::<(), TeamError>(error) && final(self)@ == old(self)@,
            },
            old(self)@.wf() ==> final(self)@.wf(),
    {
        let ghost names = team_names(self@.teams);
        if name.as_str().is_empty() {
            return Err(TeamError::InvalidName);
        }
        if self.find_team(&name) < self.teams.len() {
            return Err(TeamError::AlreadyExists);
        }
        proof {
            lemma_position_first(names, name@);
        }
        let team = Team::new(env);
        self.teams.push((name, team));
        proof {
            let added = (name@, TeamView { scores: Seq::empty(), env: env_view(env@) });
            assert(self@.teams =~= old(self)@.teams.push(added));
            assert(team_names(self@.teams) =~= names.push(name@));
            if old(self)@.wf() {
                assert forall|i: int| 0 <= i < self@.teams.len() implies (
                #[trigger] self@.teams[i]).0.len() > 0 && self@.teams[i].1.wf() by {
                    if i < old(self)@.teams.len() {
                        assert(self@.teams[i] == old(self)@.teams[i]);
                    }
                }
            }
        }
        Ok(())
    }
}

impl Clone for Config {
    /// An independent copy of the state, for a round to compute on.
    fn clone(&self) -> (copy: Config)
        ensures
            copy@ == self@,
    {
        let mut services: Vec<Service> = Vec::new();
        let mut i: usize = 0;
        while i < self.services.len()
            invariant
                i <= self.services.len(),
                services.len() == i,
                forall|k: int| 0 <= k < i ==> (#[trigger] services@[k])@ == self.services@[k]@,
            decreases self.services.len() - i,
        {
            services.push(self.services[i].clone());
            i += 1;
        }
        let mut teams: Vec<(String, Team)> = Vec::new();
        let mut t: usize = 0;
        while t < self.teams.len()
            invariant
                t <= self.teams.len(),
                teams.len() == t,
                forall|k: int|
                    0 <= k < t ==> (#[trigger] teams@[k]).0@ == self.teams@[k].0@ && teams@[k].1@
                        == self.teams@[k].1@,
            decreases self.teams.len() - t,
        {
            teams.push((self.teams[t].0.clone(), self.teams[t].1.clone()));
            t += 1;
        }
        let mut injects: Vec<Inject> = Vec::new();
        let mut j: usize = 0;
        while j < self.injects.len()
            invariant
                j <= self.injects.len(),
                injects.len() == j,
                forall|k: int| 0 <= k < j ==> (#[trigger] injects@[k])@ == self.injects@[k]@,
            decreases self.injects.len() - j,
        {
            injects.push(self.injects[j].clone());
            j += 1;
        }
        let copy = Config { start: self.start, active: self.active, services, teams, injects };
        assert(copy@.services =~= self@.services);
        assert(copy@.teams =~= self@.teams);
        assert(copy@.injects =~= self@.injects);
        copy
    }
}

} // verus!
