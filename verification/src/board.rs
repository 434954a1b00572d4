//! The board: the service catalogue together with the teams' score records.
//!
//! A score record belongs to a service of the catalogue. The operations
//! that take a service out of the catalogue, or give it another name, keep
//! it so: removing a service drops the record that each team holds of it,
//! and renaming a service moves each team's record to the new name.

use crate::catalogue::{
    add_result, catalogue_wf, edit_result, find_service, lemma_add_keeps_wf, lemma_edit_keeps_wf,
    lemma_remove_keeps_wf, remove_result, service_names, services_view, ConfigError,
};
use crate::lookup::{
    has_name, lemma_has_name_after_remove, lemma_has_name_after_update, lemma_position_first,
    lemma_position_push, position,
};
use crate::service::{Service, ServiceView};
use crate::team::{
    lemma_renamed_keeps_wf, lemma_without_keeps_wf, lemma_without_members, score_names,
    scores_renamed, scores_without, Team, TeamView,
};
use vstd::prelude::*;

verus! {

/// Mathematical value of a catalogue and the teams scored against it.
pub struct Board {
    pub services: Seq<ServiceView>,
    pub teams: Seq<(Seq<char>, TeamView)>,
}

/// View of a list of teams.
pub open spec fn teams_view(teams: Seq<(String, Team)>) -> Seq<(Seq<char>, TeamView)> {
    Seq::new(teams.len(), |i: int| (teams[i].0@, teams[i].1@))
}

/// The names of the teams, in their order.
pub open spec fn team_names(teams: Seq<(Seq<char>, TeamView)>) -> Seq<Seq<char>> {
    Seq::new(teams.len(), |i: int| teams[i].0)
}

/// The board that a list of services and a list of teams stand for.
pub open spec fn board_of(services: Seq<Service>, teams: Seq<(String, Team)>) -> Board {
    Board { services: services_view(services), teams: teams_view(teams) }
}

/// The teams, each without a record of the service `name`.
pub open spec fn teams_without(teams: Seq<(Seq<char>, TeamView)>, name: Seq<char>) -> Seq<
    (Seq<char>, TeamView),
> {
    Seq::new(teams.len(), |t: int| (teams[t].0, teams[t].1.without(name)))
}

/// The teams, each with its record of the service `old_name` kept under
/// `new_name`.
pub open spec fn teams_renamed(
    teams: Seq<(Seq<char>, TeamView)>,
    old_name: Seq<char>,
    new_name: Seq<char>,
) -> Seq<(Seq<char>, TeamView)> {
    Seq::new(teams.len(), |t: int| (teams[t].0, teams[t].1.renamed(old_name, new_name)))
}

impl Board {
    /// The catalogue is well formed; the teams have distinct non-empty
    /// names; every team is well formed; and every score record belongs to
    /// a service of the catalogue.
    pub open spec fn wf(self) -> bool {
        &&& catalogue_wf(self.services)
        &&& team_names(self.teams).no_duplicates()
        &&& forall|t: int|
            0 <= t < self.teams.len() ==> (#[trigger] self.teams[t]).0.len() > 0
                && self.teams[t].1.wf() && self.teams[t].1.within(service_names(self.services))
    }

    /// Outcome of adding `service`: the catalogue takes it at its end, and
    /// no team changes.
    pub open spec fn added(self, service: ServiceView) -> Result<Board, ConfigError> {
        match add_result(self.services, service) {
            Ok(services) => Ok(Board { services, teams: self.teams }),
            Err(error) => Err(error),
        }
    }

    /// Outcome of removing the service called `name`: it leaves the
    /// catalogue, and every team loses its record of it.
    pub open spec fn removed(self, name: Seq<char>) -> Result<Board, ConfigError> {
        match remove_result(self.services, name) {
            Ok(services) => Ok(Board { services, teams: teams_without(self.teams, name) }),
            Err(error) => Err(error),
        }
    }

    /// Outcome of replacing the service called `name` by `service`: the
    /// catalogue holds `service` in its place, and every team keeps its
    /// record of the service under the name that `service` has.
    pub open spec fn edited(self, name: Seq<char>, service: ServiceView) -> Result<
        Board,
        ConfigError,
    > {
        match edit_result(self.services, name, service) {
            Ok(services) => Ok(
                Board { services, teams: teams_renamed(self.teams, name, service.name) },
            ),
            Err(error) => Err(error),
        }
    }

    /// The board that an outcome leaves: the new one, or this one unchanged
    /// where the operation failed.
    pub open spec fn settled(self, outcome: Result<Board, ConfigError>) -> Board {
        match outcome {
            Ok(changed) => changed,
            Err(_) => self,
        }
    }
}

/// What an operation reports for an outcome.
pub open spec fn report_of(outcome: Result<Board, ConfigError>) -> Result<(), ConfigError> {
    match outcome {
        Ok(_) => Ok(()),
        Err(error) => Err(error),
    }
}

/// Adding a service keeps a well-formed board well formed.
pub proof fn lemma_added_keeps_wf(board: Board, service: ServiceView)
    requires
        board.wf(),
    ensures
        board.settled(board.added(service)).wf(),
{
    lemma_add_keeps_wf(board.services, service);
    if board.added(service) is Ok {
        let names = service_names(board.services);
        let after = board.settled(board.added(service));
        assert(service_names(after.services) =~= names.push(service.name));
        assert forall|t: int| 0 <= t < after.teams.len() implies (#[trigger] after.teams[t]).1.within(
            service_names(after.services),
        ) by {
            let scores = board.teams[t].1.scores;
            assert(board.teams[t].1.within(names));
            assert forall|i: int| 0 <= i < scores.len() implies has_name(
                names.push(service.name),
                (#[trigger] scores[i]).0,
            ) by {
                lemma_position_push(names, service.name, scores[i].0);
            }
        }
    }
}

/// Removing a service keeps a well-formed board well formed, and leaves
/// neither the service in the catalogue nor a record of it in any team.
pub proof fn lemma_removed_keeps_wf(board: Board, name: Seq<char>)
    requires
        board.wf(),
    ensures
        board.settled(board.removed(name)).wf(),
{
    lemma_remove_keeps_wf(board.services, name);
    if board.removed(name) is Ok {
        let names = service_names(board.services);
        let p = position(names, name) as int;
        let after = board.settled(board.removed(name));
        lemma_position_first(names, name);
        assert(service_names(after.services) =~= names.remove(p));
        assert(team_names(after.teams) =~= team_names(board.teams));
        assert forall|t: int| 0 <= t < after.teams.len() implies (#[trigger] after.teams[t]).0.len()
            > 0 && after.teams[t].1.wf() && after.teams[t].1.within(
            service_names(after.services),
        ) by {
            let team = board.teams[t].1;
            assert(board.teams[t].0.len() > 0 && team.wf() && team.within(names));
            lemma_without_keeps_wf(team, name);
            lemma_without_members(team.scores, name);
            let left = scores_without(team.scores, name);
            assert forall|i: int| 0 <= i < left.len() implies has_name(
                names.remove(p),
                (#[trigger] left[i]).0,
            ) by {
                assert(team.scores.contains(left[i]));
                let j = choose|j: int| 0 <= j < team.scores.len() && team.scores[j] == left[i];
                assert(has_name(names, team.scores[j].0));
                lemma_has_name_after_remove(names, p, left[i].0);
            }
        }
    }
}

/// Editing a service keeps a well-formed board well formed.
pub proof fn lemma_edited_keeps_wf(board: Board, name: Seq<char>, service: ServiceView)
    requires
        board.wf(),
    ensures
        board.settled(board.edited(name, service)).wf(),
{
    lemma_edit_keeps_wf(board.services, name, service);
    if board.edited(name, service) is Ok {
        let names = service_names(board.services);
        let p = position(names, name) as int;
        let after = board.settled(board.edited(name, service));
        lemma_position_first(names, name);
        assert(service_names(after.services) =~= names.update(p, service.name));
        assert(team_names(after.teams) =~= team_names(board.teams));
        assert forall|t: int| 0 <= t < after.teams.len() implies (#[trigger] after.teams[t]).0.len()
            > 0 && after.teams[t].1.wf() && after.teams[t].1.within(
            service_names(after.services),
        ) by {
            let team = board.teams[t].1;
            assert(board.teams[t].0.len() > 0 && team.wf() && team.within(names));
            if service.name != name && has_name(score_names(team.scores), service.name) {
                lemma_position_first(score_names(team.scores), service.name);
                let q = position(score_names(team.scores), service.name) as int;
                assert(team.scores[q].0 == service.name);
                assert(has_name(names, team.scores[q].0));
            }
            lemma_renamed_keeps_wf(team, name, service.name);
            let moved = scores_renamed(team.scores, name, service.name);
            assert forall|i: int| 0 <= i < moved.len() implies has_name(
                names.update(p, service.name),
                (#[trigger] moved[i]).0,
            ) by {
                assert(has_name(names, team.scores[i].0));
                lemma_has_name_after_update(names, p, service.name, moved[i].0);
            }
        }
    }
}

/// Removes the service called `name` from the catalogue, and with it the
/// record that each team holds of it. Where the catalogue has no such
/// service, the call is rejected and changes nothing.
pub fn remove_service(
    services: &mut Vec<Service>,
    teams: &mut Vec<(String, Team)>,
    name: &String,
) -> (outcome: Result<(), ConfigError>)
    ensures
        outcome == report_of(board_of(old(services)@, old(teams)@).removed(name@)),
        board_of(final(services)@, final(teams)@) == board_of(
            old(services)@,
            old(teams)@,
        ).settled(board_of(old(services)@, old(teams)@).removed(name@)),
        board_of(old(services)@, old(teams)@).wf() ==> board_of(
            final(services)@,
            final(teams)@,
        ).wf(),
{
    let ghost before = board_of(services@, teams@);
    proof {
        if before.wf() {
            lemma_removed_keeps_wf(before, name@);
        }
    }
    let i = find_service(services, name);
    if i >= services.len() {
        return Err(ConfigError::ServiceNotFound);
    }
    let _ = services.remove(i);
    assert(services_view(services@) =~= before.services.remove(i as int));
    let mut t: usize = 0;
    while t < teams.len()
        invariant
            t <= teams.len(),
            teams.len() == before.teams.len(),
            forall|k: int|
                0 <= k < t ==> (#[trigger] teams_view(teams@)[k]) == teams_without(
                    before.teams,
                    name@,
                )[k],
            forall|k: int| t <= k < teams.len() ==> (#[trigger] teams_view(teams@)[k]) == before.teams[k],
        decreases teams.len() - t,
    {
        let ghost current = teams_view(teams@);
        teams[t].1.forget(name);
        proof {
            assert forall|k: int| 0 <= k < t + 1 implies (#[trigger] teams_view(teams@)[k])
                == teams_without(before.teams, name@)[k] by {
                if k < t {
                    assert(teams_view(teams@)[k] == current[k]);
                } else {
                    assert(current[k] == before.teams[k]);
                }
            }
            assert forall|k: int| t + 1 <= k < teams.len() implies (#[trigger] teams_view(
                teams@,
            )[k]) == before.teams[k] by {
                assert(teams_view(teams@)[k] == current[k]);
            }
        }
        t += 1;
    }
    assert(teams_view(teams@) =~= teams_without(before.teams, name@));
    Ok(())
}

/// Replaces the service called `name` by `service`, in its place, and keeps
/// each team's record of it under the name that `service` has. An invalid
/// service, a missing name or a name taken by a third service is rejected
/// and changes nothing.
pub fn edit_service(
    services: &mut Vec<Service>,
    teams: &mut Vec<(String, Team)>,
    name: &String,
    service: Service,
) -> (outcome: Result<(), ConfigError>)
    ensures
        outcome == report_of(board_of(old(services)@, old(teams)@).edited(name@, service@)),
        board_of(final(services)@, final(teams)@) == board_of(
            old(services)@,
            old(teams)@,
        ).settled(board_of(old(services)@, old(teams)@).edited(name@, service@)),
        board_of(old(services)@, old(teams)@).wf() ==> board_of(
            final(services)@,
            final(teams)@,
        ).wf(),
{
    let ghost before = board_of(services@, teams@);
    proof {
        if before.wf() {
            lemma_edited_keeps_wf(before, name@, service@);
        }
    }
    if !service.is_valid() {
        return Err(ConfigError::InvalidService);
    }
    let i = find_service(services, name);
    if i >= services.len() {
        return Err(ConfigError::ServiceNotFound);
    }
    if service.name != *name && find_service(services, &service.name) < services.len() {
        return Err(ConfigError::ServiceExists);
    }
    let new_name = service.name.clone();
    services[i] = service;
    assert(services_view(services@) =~= before.services.update(i as int, service@));
    let mut t: usize = 0;
    while t < teams.len()
        invariant
            t <= teams.len(),
            teams.len() == before.teams.len(),
            new_name@ == service@.name,
            forall|k: int|
                0 <= k < t ==> (#[trigger] teams_view(teams@)[k]) == teams_renamed(
                    before.teams,
                    name@,
                    new_name@,
                )[k],
            forall|k: int| t <= k < teams.len() ==> (#[trigger] teams_view(teams@)[k]) == before.teams[k],
        decreases teams.len() - t,
    {
        let ghost current = teams_view(teams@);
        teams[t].1.rename(name, &new_name);
        proof {
            assert forall|k: int| 0 <= k < t + 1 implies (#[trigger] teams_view(teams@)[k])
                == teams_renamed(before.teams, name@, new_name@)[k] by {
                if k < t {
                    assert(teams_view(teams@)[k] == current[k]);
                } else {
                    assert(current[k] == before.teams[k]);
                }
            }
            assert forall|k: int| t + 1 <= k < teams.len() implies (#[trigger] teams_view(
                teams@,
            )[k]) == before.teams[k] by {
                assert(teams_view(teams@)[k] == current[k]);
            }
        }
        t += 1;
    }
    assert(teams_view(teams@) =~= teams_renamed(before.teams, name@, new_name@));
    Ok(())
}

} // verus!
