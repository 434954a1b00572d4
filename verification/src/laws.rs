//! Laws of the engine: what holds of every state and of every sequence of
//! rounds, proved from the definitions that the contracts are stated over.

use crate::board::{team_names, teams_without, Board};
use crate::catalogue::{catalogue_wf, lemma_remove_keeps_wf, service_names};
use crate::config::{merged_team, CheckResultView, ConfigView};
use crate::inject::{
    board_after_injects, failures_of_injects, injects_after, EffectFailure, InjectView,
};
use crate::lookup::{has_name, lemma_position_first, lemma_position_found, position};
use crate::score::{add_points, keep_last, ScoreView, HISTORY_WINDOW};
use crate::team::{
    lemma_renamed_keeps_others, lemma_renamed_moves, lemma_without_keeps_others,
    lemma_without_members, merged_scores, score_names, score_of, total, with_score, TeamView,
};
use vstd::prelude::*;

verus! {

/// `rounds` observations in a row, all of them `up`.
pub open spec fn streak(up: bool, rounds: nat) -> Seq<bool> {
    Seq::new(rounds, |i: int| up)
}

/// The counter after `rounds` up rounds of weight `multiplier`: it grows by
/// their product, held at the largest value it can take.
pub open spec fn add_streak(score: u32, multiplier: u8, rounds: nat) -> u32 {
    if score + rounds * multiplier <= u32::MAX {
        (score + rounds * multiplier) as u32
    } else {
        u32::MAX
    }
}

/// Dropping the oldest entries before or after an entry is appended leaves
/// the same window.
pub proof fn lemma_keep_last_push(history: Seq<bool>, up: bool, window: nat)
    requires
        window > 0,
    ensures
        keep_last(keep_last(history, window).push(up), window) == keep_last(
            history.push(up),
            window,
        ),
{
    assert(keep_last(keep_last(history, window).push(up), window) =~= keep_last(
        history.push(up),
        window,
    ));
}

/// A run of equal rounds: after `rounds` rounds in a row with the same
/// observation, the history is the old one followed by that many entries,
/// cut to the window; the state is the observation; and the counter has
/// grown by the weight once for every up round, or not at all for down
/// rounds.
pub proof fn lemma_streak(score: ScoreView, multiplier: u8, up: bool, rounds: nat)
    requires
        rounds > 0,
    ensures
        score.ticked_times(multiplier, up, rounds).history == keep_last(
            score.history + streak(up, rounds),
            HISTORY_WINDOW as nat,
        ),
        score.ticked_times(multiplier, up, rounds).up == up,
        score.ticked_times(multiplier, up, rounds).score == if up {
            add_streak(score.score, multiplier, rounds)
        } else {
            score.score
        },
    decreases rounds,
{
    let before = score.ticked_times(multiplier, up, (rounds - 1) as nat);
    assert(score.ticked_times(multiplier, up, rounds) == before.ticked(multiplier, up));
    assert((score.history + streak(up, (rounds - 1) as nat)).push(up) =~= score.history + streak(
        up,
        rounds,
    ));
    assert(rounds * multiplier == (rounds - 1) * multiplier + multiplier) by (nonlinear_arith);
    assert((rounds - 1) * multiplier >= 0) by (nonlinear_arith)
        requires
            rounds >= 1,
            multiplier >= 0,
    ;
    if rounds == 1 {
        assert(before == score);
        assert(score.history + streak(up, 0) =~= score.history);
    } else {
        lemma_streak(score, multiplier, up, (rounds - 1) as nat);
        lemma_keep_last_push(
            score.history + streak(up, (rounds - 1) as nat),
            up,
            HISTORY_WINDOW as nat,
        );
    }
}

/// Consecutive up rounds: where the counter has room for them, `rounds` up
/// rounds of weight `multiplier` raise it by exactly their product, and the
/// newest entries of the history, as many as there were rounds or as the
/// window holds, are all up.
pub proof fn lemma_up_streak(score: ScoreView, multiplier: u8, rounds: nat)
    requires
        score.score + rounds * multiplier <= u32::MAX,
    ensures
        score.ticked_times(multiplier, true, rounds).score == score.score + rounds * multiplier,
        rounds <= HISTORY_WINDOW ==> score.ticked_times(multiplier, true, rounds).history.len()
            >= rounds,
        rounds > HISTORY_WINDOW ==> score.ticked_times(multiplier, true, rounds).history.len()
            == HISTORY_WINDOW,
        forall|i: int|
            #![trigger score.ticked_times(multiplier, true, rounds).history[i]]
            score.ticked_times(multiplier, true, rounds).history.len() - rounds <= i
                < score.ticked_times(multiplier, true, rounds).history.len()
                && 0 <= i ==> score.ticked_times(multiplier, true, rounds).history[i],
{
    if rounds == 0 {
        assert(rounds * multiplier == 0) by (nonlinear_arith)
            requires
                rounds == 0,
        ;
    } else {
        lemma_streak(score, multiplier, true, rounds);
    }
}

/// The counter never decreases: a round leaves it where it was or higher.
pub proof fn lemma_score_monotone(score: ScoreView, multiplier: u8, up: bool)
    ensures
        score.ticked(multiplier, up).score >= score.score,
        score.ticked(multiplier, up).within_window(),
        !up ==> score.ticked(multiplier, up).score == score.score,
        up ==> score.ticked(multiplier, up).score == add_points(score.score, multiplier),
{
}

/// An inject fires at most once: once it was due at a clock, it is
/// completed, and it is due at no clock afterwards; a completed inject
/// stays completed.
pub proof fn lemma_inject_fires_once(inject: InjectView, first: u64, later: u64)
    ensures
        inject.is_due(first) ==> inject.after(first).completed,
        inject.is_due(first) ==> !inject.after(first).is_due(later),
        inject.completed ==> inject.after(first) == inject,
        inject.completed ==> !inject.is_due(later),
        inject.after(first).after(first) == inject.after(first),
{
}

/// A schedule of which no inject is due lets the round pass: the catalogue,
/// the teams and the schedule stay as they are and nothing is reported.
pub proof fn lemma_idle_schedule(board: Board, injects: Seq<InjectView>, clock: u64)
    requires
        forall|i: int| 0 <= i < injects.len() ==> !(#[trigger] injects[i]).is_due(clock),
    ensures
        board_after_injects(board, injects, clock) == board,
        failures_of_injects(board, injects, clock) == Seq::<EffectFailure>::empty(),
        injects_after(injects, clock) == injects,
    decreases injects.len(),
{
    assert(injects_after(injects, clock) =~= injects);
    if injects.len() > 0 {
        let rest = injects.drop_last();
        assert forall|i: int| 0 <= i < rest.len() implies !(#[trigger] rest[i]).is_due(clock) by {
            assert(rest[i] == injects[i]);
        }
        lemma_idle_schedule(board, rest, clock);
        assert(!injects.last().is_due(clock));
        assert(failures_of_injects(board, injects, clock) =~= Seq::<EffectFailure>::empty());
    }
}

/// Injects never fire again: after a round at one clock, a second round at
/// a later clock fires only injects that were not due in the first, and a
/// second round at the same clock changes nothing at all.
pub proof fn lemma_round_fires_once(state: ConfigView, first: u64, later: u64)
    ensures
        forall|i: int|
            0 <= i < state.injects.len() && (#[trigger] state.injects[i]).is_due(first)
                ==> state.after_injects(first).injects[i].completed && !state.after_injects(
                first,
            ).injects[i].is_due(later),
        forall|i: int|
            0 <= i < state.injects.len() && (#[trigger] state.injects[i]).completed
                ==> state.after_injects(first).injects[i] == state.injects[i],
        state.after_injects(first).after_injects(first) == state.after_injects(first),
        state.after_injects(first).inject_failures(first) == Seq::<EffectFailure>::empty(),
{
    let once = state.after_injects(first);
    assert forall|i: int| 0 <= i < once.injects.len() implies !(#[trigger] once.injects[i]).is_due(
        first,
    ) by {
        lemma_inject_fires_once(state.injects[i], first, first);
    }
    lemma_idle_schedule(once.board(), once.injects, first);
}

/// A state whose injects are all completed is out of the scheduler's reach:
/// a round at any clock leaves it as it is and reports nothing.
pub proof fn lemma_completed_schedule_is_spent(state: ConfigView, clock: u64)
    requires
        forall|i: int| 0 <= i < state.injects.len() ==> (#[trigger] state.injects[i]).completed,
    ensures
        state.after_injects(clock) == state,
        state.inject_failures(clock) == Seq::<EffectFailure>::empty(),
{
    lemma_idle_schedule(state.board(), state.injects, clock);
}

/// Storing a record under a name leaves the records of all other names as
/// they were.
pub proof fn lemma_with_score_other(
    scores: Seq<(Seq<char>, ScoreView)>,
    name: Seq<char>,
    value: ScoreView,
    other: Seq<char>,
)
    requires
        other != name,
    ensures
        has_name(score_names(with_score(scores, name, value)), other) == has_name(
            score_names(scores),
            other,
        ),
        score_of(with_score(scores, name, value), other) == score_of(scores, other),
{
    let names = score_names(scores);
    let after = with_score(scores, name, value);
    let after_names = score_names(after);
    lemma_position_first(names, name);
    lemma_position_first(names, other);
    let q = position(names, other) as int;
    if has_name(names, name) {
        assert(after_names =~= names);
    } else {
        assert(after_names =~= names.push(name));
        if q < names.len() {
            lemma_position_found(after_names, other, q);
        } else {
            lemma_position_found(after_names, other, after_names.len() as int);
        }
    }
}

/// Storing a record under a name makes it the record of that name.
pub proof fn lemma_with_score_same(
    scores: Seq<(Seq<char>, ScoreView)>,
    name: Seq<char>,
    value: ScoreView,
)
    ensures
        has_name(score_names(with_score(scores, name, value)), name),
        score_of(with_score(scores, name, value), name) == value,
{
    let names = score_names(scores);
    let after = with_score(scores, name, value);
    let after_names = score_names(after);
    lemma_position_first(names, name);
    if has_name(names, name) {
        assert(after_names =~= names);
    } else {
        assert(after_names =~= names.push(name));
        lemma_position_found(after_names, name, names.len() as int);
    }
}

/// The merge discards orphaned updates: for a name that the live catalogue
/// does not hold, the live records are after the merge what they were
/// before it, whatever the copy computed. A record that did not exist is
/// not created, and one that existed is not overwritten.
pub proof fn lemma_merge_drops_orphans(
    live: Seq<(Seq<char>, ScoreView)>,
    updates: Seq<(Seq<char>, ScoreView)>,
    catalogue: Seq<Seq<char>>,
    name: Seq<char>,
)
    requires
        !has_name(catalogue, name),
    ensures
        has_name(score_names(merged_scores(live, updates, catalogue)), name) == has_name(
            score_names(live),
            name,
        ),
        score_of(merged_scores(live, updates, catalogue), name) == score_of(live, name),
    decreases updates.len(),
{
    if updates.len() > 0 {
        lemma_merge_drops_orphans(live, updates.drop_last(), catalogue, name);
        if has_name(catalogue, updates.last().0) {
            lemma_with_score_other(
                merged_scores(live, updates.drop_last(), catalogue),
                updates.last().0,
                updates.last().1,
                name,
            );
        }
    }
}

/// The merge leaves alone what the copy does not speak of: for a name
/// without an update, the live records stay what they were.
pub proof fn lemma_merge_keeps_unmentioned(
    live: Seq<(Seq<char>, ScoreView)>,
    updates: Seq<(Seq<char>, ScoreView)>,
    catalogue: Seq<Seq<char>>,
    name: Seq<char>,
)
    requires
        !has_name(score_names(updates), name),
    ensures
        has_name(score_names(merged_scores(live, updates, catalogue)), name) == has_name(
            score_names(live),
            name,
        ),
        score_of(merged_scores(live, updates, catalogue), name) == score_of(live, name),
    decreases updates.len(),
{
    if updates.len() > 0 {
        let names = score_names(updates);
        let rest = updates.drop_last();
        lemma_position_first(names, name);
        assert(names[updates.len() - 1] != name);
        assert(score_names(rest) =~= names.drop_last());
        lemma_position_found(score_names(rest), name, rest.len() as int);
        lemma_merge_keeps_unmentioned(live, rest, catalogue, name);
        if has_name(catalogue, updates.last().0) {
            lemma_with_score_other(
                merged_scores(live, rest, catalogue),
                updates.last().0,
                updates.last().1,
                name,
            );
        }
    }
}

/// The merge takes the updates of catalogued services: for a name of the
/// live catalogue that the copy holds a record of, the live record is after
/// the merge the copy's record.
pub proof fn lemma_merge_takes_update(
    live: Seq<(Seq<char>, ScoreView)>,
    updates: Seq<(Seq<char>, ScoreView)>,
    catalogue: Seq<Seq<char>>,
    name: Seq<char>,
)
    requires
        has_name(catalogue, name),
        has_name(score_names(updates), name),
        score_names(updates).no_duplicates(),
    ensures
        has_name(score_names(merged_scores(live, updates, catalogue)), name),
        score_of(merged_scores(live, updates, catalogue), name) == score_of(updates, name),
    decreases updates.len(),
{
    let names = score_names(updates);
    lemma_position_first(names, name);
    let p = position(names, name) as int;
    let rest = updates.drop_last();
    let before = merged_scores(live, rest, catalogue);
    assert(score_names(rest) =~= names.drop_last());
    if updates.last().0 == name {
        assert(names[updates.len() - 1] == name);
        assert(p == updates.len() - 1);
        lemma_with_score_same(before, name, updates.last().1);
    } else {
        assert(names[updates.len() - 1] != name);
        lemma_position_found(score_names(rest), name, p);
        lemma_merge_takes_update(live, rest, catalogue, name);
        if has_name(catalogue, updates.last().0) {
            lemma_with_score_other(before, updates.last().0, updates.last().1, name);
        }
    }
}

/// A removed service does not come back with a merge. Once a service was
/// removed from a live state with a well-formed catalogue, the catalogue is
/// without it and no team holds a record of it; and after merging any
/// computed copy, however stale, that is still so. The records that the
/// teams hold of the other services are those that the merge gives them.
pub proof fn lemma_removed_service_stays_out(
    live: ConfigView,
    computed: ConfigView,
    name: Seq<char>,
)
    requires
        catalogue_wf(live.services),
        live.board().removed(name) is Ok,
    ensures
        ({
            let removed = live.with_board(live.board().settled(live.board().removed(name)));
            let merged = removed.combined(computed);
            &&& !has_name(service_names(removed.services), name)
            &&& merged.services == removed.services
            &&& merged.teams.len() == live.teams.len()
            &&& forall|t: int|
                0 <= t < live.teams.len() ==> !has_name(
                    score_names((#[trigger] removed.teams[t]).1.scores),
                    name,
                )
            &&& forall|t: int|
                0 <= t < live.teams.len() ==> !has_name(
                    score_names((#[trigger] merged.teams[t]).1.scores),
                    name,
                ) && score_of(merged.teams[t].1.scores, name) == ScoreView::fresh()
        }),
{
    lemma_remove_keeps_wf(live.services, name);
    let removed = live.with_board(live.board().settled(live.board().removed(name)));
    let merged = removed.combined(computed);
    let catalogue = service_names(removed.services);
    assert(removed.teams == teams_without(live.teams, name));
    assert forall|t: int| 0 <= t < live.teams.len() implies !has_name(
        score_names((#[trigger] removed.teams[t]).1.scores),
        name,
    ) by {
        lemma_without_members(live.teams[t].1.scores, name);
    }
    assert forall|t: int| 0 <= t < live.teams.len() implies !has_name(
        score_names((#[trigger] merged.teams[t]).1.scores),
        name,
    ) && score_of(merged.teams[t].1.scores, name) == ScoreView::fresh() by {
        let team = removed.teams[t];
        assert(!has_name(score_names(team.1.scores), name));
        assert(merged.teams[t].1 == merged_team(team.0, team.1, computed.teams, catalogue));
        if has_name(team_names(computed.teams), team.0) {
            let c = position(team_names(computed.teams), team.0) as int;
            lemma_merge_drops_orphans(team.1.scores, computed.teams[c].1.scores, catalogue, name);
        }
    }
}

/// Removing a service takes nothing else away: every team's record of any
/// other service is after the removal what it was before.
pub proof fn lemma_removal_keeps_other_records(board: Board, name: Seq<char>, other: Seq<char>, t: int)
    requires
        board.removed(name) is Ok,
        other != name,
        0 <= t < board.teams.len(),
    ensures
        board.settled(board.removed(name)).teams.len() == board.teams.len(),
        board.settled(board.removed(name)).teams[t].0 == board.teams[t].0,
        board.settled(board.removed(name)).teams[t].1.env == board.teams[t].1.env,
        has_name(score_names(board.settled(board.removed(name)).teams[t].1.scores), other)
            == has_name(score_names(board.teams[t].1.scores), other),
        score_of(board.settled(board.removed(name)).teams[t].1.scores, other) == score_of(
            board.teams[t].1.scores,
            other,
        ),
{
    lemma_without_keeps_others(board.teams[t].1.scores, name, other);
}

/// A renamed service keeps its records. Where an edit of a well-formed
/// board gives a service another name, every team's record of the service
/// is found under the new name with its content, no record is left under
/// the old name, and the records of all other services are as they were.
pub proof fn lemma_rename_moves_records(
    board: Board,
    name: Seq<char>,
    service: crate::service::ServiceView,
    other: Seq<char>,
    t: int,
)
    requires
        board.wf(),
        board.edited(name, service) is Ok,
        service.name != name,
        other != name,
        other != service.name,
        0 <= t < board.teams.len(),
    ensures
        board.settled(board.edited(name, service)).teams.len() == board.teams.len(),
        board.settled(board.edited(name, service)).teams[t].0 == board.teams[t].0,
        !has_name(score_names(board.settled(board.edited(name, service)).teams[t].1.scores), name),
        has_name(
            score_names(board.settled(board.edited(name, service)).teams[t].1.scores),
            service.name,
        ) == has_name(score_names(board.teams[t].1.scores), name),
        score_of(board.settled(board.edited(name, service)).teams[t].1.scores, service.name)
            == score_of(board.teams[t].1.scores, name),
        has_name(score_names(board.settled(board.edited(name, service)).teams[t].1.scores), other)
            == has_name(score_names(board.teams[t].1.scores), other),
        score_of(board.settled(board.edited(name, service)).teams[t].1.scores, other) == score_of(
            board.teams[t].1.scores,
            other,
        ),
{
    let scores = board.teams[t].1.scores;
    let names = service_names(board.services);
    assert(board.teams[t].1.within(names));
    if has_name(score_names(scores), service.name) {
        lemma_position_first(score_names(scores), service.name);
        let q = position(score_names(scores), service.name) as int;
        assert(scores[q].0 == service.name);
        assert(has_name(names, scores[q].0));
    }
    lemma_renamed_moves(scores, name, service.name);
    lemma_renamed_keeps_others(scores, name, service.name, other);
}

/// Replacing one record changes the total by the difference of the
/// counters.
pub proof fn lemma_total_update(
    scores: Seq<(Seq<char>, ScoreView)>,
    i: int,
    entry: (Seq<char>, ScoreView),
)
    requires
        0 <= i < scores.len(),
    ensures
        total(scores.update(i, entry)) == total(scores) - scores[i].1.score + entry.1.score,
    decreases scores.len(),
{
    let after = scores.update(i, entry);
    if i == scores.len() - 1 {
        assert(after.drop_last() =~= scores.drop_last());
    } else {
        assert(after.drop_last() =~= scores.drop_last().update(i, entry));
        lemma_total_update(scores.drop_last(), i, entry);
    }
}

/// The team's score is the sum of its counters after every round: recording
/// a round of one service raises the sum by exactly what that service's
/// counter gained, which is nothing for a down round, and no other counter
/// takes part.
pub proof fn lemma_total_after_record(team: TeamView, name: Seq<char>, multiplier: u8, up: bool)
    ensures
        team.recorded(name, multiplier, up).total_score() == team.total_score() + (score_of(
            team.scores,
            name,
        ).ticked(multiplier, up).score - score_of(team.scores, name).score),
        team.recorded(name, multiplier, up).total_score() >= team.total_score(),
        !up ==> team.recorded(name, multiplier, up).total_score() == team.total_score(),
{
    let names = score_names(team.scores);
    let value = score_of(team.scores, name).ticked(multiplier, up);
    lemma_position_first(names, name);
    if has_name(names, name) {
        lemma_total_update(team.scores, position(names, name) as int, (name, value));
    } else {
        assert(team.scores.push((name, value)).drop_last() =~= team.scores);
    }
}

/// Recording a result touches a single record. The catalogue, the
/// schedule, the names and environments of the teams stay as they are, and
/// so does every record but the one of the named service of the named team.
pub proof fn lemma_check_touches_one_record(
    state: ConfigView,
    result: CheckResultView,
    t: int,
    name: Seq<char>,
)
    requires
        0 <= t < state.teams.len(),
        t != position(team_names(state.teams), result.team) || name != result.service,
    ensures
        state.checked(result).services == state.services,
        state.checked(result).injects == state.injects,
        state.checked(result).start == state.start,
        state.checked(result).active == state.active,
        state.checked(result).teams.len() == state.teams.len(),
        state.checked(result).teams[t].0 == state.teams[t].0,
        state.checked(result).teams[t].1.env == state.teams[t].1.env,
        has_name(score_names(state.checked(result).teams[t].1.scores), name) == has_name(
            score_names(state.teams[t].1.scores),
            name,
        ),
        score_of(state.checked(result).teams[t].1.scores, name) == score_of(
            state.teams[t].1.scores,
            name,
        ),
{
    let p = position(team_names(state.teams), result.team) as int;
    let s = position(service_names(state.services), result.service) as int;
    if p < state.teams.len() && s < state.services.len() && t == p {
        lemma_with_score_other(
            state.teams[t].1.scores,
            result.service,
            score_of(state.teams[t].1.scores, result.service).ticked(
                state.services[s].multiplier,
                result.up,
            ),
            name,
        );
    }
}

} // verus!
