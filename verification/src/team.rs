//! A competing team: its score records and the environment of its probes.

use crate::lookup::{
    has_name, lemma_has_name_contains, lemma_position_first, lemma_position_found,
    lemma_position_push, position,
};
use crate::probe::{duplicate_env, env_view};
use crate::catalogue::{find_service, service_names, services_view};
use crate::score::{Score, ScoreView};
use crate::service::Service;
use vstd::prelude::*;

verus! {

/// A competing team.
#[derive(Debug)]
pub struct Team {
    /// One record for each service checked so far, keyed by the service's
    /// name.
    pub scores: Vec<(String, Score)>,
    /// Variables handed to every probe that runs for this team.
    pub env: Vec<(String, String)>,
}

/// Mathematical value of a [`Team`].
pub struct TeamView {
    pub scores: Seq<(Seq<char>, ScoreView)>,
    pub env: Seq<(Seq<char>, Seq<char>)>,
}

/// View of a list of score records.
pub open spec fn scores_view(scores: Seq<(String, Score)>) -> Seq<(Seq<char>, ScoreView)> {
    Seq::new(scores.len(), |i: int| (scores[i].0@, scores[i].1@))
}

impl View for Team {
    type V = TeamView;

    open spec fn view(&self) -> TeamView {
        TeamView { scores: scores_view(self.scores@), env: env_view(self.env@) }
    }
}

/// The names that the records are kept under, in their order.
pub open spec fn score_names(scores: Seq<(Seq<char>, ScoreView)>) -> Seq<Seq<char>> {
    Seq::new(scores.len(), |i: int| scores[i].0)
}

/// Sum of the counters of all records.
pub open spec fn total(scores: Seq<(Seq<char>, ScoreView)>) -> nat
    decreases scores.len(),
{
    if scores.len() == 0 {
        0
    } else {
        total(scores.drop_last()) + scores.last().1.score as nat
    }
}

/// The record kept under `name`, or a fresh one where there is none.
pub open spec fn score_of(scores: Seq<(Seq<char>, ScoreView)>, name: Seq<char>) -> ScoreView {
    if has_name(score_names(scores), name) {
        scores[position(score_names(scores), name) as int].1
    } else {
        ScoreView::fresh()
    }
}

/// The records with `value` under `name`: in the place of the record that
/// was there, or at the end where there was none.
pub open spec fn with_score(
    scores: Seq<(Seq<char>, ScoreView)>,
    name: Seq<char>,
    value: ScoreView,
) -> Seq<(Seq<char>, ScoreView)> {
    if has_name(score_names(scores), name) {
        scores.update(position(score_names(scores), name) as int, (name, value))
    } else {
        scores.push((name, value))
    }
}

/// The records after the updates were merged in, from the first to the
/// last. An update for a name of the catalogue becomes the record of that
/// name; an update for any other name is dropped.
pub open spec fn merged_scores(
    live: Seq<(Seq<char>, ScoreView)>,
    updates: Seq<(Seq<char>, ScoreView)>,
    catalogue: Seq<Seq<char>>,
) -> Seq<(Seq<char>, ScoreView)>
    decreases updates.len(),
{
    if updates.len() == 0 {
        live
    } else {
        let before = merged_scores(live, updates.drop_last(), catalogue);
        if has_name(catalogue, updates.last().0) {
            with_score(before, updates.last().0, updates.last().1)
        } else {
            before
        }
    }
}

/// The records without those kept under `name`, the others in their order.
pub open spec fn scores_without(
    scores: Seq<(Seq<char>, ScoreView)>,
    name: Seq<char>,
) -> Seq<(Seq<char>, ScoreView)>
    decreases scores.len(),
{
    if scores.len() == 0 {
        scores
    } else if scores.last().0 == name {
        scores_without(scores.drop_last(), name)
    } else {
        scores_without(scores.drop_last(), name).push(scores.last())
    }
}

/// The records with those kept under `old_name` moved to `new_name`, each in
/// its place and with its content.
pub open spec fn scores_renamed(
    scores: Seq<(Seq<char>, ScoreView)>,
    old_name: Seq<char>,
    new_name: Seq<char>,
) -> Seq<(Seq<char>, ScoreView)> {
    Seq::new(
        scores.len(),
        |i: int|
            if scores[i].0 == old_name {
                (new_name, scores[i].1)
            } else {
                scores[i]
            },
    )
}

/// Every record is kept under a name of the catalogue.
pub open spec fn all_catalogued(
    scores: Seq<(Seq<char>, ScoreView)>,
    catalogue: Seq<Seq<char>>,
) -> bool {
    forall|i: int| 0 <= i < scores.len() ==> has_name(catalogue, (#[trigger] scores[i]).0)
}

/// No history among the records exceeds the window.
pub open spec fn all_within_window(scores: Seq<(Seq<char>, ScoreView)>) -> bool {
    forall|i: int| 0 <= i < scores.len() ==> (#[trigger] scores[i]).1.within_window()
}

impl TeamView {
    /// No two records share a name, and no history exceeds the window.
    pub open spec fn wf(self) -> bool {
        &&& score_names(self.scores).no_duplicates()
        &&& all_within_window(self.scores)
    }

    /// Sum of the counters of all records.
    pub open spec fn total_score(self) -> nat {
        total(self.scores)
    }

    /// The team after one round of the service `name`.
    pub open spec fn recorded(self, name: Seq<char>, multiplier: u8, up: bool) -> TeamView {
        TeamView {
            scores: with_score(
                self.scores,
                name,
                score_of(self.scores, name).ticked(multiplier, up),
            ),
            env: self.env,
        }
    }

    /// The team after the updates of a round were merged in.
    pub open spec fn merged(
        self,
        updates: Seq<(Seq<char>, ScoreView)>,
        catalogue: Seq<Seq<char>>,
    ) -> TeamView {
        TeamView { scores: merged_scores(self.scores, updates, catalogue), env: self.env }
    }

    /// The team without a record of the service `name`.
    pub open spec fn without(self, name: Seq<char>) -> TeamView {
        TeamView { scores: scores_without(self.scores, name), env: self.env }
    }

    /// The team with the record of the service `old_name` kept under
    /// `new_name`.
    pub open spec fn renamed(self, old_name: Seq<char>, new_name: Seq<char>) -> TeamView {
        TeamView { scores: scores_renamed(self.scores, old_name, new_name), env: self.env }
    }

    /// Every record of the team belongs to a service of the catalogue.
    pub open spec fn within(self, catalogue: Seq<Seq<char>>) -> bool {
        all_catalogued(self.scores, catalogue)
    }

    /// The team with `value` as the record of the service `name`.
    pub open spec fn stored(self, name: Seq<char>, value: ScoreView) -> TeamView {
        TeamView { scores: with_score(self.scores, name, value), env: self.env }
    }
}

/// The total of a prefix never exceeds the total of the whole.
pub proof fn lemma_total_prefix(scores: Seq<(Seq<char>, ScoreView)>, n: int)
    requires
        0 <= n <= scores.len(),
    ensures
        total(scores.take(n)) <= total(scores),
    decreases scores.len() - n,
{
    if n == scores.len() {
        assert(scores.take(n) =~= scores);
    } else {
        lemma_total_prefix(scores, n + 1);
        assert(scores.take(n + 1).drop_last() =~= scores.take(n));
    }
}

/// What is left after records were dropped: each record left was there
/// before, and none is kept under the dropped name.
pub proof fn lemma_without_members(scores: Seq<(Seq<char>, ScoreView)>, name: Seq<char>)
    ensures
        scores_without(scores, name).len() <= scores.len(),
        forall|i: int|
            0 <= i < scores_without(scores, name).len() ==> (#[trigger] scores_without(
                scores,
                name,
            )[i]).0 != name && scores.contains(scores_without(scores, name)[i]),
        !has_name(score_names(scores_without(scores, name)), name),
    decreases scores.len(),
{
    let left = scores_without(scores, name);
    if scores.len() > 0 {
        let rest = scores.drop_last();
        lemma_without_members(rest, name);
        assert forall|i: int| 0 <= i < left.len() implies (#[trigger] left[i]).0 != name
            && scores.contains(left[i]) by {
            if i < scores_without(rest, name).len() {
                let e = scores_without(rest, name)[i];
                assert(left[i] == e);
                assert(rest.contains(e));
                let j = choose|j: int| 0 <= j < rest.len() && rest[j] == e;
                assert(scores[j] == e);
            } else {
                assert(left[i] == scores[scores.len() - 1]);
            }
        }
    }
    assert forall|k: int| 0 <= k < left.len() implies score_names(left)[k] != name by {
        assert(left[k].0 != name);
    }
    lemma_position_found(score_names(left), name, left.len() as int);
}

/// Dropping the records of one name leaves the records of every other name
/// as they were.
pub proof fn lemma_without_keeps_others(
    scores: Seq<(Seq<char>, ScoreView)>,
    name: Seq<char>,
    other: Seq<char>,
)
    requires
        other != name,
    ensures
        has_name(score_names(scores_without(scores, name)), other) == has_name(
            score_names(scores),
            other,
        ),
        score_of(scores_without(scores, name), other) == score_of(scores, other),
    decreases scores.len(),
{
    if scores.len() > 0 {
        let rest = scores.drop_last();
        let last = scores.last();
        let left = scores_without(rest, name);
        lemma_without_keeps_others(rest, name, other);
        assert(score_names(scores) =~= score_names(rest).push(last.0));
        lemma_position_push(score_names(rest), last.0, other);
        lemma_position_first(score_names(rest), other);
        lemma_position_first(score_names(left), other);
        if last.0 != name {
            assert(score_names(left.push(last)) =~= score_names(left).push(last.0));
            lemma_position_push(score_names(left), last.0, other);
        }
    }
}

/// Dropping the records of one name keeps a well-formed team well formed.
pub proof fn lemma_without_keeps_wf(team: TeamView, name: Seq<char>)
    requires
        team.wf(),
    ensures
        team.without(name).wf(),
    decreases team.scores.len(),
{
    let scores = team.scores;
    let left = scores_without(scores, name);
    if scores.len() > 0 {
        let rest = scores.drop_last();
        let last = scores.last();
        let names = score_names(scores);
        assert(score_names(rest) =~= names.drop_last());
        assert forall|i: int| 0 <= i < rest.len() implies (#[trigger] rest[i]).1.within_window() by {
            assert(rest[i] == scores[i]);
        }
        lemma_without_keeps_wf(TeamView { scores: rest, env: team.env }, name);
        lemma_without_members(rest, name);
        if last.0 != name {
            let kept = scores_without(rest, name);
            assert(score_names(left) =~= score_names(kept).push(last.0));
            assert forall|i: int, j: int|
                0 <= i < left.len() && 0 <= j < left.len() && i != j implies score_names(left)[i]
                != score_names(left)[j] by {
                if i < kept.len() && j < kept.len() {
                    assert(score_names(kept)[i] != score_names(kept)[j]);
                } else {
                    let k = if i < kept.len() { i } else { j };
                    assert(rest.contains(kept[k]));
                    let m = choose|m: int| 0 <= m < rest.len() && rest[m] == kept[k];
                    assert(names[m] == kept[k].0);
                    assert(names[scores.len() - 1] == last.0);
                }
            }
            assert forall|i: int| 0 <= i < left.len() implies (#[trigger] left[i]).1.within_window() by {
                if i < kept.len() {
                    assert(left[i] == kept[i]);
                } else {
                    assert(left[i] == scores[scores.len() - 1]);
                }
            }
        }
    } else {
        assert(score_names(left) =~= score_names(scores));
    }
}

/// Moving the records of one name to a name that no record has yet keeps a
/// well-formed team well formed.
pub proof fn lemma_renamed_keeps_wf(team: TeamView, old_name: Seq<char>, new_name: Seq<char>)
    requires
        team.wf(),
        old_name == new_name || !has_name(score_names(team.scores), new_name),
    ensures
        team.renamed(old_name, new_name).wf(),
{
    let names = score_names(team.scores);
    let after = scores_renamed(team.scores, old_name, new_name);
    let after_names = score_names(after);
    lemma_has_name_contains(names, new_name);
    assert forall|i: int, j: int|
        0 <= i < after_names.len() && 0 <= j < after_names.len() && i != j implies after_names[i]
        != after_names[j] by {
        assert(names[i] != names[j]);
        assert(after_names[i] == if names[i] == old_name { new_name } else { names[i] });
        assert(after_names[j] == if names[j] == old_name { new_name } else { names[j] });
        if old_name != new_name {
            assert(names[i] != new_name);
            assert(names[j] != new_name);
        }
    }
    assert forall|i: int| 0 <= i < after.len() implies (#[trigger] after[i]).1.within_window() by {
        assert(team.scores[i].1.within_window());
    }
}

/// Moving a record to a new name: the record is then found under the new
/// name with its content, and no record is left under the old name.
pub proof fn lemma_renamed_moves(
    scores: Seq<(Seq<char>, ScoreView)>,
    old_name: Seq<char>,
    new_name: Seq<char>,
)
    requires
        old_name != new_name,
        !has_name(score_names(scores), new_name),
    ensures
        !has_name(score_names(scores_renamed(scores, old_name, new_name)), old_name),
        has_name(score_names(scores_renamed(scores, old_name, new_name)), new_name) == has_name(
            score_names(scores),
            old_name,
        ),
        score_of(scores_renamed(scores, old_name, new_name), new_name) == score_of(
            scores,
            old_name,
        ),
{
    let names = score_names(scores);
    let after = scores_renamed(scores, old_name, new_name);
    let after_names = score_names(after);
    lemma_position_first(names, old_name);
    lemma_position_first(names, new_name);
    let p = position(names, old_name) as int;
    assert forall|k: int| 0 <= k < after_names.len() implies after_names[k] != old_name by {
        assert(after_names[k] == if names[k] == old_name { new_name } else { names[k] });
    }
    lemma_position_found(after_names, old_name, after_names.len() as int);
    assert forall|k: int| 0 <= k < p implies after_names[k] != new_name by {
        assert(names[k] != old_name);
        assert(names[k] != new_name);
        assert(after_names[k] == names[k]);
    }
    if p < names.len() {
        assert(after_names[p] == new_name);
    }
    lemma_position_found(after_names, new_name, p);
}

/// Moving the records of one name leaves the records of every other name as
/// they were.
pub proof fn lemma_renamed_keeps_others(
    scores: Seq<(Seq<char>, ScoreView)>,
    old_name: Seq<char>,
    new_name: Seq<char>,
    other: Seq<char>,
)
    requires
        other != old_name,
        other != new_name,
    ensures
        has_name(score_names(scores_renamed(scores, old_name, new_name)), other) == has_name(
            score_names(scores),
            other,
        ),
        score_of(scores_renamed(scores, old_name, new_name), other) == score_of(scores, other),
{
    let names = score_names(scores);
    let after = scores_renamed(scores, old_name, new_name);
    let after_names = score_names(after);
    lemma_position_first(names, other);
    let q = position(names, other) as int;
    assert forall|k: int| 0 <= k < q implies after_names[k] != other by {
        assert(names[k] != other);
        assert(after_names[k] == if names[k] == old_name { new_name } else { names[k] });
    }
    if q < names.len() {
        assert(after_names[q] == names[q]);
    }
    lemma_position_found(after_names, other, q);
}

/// Storing a record under a name of the catalogue keeps every record under
/// a name of the catalogue.
pub proof fn lemma_with_score_catalogued(
    scores: Seq<(Seq<char>, ScoreView)>,
    name: Seq<char>,
    value: ScoreView,
    catalogue: Seq<Seq<char>>,
)
    requires
        all_catalogued(scores, catalogue),
        has_name(catalogue, name),
    ensures
        all_catalogued(with_score(scores, name, value), catalogue),
{
    let after = with_score(scores, name, value);
    assert forall|i: int| 0 <= i < after.len() implies has_name(
        catalogue,
        (#[trigger] after[i]).0,
    ) by {
        if i < scores.len() && after[i] != (name, value) {
            assert(after[i] == scores[i]);
        }
    }
}

/// A merge keeps every record under a name of the catalogue that it was
/// made against.
pub proof fn lemma_merged_catalogued(
    live: Seq<(Seq<char>, ScoreView)>,
    updates: Seq<(Seq<char>, ScoreView)>,
    catalogue: Seq<Seq<char>>,
)
    requires
        all_catalogued(live, catalogue),
    ensures
        all_catalogued(merged_scores(live, updates, catalogue), catalogue),
    decreases updates.len(),
{
    if updates.len() > 0 {
        lemma_merged_catalogued(live, updates.drop_last(), catalogue);
        if has_name(catalogue, updates.last().0) {
            lemma_with_score_catalogued(
                merged_scores(live, updates.drop_last(), catalogue),
                updates.last().0,
                updates.last().1,
                catalogue,
            );
        }
    }
}

impl Team {
    /// A team that has not been checked yet.
    pub fn new(env: Vec<(String, String)>) -> (team: Team)
        ensures
            team@ == (TeamView { scores: Seq::empty(), env: env_view(env@) }),
            team@.wf(),
    {
        let team = Team { scores: Vec::new(), env };
        assert(team@.scores =~= Seq::empty());
        team
    }

    /// Index of the record kept under `name`, or the number of records.
    pub fn find_score(&self, name: &String) -> (index: usize)
        ensures
            index == position(score_names(self@.scores), name@),
    {
        let mut i: usize = 0;
        while i < self.scores.len()
            invariant
                i <= self.scores.len(),
                forall|k: int| 0 <= k < i ==> score_names(self@.scores)[k] != name@,
            decreases self.scores.len() - i,
        {
            if self.scores[i].0 == *name {
                proof {
                    lemma_position_found(score_names(self@.scores), name@, i as int);
                }
                return i;
            }
            i += 1;
        }
        proof {
            lemma_position_found(score_names(self@.scores), name@, i as int);
        }
        i
    }

    /// Records one round of the service `name`: its record is ticked in
    /// place, and created first where the service was never checked before.
    /// No other record changes.
    pub fn record(&mut self, name: &String, multiplier: u8, up: bool)
        ensures
            final(self)@ == old(self)@.recorded(name@, multiplier, up),
            old(self)@.wf() ==> final(self)@.wf(),
    {
        let mut value = Score::new();
        let i = self.find_score(name);
        if i < self.scores.len() {
            value = self.scores[i].1.clone();
        }
        value.tick(multiplier, up);
        self.store(name, value);
    }

    /// Makes `value` the record of the service `name`, in the place of the
    /// record that was there, or at the end where there was none.
    pub fn store(&mut self, name: &String, value: Score)
        ensures
            final(self)@ == old(self)@.stored(name@, value@),
            old(self)@.wf() && value@.within_window() ==> final(self)@.wf(),
    {
        let ghost names = score_names(self@.scores);
        let i = self.find_score(name);
        proof {
            lemma_position_first(names, name@);
        }
        if i < self.scores.len() {
            self.scores[i].1 = value;
            assert(self@.scores =~= with_score(old(self)@.scores, name@, value@));
            assert(score_names(self@.scores) =~= names);
        } else {
            self.scores.push((name.clone(), value));
            assert(self@.scores =~= with_score(old(self)@.scores, name@, value@));
            assert(score_names(self@.scores) =~= names.push(name@));
        }
        assert(self@.env =~= old(self)@.env);
    }

    /// Drops the team's record of the service `name`, where it has one. No
    /// other record changes.
    pub fn forget(&mut self, name: &String)
        ensures
            final(self)@ == old(self)@.without(name@),
            old(self)@.wf() ==> final(self)@.wf(),
    {
        let ghost all = scores_view(self.scores@);
        proof {
            if self@.wf() {
                lemma_without_keeps_wf(self@, name@);
            }
        }
        let mut kept: Vec<(String, Score)> = Vec::new();
        let mut i: usize = 0;
        while i < self.scores.len()
            invariant
                i <= self.scores.len(),
                all == scores_view(self.scores@),
                scores_view(kept@) == scores_without(all.take(i as int), name@),
            decreases self.scores.len() - i,
        {
            proof {
                assert(all.take(i + 1).drop_last() =~= all.take(i as int));
                assert(all.take(i + 1).last() == all[i as int]);
            }
            if self.scores[i].0 != *name {
                let ghost before = scores_view(kept@);
                kept.push((self.scores[i].0.clone(), self.scores[i].1.clone()));
                assert(scores_view(kept@) =~= before.push(all[i as int]));
            }
            i += 1;
        }
        assert(all.take(i as int) =~= all);
        self.scores = kept;
    }

    /// Keeps the record of the service `old_name` under `new_name` from now
    /// on, in its place and with its content. No other record changes.
    pub fn rename(&mut self, old_name: &String, new_name: &String)
        ensures
            final(self)@ == old(self)@.renamed(old_name@, new_name@),
    {
        let ghost all = scores_view(self.scores@);
        let mut i: usize = 0;
        while i < self.scores.len()
            invariant
                i <= self.scores.len(),
                self.scores.len() == all.len(),
                self.env == old(self).env,
                forall|k: int|
                    0 <= k < i ==> (#[trigger] scores_view(self.scores@)[k]) == scores_renamed(
                        all,
                        old_name@,
                        new_name@,
                    )[k],
                forall|k: int|
                    i <= k < all.len() ==> (#[trigger] scores_view(self.scores@)[k]) == all[k],
            decreases self.scores.len() - i,
        {
            let ghost current = scores_view(self.scores@);
            if self.scores[i].0 == *old_name {
                self.scores[i].0 = new_name.clone();
            }
            proof {
                assert forall|k: int| 0 <= k < i + 1 implies (#[trigger] scores_view(
                    self.scores@,
                )[k]) == scores_renamed(all, old_name@, new_name@)[k] by {
                    if k < i {
                        assert(scores_view(self.scores@)[k] == current[k]);
                    } else {
                        assert(current[k] == all[k]);
                    }
                }
                assert forall|k: int| i + 1 <= k < all.len() implies (#[trigger] scores_view(
                    self.scores@,
                )[k]) == all[k] by {
                    assert(scores_view(self.scores@)[k] == current[k]);
                }
            }
            i += 1;
        }
        assert(self@.scores =~= scores_renamed(all, old_name@, new_name@));
    }

    /// Merges the records that a round computed on a copy into this team.
    /// An update whose service is in `services` overwrites the record of that
    /// service, or becomes it where there was none; an update whose service
    /// is not in `services` is dropped.
    pub fn merge(&mut self, updates: &Vec<(String, Score)>, services: &Vec<Service>)
        ensures
            final(self)@ == old(self)@.merged(
                scores_view(updates@),
                service_names(services_view(services@)),
            ),
            old(self)@.wf() && all_within_window(scores_view(updates@)) ==> final(self)@.wf(),
    {
        let ghost all = scores_view(updates@);
        let ghost catalogue = service_names(services_view(services@));
        let mut i: usize = 0;
        while i < updates.len()
            invariant
                i <= updates.len(),
                all == scores_view(updates@),
                catalogue == service_names(services_view(services@)),
                self@ == old(self)@.merged(all.take(i as int), catalogue),
                old(self)@.wf() && all_within_window(all) ==> self@.wf(),
            decreases updates.len() - i,
        {
            proof {
                assert(all.take(i + 1).drop_last() =~= all.take(i as int));
                assert(all.take(i + 1).last() == all[i as int]);
                assert(all_within_window(all) ==> all[i as int].1.within_window());
            }
            if find_service(services, &updates[i].0) < services.len() {
                self.store(&updates[i].0, updates[i].1.clone());
            }
            i += 1;
        }
        assert(all.take(i as int) =~= all);
    }


    /// The team's score: the sum of the counters of all its records, where
    /// that sum fits the counter's type.
    pub fn checked_score(&self) -> (sum: Option<u32>)
        ensures
            self@.total_score() <= u32::MAX ==> sum == Some(self@.total_score() as u32),
            self@.total_score() > u32::MAX ==> sum.is_none(),
    {
        let mut sum: u32 = 0;
        let mut i: usize = 0;
        while i < self.scores.len()
            invariant
                i <= self.scores.len(),
                sum == total(self@.scores.take(i as int)),
            decreases self.scores.len() - i,
        {
            proof {
                assert(self@.scores.take(i + 1).drop_last() =~= self@.scores.take(i as int));
                lemma_total_prefix(self@.scores, i + 1);
            }
            match sum.checked_add(self.scores[i].1.score) {
                Some(next) => {
                    sum = next;
                },
                None => {
                    return None;
                },
            }
            i += 1;
        }
        assert(self@.scores.take(i as int) =~= self@.scores);
        Some(sum)
    }

    /// The team's score: the sum of the counters of all its records.
    pub fn score(&self) -> (sum: u32)
        requires
            self@.total_score() <= u32::MAX,
        ensures
            sum == self@.total_score(),
    {
        match self.checked_score() {
            Some(sum) => sum,
            None => 0,
        }
    }
}

impl Clone for Team {
    /// An independent copy of the team.
    fn clone(&self) -> (copy: Team)
        ensures
            copy@ == self@,
    {
        let mut scores: Vec<(String, Score)> = Vec::new();
        let mut i: usize = 0;
        while i < self.scores.len()
            invariant
                i <= self.scores.len(),
                scores.len() == i,
                forall|k: int|
                    0 <= k < i ==> (#[trigger] scores@[k]).0@ == self.scores@[k].0@ && scores@[k].1@
                        == self.scores@[k].1@,
            decreases self.scores.len() - i,
        {
            scores.push((self.scores[i].0.clone(), self.scores[i].1.clone()));
            i += 1;
        }
        let env = duplicate_env(&self.env);
        let copy = Team { scores, env };
        assert(copy@.scores =~= self@.scores);
        assert(copy@.env =~= self@.env);
        copy
    }
}

} // verus!
