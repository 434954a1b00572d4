//! Injects: scripted events that change the catalogue once, inside a time
//! window counted from the start of the competition.
//!
//! An inject is pending until the clock is first seen inside its window.
//! It then fires: its side effects are applied in order, each on what the
//! one before left, a failed one leaving the catalogue as it was, and the
//! inject is completed for good.

use crate::board::{
    board_of, lemma_added_keeps_wf, lemma_edited_keeps_wf, lemma_removed_keeps_wf, Board,
};
use crate::catalogue::ConfigError;
use crate::effect::{effects_view, SideEffect, SideEffectView};
use crate::service::Service;
use crate::team::Team;
use vstd::prelude::*;

verus! {

/// A scripted, one-shot event of the competition.
#[derive(Debug)]
pub struct Inject {
    /// Name of the inject.
    pub name: String,
    /// Reference to the payload shown to the teams.
    pub file: String,
    /// Second of the competition at which the window opens.
    pub start: u32,
    /// Length of the window in seconds.
    pub duration: u32,
    /// Changes made to the catalogue when the inject fires.
    pub side_effects: Option<Vec<SideEffect>>,
    /// Whether the inject has fired.
    pub completed: bool,
}

/// An inject as the declarative source describes it, without its name.
#[derive(Debug)]
pub struct YamlInject {
    /// Reference to the payload shown to the teams.
    pub file: String,
    /// Second of the competition at which the window opens.
    pub start: u32,
    /// Length of the window in seconds.
    pub duration: u32,
    /// Changes made to the catalogue when the inject fires.
    pub side_effects: Option<Vec<SideEffect>>,
}

/// Mathematical value of an [`Inject`].
pub struct InjectView {
    pub name: Seq<char>,
    pub file: Seq<char>,
    pub start: u32,
    pub duration: u32,
    pub side_effects: Option<Seq<SideEffectView>>,
    pub completed: bool,
}

/// Mathematical value of a [`YamlInject`].
pub struct YamlInjectView {
    pub file: Seq<char>,
    pub start: u32,
    pub duration: u32,
    pub side_effects: Option<Seq<SideEffectView>>,
}

/// A side effect that failed when its inject fired.
#[derive(Clone, Copy, Debug, PartialEq, Eq, Structural)]
pub struct EffectFailure {
    /// Position of the inject in the schedule.
    pub inject: usize,
    /// Position of the side effect in the inject's list.
    pub effect: usize,
    /// Why the catalogue rejected the change.
    pub error: ConfigError,
}

/// View of an optional list of side effects.
pub open spec fn opt_effects_view(effects: Option<Vec<SideEffect>>) -> Option<
    Seq<SideEffectView>,
> {
    match effects {
        Some(list) => Some(effects_view(list@)),
        None => None,
    }
}

impl View for Inject {
    type V = InjectView;

    open spec fn view(&self) -> InjectView {
        InjectView {
            name: self.name@,
            file: self.file@,
            start: self.start,
            duration: self.duration,
            side_effects: opt_effects_view(self.side_effects),
            completed: self.completed,
        }
    }
}

impl View for YamlInject {
    type V = YamlInjectView;

    open spec fn view(&self) -> YamlInjectView {
        YamlInjectView {
            file: self.file@,
            start: self.start,
            duration: self.duration,
            side_effects: opt_effects_view(self.side_effects),
        }
    }
}

/// The board after the side effects, applied from the first to the last.
pub open spec fn effects_applied(board: Board, effects: Seq<SideEffectView>) -> Board
    decreases effects.len(),
{
    if effects.len() == 0 {
        board
    } else {
        effects.last().applied(effects_applied(board, effects.drop_last()))
    }
}

/// The failures among the side effects, in their order. `inject` is the
/// position that the reports carry.
pub open spec fn effects_failed(
    board: Board,
    effects: Seq<SideEffectView>,
    inject: usize,
) -> Seq<EffectFailure>
    decreases effects.len(),
{
    if effects.len() == 0 {
        Seq::empty()
    } else {
        let before = effects_failed(board, effects.drop_last(), inject);
        match effects.last().result(effects_applied(board, effects.drop_last())) {
            Ok(_) => before,
            Err(error) => before.push(
                EffectFailure { inject, effect: (effects.len() - 1) as usize, error },
            ),
        }
    }
}

/// Side effects keep a well-formed board well formed.
pub proof fn lemma_effects_keep_wf(board: Board, effects: Seq<SideEffectView>)
    requires
        board.wf(),
    ensures
        effects_applied(board, effects).wf(),
    decreases effects.len(),
{
    if effects.len() > 0 {
        lemma_effects_keep_wf(board, effects.drop_last());
        let before = effects_applied(board, effects.drop_last());
        match effects.last() {
            SideEffectView::DeleteService(name) => lemma_removed_keeps_wf(before, name),
            SideEffectView::AddService(service) => lemma_added_keeps_wf(before, service),
            SideEffectView::EditService(name, service) => lemma_edited_keeps_wf(
                before,
                name,
                service,
            ),
        }
    }
}

impl YamlInjectView {
    /// The pending inject that the description stands for under `name`.
    pub open spec fn named(self, name: Seq<char>) -> InjectView {
        InjectView {
            name,
            file: self.file,
            start: self.start,
            duration: self.duration,
            side_effects: self.side_effects,
            completed: false,
        }
    }
}

impl InjectView {
    /// The side effects of the inject; none where it names none.
    pub open spec fn effects(self) -> Seq<SideEffectView> {
        match self.side_effects {
            Some(list) => list,
            None => Seq::empty(),
        }
    }

    /// The guard: the inject is pending and the clock is inside the window
    /// that opens at `start` and closes `duration` seconds later.
    pub open spec fn is_due(self, clock: u64) -> bool {
        !self.completed && self.start <= clock < self.start + self.duration
    }

    /// The inject after a round at `clock`: completed where it was due.
    pub open spec fn after(self, clock: u64) -> InjectView {
        if self.is_due(clock) {
            InjectView { completed: true, ..self }
        } else {
            self
        }
    }

    /// The board after a round of this inject at `clock`.
    pub open spec fn board_after(self, clock: u64, board: Board) -> Board {
        if self.is_due(clock) {
            effects_applied(board, self.effects())
        } else {
            board
        }
    }

    /// The failures of a round of this inject at `clock`.
    pub open spec fn failures_at(self, clock: u64, board: Board, inject: usize) -> Seq<
        EffectFailure,
    > {
        if self.is_due(clock) {
            effects_failed(board, self.effects(), inject)
        } else {
            Seq::empty()
        }
    }
}

/// An independent copy of an optional list of side effects.
pub fn duplicate_effects(effects: &Option<Vec<SideEffect>>) -> (copy: Option<Vec<SideEffect>>)
    ensures
        opt_effects_view(copy) == opt_effects_view(*effects),
{
    match effects {
        Some(list) => {
            let mut copy: Vec<SideEffect> = Vec::new();
            let mut i: usize = 0;
            while i < list.len()
                invariant
                    i <= list.len(),
                    copy.len() == i,
                    forall|k: int| 0 <= k < i ==> (#[trigger] copy@[k])@ == list@[k]@,
                decreases list.len() - i,
            {
                copy.push(list[i].clone());
                i += 1;
            }
            assert(effects_view(copy@) =~= effects_view(list@));
            Some(copy)
        },
        None => None,
    }
}

impl Inject {
    /// The pending inject that a description stands for under `name`.
    pub fn from_yaml(name: String, yaml: YamlInject) -> (inject: Inject)
        ensures
            inject@ == yaml@.named(name@),
    {
        Inject {
            name,
            file: yaml.file,
            start: yaml.start,
            duration: yaml.duration,
            side_effects: yaml.side_effects,
            completed: false,
        }
    }

    /// Whether the inject fires at `clock`.
    pub fn is_due(&self, clock: u64) -> (due: bool)
        ensures
            due == self@.is_due(clock),
    {
        let opens: u64 = self.start as u64;
        let closes: u64 = opens + self.duration as u64;
        !self.completed && opens <= clock && clock < closes
    }

    /// One round of the inject at `clock`. Where the inject is due, every
    /// side effect is applied in order to the catalogue `services` and the
    /// `teams` scored against it, a failed one leaving both as they were and
    /// adding a report, and the inject is completed whatever the side
    /// effects did. Where it is not due, nothing changes. `index` is the
    /// position that the reports carry.
    pub fn tick(
        &mut self,
        index: usize,
        clock: u64,
        services: &mut Vec<Service>,
        teams: &mut Vec<(String, Team)>,
    ) -> (failures: Vec<EffectFailure>)
        ensures
            final(self)@ == old(self)@.after(clock),
            board_of(final(services)@, final(teams)@) == old(self)@.board_after(
                clock,
                board_of(old(services)@, old(teams)@),
            ),
            failures@ == old(self)@.failures_at(
                clock,
                board_of(old(services)@, old(teams)@),
                index,
            ),
            board_of(old(services)@, old(teams)@).wf() ==> board_of(
                final(services)@,
                final(teams)@,
            ).wf(),
    {
        let ghost before = board_of(services@, teams@);
        proof {
            if before.wf() {
                lemma_effects_keep_wf(before, self@.effects());
            }
        }
        let mut failures: Vec<EffectFailure> = Vec::new();
        if !self.is_due(clock) {
            return failures;
        }
        match &self.side_effects {
            Some(effects) => {
                let ghost all = effects_view(effects@);
                let mut k: usize = 0;
                while k < effects.len()
                    invariant
                        k <= effects.len(),
                        all == effects_view(effects@),
                        board_of(services@, teams@) == effects_applied(before, all.take(k as int)),
                        failures@ == effects_failed(before, all.take(k as int), index),
                    decreases effects.len() - k,
                {
                    proof {
                        assert(all.take(k + 1).drop_last() =~= all.take(k as int));
                        assert(all.take(k + 1).last() == effects@[k as int]@);
                    }
                    match effects[k].apply_to(services, teams) {
                        Ok(()) => {},
                        Err(error) => {
                            failures.push(EffectFailure { inject: index, effect: k, error });
                        },
                    }
                    k += 1;
                }
                assert(all.take(k as int) =~= all);
            },
            None => {},
        }
        self.completed = true;
        failures
    }
}

/// View of the entries of a declarative source.
pub open spec fn entries_view(entries: Seq<(String, YamlInject)>) -> Seq<
    (Seq<char>, YamlInjectView),
> {
    Seq::new(entries.len(), |i: int| (entries[i].0@, entries[i].1@))
}

/// View of a schedule of injects.
pub open spec fn injects_view(injects: Seq<Inject>) -> Seq<InjectView> {
    Seq::new(injects.len(), |i: int| injects[i]@)
}

/// The schedule that the entries stand for: one pending inject for each
/// entry, in the order of the entries.
pub open spec fn schedule_of(entries: Seq<(Seq<char>, YamlInjectView)>) -> Seq<InjectView> {
    Seq::new(entries.len(), |i: int| entries[i].1.named(entries[i].0))
}

/// The schedule after a round at `clock`: every inject that was due is
/// completed, and no other inject changes.
pub open spec fn injects_after(injects: Seq<InjectView>, clock: u64) -> Seq<InjectView> {
    Seq::new(injects.len(), |i: int| injects[i].after(clock))
}

/// The board after a round of the schedule at `clock`: the injects take
/// their turn in the order of the schedule, each on the board that the ones
/// before left.
pub open spec fn board_after_injects(board: Board, injects: Seq<InjectView>, clock: u64) -> Board
    decreases injects.len(),
{
    if injects.len() == 0 {
        board
    } else {
        injects.last().board_after(clock, board_after_injects(board, injects.drop_last(), clock))
    }
}

/// The failures of a round of the schedule at `clock`, in the order in
/// which the side effects were tried.
pub open spec fn failures_of_injects(
    board: Board,
    injects: Seq<InjectView>,
    clock: u64,
) -> Seq<EffectFailure>
    decreases injects.len(),
{
    if injects.len() == 0 {
        Seq::empty()
    } else {
        failures_of_injects(board, injects.drop_last(), clock) + injects.last().failures_at(
            clock,
            board_after_injects(board, injects.drop_last(), clock),
            (injects.len() - 1) as usize,
        )
    }
}

/// A round of the schedule keeps a well-formed board well formed.
pub proof fn lemma_injects_keep_wf(board: Board, injects: Seq<InjectView>, clock: u64)
    requires
        board.wf(),
    ensures
        board_after_injects(board, injects, clock).wf(),
    decreases injects.len(),
{
    if injects.len() > 0 {
        lemma_injects_keep_wf(board, injects.drop_last(), clock);
        lemma_effects_keep_wf(
            board_after_injects(board, injects.drop_last(), clock),
            injects.last().effects(),
        );
    }
}

/// Builds the schedule from the entries of a declarative source, each a name
/// and a description. No entry yields the empty schedule.
pub fn load_injects(entries: &Vec<(String, YamlInject)>) -> (injects: Vec<Inject>)
    ensures
        injects_view(injects@) == schedule_of(entries_view(entries@)),
{
    let mut injects: Vec<Inject> = Vec::new();
    let mut i: usize = 0;
    while i < entries.len()
        invariant
            i <= entries.len(),
            injects.len() == i,
            forall|k: int|
                0 <= k < i ==> (#[trigger] injects@[k])@ == entries@[k].1@.named(entries@[k].0@),
        decreases entries.len() - i,
    {
        let yaml = YamlInject {
            file: entries[i].1.file.clone(),
            start: entries[i].1.start,
            duration: entries[i].1.duration,
            side_effects: duplicate_effects(&entries[i].1.side_effects),
        };
        injects.push(Inject::from_yaml(entries[i].0.clone(), yaml));
        i += 1;
    }
    assert(injects_view(injects@) =~= schedule_of(entries_view(entries@)));
    injects
}

impl Clone for Inject {
    /// An independent copy of the inject.
    fn clone(&self) -> (copy: Inject)
        ensures
            copy@ == self@,
    {
        Inject {
            name: self.name.clone(),
            file: self.file.clone(),
            start: self.start,
            duration: self.duration,
            side_effects: duplicate_effects(&self.side_effects),
            completed: self.completed,
        }
    }
}

} // verus!
