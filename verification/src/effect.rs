//! Side effects: the scripted changes that an inject makes to the catalogue.

use crate::board::{
    board_of, edit_service, lemma_added_keeps_wf, remove_service, report_of, Board,
};
use crate::catalogue::{add_service, ConfigError};
use crate::config::Config;
use crate::team::Team;
use crate::service::{Service, ServiceView};
use vstd::prelude::*;

verus! {

/// One change of the service catalogue.
#[derive(Debug)]
pub enum SideEffect {
    /// Removes the service of this name.
    DeleteService(String),
    /// Adds this service.
    AddService(Service),
    /// Replaces the service of this name by this service.
    EditService(String, Service),
}

/// Mathematical value of a [`SideEffect`].
pub enum SideEffectView {
    DeleteService(Seq<char>),
    AddService(ServiceView),
    EditService(Seq<char>, ServiceView),
}

impl View for SideEffect {
    type V = SideEffectView;

    open spec fn view(&self) -> SideEffectView {
        match self {
            SideEffect::DeleteService(name) => SideEffectView::DeleteService(name@),
            SideEffect::AddService(service) => SideEffectView::AddService(service@),
            SideEffect::EditService(name, service) => SideEffectView::EditService(
                name@,
                service@,
            ),
        }
    }
}

/// View of a list of side effects.
pub open spec fn effects_view(effects: Seq<SideEffect>) -> Seq<SideEffectView> {
    Seq::new(effects.len(), |i: int| effects[i]@)
}

impl SideEffectView {
    /// Outcome of the side effect on a board: that of the operation that
    /// its variant names.
    pub open spec fn result(self, board: Board) -> Result<Board, ConfigError> {
        match self {
            SideEffectView::DeleteService(name) => board.removed(name),
            SideEffectView::AddService(service) => board.added(service),
            SideEffectView::EditService(name, service) => board.edited(name, service),
        }
    }

    /// The board after the side effect: unchanged where it failed.
    pub open spec fn applied(self, board: Board) -> Board {
        board.settled(self.result(board))
    }
}

impl SideEffect {
    /// Applies the side effect to the state `config`: to its catalogue and,
    /// where a service leaves or takes another name, to the score records
    /// of its teams. A side effect that the catalogue rejects changes
    /// nothing and returns the reason.
    pub fn apply(self, config: &mut Config) -> (outcome: Result<(), ConfigError>)
        ensures
            outcome == report_of(self@.result(old(config)@.board())),
            final(config)@ == old(config)@.with_board(self@.applied(old(config)@.board())),
            old(config)@.wf() ==> final(config)@.wf(),
    {
        match self {
            SideEffect::DeleteService(name) => config.remove_service(&name),
            SideEffect::AddService(service) => config.add_service(service),
            SideEffect::EditService(name, service) => config.edit_service(&name, service),
        }
    }

    /// Applies the side effect to a catalogue and the teams scored against
    /// it, leaving the side effect itself for a later reading.
    pub fn apply_to(&self, services: &mut Vec<Service>, teams: &mut Vec<(String, Team)>) -> (outcome:
        Result<(), ConfigError>)
        ensures
            outcome == report_of(self@.result(board_of(old(services)@, old(teams)@))),
            board_of(final(services)@, final(teams)@) == self@.applied(
                board_of(old(services)@, old(teams)@),
            ),
            board_of(old(services)@, old(teams)@).wf() ==> board_of(
                final(services)@,
                final(teams)@,
            ).wf(),
    {
        match self {
            SideEffect::DeleteService(name) => remove_service(services, teams, name),
            SideEffect::AddService(service) => {
                proof {
                    if board_of(services@, teams@).wf() {
                        lemma_added_keeps_wf(board_of(services@, teams@), service@);
                    }
                }
                add_service(services, service.clone())
            },
            SideEffect::EditService(name, service) => edit_service(
                services,
                teams,
                name,
                service.clone(),
            ),
        }
    }
}

impl Clone for SideEffect {
    /// An independent copy of the side effect.
    fn clone(&self) -> (copy: SideEffect)
        ensures
            copy@ == self@,
    {
        match self {
            SideEffect::DeleteService(name) => SideEffect::DeleteService(name.clone()),
            SideEffect::AddService(service) => SideEffect::AddService(service.clone()),
            SideEffect::EditService(name, service) => SideEffect::EditService(
                name.clone(),
                service.clone(),
            ),
        }
    }
}

} // verus!
