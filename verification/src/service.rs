//! Services of the catalogue and the outcome of probing one.

use vstd::prelude::*;

verus! {

/// One capability that every team must keep running, verified by a shell
/// probe command.
#[derive(Debug)]
pub struct Service {
    /// Key of the service within the catalogue.
    pub name: String,
    /// Shell command whose exit status tells whether the service is up.
    pub command: String,
    /// Points earned for every round in which the service is up.
    pub multiplier: u8,
}

/// Mathematical value of a [`Service`].
pub struct ServiceView {
    pub name: Seq<char>,
    pub command: Seq<char>,
    pub multiplier: u8,
}

impl View for Service {
    type V = ServiceView;

    open spec fn view(&self) -> ServiceView {
        ServiceView { name: self.name@, command: self.command@, multiplier: self.multiplier }
    }
}

impl ServiceView {
    /// A service is valid when neither its name nor its command is empty.
    pub open spec fn is_valid(self) -> bool {
        self.name.len() > 0 && self.command.len() > 0
    }
}

impl Service {
    /// A service with the default weight of one point per round.
    pub fn new(name: String, command: String) -> (service: Service)
        ensures
            service@ == (ServiceView { name: name@, command: command@, multiplier: 1 }),
    {
        Service { name, command, multiplier: 1 }
    }

    /// Whether both the name and the command are non-empty.
    pub fn is_valid(&self) -> (valid: bool)
        ensures
            valid == self@.is_valid(),
    {
        !self.name.as_str().is_empty() && !self.command.as_str().is_empty()
    }
}

impl Clone for Service {
    /// An independent copy of the service.
    fn clone(&self) -> (copy: Service)
        ensures
            copy@ == self@,
    {
        Service {
            name: self.name.clone(),
            command: self.command.clone(),
            multiplier: self.multiplier,
        }
    }
}

} // verus!
