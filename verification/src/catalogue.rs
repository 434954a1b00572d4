//! The service catalogue and the operations that change it.
//!
//! Every operation either succeeds or fails without changing the catalogue.
//! The operations keep the catalogue well formed: names stay unique and
//! every service stays valid.

use crate::lookup::{has_name, lemma_position_first, lemma_position_found, position};
use crate::service::{Service, ServiceView};
use vstd::prelude::*;

verus! {

/// Why a change of the catalogue was rejected.
#[derive(Clone, Copy, Debug, PartialEq, Eq, Structural)]
pub enum ConfigError {
    /// The service has an empty name or an empty command.
    InvalidService,
    /// Another service of the catalogue already has the name.
    ServiceExists,
    /// The catalogue has no service of the name.
    ServiceNotFound,
}

/// View of a list of services.
pub open spec fn services_view(services: Seq<Service>) -> Seq<ServiceView> {
    Seq::new(services.len(), |i: int| services[i]@)
}

/// The names of the services, in their order.
pub open spec fn service_names(services: Seq<ServiceView>) -> Seq<Seq<char>> {
    Seq::new(services.len(), |i: int| services[i].name)
}

/// No two services share a name, and every service is valid.
pub open spec fn catalogue_wf(services: Seq<ServiceView>) -> bool {
    &&& service_names(services).no_duplicates()
    &&& forall|i: int| 0 <= i < services.len() ==> (#[trigger] services[i]).is_valid()
}

/// Outcome of adding `service`: it goes to the end of the catalogue unless
/// it is invalid or its name is taken.
pub open spec fn add_result(services: Seq<ServiceView>, service: ServiceView) -> Result<
    Seq<ServiceView>,
    ConfigError,
> {
    if !service.is_valid() {
        Err(ConfigError::InvalidService)
    } else if has_name(service_names(services), service.name) {
        Err(ConfigError::ServiceExists)
    } else {
        Ok(services.push(service))
    }
}

/// Outcome of removing the service called `name`: it leaves the catalogue
/// unless there is none.
pub open spec fn remove_result(services: Seq<ServiceView>, name: Seq<char>) -> Result<
    Seq<ServiceView>,
    ConfigError,
> {
    if !has_name(service_names(services), name) {
        Err(ConfigError::ServiceNotFound)
    } else {
        Ok(services.remove(position(service_names(services), name) as int))
    }
}

/// Outcome of replacing the service called `name` by `service`, in its
/// place: rejected where `service` is invalid, where there is no service
/// called `name`, or where `service` takes the name of a third one.
pub open spec fn edit_result(
    services: Seq<ServiceView>,
    name: Seq<char>,
    service: ServiceView,
) -> Result<Seq<ServiceView>, ConfigError> {
    if !service.is_valid() {
        Err(ConfigError::InvalidService)
    } else if !has_name(service_names(services), name) {
        Err(ConfigError::ServiceNotFound)
    } else if service.name != name && has_name(service_names(services), service.name) {
        Err(ConfigError::ServiceExists)
    } else {
        Ok(services.update(position(service_names(services), name) as int, service))
    }
}

/// The catalogue that an outcome leaves: the new one, or the old one
/// unchanged where the operation failed.
pub open spec fn settled(
    services: Seq<ServiceView>,
    outcome: Result<Seq<ServiceView>, ConfigError>,
) -> Seq<ServiceView> {
    match outcome {
        Ok(changed) => changed,
        Err(_) => services,
    }
}

/// What an operation reports for an outcome.
pub open spec fn reported(outcome: Result<Seq<ServiceView>, ConfigError>) -> Result<
    (),
    ConfigError,
> {
    match outcome {
        Ok(_) => Ok(()),
        Err(e) => Err(e),
    }
}

/// Adding a service keeps a well-formed catalogue well formed.
pub proof fn lemma_add_keeps_wf(services: Seq<ServiceView>, service: ServiceView)
    requires
        catalogue_wf(services),
    ensures
        catalogue_wf(settled(services, add_result(services, service))),
{
    let names = service_names(services);
    lemma_position_first(names, service.name);
    if add_result(services, service) is Ok {
        let after = services.push(service);
        assert(service_names(after) =~= names.push(service.name));
        assert forall|i: int| 0 <= i < after.len() implies (#[trigger] after[i]).is_valid() by {
            if i < services.len() {
                assert(after[i] == services[i]);
            }
        }
    }
}

/// Removing a service keeps a well-formed catalogue well formed, and the
/// name is then gone from it.
pub proof fn lemma_remove_keeps_wf(services: Seq<ServiceView>, name: Seq<char>)
    requires
        catalogue_wf(services),
    ensures
        catalogue_wf(settled(services, remove_result(services, name))),
        remove_result(services, name) is Ok ==> !has_name(
            service_names(settled(services, remove_result(services, name))),
            name,
        ),
{
    let names = service_names(services);
    lemma_position_first(names, name);
    if remove_result(services, name) is Ok {
        let p = position(names, name) as int;
        let after = services.remove(p);
        let after_names = service_names(after);
        assert(after_names =~= names.remove(p));
        assert forall|i: int, j: int|
            0 <= i < after_names.len() && 0 <= j < after_names.len() && i != j implies after_names[i]
            != after_names[j] by {
            let oi = if i < p { i } else { i + 1 };
            let oj = if j < p { j } else { j + 1 };
            assert(after_names[i] == names[oi]);
            assert(after_names[j] == names[oj]);
        }
        assert forall|i: int| 0 <= i < after.len() implies (#[trigger] after[i]).is_valid() by {
            let oi = if i < p { i } else { i + 1 };
            assert(after[i] == services[oi]);
        }
        assert forall|k: int| 0 <= k < after_names.len() implies after_names[k] != name by {
            let ok = if k < p { k } else { k + 1 };
            assert(after_names[k] == names[ok]);
            assert(names[p] == name);
        }
        lemma_position_found(after_names, name, after_names.len() as int);
    }
}

/// Editing a service keeps a well-formed catalogue well formed.
pub proof fn lemma_edit_keeps_wf(services: Seq<ServiceView>, name: Seq<char>, service: ServiceView)
    requires
        catalogue_wf(services),
    ensures
        catalogue_wf(settled(services, edit_result(services, name, service))),
{
    let names = service_names(services);
    lemma_position_first(names, name);
    lemma_position_first(names, service.name);
    if edit_result(services, name, service) is Ok {
        let p = position(names, name) as int;
        let after = services.update(p, service);
        let after_names = service_names(after);
        assert(after_names =~= names.update(p, service.name));
        assert forall|i: int, j: int|
            0 <= i < after_names.len() && 0 <= j < after_names.len() && i != j implies after_names[i]
            != after_names[j] by {
            assert(names[p] == name);
            if i != p && j != p {
                assert(after_names[i] == names[i]);
                assert(after_names[j] == names[j]);
            } else if i == p {
                assert(after_names[j] == names[j]);
                if service.name != name {
                    assert(!names.contains(service.name)) by {
                        crate::lookup::lemma_has_name_contains(names, service.name);
                    }
                }
            } else {
                assert(after_names[i] == names[i]);
                if service.name != name {
                    assert(!names.contains(service.name)) by {
                        crate::lookup::lemma_has_name_contains(names, service.name);
                    }
                }
            }
        }
        assert forall|i: int| 0 <= i < after.len() implies (#[trigger] after[i]).is_valid() by {
            if i != p {
                assert(after[i] == services[i]);
            }
        }
    }
}

/// Index of the service called `name`, or the number of services.
pub fn find_service(services: &Vec<Service>, name: &String) -> (index: usize)
    ensures
        index == position(service_names(services_view(services@)), name@),
{
    let ghost names = service_names(services_view(services@));
    let mut i: usize = 0;
    while i < services.len()
        invariant
            i <= services.len(),
            names == service_names(services_view(services@)),
            forall|k: int| 0 <= k < i ==> names[k] != name@,
        decreases services.len() - i,
    {
        if services[i].name == *name {
            proof {
                lemma_position_found(names, name@, i as int);
            }
            return i;
        }
        i += 1;
    }
    proof {
        lemma_position_found(names, name@, i as int);
    }
    i
}

/// Adds a service at the end of the catalogue.
pub fn add_service(services: &mut Vec<Service>, service: Service) -> (outcome: Result<
    (),
    ConfigError,
>)
    ensures
        outcome == reported(add_result(services_view(old(services)@), service@)),
        services_view(final(services)@) == settled(
            services_view(old(services)@),
            add_result(services_view(old(services)@), service@),
        ),
        catalogue_wf(services_view(old(services)@)) ==> catalogue_wf(
            services_view(final(services)@),
        ),
{
    proof {
        if catalogue_wf(services_view(services@)) {
            lemma_add_keeps_wf(services_view(services@), service@);
        }
    }
    if !service.is_valid() {
        return Err(ConfigError::InvalidService);
    }
    if find_service(services, &service.name) < services.len() {
        return Err(ConfigError::ServiceExists);
    }
    services.push(service);
    assert(services_view(services@) =~= services_view(old(services)@).push(service@));
    Ok(())
}

} // verus!
