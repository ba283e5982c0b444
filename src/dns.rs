//! Turning what DNS answers into what the hosts database reports.
//!
//! Sending the queries is left to the caller; these functions take the
//! names and addresses a query returned.
use vstd::prelude::*;
use crate::hosts::{names_view, resolved, HostEnt, HostEntView, IpAddr};
use crate::nsswitch::Status;

verus! {

/// What a host query reports: with a canonical name and at least one
/// address, the host with no aliases; otherwise nothing was found.
pub fn host_answer(name: String, addrs: Vec<IpAddr>) -> (r: (Status, Option<HostEnt>))
    ensures
        name@.len() > 0 && addrs@.len() > 0 ==> r.0 == Status::Success && r.1 is Some
            && r.1->Some_0@ == (HostEntView { name: name@, aliases: Seq::empty(), addrs: addrs@ }),
        !(name@.len() > 0 && addrs@.len() > 0) ==> r.0 == Status::NotFound && r.1 is None,
        r.1 is Some ==> resolved(r.1->Some_0@),
{
    if name.as_str().is_empty() || addrs.len() == 0 {
        return (Status::NotFound, None);
    }
    let aliases: Vec<String> = Vec::new();
    assert(names_view(aliases@) =~= Seq::<Seq<char>>::empty());
    (Status::Success, Some(HostEnt::new(name, aliases, addrs)))
}

/// What a pointer query for `addr` reports: the first name is canonical
/// and the others are aliases; with no (or an empty) first name nothing
/// was found.
pub fn addr_answer(names: Vec<String>, addr: IpAddr) -> (r: (Status, Option<HostEnt>))
    ensures
        names@.len() > 0 && names@[0]@.len() > 0 ==> r.0 == Status::Success && r.1 is Some
            && r.1->Some_0@ == (HostEntView {
                name: names@[0]@,
                aliases: names_view(names@.skip(1)),
                addrs: seq![addr],
            }),
        !(names@.len() > 0 && names@[0]@.len() > 0) ==> r.0 == Status::NotFound && r.1 is None,
        r.1 is Some ==> resolved(r.1->Some_0@),
{
    if names.len() == 0 || names[0].as_str().is_empty() {
        return (Status::NotFound, None);
    }
    let mut aliases: Vec<String> = Vec::new();
    let mut i: usize = 1;
    while i < names.len()
        invariant
            1 <= i <= names@.len(),
            aliases@.len() == i - 1,
            forall|j: int| 0 <= j < i - 1 ==> aliases@[j]@ == names@[j + 1]@,
        decreases names@.len() - i,
    {
        aliases.push(names[i].clone());
        i = i + 1;
    }
    assert(names_view(aliases@) =~= names_view(names@.skip(1)));
    let addrs = vec![addr];
    assert(addrs@ =~= seq![addr]);
    (Status::Success, Some(HostEnt::new(names[0].clone(), aliases, addrs)))
}

} // verus!
