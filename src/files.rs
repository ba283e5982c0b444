//! The static hosts file as a source of the hosts database.
//!
//! A line of the file holds an address followed by the canonical name of
//! the host and its aliases; `#` starts a comment. Reading the file and
//! reading the address are left to the caller.
use vstd::prelude::*;
use vstd::slice::slice_subrange;
use crate::hosts::{names_view, resolved, HostEnt, HostEntView, IpAddr};
use crate::nsswitch::{find, find_char, views, words, words_of};
use crate::text::{chars_of, string_of};

verus! {

/// The fields of a line of the hosts file: its words before any `#`.
pub fn line_fields(line: &str) -> (r: Vec<String>)
    ensures
        names_view(r@) == words(line@.take(find(line@, '#'))),
{
    let cs = chars_of(line);
    let cut = find_char(cs.as_slice(), '#');
    let body = slice_subrange(cs.as_slice(), 0, cut);
    assert(body@ =~= line@.take(cut as int));
    let ws = words_of(body);
    let ghost wv = views(ws@);
    let mut r: Vec<String> = Vec::new();
    let mut i: usize = 0;
    while i < ws.len()
        invariant
            i <= ws@.len(),
            wv == views(ws@),
            r@.len() == i,
            forall|j: int| 0 <= j < i ==> r@[j]@ == wv[j],
        decreases ws@.len() - i,
    {
        r.push(string_of(ws[i].as_slice()));
        i = i + 1;
    }
    assert(names_view(r@) =~= wv);
    r
}

/// Whether one of the names on a hosts line, after its address, is `name`.
pub fn line_names(fields: &Vec<String>, name: &str) -> (r: bool)
    ensures
        r == exists|i: int| 1 <= i < fields@.len() && #[trigger] fields@[i]@ == name@,
{
    let wanted = name.to_owned();
    let mut i: usize = 1;
    while i < fields.len()
        invariant
            wanted@ == name@,
            1 <= i,
            i <= fields@.len() || fields@.len() == 0,
            forall|j: int| 1 <= j < i && j < fields@.len() ==> #[trigger] fields@[j]@ != name@,
        decreases fields@.len() - i,
    {
        if fields[i].eq(&wanted) {
            return true;
        }
        i = i + 1;
    }
    false
}

/// The entry that a hosts line gives, once its address is read: the first
/// name is canonical and the others are aliases. A line without a name,
/// or with an empty one, gives none.
pub fn line_entry(fields: &Vec<String>, addr: IpAddr) -> (r: Option<HostEnt>)
    ensures
        fields@.len() < 2 || fields@[1]@.len() == 0 ==> r is None,
        fields@.len() >= 2 && fields@[1]@.len() > 0 ==> r is Some && r->Some_0@ == (HostEntView {
            name: fields@[1]@,
            aliases: names_view(fields@.skip(2)),
            addrs: seq![addr],
        }),
        r is Some ==> resolved(r->Some_0@),
{
    if fields.len() < 2 || fields[1].as_str().is_empty() {
        return None;
    }
    let mut aliases: Vec<String> = Vec::new();
    let mut i: usize = 2;
    while i < fields.len()
        invariant
            2 <= i <= fields@.len(),
            aliases@.len() == i - 2,
            forall|j: int| 0 <= j < i - 2 ==> aliases@[j]@ == fields@[j + 2]@,
        decreases fields@.len() - i,
    {
        aliases.push(fields[i].clone());
        i = i + 1;
    }
    assert(names_view(aliases@) =~= names_view(fields@.skip(2)));
    let addrs = vec![addr];
    assert(addrs@ =~= seq![addr]);
    Some(HostEnt::new(fields[1].clone(), aliases, addrs))
}

} // verus!
