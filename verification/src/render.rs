//! From one guest's subtree to its share of the dynamic configuration.
//!
//! The subtree is Traefik's file-provider format, verbatim, plus what the file
//! format does not have:
//!
//! * `${ip}`, `${name}` and `${vmid}` in any string.
//! * A server without `url` (HTTP) or `address` (TCP, UDP): `port` and an
//!   optional `scheme` build one from the guest's address.
//! * `port` (and optionally `scheme`) on a router: the router's service is one
//!   such server. The service is named after the router unless the router names
//!   one with `service`, and it must not also be declared under `services`.
//!
//! Nothing else is touched.
use vstd::prelude::*;

use crate::address::IpAddr;
use crate::problem::section_key;
use crate::problem::{Problem, Section};
use crate::router::expand_router_ports;
use crate::router::expanded;
use crate::server::complete_section;
use crate::server::completed_section;
use crate::substitute::substitute_table;
use crate::substitute::{entries_mention_ip, filled_entries};
use crate::value::{find_ci, Table, Value};
use crate::value::{position_ci, viewed, Entries, Tree};

verus! {

/// What a guest's rendered configuration is about.
pub struct Guest {
    pub vmid: u64,
    pub name: String,
    pub ip: Option<IpAddr>,
}

/// What a [`Guest`] says.
pub struct GuestView {
    pub vmid: u64,
    pub name: Seq<char>,
    pub ip: Option<IpAddr>,
}

impl View for Guest {
    type V = GuestView;

    open spec fn view(&self) -> GuestView {
        GuestView { vmid: self.vmid, name: self.name@, ip: self.ip }
    }
}

/// A document with one section finished: its routers' ports made services, then
/// its services completed.
pub open spec fn finished_section(doc: Entries, section: Section, guest: GuestView) -> Result<
    Entries,
    Problem<Seq<char>>,
> {
    match position_ci(doc, section_key(section)) {
        Some(i) => match doc[i].1 {
            Tree::Table(entries) => match expanded(entries, section) {
                Err(e) => Err(e),
                Ok(pointed) => match completed_section(pointed, section, guest) {
                    Err(e) => Err(e),
                    Ok(done) => Ok(doc.update(i, (doc[i].0, Tree::Table(done)))),
                },
            },
            _ => Ok(doc),
        },
        None => Ok(doc),
    }
}

/// A document with the sections for HTTP, TCP and UDP finished, in this order.
pub open spec fn finished(doc: Entries, guest: GuestView) -> Result<Entries, Problem<Seq<char>>> {
    match finished_section(doc, Section::Http, guest) {
        Err(e) => Err(e),
        Ok(doc) => match finished_section(doc, Section::Tcp, guest) {
            Err(e) => Err(e),
            Ok(doc) => finished_section(doc, Section::Udp, guest),
        },
    }
}

/// A guest's share of the dynamic configuration.
pub open spec fn rendered(subtree: Entries, guest: GuestView) -> Result<
    Entries,
    Problem<Seq<char>>,
> {
    if guest.ip is None && entries_mention_ip(subtree) {
        Err(Problem::NoAddress)
    } else {
        finished(filled_entries(subtree, guest), guest)
    }
}

fn finish_section(doc: Table, section: Section, guest: &Guest) -> (r: Result<
    Table,
    Problem<String>,
>)
    ensures
        viewed(r) == finished_section(doc@, section, guest@),
{
    let ghost given = doc@;
    let mut doc = doc;
    if let Some(place) = find_ci(&doc, section.key()) {
        let done = match doc.replace(place, Value::Null) {
            Value::Table(entries) => {
                let pointed = match expand_router_ports(entries, section) {
                    Err(e) => {
                        return Err(e);
                    },
                    Ok(pointed) => pointed,
                };
                match complete_section(pointed, section, guest) {
                    Err(e) => {
                        return Err(e);
                    },
                    Ok(done) => Value::Table(done),
                }
            },
            other => other,
        };
        let ghost put = done@;
        doc.replace(place, done);
        assert(doc@ =~= given.update(place as int, (given[place as int].0, put)));
        assert(put == given[place as int].1 ==> doc@ =~= given);
    }
    Ok(doc)
}

/// Renders one guest's subtree, `ip` already taken out. Fails when the subtree
/// needs the guest's address and there is none, or when a router or a server
/// entry cannot be completed.
pub fn render(subtree: Table, guest: &Guest) -> (r: Result<Table, Problem<String>>)
    ensures
        viewed(r) == rendered(subtree@, guest@),
{
    let doc = match substitute_table(subtree, guest) {
        Err(e) => {
            return Err(e);
        },
        Ok(doc) => doc,
    };
    let doc = match finish_section(doc, Section::Http, guest) {
        Err(e) => {
            return Err(e);
        },
        Ok(doc) => doc,
    };
    let doc = match finish_section(doc, Section::Tcp, guest) {
        Err(e) => {
            return Err(e);
        },
        Ok(doc) => doc,
    };
    finish_section(doc, Section::Udp, guest)
}

} // verus!
