//! What holds of every rendered document: its servers have their endpoints,
//! nothing else is touched, and the address matters only where it is needed.
use vstd::prelude::*;

use crate::address::IpAddr;
use crate::laws::filling::{address_not_asked_for_among, filled_value, moved};
use crate::laws::filling::{keys_are_not_filled, plain_asks_nothing, plain_entries};
use crate::laws::filling::plain_entries_stay;
use crate::laws::shorthand::expanded_is_portless;
use crate::laws::shorthand::{other_section, portless, portless_stays};
use crate::laws::tables::{absent_when_removed, position_by_keys, position_found, same_keys};
use crate::laws::tables::{same_name_between, value_beside_inserted, value_just_inserted};
use crate::problem::{section_key, target_key};
use crate::problem::{Problem, Section, ServerProblem};
use crate::render::{finished, finished_section, rendered, GuestView};
use crate::router::{expanded, expanded_routers, with_services};
use crate::server::{completed_balancer, completed_section, completed_server, completed_servers};
use crate::server::{completed_service, completed_services};
use crate::value::{value_ci, without_ci};
use crate::substitute::{filled, filled_entries};
use crate::text::same_name;
use crate::value::{inserted, position_ci, Entries, Tree};

verus! {

/// A server entry with its endpoint.
pub open spec fn has_endpoint(server: Tree, section: Section) -> bool {
    server matches Tree::Table(entries) && position_ci(entries, target_key(section)) is Some
}

/// A load balancer all of whose servers have their endpoints.
pub open spec fn balancer_ready(balancer: Entries, section: Section) -> bool {
    match value_ci(balancer, "servers"@) {
        Some(Tree::List(servers)) => forall|i: int|
            0 <= i < servers.len() ==> has_endpoint(#[trigger] servers[i], section),
        _ => true,
    }
}

/// A service all of whose servers have their endpoints.
pub open spec fn service_ready(service: Tree, section: Section) -> bool {
    match service {
        Tree::Table(entries) => match value_ci(entries, "loadBalancer"@) {
            Some(Tree::Table(balancer)) => balancer_ready(balancer, section),
            _ => true,
        },
        _ => true,
    }
}

/// A section all of whose servers have their endpoints.
pub open spec fn services_ready(entries: Entries, section: Section) -> bool {
    match value_ci(entries, "services"@) {
        Some(Tree::Table(services)) => forall|i: int|
            0 <= i < services.len() ==> service_ready((#[trigger] services[i]).1, section),
        _ => true,
    }
}

/// A document in which all servers of the section have their endpoints.
pub open spec fn section_ready(doc: Entries, section: Section) -> bool {
    match value_ci(doc, section_key(section)) {
        Some(Tree::Table(entries)) => services_ready(entries, section),
        _ => true,
    }
}

/// A completed server has its endpoint.
pub proof fn completed_server_has_endpoint(server: Tree, section: Section, guest: GuestView)
    ensures
        completed_server(server, section, guest) matches Ok(done) ==> has_endpoint(done, section),
{
    if let Tree::Table(entries) = server {
        let key = target_key(section);
        if position_ci(entries, key) is None {
            let rest = without_ci(entries, "port"@);
            absent_when_removed(entries, "port"@, key);
            absent_when_removed(rest, "scheme"@, key);
            if let Ok(Tree::Table(done)) = completed_server(server, section, guest) {
                let bare = without_ci(rest, "scheme"@);
                let target = choose|t: Seq<char>| done == inserted(bare, key, Tree::Text(t));
                value_just_inserted(bare, key, Tree::Text(target));
            }
        }
    }
}

/// A server that gets its endpoint sheds what the file format does not have:
/// neither a port nor a scheme is left, whatever the case of the letters.
pub proof fn completed_server_sheds_its_port(entries: Entries, section: Section, guest: GuestView)
    requires
        position_ci(entries, target_key(section)) is None,
    ensures
        completed_server(Tree::Table(entries), section, guest) matches Ok(Tree::Table(done)) ==> {
            &&& position_ci(done, "port"@) is None
            &&& position_ci(done, "scheme"@) is None
        },
{
    let key = target_key(section);
    let rest = without_ci(entries, "port"@);
    let bare = without_ci(rest, "scheme"@);
    if let Ok(Tree::Table(done)) = completed_server(Tree::Table(entries), section, guest) {
        let target = choose|t: Seq<char>| done == inserted(bare, key, Tree::Text(t));
        reveal_strlit("port");
        reveal_strlit("scheme");
        reveal_strlit("url");
        reveal_strlit("address");
        assert(key.len() != "port"@.len() && key.len() != "scheme"@.len());
        assert(same_name("port"@, "port"@));
        assert(same_name("scheme"@, "scheme"@));
        absent_when_removed(entries, "port"@, "port"@);
        absent_when_removed(rest, "scheme"@, "port"@);
        absent_when_removed(rest, "scheme"@, "scheme"@);
        value_beside_inserted(bare, key, Tree::Text(target), "port"@);
        value_beside_inserted(bare, key, Tree::Text(target), "scheme"@);
    }
}

proof fn servers_complete(servers: Seq<Tree>, section: Section, guest: GuestView)
    ensures
        completed_servers(servers, section, guest) matches Ok(done) ==> forall|i: int|
            0 <= i < done.len() ==> has_endpoint(#[trigger] done[i], section),
    decreases servers.len(),
{
    if servers.len() > 0 {
        servers_complete(servers.drop_last(), section, guest);
        completed_server_has_endpoint(servers.last(), section, guest);
    }
}

proof fn updated_value(entries: Entries, name: Seq<char>, value: Tree)
    requires
        position_ci(entries, name) is Some,
    ensures
        ({
            let i = position_ci(entries, name)->0;
            let after = entries.update(i, (entries[i].0, value));
            &&& same_keys(entries, after)
            &&& position_ci(after, name) == Some(i)
            &&& value_ci(after, name) == Some(value)
        }),
{
    let i = position_ci(entries, name)->0;
    let after = entries.update(i, (entries[i].0, value));
    position_found(entries, name);
    assert(same_keys(entries, after));
    position_by_keys(entries, after, name);
}

proof fn service_complete(service: Tree, section: Section, guest: GuestView)
    ensures
        completed_service(service, section, guest) matches Ok(done) ==> service_ready(
            done,
            section,
        ),
{
    if let Tree::Table(entries) = service {
        if let Some(i) = position_ci(entries, "loadBalancer"@) {
            if let Tree::Table(balancer) = entries[i].1 {
                if let Ok(done) = completed_balancer(balancer, section, guest) {
                    if let Some(k) = position_ci(balancer, "servers"@) {
                        if let Tree::List(servers) = balancer[k].1 {
                            servers_complete(servers, section, guest);
                            let ready = completed_servers(servers, section, guest)->Ok_0;
                            updated_value(balancer, "servers"@, Tree::List(ready));
                        }
                    }
                    assert(balancer_ready(done, section));
                    updated_value(entries, "loadBalancer"@, Tree::Table(done));
                }
            }
        }
    }
}

proof fn services_complete(services: Entries, section: Section, guest: GuestView)
    ensures
        completed_services(services, section, guest) matches Ok(done) ==> {
            &&& same_keys(services, done)
            &&& forall|i: int|
                0 <= i < done.len() ==> service_ready((#[trigger] done[i]).1, section)
        },
    decreases services.len(),
{
    if services.len() > 0 {
        let front = services.drop_last();
        services_complete(front, section, guest);
        service_complete(services.last().1, section, guest);
        if let Ok(done) = completed_services(services, section, guest) {
            let before = completed_services(front, section, guest)->Ok_0;
            assert(forall|j: int| 0 <= j < front.len() ==> front[j] == #[trigger] services[j]);
            assert forall|i: int| 0 <= i < services.len() implies services[i].0 == (
            #[trigger] done[i]).0 by {
                if i < front.len() {
                    assert(front[i].0 == before[i].0);
                }
            }
        }
    }
}

proof fn section_complete(doc: Entries, section: Section, guest: GuestView)
    ensures
        finished_section(doc, section, guest) matches Ok(done) ==> {
            &&& section_ready(done, section)
            &&& same_keys(doc, done)
        },
{
    let key = section_key(section);
    position_found(doc, key);
    if let Some(i) = position_ci(doc, key) {
        if let Tree::Table(entries) = doc[i].1 {
            if let Ok(pointed) = expanded(entries, section) {
                if let Ok(last) = completed_section(pointed, section, guest) {
                    position_found(pointed, "services"@);
                    if let Some(k) = position_ci(pointed, "services"@) {
                        if let Tree::Table(services) = pointed[k].1 {
                            services_complete(services, section, guest);
                            let ready = completed_services(services, section, guest)->Ok_0;
                            updated_value(pointed, "services"@, Tree::Table(ready));
                        }
                    }
                    assert(services_ready(last, section));
                    updated_value(doc, key, Tree::Table(last));
                }
            }
        }
    }
}

/// What another section's finishing leaves alone.
proof fn beside_section(doc: Entries, section: Section, other: Section, guest: GuestView)
    requires
        section != other,
    ensures
        finished_section(doc, other, guest) matches Ok(done) ==> {
            &&& same_keys(doc, done)
            &&& value_ci(done, section_key(section)) == value_ci(doc, section_key(section))
            &&& section_ready(done, section) == section_ready(doc, section)
        },
{
    section_complete(doc, other, guest);
    if let Ok(done) = finished_section(doc, other, guest) {
        if let Some(i) = position_ci(doc, section_key(section)) {
            other_section(doc, i, Tree::Null, section, other, guest);
        } else {
            position_by_keys(doc, done, section_key(section));
        }
    }
}

/// Every server of a rendered document has its endpoint, `url` under `http` and
/// `address` under `tcp` and `udp`; and the keys at the top are the subtree's.
pub proof fn rendered_servers_have_endpoints(subtree: Entries, guest: GuestView, section: Section)
    ensures
        rendered(subtree, guest) matches Ok(doc) ==> {
            &&& section_ready(doc, section)
            &&& same_keys(subtree, doc)
        },
{
    if rendered(subtree, guest) is Ok {
        let start = filled_entries(subtree, guest);
        keys_are_not_filled(subtree, guest);
        let first = finished_section(start, Section::Http, guest)->Ok_0;
        let second = finished_section(first, Section::Tcp, guest)->Ok_0;
        section_complete(start, Section::Http, guest);
        section_complete(first, Section::Tcp, guest);
        section_complete(second, Section::Udp, guest);
        beside_section(first, Section::Http, Section::Tcp, guest);
        beside_section(second, Section::Http, Section::Udp, guest);
        beside_section(second, Section::Tcp, Section::Udp, guest);
    }
}

/// A value exchanged under one name leaves what stands under another.
proof fn updated_beside(entries: Entries, at: Seq<char>, value: Tree, name: Seq<char>)
    requires
        position_ci(entries, at) is Some,
        !same_name(at, name),
    ensures
        ({
            let i = position_ci(entries, at)->0;
            value_ci(entries.update(i, (entries[i].0, value)), name) == value_ci(entries, name)
        }),
{
    let i = position_ci(entries, at)->0;
    let after = entries.update(i, (entries[i].0, value));
    position_found(entries, at);
    position_found(entries, name);
    assert(same_keys(entries, after));
    position_by_keys(entries, after, name);
    if let Some(k) = position_ci(entries, name) {
        if k == i {
            same_name_between(entries[i].0, at, name);
        }
    }
}

/// Expanding and completing a section leaves all but its routers and services.
proof fn beside_routers_and_services(
    entries: Entries,
    section: Section,
    guest: GuestView,
    name: Seq<char>,
)
    requires
        !same_name("routers"@, name),
        !same_name("services"@, name),
        expanded(entries, section) is Ok,
        completed_section(expanded(entries, section)->Ok_0, section, guest) is Ok,
    ensures
        value_ci(
            completed_section(expanded(entries, section)->Ok_0, section, guest)->Ok_0,
            name,
        ) == value_ci(entries, name),
{
    let pointed = expanded(entries, section)->Ok_0;
    if let Some(r) = position_ci(entries, "routers"@) {
        if let Tree::Table(routers) = entries[r].1 {
            let (done, generated) = expanded_routers(routers, section)->Ok_0;
            updated_beside(entries, "routers"@, Tree::Table(done), name);
            let between = entries.update(r, (entries[r].0, Tree::Table(done)));
            if generated.len() > 0 {
                match position_ci(between, "services"@) {
                    Some(i) => {
                        if let Tree::Table(services) = between[i].1 {
                            let all = with_services(services, generated, section)->Ok_0;
                            updated_beside(between, "services"@, Tree::Table(all), name);
                        }
                    },
                    None => {
                        let all = with_services(Seq::empty(), generated, section)->Ok_0;
                        value_beside_inserted(between, "services"@, Tree::Table(all), name);
                    },
                }
            }
        }
    }
    assert(value_ci(pointed, name) == value_ci(entries, name));
    if let Some(i) = position_ci(pointed, "services"@) {
        if let Tree::Table(services) = pointed[i].1 {
            let ready = completed_services(services, section, guest)->Ok_0;
            updated_beside(pointed, "services"@, Tree::Table(ready), name);
        }
    }
}

/// What a section is when the document is finished.
pub proof fn section_in_finished(doc: Entries, section: Section, guest: GuestView)
    requires
        finished(doc, guest) is Ok,
    ensures
        ({
            let done = finished(doc, guest)->Ok_0;
            match value_ci(doc, section_key(section)) {
                Some(Tree::Table(entries)) => {
                    &&& expanded(entries, section) is Ok
                    &&& completed_section(expanded(entries, section)->Ok_0, section, guest) is Ok
                    &&& value_ci(done, section_key(section)) == Some(
                        Tree::Table(
                            completed_section(
                                expanded(entries, section)->Ok_0,
                                section,
                                guest,
                            )->Ok_0,
                        ),
                    )
                },
                other => value_ci(done, section_key(section)) == other,
            }
        }),
{
    let first = finished_section(doc, Section::Http, guest)->Ok_0;
    let second = finished_section(first, Section::Tcp, guest)->Ok_0;
    let before = match section {
        Section::Http => doc,
        Section::Tcp => first,
        Section::Udp => second,
    };
    if section != Section::Http {
        beside_section(doc, section, Section::Http, guest);
    }
    if section == Section::Udp {
        beside_section(first, section, Section::Tcp, guest);
    }
    let key = section_key(section);
    let after = finished_section(before, section, guest)->Ok_0;
    position_found(before, key);
    if let Some(i) = position_ci(before, key) {
        if let Tree::Table(entries) = before[i].1 {
            let last = completed_section(expanded(entries, section)->Ok_0, section, guest)->Ok_0;
            updated_value(before, key, Tree::Table(last));
        }
    }
    if section == Section::Http {
        beside_section(first, section, Section::Tcp, guest);
        beside_section(second, section, Section::Udp, guest);
    }
    if section == Section::Tcp {
        beside_section(second, section, Section::Udp, guest);
    }
}

/// Nothing else is touched: in a section, what is neither its routers nor its
/// services has its placeholders filled in and stays otherwise as it is.
pub proof fn rest_of_section_is_only_filled(
    subtree: Entries,
    entries: Entries,
    guest: GuestView,
    section: Section,
    name: Seq<char>,
)
    requires
        rendered(subtree, guest) is Ok,
        value_ci(subtree, section_key(section)) == Some(Tree::Table(entries)),
        !same_name("routers"@, name),
        !same_name("services"@, name),
    ensures
        value_ci(rendered(subtree, guest)->Ok_0, section_key(section)) matches Some(Tree::Table(done))
            && value_ci(done, name) == match value_ci(entries, name) {
            Some(value) => Some(filled(value, guest)),
            None => None,
        },
{
    let doc = filled_entries(subtree, guest);
    let given = filled_entries(entries, guest);
    filled_value(subtree, section_key(section), guest);
    filled_value(entries, name, guest);
    section_in_finished(doc, section, guest);
    beside_routers_and_services(given, section, guest, name);
}

/// Nothing else is touched: what stands at the top of the subtree beside the
/// sections has its placeholders filled in and stays otherwise as it is.
pub proof fn rest_of_subtree_is_only_filled(subtree: Entries, guest: GuestView, i: int)
    requires
        rendered(subtree, guest) is Ok,
        0 <= i < subtree.len(),
        forall|section: Section| #[trigger]
            position_ci(subtree, section_key(section)) != Some(i),
    ensures
        rendered(subtree, guest)->Ok_0[i] == (subtree[i].0, filled(subtree[i].1, guest)),
{
    let doc = filled_entries(subtree, guest);
    let first = finished_section(doc, Section::Http, guest)->Ok_0;
    let second = finished_section(first, Section::Tcp, guest)->Ok_0;
    keys_are_not_filled(subtree, guest);
    section_complete(doc, Section::Http, guest);
    section_complete(first, Section::Tcp, guest);
    section_complete(second, Section::Udp, guest);
    position_by_keys(subtree, doc, section_key(Section::Http));
    position_by_keys(subtree, first, section_key(Section::Tcp));
    position_by_keys(subtree, second, section_key(Section::Udp));
    position_found(doc, section_key(Section::Http));
    position_found(first, section_key(Section::Tcp));
    position_found(second, section_key(Section::Udp));
    assert(position_ci(subtree, section_key(Section::Http)) != Some(i));
    assert(position_ci(subtree, section_key(Section::Tcp)) != Some(i));
    assert(position_ci(subtree, section_key(Section::Udp)) != Some(i));
}

proof fn ready_servers_stay(servers: Seq<Tree>, section: Section, guest: GuestView)
    requires
        forall|i: int| 0 <= i < servers.len() ==> has_endpoint(#[trigger] servers[i], section),
    ensures
        completed_servers(servers, section, guest) == Ok::<Seq<Tree>, ServerProblem<Seq<char>>>(
            servers,
        ),
    decreases servers.len(),
{
    if servers.len() > 0 {
        let front = servers.drop_last();
        assert(forall|j: int| 0 <= j < front.len() ==> front[j] == #[trigger] servers[j]);
        ready_servers_stay(front, section, guest);
        assert(has_endpoint(servers[servers.len() - 1], section));
        assert(front.push(servers.last()) =~= servers);
    } else {
        assert(servers =~= Seq::empty());
    }
}

proof fn ready_service_stays(service: Tree, section: Section, guest: GuestView)
    requires
        service_ready(service, section),
    ensures
        completed_service(service, section, guest) == Ok::<Tree, ServerProblem<Seq<char>>>(service),
{
    if let Tree::Table(entries) = service {
        position_found(entries, "loadBalancer"@);
        if let Some(i) = position_ci(entries, "loadBalancer"@) {
            if let Tree::Table(balancer) = entries[i].1 {
                position_found(balancer, "servers"@);
                if let Some(k) = position_ci(balancer, "servers"@) {
                    if let Tree::List(servers) = balancer[k].1 {
                        ready_servers_stay(servers, section, guest);
                        assert(balancer.update(k, (balancer[k].0, Tree::List(servers)))
                            =~= balancer);
                    }
                }
                assert(entries.update(i, (entries[i].0, Tree::Table(balancer))) =~= entries);
            }
        }
    }
}

proof fn ready_services_stay(services: Entries, section: Section, guest: GuestView)
    requires
        forall|i: int|
            0 <= i < services.len() ==> service_ready((#[trigger] services[i]).1, section),
    ensures
        completed_services(services, section, guest) == Ok::<Entries, Problem<Seq<char>>>(services),
    decreases services.len(),
{
    if services.len() > 0 {
        let front = services.drop_last();
        assert(forall|j: int| 0 <= j < front.len() ==> front[j] == #[trigger] services[j]);
        ready_services_stay(front, section, guest);
        assert(service_ready(services[services.len() - 1].1, section));
        ready_service_stays(services.last().1, section, guest);
        assert(front.push(services.last()) =~= services);
    } else {
        assert(services =~= Seq::empty());
    }
}

/// A section none of whose routers has a port.
pub open spec fn routers_spelled_out(doc: Entries, section: Section) -> bool {
    match value_ci(doc, section_key(section)) {
        Some(Tree::Table(entries)) => match value_ci(entries, "routers"@) {
            Some(Tree::Table(routers)) => portless(routers),
            _ => true,
        },
        _ => true,
    }
}

proof fn ready_section_stays(doc: Entries, section: Section, guest: GuestView)
    requires
        section_ready(doc, section),
        routers_spelled_out(doc, section),
    ensures
        finished_section(doc, section, guest) == Ok::<Entries, Problem<Seq<char>>>(doc),
{
    position_found(doc, section_key(section));
    if let Some(i) = position_ci(doc, section_key(section)) {
        if let Tree::Table(entries) = doc[i].1 {
            position_found(entries, "routers"@);
            if let Some(r) = position_ci(entries, "routers"@) {
                if let Tree::Table(routers) = entries[r].1 {
                    portless_stays(routers, section);
                    assert(entries.update(r, (entries[r].0, Tree::Table(routers))) =~= entries);
                }
            }
            position_found(entries, "services"@);
            if let Some(k) = position_ci(entries, "services"@) {
                if let Tree::Table(services) = entries[k].1 {
                    ready_services_stay(services, section, guest);
                    assert(entries.update(k, (entries[k].0, Tree::Table(services))) =~= entries);
                }
            }
            assert(doc.update(i, (doc[i].0, Tree::Table(entries))) =~= doc);
        }
    }
}

/// Traefik's own format passes through: a subtree without placeholders, without
/// ports on its routers and with an endpoint for each of its servers renders to
/// itself, address or no address.
pub proof fn plain_configuration_stays(subtree: Entries, guest: GuestView)
    requires
        plain_entries(subtree),
        forall|section: Section| #[trigger] section_ready(subtree, section),
        forall|section: Section| #[trigger] routers_spelled_out(subtree, section),
    ensures
        rendered(subtree, guest) == Ok::<Entries, Problem<Seq<char>>>(subtree),
{
    plain_entries_stay(subtree, guest);
    plain_asks_nothing(subtree);
    assert(section_ready(subtree, Section::Http) && routers_spelled_out(subtree, Section::Http));
    assert(section_ready(subtree, Section::Tcp) && routers_spelled_out(subtree, Section::Tcp));
    assert(section_ready(subtree, Section::Udp) && routers_spelled_out(subtree, Section::Udp));
    ready_section_stays(subtree, Section::Http, guest);
    ready_section_stays(subtree, Section::Tcp, guest);
    ready_section_stays(subtree, Section::Udp, guest);
}

/// What was rendered is finished: where no placeholder is left in it, it renders
/// to itself, for any guest.
pub proof fn rendered_document_is_finished(subtree: Entries, guest: GuestView, other: GuestView)
    requires
        rendered(subtree, guest) is Ok,
        plain_entries(rendered(subtree, guest)->Ok_0),
    ensures
        rendered(rendered(subtree, guest)->Ok_0, other) == rendered(subtree, guest),
{
    let doc = rendered(subtree, guest)->Ok_0;
    let start = filled_entries(subtree, guest);
    assert forall|section: Section| #[trigger] section_ready(doc, section) by {
        rendered_servers_have_endpoints(subtree, guest, section);
    }
    assert forall|section: Section| #[trigger] routers_spelled_out(doc, section) by {
        let key = section_key(section);
        section_in_finished(start, section, guest);
        if let Some(Tree::Table(given)) = value_ci(start, key) {
            let pointed = expanded(given, section)->Ok_0;
            expanded_is_portless(given, section);
            if let Some(i) = position_ci(pointed, "services"@) {
                if let Tree::Table(services) = pointed[i].1 {
                    let ready = completed_services(services, section, guest)->Ok_0;
                    reveal_strlit("services");
                    reveal_strlit("routers");
                    assert("services"@.len() != "routers"@.len());
                    updated_beside(pointed, "services"@, Tree::Table(ready), "routers"@);
                }
            }
        }
    }
    plain_configuration_stays(doc, other);
}

proof fn servers_without_address(
    servers: Seq<Tree>,
    section: Section,
    guest: GuestView,
    ip: Option<IpAddr>,
)
    requires
        guest.ip is None,
        completed_servers(servers, section, guest) is Ok,
    ensures
        completed_servers(servers, section, moved(guest, ip)) == completed_servers(
            servers,
            section,
            guest,
        ),
    decreases servers.len(),
{
    if servers.len() > 0 {
        servers_without_address(servers.drop_last(), section, guest, ip);
    }
}

proof fn services_without_address(
    services: Entries,
    section: Section,
    guest: GuestView,
    ip: Option<IpAddr>,
)
    requires
        guest.ip is None,
        completed_services(services, section, guest) is Ok,
    ensures
        completed_services(services, section, moved(guest, ip)) == completed_services(
            services,
            section,
            guest,
        ),
    decreases services.len(),
{
    if services.len() > 0 {
        services_without_address(services.drop_last(), section, guest, ip);
        if let Tree::Table(entries) = services.last().1 {
            if let Some(i) = position_ci(entries, "loadBalancer"@) {
                if let Tree::Table(balancer) = entries[i].1 {
                    if let Some(k) = position_ci(balancer, "servers"@) {
                        if let Tree::List(servers) = balancer[k].1 {
                            servers_without_address(servers, section, guest, ip);
                        }
                    }
                }
            }
        }
    }
}

proof fn section_without_address(
    doc: Entries,
    section: Section,
    guest: GuestView,
    ip: Option<IpAddr>,
)
    requires
        guest.ip is None,
        finished_section(doc, section, guest) is Ok,
    ensures
        finished_section(doc, section, moved(guest, ip)) == finished_section(doc, section, guest),
{
    if let Some(i) = position_ci(doc, section_key(section)) {
        if let Tree::Table(entries) = doc[i].1 {
            if let Ok(pointed) = expanded(entries, section) {
                if let Some(k) = position_ci(pointed, "services"@) {
                    if let Tree::Table(services) = pointed[k].1 {
                        services_without_address(services, section, guest, ip);
                    }
                }
            }
        }
    }
}

/// A subtree that renders without an address does not need one: it renders the
/// same whatever the guest's address is.
pub proof fn address_is_used_only_where_needed(
    subtree: Entries,
    guest: GuestView,
    ip: Option<IpAddr>,
)
    requires
        guest.ip is None,
        rendered(subtree, guest) is Ok,
    ensures
        rendered(subtree, moved(guest, ip)) == rendered(subtree, guest),
{
    let doc = filled_entries(subtree, guest);
    address_not_asked_for_among(subtree, guest, ip);
    let first = finished_section(doc, Section::Http, guest)->Ok_0;
    let second = finished_section(first, Section::Tcp, guest)->Ok_0;
    section_without_address(doc, Section::Http, guest, ip);
    section_without_address(first, Section::Tcp, guest, ip);
    section_without_address(second, Section::Udp, guest, ip);
}

/// A problem that says that the guest's address is missing.
pub open spec fn lacks_address(problem: Problem<Seq<char>>) -> bool {
    match problem {
        Problem::NoAddress => true,
        Problem::Server { section, service, entry } => entry is NoAddress,
        _ => false,
    }
}

proof fn servers_with_address(servers: Seq<Tree>, section: Section, guest: GuestView)
    requires
        guest.ip is Some,
    ensures
        completed_servers(servers, section, guest) matches Err(e) ==> !(e is NoAddress),
    decreases servers.len(),
{
    if servers.len() > 0 {
        servers_with_address(servers.drop_last(), section, guest);
    }
}

proof fn services_with_address(services: Entries, section: Section, guest: GuestView)
    requires
        guest.ip is Some,
    ensures
        completed_services(services, section, guest) matches Err(e) ==> !lacks_address(e),
    decreases services.len(),
{
    if services.len() > 0 {
        services_with_address(services.drop_last(), section, guest);
        if let Tree::Table(entries) = services.last().1 {
            if let Some(i) = position_ci(entries, "loadBalancer"@) {
                if let Tree::Table(balancer) = entries[i].1 {
                    if let Some(k) = position_ci(balancer, "servers"@) {
                        if let Tree::List(servers) = balancer[k].1 {
                            servers_with_address(servers, section, guest);
                        }
                    }
                }
            }
        }
    }
}

proof fn routers_lack_no_address(routers: Entries, section: Section)
    ensures
        expanded_routers(routers, section) matches Err(e) ==> !lacks_address(e),
    decreases routers.len(),
{
    if routers.len() > 0 {
        routers_lack_no_address(routers.drop_last(), section);
    }
}

proof fn generated_lack_no_address(services: Entries, generated: Entries, section: Section)
    ensures
        with_services(services, generated, section) matches Err(e) ==> !lacks_address(e),
    decreases generated.len(),
{
    if generated.len() > 0 {
        generated_lack_no_address(services, generated.drop_last(), section);
    }
}

proof fn section_with_address(doc: Entries, section: Section, guest: GuestView)
    requires
        guest.ip is Some,
    ensures
        finished_section(doc, section, guest) matches Err(e) ==> !lacks_address(e),
{
    if let Some(i) = position_ci(doc, section_key(section)) {
        if let Tree::Table(entries) = doc[i].1 {
            if let Some(r) = position_ci(entries, "routers"@) {
                if let Tree::Table(routers) = entries[r].1 {
                    routers_lack_no_address(routers, section);
                    if let Ok((done, generated)) = expanded_routers(routers, section) {
                        let between = entries.update(r, (entries[r].0, Tree::Table(done)));
                        generated_lack_no_address(Seq::empty(), generated, section);
                        if let Some(k) = position_ci(between, "services"@) {
                            if let Tree::Table(services) = between[k].1 {
                                generated_lack_no_address(services, generated, section);
                            }
                        }
                    }
                }
            }
            if let Ok(pointed) = expanded(entries, section) {
                if let Some(k) = position_ci(pointed, "services"@) {
                    if let Tree::Table(services) = pointed[k].1 {
                        services_with_address(services, section, guest);
                    }
                }
            }
        }
    }
}

/// A guest that has an address is never said to have none.
pub proof fn address_is_found_missing_only_when_missing(subtree: Entries, guest: GuestView)
    requires
        guest.ip is Some,
    ensures
        rendered(subtree, guest) matches Err(e) ==> !lacks_address(e),
{
    let doc = filled_entries(subtree, guest);
    section_with_address(doc, Section::Http, guest);
    if let Ok(first) = finished_section(doc, Section::Http, guest) {
        section_with_address(first, Section::Tcp, guest);
        if let Ok(second) = finished_section(first, Section::Tcp, guest) {
            section_with_address(second, Section::Udp, guest);
        }
    }
}

/// What is wrong with a section, if anything is: with its routers first, then
/// with its services.
pub open spec fn fault_of(doc: Entries, section: Section, guest: GuestView) -> Option<
    Problem<Seq<char>>,
> {
    match value_ci(doc, section_key(section)) {
        Some(Tree::Table(entries)) => match expanded(entries, section) {
            Err(e) => Some(e),
            Ok(pointed) => match completed_section(pointed, section, guest) {
                Err(e) => Some(e),
                Ok(_) => None,
            },
        },
        _ => None,
    }
}

/// A document is refused exactly where a section of it is at fault, and the first
/// of HTTP, TCP and UDP that is decides. What one section is makes no difference
/// to another.
pub proof fn first_section_at_fault_decides(doc: Entries, guest: GuestView)
    ensures
        ({
            let http = fault_of(doc, Section::Http, guest);
            let tcp = fault_of(doc, Section::Tcp, guest);
            let udp = fault_of(doc, Section::Udp, guest);
            match finished(doc, guest) {
                Ok(_) => http is None && tcp is None && udp is None,
                Err(e) => if http is Some {
                    http == Some(e)
                } else if tcp is Some {
                    tcp == Some(e)
                } else {
                    udp == Some(e)
                },
            }
        }),
{
    position_found(doc, section_key(Section::Http));
    if let Ok(first) = finished_section(doc, Section::Http, guest) {
        beside_section(doc, Section::Tcp, Section::Http, guest);
        beside_section(doc, Section::Udp, Section::Http, guest);
        position_found(first, section_key(Section::Tcp));
        if let Ok(second) = finished_section(first, Section::Tcp, guest) {
            beside_section(first, Section::Udp, Section::Tcp, guest);
            position_found(second, section_key(Section::Udp));
        }
    }
}

} // verus!
