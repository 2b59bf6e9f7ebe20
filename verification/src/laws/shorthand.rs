//! A port on a router is short for a service of one server: spelled out, the
//! document renders the same.
use vstd::prelude::*;

use crate::laws::filling::{filled_inserted, filled_updated, filled_value, filled_without};
use crate::laws::filling::{plain_text, plain_text_stays};
use crate::laws::tables::{absent_when_removed, position_by_keys, position_found, same_keys};
use crate::laws::tables::{same_name_between, same_name_through};
use crate::laws::tables::{value_beside_inserted, value_just_inserted};
use crate::problem::section_key;
use crate::problem::{Problem, RouterProblem, Section};
use crate::render::{finished, finished_section, rendered, GuestView};
use crate::router::Plan;
use crate::router::{backend, expanded, expanded_routers, planned, with_services};
use crate::server::completed_section;
use crate::value::{value_ci, without_ci, without_ci_keeps};
use crate::substitute::{any_mentions_ip, entries_mention_ip, mentions_ip};
use crate::substitute::{filled, filled_entries, filled_items};
use crate::text::{folded, same_name};
use crate::value::{inserted, lookup, lookup_inserted, position, position_ci, rank, rank_defined};
use crate::value::{Entries, Tree};

verus! {

/// The service that a router of that name and with these entries points at.
pub open spec fn service_of(entries: Entries, name: Seq<char>) -> Seq<char> {
    match value_ci(entries, "service"@) {
        Some(Tree::Text(s)) => s,
        _ => name,
    }
}

/// A router's entries without its port and its scheme.
pub open spec fn without_port(entries: Entries) -> Entries {
    without_ci(without_ci(entries, "port"@), "scheme"@)
}

/// A router without its port, pointing at its service; as it is where it has
/// none.
pub open spec fn spelled_router(router: Tree, name: Seq<char>) -> Tree {
    match router {
        Tree::Table(entries) => if value_ci(entries, "port"@) is Some {
            let rest = without_port(entries);
            if value_ci(rest, "service"@) is Some {
                Tree::Table(rest)
            } else {
                Tree::Table(inserted(rest, "service"@, Tree::Text(name)))
            }
        } else {
            router
        },
        _ => router,
    }
}

/// The service that a router's port stands for.
pub open spec fn spelled_service(router: Tree, name: Seq<char>) -> Option<(Seq<char>, Tree)> {
    match router {
        Tree::Table(entries) => match value_ci(entries, "port"@) {
            Some(port) => Some(
                (
                    service_of(without_port(entries), name),
                    backend(port, value_ci(without_ci(entries, "port"@), "scheme"@)),
                ),
            ),
            None => None,
        },
        _ => None,
    }
}

/// The routers without their ports.
pub open spec fn spelled_routers(routers: Entries) -> Entries {
    Seq::new(
        routers.len(),
        |i: int| (routers[i].0, spelled_router(routers[i].1, routers[i].0)),
    )
}

/// The services that the routers' ports stand for, in the order of the routers.
pub open spec fn spelled_services(routers: Entries) -> Entries
    decreases routers.len(),
{
    if routers.len() == 0 {
        Seq::empty()
    } else {
        let before = spelled_services(routers.drop_last());
        match spelled_service(routers.last().1, routers.last().0) {
            Some(service) => before.push(service),
            None => before,
        }
    }
}

/// The services with more of them put in.
pub open spec fn with_all(services: Entries, more: Entries) -> Entries
    decreases more.len(),
{
    if more.len() == 0 {
        services
    } else {
        inserted(with_all(services, more.drop_last()), more.last().0, more.last().1)
    }
}

/// A section with the services put in among its services.
pub open spec fn with_spelled(entries: Entries, more: Entries) -> Entries {
    match position_ci(entries, "services"@) {
        Some(i) => match entries[i].1 {
            Tree::Table(services) => entries.update(
                i,
                (entries[i].0, Tree::Table(with_all(services, more))),
            ),
            _ => entries,
        },
        None => inserted(entries, "services"@, Tree::Table(with_all(Seq::empty(), more))),
    }
}

/// A section in which every port on a router is spelled out as a service.
pub open spec fn spelled_section(entries: Entries) -> Entries {
    match position_ci(entries, "routers"@) {
        Some(r) => match entries[r].1 {
            Tree::Table(routers) => {
                let pointed = entries.update(
                    r,
                    (entries[r].0, Tree::Table(spelled_routers(routers))),
                );
                if spelled_services(routers).len() == 0 {
                    pointed
                } else {
                    with_spelled(pointed, spelled_services(routers))
                }
            },
            _ => entries,
        },
        None => entries,
    }
}

/// A subtree in which every port on a router of the section is spelled out.
pub open spec fn spelled_out(subtree: Entries, section: Section) -> Entries {
    match position_ci(subtree, section_key(section)) {
        Some(i) => match subtree[i].1 {
            Tree::Table(entries) => subtree.update(
                i,
                (subtree[i].0, Tree::Table(spelled_section(entries))),
            ),
            _ => subtree,
        },
        None => subtree,
    }
}

/// A router whose service has a name without placeholders; or one without a
/// port.
pub open spec fn clear_router(router: Tree, name: Seq<char>) -> bool {
    match router {
        Tree::Table(entries) => value_ci(entries, "port"@) is Some ==> plain_text(
            service_of(without_port(entries), name),
        ),
        _ => true,
    }
}

/// Routers that are clear, each of them.
pub open spec fn clear_routers(routers: Entries) -> bool {
    forall|i: int|
        0 <= i < routers.len() ==> clear_router((#[trigger] routers[i]).1, routers[i].0)
}

/// A section whose routers are clear.
pub open spec fn clear_section(entries: Entries) -> bool {
    match value_ci(entries, "routers"@) {
        Some(Tree::Table(routers)) => clear_routers(routers),
        _ => true,
    }
}

/// A subtree in which the routers of the section are clear.
pub open spec fn clear(subtree: Entries, section: Section) -> bool {
    match value_ci(subtree, section_key(section)) {
        Some(Tree::Table(entries)) => clear_section(entries),
        _ => true,
    }
}

pub proof fn filled_backend(port: Tree, scheme: Option<Tree>, guest: GuestView)
    ensures
        filled(backend(port, scheme), guest) == backend(
            filled(port, guest),
            match scheme {
                Some(s) => Some(filled(s, guest)),
                None => None,
            },
        ),
{
    let server = match scheme {
        Some(scheme) => seq![("port"@, port), ("scheme"@, scheme)],
        None => seq![("port"@, port)],
    };
    let done = match scheme {
        Some(scheme) => seq![("port"@, filled(port, guest)), ("scheme"@, filled(scheme, guest))],
        None => seq![("port"@, filled(port, guest))],
    };
    assert(filled_entries(server, guest) =~= done);
    let servers = Tree::List(seq![Tree::Table(server)]);
    assert(filled(Tree::Table(server), guest) == Tree::Table(done));
    assert(filled_items(seq![Tree::Table(server)], guest) =~= seq![Tree::Table(done)]);
    let balancer = seq![("servers"@, servers)];
    assert(filled_entries(balancer, guest) =~= seq![
        ("servers"@, Tree::List(seq![Tree::Table(done)])),
    ]);
    let service = seq![("loadBalancer"@, Tree::Table(balancer))];
    assert(filled(Tree::Table(balancer), guest) == Tree::Table(filled_entries(balancer, guest)));
    assert(filled_entries(service, guest) =~= seq![
        ("loadBalancer"@, Tree::Table(filled_entries(balancer, guest))),
    ]);
}

/// Filled in and then expanded, or spelled out and then filled in: one router.
pub proof fn router_spelled(router: Tree, name: Seq<char>, section: Section, guest: GuestView)
    requires
        clear_router(router, name),
        planned(filled(router, guest), name, section) is Ok,
    ensures
        match planned(filled(router, guest), name, section)->Ok_0 {
            None => {
                &&& spelled_router(router, name) == router
                &&& spelled_service(router, name) is None
            },
            Some(plan) => {
                &&& filled(spelled_router(router, name), guest) == Tree::Table(plan.router)
                &&& spelled_service(router, name) matches Some(service)
                &&& service.0 == plan.service
                &&& filled(service.1, guest) == plan.backend
            },
        },
{
    if let Tree::Table(entries) = router {
        filled_value(entries, "port"@, guest);
        if let Some(port) = value_ci(entries, "port"@) {
            let rest = without_ci(entries, "port"@);
            let bare = without_ci(rest, "scheme"@);
            filled_without(entries, "port"@, guest);
            filled_value(rest, "scheme"@, guest);
            filled_without(rest, "scheme"@, guest);
            filled_value(bare, "service"@, guest);
            filled_backend(port, value_ci(rest, "scheme"@), guest);
            plain_text_stays(service_of(bare, name), guest);
            filled_inserted(bare, "service"@, Tree::Text(name), guest);
            match value_ci(bare, "service"@) {
                Some(Tree::Text(s)) => {},
                Some(_) => {},
                None => {
                    assert(service_of(bare, name) == name);
                    assert(filled(Tree::Text(name), guest) == Tree::Text(name));
                },
            }
        }
    }
}

proof fn filled_pushed(entries: Entries, entry: (Seq<char>, Tree), guest: GuestView)
    ensures
        filled_entries(entries.push(entry), guest) == filled_entries(entries, guest).push(
            (entry.0, filled(entry.1, guest)),
        ),
{
    assert(filled_entries(entries.push(entry), guest) =~= filled_entries(entries, guest).push(
        (entry.0, filled(entry.1, guest)),
    ));
}

proof fn filled_front(entries: Entries, guest: GuestView)
    requires
        entries.len() > 0,
    ensures
        filled_entries(entries, guest).drop_last() == filled_entries(entries.drop_last(), guest),
{
    assert(filled_entries(entries, guest).drop_last() =~= filled_entries(
        entries.drop_last(),
        guest,
    ));
}

/// Filled in and then expanded, or spelled out and then filled in: the routers.
proof fn routers_spelled(routers: Entries, section: Section, guest: GuestView)
    requires
        clear_routers(routers),
        expanded_routers(filled_entries(routers, guest), section) is Ok,
    ensures
        expanded_routers(filled_entries(routers, guest), section)->Ok_0 == (
            filled_entries(spelled_routers(routers), guest),
            filled_entries(spelled_services(routers), guest),
        ),
    decreases routers.len(),
{
    let given = filled_entries(routers, guest);
    if routers.len() == 0 {
        assert(filled_entries(spelled_routers(routers), guest) =~= Seq::empty());
        assert(filled_entries(spelled_services(routers), guest) =~= Seq::empty());
    } else {
        let front = routers.drop_last();
        filled_front(routers, guest);
        assert(forall|j: int| 0 <= j < front.len() ==> front[j] == #[trigger] routers[j]);
        routers_spelled(front, section, guest);
        let (name, router) = routers.last();
        assert(clear_router(routers[routers.len() - 1].1, routers[routers.len() - 1].0));
        assert(given.last() == (name, filled(router, guest)));
        router_spelled(router, name, section, guest);
        assert(spelled_routers(routers) =~= spelled_routers(front).push(
            (name, spelled_router(router, name)),
        ));
        filled_pushed(spelled_routers(front), (name, spelled_router(router, name)), guest);
        if let Some(service) = spelled_service(router, name) {
            filled_pushed(spelled_services(front), service, guest);
        }
    }
}

/// Filled in and then put in, or put in and then filled in: the services.
proof fn services_spelled(services: Entries, more: Entries, section: Section, guest: GuestView)
    requires
        with_services(
            filled_entries(services, guest),
            filled_entries(more, guest),
            section,
        ) is Ok,
    ensures
        with_services(filled_entries(services, guest), filled_entries(more, guest), section)->Ok_0
            == filled_entries(with_all(services, more), guest),
    decreases more.len(),
{
    if more.len() > 0 {
        filled_front(more, guest);
        services_spelled(services, more.drop_last(), section, guest);
        filled_inserted(
            with_all(services, more.drop_last()),
            more.last().0,
            more.last().1,
            guest,
        );
    }
}

/// Filled in and then expanded, or spelled out and then filled in: a section.
proof fn section_spelled(entries: Entries, section: Section, guest: GuestView)
    requires
        clear_section(entries),
        expanded(filled_entries(entries, guest), section) is Ok,
    ensures
        expanded(filled_entries(entries, guest), section)->Ok_0 == filled_entries(
            spelled_section(entries),
            guest,
        ),
{
    filled_value(entries, "routers"@, guest);
    position_found(entries, "routers"@);
    if let Some(r) = position_ci(entries, "routers"@) {
        if let Tree::Table(routers) = entries[r].1 {
            let more = spelled_services(routers);
            let pointed = entries.update(
                r,
                (entries[r].0, Tree::Table(spelled_routers(routers))),
            );
            routers_spelled(routers, section, guest);
            filled_updated(entries, r, Tree::Table(spelled_routers(routers)), guest);
            if more.len() > 0 {
                filled_value(pointed, "services"@, guest);
                position_found(pointed, "services"@);
                match position_ci(pointed, "services"@) {
                    Some(i) => {
                        if let Tree::Table(services) = pointed[i].1 {
                            services_spelled(services, more, section, guest);
                            filled_updated(
                                pointed,
                                i,
                                Tree::Table(with_all(services, more)),
                                guest,
                            );
                        }
                    },
                    None => {
                        assert(filled_entries(Seq::empty(), guest) =~= Seq::empty());
                        services_spelled(Seq::empty(), more, section, guest);
                        filled_inserted(
                            pointed,
                            "services"@,
                            Tree::Table(with_all(Seq::empty(), more)),
                            guest,
                        );
                    },
                }
            }
        }
    }
}

/// None of the routers has a port.
pub open spec fn portless(routers: Entries) -> bool {
    forall|i: int|
        0 <= i < routers.len() ==> ((#[trigger] routers[i]).1 matches Tree::Table(entries)
            ==> position_ci(entries, "port"@) is None)
}

/// None of the routers has a port once they are expanded.
proof fn expanded_routers_are_portless(routers: Entries, section: Section)
    ensures
        expanded_routers(routers, section) matches Ok((done, generated)) ==> portless(done),
    decreases routers.len(),
{
    if routers.len() > 0 {
        expanded_routers_are_portless(routers.drop_last(), section);
        let (name, router) = routers.last();
        if let Tree::Table(entries) = router {
            let rest = without_ci(entries, "port"@);
            let bare = without_ci(rest, "scheme"@);
            assert(same_name("port"@, "port"@));
            absent_when_removed(entries, "port"@, "port"@);
            absent_when_removed(rest, "scheme"@, "port"@);
            reveal_strlit("service");
            reveal_strlit("port");
            value_beside_inserted(bare, "service"@, Tree::Text(name), "port"@);
        }
    }
}

pub proof fn portless_stays(routers: Entries, section: Section)
    requires
        portless(routers),
    ensures
        expanded_routers(routers, section) == Ok::<
            (Entries, Entries),
            Problem<Seq<char>>,
        >((routers, Seq::empty())),
    decreases routers.len(),
{
    if routers.len() > 0 {
        let front = routers.drop_last();
        assert(forall|j: int| 0 <= j < front.len() ==> front[j] == #[trigger] routers[j]);
        portless_stays(front, section);
        let last = routers[routers.len() - 1];
        assert(planned(last.1, last.0, section) == Ok::<
            Option<Plan>,
            RouterProblem<Seq<char>>,
        >(None));
        assert(front.push(routers.last()) =~= routers);
    } else {
        assert(routers =~= Seq::empty());
    }
}

/// The routers of a section that was expanded.
proof fn routers_after(entries: Entries, section: Section)
    requires
        expanded(entries, section) is Ok,
    ensures
        ({
            let done = expanded(entries, section)->Ok_0;
            match value_ci(entries, "routers"@) {
                Some(Tree::Table(routers)) => {
                    &&& expanded_routers(routers, section) is Ok
                    &&& value_ci(done, "routers"@) == Some(
                        Tree::Table(expanded_routers(routers, section)->Ok_0.0),
                    )
                },
                _ => done == entries,
            }
        }),
{
    let done = expanded(entries, section)->Ok_0;
    position_found(entries, "routers"@);
    if let Some(r) = position_ci(entries, "routers"@) {
        if let Tree::Table(routers) = entries[r].1 {
            let (bare, more) = expanded_routers(routers, section)->Ok_0;
            let pointed = entries.update(r, (entries[r].0, Tree::Table(bare)));
            assert(same_keys(entries, pointed));
            position_by_keys(entries, pointed, "routers"@);
            reveal_strlit("services");
            reveal_strlit("routers");
            assert(!same_name("services"@, "routers"@)) by {
                assert("services"@.len() != "routers"@.len());
            }
            if more.len() > 0 {
                position_found(pointed, "services"@);
                match position_ci(pointed, "services"@) {
                    Some(i) => {
                        assert(same_keys(pointed, done));
                        position_by_keys(pointed, done, "routers"@);
                        assert(same_name(pointed[i].0, "services"@));
                        assert(same_name(pointed[r].0, "routers"@)) by {
                            position_found(pointed, "routers"@);
                        }
                        assert(i != r);
                        assert(done[r] == pointed[r]);
                    },
                    None => {
                        let services = with_services(Seq::empty(), more, section)->Ok_0;
                        value_beside_inserted(
                            pointed,
                            "services"@,
                            Tree::Table(services),
                            "routers"@,
                        );
                    },
                }
            }
        }
    }
}

/// None of the routers of a section that was expanded has a port.
pub proof fn expanded_is_portless(entries: Entries, section: Section)
    requires
        expanded(entries, section) is Ok,
    ensures
        value_ci(expanded(entries, section)->Ok_0, "routers"@) matches Some(Tree::Table(routers))
            ==> portless(routers),
{
    routers_after(entries, section);
    if let Some(Tree::Table(routers)) = value_ci(entries, "routers"@) {
        expanded_routers_are_portless(routers, section);
    }
}

/// What was expanded has nothing left to expand.
pub proof fn expanded_stays(entries: Entries, section: Section)
    requires
        expanded(entries, section) is Ok,
    ensures
        ({
            let done = expanded(entries, section)->Ok_0;
            expanded(done, section) == Ok::<Entries, Problem<Seq<char>>>(done)
        }),
{
    let done = expanded(entries, section)->Ok_0;
    routers_after(entries, section);
    if let Some(Tree::Table(routers)) = value_ci(entries, "routers"@) {
        let bare = expanded_routers(routers, section)->Ok_0.0;
        expanded_routers_are_portless(routers, section);
        portless_stays(bare, section);
        position_found(done, "routers"@);
        let k = position_ci(done, "routers"@)->0;
        assert(done.update(k, (done[k].0, Tree::Table(bare))) =~= done);
    }
}

proof fn section_keys_differ(a: Section, b: Section)
    requires
        a != b,
    ensures
        !same_name(section_key(a), section_key(b)),
{
    reveal_strlit("http");
    reveal_strlit("tcp");
    reveal_strlit("udp");
    assert(folded("tcp"@[0]) != folded("udp"@[0]));
}

/// Finishing one section leaves the others where and as they are, and does not
/// look at them.
pub proof fn other_section(
    doc: Entries,
    i: int,
    value: Tree,
    section: Section,
    other: Section,
    guest: GuestView,
)
    requires
        section != other,
        position_ci(doc, section_key(section)) == Some(i),
    ensures
        match finished_section(doc, other, guest) {
            Ok(done) => {
                &&& finished_section(doc.update(i, (doc[i].0, value)), other, guest) == Ok::<
                    Entries,
                    Problem<Seq<char>>,
                >(done.update(i, (doc[i].0, value)))
                &&& same_keys(doc, done)
                &&& done[i] == doc[i]
                &&& position_ci(done, section_key(section)) == Some(i)
            },
            Err(e) => finished_section(doc.update(i, (doc[i].0, value)), other, guest) == Err::<
                Entries,
                Problem<Seq<char>>,
            >(e),
        },
{
    let changed = doc.update(i, (doc[i].0, value));
    position_found(doc, section_key(section));
    position_found(doc, section_key(other));
    assert(same_keys(doc, changed));
    position_by_keys(doc, changed, section_key(other));
    if let Some(k) = position_ci(doc, section_key(other)) {
        if k == i {
            same_name_between(doc[i].0, section_key(section), section_key(other));
            section_keys_differ(section, other);
        }
        assert(changed[k] == doc[k]);
        if let Ok(done) = finished_section(doc, other, guest) {
            assert(same_keys(doc, done));
            if let Ok(other_done) = finished_section(changed, other, guest) {
                assert(other_done =~= done.update(i, (doc[i].0, value)));
            }
        }
    }
    if let Ok(done) = finished_section(doc, other, guest) {
        position_by_keys(doc, done, section_key(section));
    }
}

/// A section may be put in the place of one that expands to the same.
proof fn section_put(
    doc: Entries,
    i: int,
    entries: Entries,
    other: Entries,
    section: Section,
    guest: GuestView,
)
    requires
        position_ci(doc, section_key(section)) == Some(i),
        doc[i].1 == Tree::Table(entries),
        expanded(entries, section) == expanded(other, section),
    ensures
        finished_section(doc.update(i, (doc[i].0, Tree::Table(other))), section, guest)
            == finished_section(doc, section, guest),
{
    let put = doc.update(i, (doc[i].0, Tree::Table(other)));
    position_found(doc, section_key(section));
    assert(same_keys(doc, put));
    position_by_keys(doc, put, section_key(section));
    if let Ok(done) = expanded(entries, section) {
        if let Ok(last) = completed_section(done, section, guest) {
            assert(put.update(i, (put[i].0, Tree::Table(last))) =~= doc.update(
                i,
                (doc[i].0, Tree::Table(last)),
            ));
        }
    }
}

/// A document with a section put in the place of one that expands to the same is
/// finished the same.
pub proof fn document_put(
    doc: Entries,
    i: int,
    entries: Entries,
    other: Entries,
    section: Section,
    guest: GuestView,
)
    requires
        position_ci(doc, section_key(section)) == Some(i),
        doc[i].1 == Tree::Table(entries),
        expanded(entries, section) == expanded(other, section),
    ensures
        finished(doc.update(i, (doc[i].0, Tree::Table(other))), guest) == finished(doc, guest),
{
    let value = Tree::Table(other);
    match section {
        Section::Http => section_put(doc, i, entries, other, section, guest),
        Section::Tcp => {
            other_section(doc, i, value, section, Section::Http, guest);
            if let Ok(first) = finished_section(doc, Section::Http, guest) {
                section_put(first, i, entries, other, section, guest);
            }
        },
        Section::Udp => {
            other_section(doc, i, value, section, Section::Http, guest);
            if let Ok(first) = finished_section(doc, Section::Http, guest) {
                other_section(first, i, value, section, Section::Tcp, guest);
                if let Ok(second) = finished_section(first, Section::Tcp, guest) {
                    section_put(second, i, entries, other, section, guest);
                }
            }
        },
    }
}

/// Where the document can be finished, each of its sections can be expanded.
pub proof fn finished_expands(
    doc: Entries,
    i: int,
    entries: Entries,
    section: Section,
    guest: GuestView,
)
    requires
        position_ci(doc, section_key(section)) == Some(i),
        doc[i].1 == Tree::Table(entries),
        finished(doc, guest) is Ok,
    ensures
        expanded(entries, section) is Ok,
{
    if section != Section::Http {
        other_section(doc, i, Tree::Null, section, Section::Http, guest);
        let first = finished_section(doc, Section::Http, guest)->Ok_0;
        if section == Section::Udp {
            other_section(first, i, Tree::Null, section, Section::Tcp, guest);
        }
    }
}

proof fn inserted_asks_nothing(entries: Entries, key: Seq<char>, value: Tree)
    requires
        !entries_mention_ip(entries),
        !mentions_ip(value),
    ensures
        !entries_mention_ip(inserted(entries, key, value)),
{
    rank_defined(entries, key);
    let p = rank(entries, key);
    let after = inserted(entries, key, value);
    let placed = p < entries.len() && entries[p].0 == key;
    assert forall|j: int| 0 <= j < after.len() implies !mentions_ip((#[trigger] after[j]).1) by {
        if j == p {
        } else if placed || j < p {
            assert(after[j] == entries[j]);
        } else {
            assert(after[j] == entries[j - 1]);
        }
    }
}

proof fn removed_asks_nothing(entries: Entries, name: Seq<char>)
    requires
        !entries_mention_ip(entries),
    ensures
        !entries_mention_ip(without_ci(entries, name)),
        value_ci(entries, name) matches Some(value) ==> !mentions_ip(value),
{
    position_found(entries, name);
    if let Some(i) = position_ci(entries, name) {
        assert(!mentions_ip(entries[i].1));
    }
    let after = without_ci(entries, name);
    without_ci_keeps(entries, name);
    assert forall|j: int| 0 <= j < after.len() implies !mentions_ip((#[trigger] after[j]).1) by {
        let k = choose|k: int| 0 <= k < entries.len() && entries[k] == after[j];
        assert(entries.contains(after[j]));
        assert(!mentions_ip(entries[k].1));
    }
}

proof fn updated_asks_nothing(entries: Entries, i: int, value: Tree)
    requires
        0 <= i < entries.len(),
        !entries_mention_ip(entries),
        !mentions_ip(value),
    ensures
        !entries_mention_ip(entries.update(i, (entries[i].0, value))),
{
    let after = entries.update(i, (entries[i].0, value));
    assert forall|j: int| 0 <= j < after.len() implies !mentions_ip((#[trigger] after[j]).1) by {
        if j != i {
            assert(after[j] == entries[j]);
        }
    }
}

proof fn backend_asks_nothing(port: Tree, scheme: Option<Tree>)
    requires
        !mentions_ip(port),
        scheme matches Some(value) ==> !mentions_ip(value),
    ensures
        !mentions_ip(backend(port, scheme)),
{
    let server = match scheme {
        Some(scheme) => seq![("port"@, port), ("scheme"@, scheme)],
        None => seq![("port"@, port)],
    };
    assert(!entries_mention_ip(server));
    let servers = seq![Tree::Table(server)];
    assert(!mentions_ip(servers[0]));
    assert(!any_mentions_ip(servers));
    let balancer = seq![("servers"@, Tree::List(servers))];
    assert(!mentions_ip(balancer[0].1));
    assert(!entries_mention_ip(balancer));
    let service = seq![("loadBalancer"@, Tree::Table(balancer))];
    assert(!mentions_ip(service[0].1));
    assert(!entries_mention_ip(service));
}

proof fn router_asks_nothing(router: Tree, name: Seq<char>)
    requires
        clear_router(router, name),
        !mentions_ip(router),
    ensures
        !mentions_ip(spelled_router(router, name)),
        spelled_service(router, name) matches Some(service) ==> !mentions_ip(service.1),
{
    if let Tree::Table(entries) = router {
        assert(!entries_mention_ip(entries));
        removed_asks_nothing(entries, "port"@);
        if let Some(port) = value_ci(entries, "port"@) {
            let rest = without_ci(entries, "port"@);
            removed_asks_nothing(rest, "scheme"@);
            backend_asks_nothing(port, value_ci(rest, "scheme"@));
            if value_ci(without_port(entries), "service"@) is None {
                inserted_asks_nothing(without_port(entries), "service"@, Tree::Text(name));
            }
        }
    }
}

proof fn routers_ask_nothing(routers: Entries)
    requires
        clear_routers(routers),
        !entries_mention_ip(routers),
    ensures
        !entries_mention_ip(spelled_routers(routers)),
        !entries_mention_ip(spelled_services(routers)),
    decreases routers.len(),
{
    let done = spelled_routers(routers);
    assert forall|j: int| 0 <= j < done.len() implies !mentions_ip((#[trigger] done[j]).1) by {
        assert(!mentions_ip(routers[j].1));
        router_asks_nothing(routers[j].1, routers[j].0);
    }
    if routers.len() > 0 {
        let front = routers.drop_last();
        assert(forall|j: int| 0 <= j < front.len() ==> front[j] == #[trigger] routers[j]);
        routers_ask_nothing(front);
        let last = routers[routers.len() - 1];
        assert(!mentions_ip(last.1));
        router_asks_nothing(last.1, last.0);
        let before = spelled_services(front);
        if let Some(service) = spelled_service(last.1, last.0) {
            let after = before.push(service);
            assert forall|j: int| 0 <= j < after.len() implies !mentions_ip(
                (#[trigger] after[j]).1,
            ) by {
                if j < before.len() {
                    assert(after[j] == before[j]);
                }
            }
        }
    }
}

proof fn services_ask_nothing(services: Entries, more: Entries)
    requires
        !entries_mention_ip(services),
        !entries_mention_ip(more),
    ensures
        !entries_mention_ip(with_all(services, more)),
    decreases more.len(),
{
    if more.len() > 0 {
        let front = more.drop_last();
        assert(forall|j: int| 0 <= j < front.len() ==> front[j] == #[trigger] more[j]);
        services_ask_nothing(services, front);
        assert(!mentions_ip(more[more.len() - 1].1));
        inserted_asks_nothing(with_all(services, front), more.last().0, more.last().1);
    }
}

proof fn section_asks_nothing(entries: Entries)
    requires
        clear_section(entries),
        !entries_mention_ip(entries),
    ensures
        !entries_mention_ip(spelled_section(entries)),
{
    position_found(entries, "routers"@);
    if let Some(r) = position_ci(entries, "routers"@) {
        assert(!mentions_ip(entries[r].1));
        if let Tree::Table(routers) = entries[r].1 {
            let more = spelled_services(routers);
            routers_ask_nothing(routers);
            updated_asks_nothing(entries, r, Tree::Table(spelled_routers(routers)));
            let pointed = entries.update(
                r,
                (entries[r].0, Tree::Table(spelled_routers(routers))),
            );
            position_found(pointed, "services"@);
            match position_ci(pointed, "services"@) {
                Some(i) => {
                    assert(!mentions_ip(pointed[i].1));
                    if let Tree::Table(services) = pointed[i].1 {
                        services_ask_nothing(services, more);
                        updated_asks_nothing(pointed, i, Tree::Table(with_all(services, more)));
                    }
                },
                None => {
                    services_ask_nothing(Seq::empty(), more);
                    inserted_asks_nothing(
                        pointed,
                        "services"@,
                        Tree::Table(with_all(Seq::empty(), more)),
                    );
                },
            }
        }
    }
}

/// A port on a router is short for its service: a subtree that renders, renders
/// the same when the ports on the routers of a section are spelled out as
/// services. No placeholder stands in the names of these services.
pub proof fn port_stands_for_its_service(subtree: Entries, section: Section, guest: GuestView)
    requires
        clear(subtree, section),
        rendered(subtree, guest) is Ok,
    ensures
        rendered(spelled_out(subtree, section), guest) == rendered(subtree, guest),
{
    position_found(subtree, section_key(section));
    if let Some(i) = position_ci(subtree, section_key(section)) {
        if let Tree::Table(entries) = subtree[i].1 {
            let doc = filled_entries(subtree, guest);
            let given = filled_entries(entries, guest);
            filled_value(subtree, section_key(section), guest);
            assert(doc[i].1 == Tree::Table(given));
            finished_expands(doc, i, given, section, guest);
            section_spelled(entries, section, guest);
            expanded_stays(given, section);
            let done = expanded(given, section)->Ok_0;
            document_put(doc, i, given, done, section, guest);
            filled_updated(subtree, i, Tree::Table(spelled_section(entries)), guest);
            if guest.ip is None {
                assert(!mentions_ip(subtree[i].1));
                section_asks_nothing(entries);
                updated_asks_nothing(subtree, i, Tree::Table(spelled_section(entries)));
            }
        }
    }
}

pub proof fn still_there_when_inserted(
    entries: Entries,
    key: Seq<char>,
    value: Tree,
    name: Seq<char>,
)
    requires
        position_ci(entries, name) is Some,
    ensures
        position_ci(inserted(entries, key, value), name) is Some,
{
    rank_defined(entries, key);
    let p = rank(entries, key);
    let after = inserted(entries, key, value);
    position_found(entries, name);
    position_found(after, name);
    let i = position_ci(entries, name)->0;
    let placed = p < entries.len() && entries[p].0 == key;
    if placed || i < p {
        assert(after[i].0 == entries[i].0);
    } else {
        assert(after[i + 1] == entries[i]);
    }
}

pub proof fn there_once_inserted(entries: Entries, key: Seq<char>, value: Tree)
    ensures
        position_ci(inserted(entries, key, value), key) is Some,
{
    rank_defined(entries, key);
    let p = rank(entries, key);
    let after = inserted(entries, key, value);
    position_found(after, key);
    assert(after[p].0 == key);
    assert(same_name(key, key));
}

/// Services put in are new, each of them, and stand under their names.
pub proof fn generated_are_new(services: Entries, generated: Entries, section: Section)
    requires
        with_services(services, generated, section) is Ok,
    ensures
        ({
            let done = with_services(services, generated, section)->Ok_0;
            &&& forall|n: Seq<char>|
                position_ci(services, n) is Some ==> (#[trigger] position_ci(done, n)) is Some
            &&& forall|j: int|
                0 <= j < generated.len() ==> {
                    &&& position_ci(services, (#[trigger] generated[j]).0) is None
                    &&& position_ci(done, generated[j].0) is Some
                    &&& lookup(done, generated[j].0) == Some(generated[j].1)
                }
            &&& forall|j: int, k: int|
                0 <= j < k < generated.len() ==> !same_name(
                    (#[trigger] generated[j]).0,
                    (#[trigger] generated[k]).0,
                )
            &&& forall|n: Seq<char>|
                lookup(services, n) is Some ==> (#[trigger] lookup(done, n)) == lookup(services, n)
        }),
    decreases generated.len(),
{
    if generated.len() > 0 {
        let front = generated.drop_last();
        let (name, service) = generated.last();
        generated_are_new(services, front, section);
        let before = with_services(services, front, section)->Ok_0;
        let done = with_services(services, generated, section)->Ok_0;
        assert(forall|j: int| 0 <= j < front.len() ==> front[j] == #[trigger] generated[j]);
        assert(position_ci(before, name) is None);
        there_once_inserted(before, name, service);
        lookup_inserted(before, name, service, name);
        assert forall|n: Seq<char>| position_ci(services, n) is Some implies (
        #[trigger] position_ci(done, n)) is Some by {
            assert(position_ci(before, n) is Some);
            still_there_when_inserted(before, name, service, n);
        }
        assert(position_ci(services, name) is None) by {
            if position_ci(services, name) is Some {
                assert(position_ci(before, name) is Some);
            }
        }
        assert forall|j: int| 0 <= j < generated.len() implies {
            &&& position_ci(services, (#[trigger] generated[j]).0) is None
            &&& position_ci(done, generated[j].0) is Some
            &&& lookup(done, generated[j].0) == Some(generated[j].1)
        } by {
            if j < front.len() {
                assert(front[j] == generated[j]);
                still_there_when_inserted(before, name, service, generated[j].0);
                lookup_inserted(before, name, service, generated[j].0);
            }
        }
        assert forall|j: int, k: int| 0 <= j < k < generated.len() implies !same_name(
            (#[trigger] generated[j]).0,
            (#[trigger] generated[k]).0,
        ) by {
            assert(front[j] == generated[j]);
            if k < front.len() {
                assert(front[k] == generated[k]);
            } else if same_name(generated[j].0, name) {
                position_found(before, generated[j].0);
                position_found(before, name);
                let e = before[position_ci(before, generated[j].0)->0].0;
                same_name_through(e, generated[j].0, name);
            }
        }
        assert forall|n: Seq<char>| lookup(services, n) is Some implies (#[trigger] lookup(done, n))
            == lookup(services, n) by {
            lookup_inserted(before, name, service, n);
            assert(lookup(before, n) == lookup(services, n));
            if n == name {
                let i = position(services, n)->0;
                assert(same_name(n, n));
                position_found(services, n);
                assert(services[i].0 == n);
            }
        }
    }
}

/// Where among the generated services that of a router is.
proof fn router_generates(routers: Entries, section: Section, i: int) -> (j: int)
    requires
        expanded_routers(routers, section) is Ok,
        0 <= i < routers.len(),
        planned(routers[i].1, routers[i].0, section) matches Ok(Some(_)),
    ensures
        ({
            let (done, generated) = expanded_routers(routers, section)->Ok_0;
            let plan = planned(routers[i].1, routers[i].0, section)->Ok_0->0;
            &&& 0 <= j < generated.len()
            &&& generated[j] == (plan.service, plan.backend)
            &&& done.len() == routers.len()
            &&& done[i] == (routers[i].0, Tree::Table(plan.router))
        }),
    decreases routers.len(),
{
    let front = routers.drop_last();
    routers_keep_their_number(front, section);
    if i == routers.len() - 1 {
        expanded_routers(front, section)->Ok_0.1.len() as int
    } else {
        assert(front[i] == routers[i]);
        router_generates(front, section, i)
    }
}

proof fn routers_keep_their_number(routers: Entries, section: Section)
    ensures
        expanded_routers(routers, section) matches Ok((done, generated)) ==> done.len()
            == routers.len(),
    decreases routers.len(),
{
    if routers.len() > 0 {
        routers_keep_their_number(routers.drop_last(), section);
    }
}

/// The port on a router makes its service: the router has lost the port and
/// points at the service, which is one server on the port and which was not
/// declared before, whatever the case of its letters. What was declared stays.
pub proof fn port_makes_its_service(
    entries: Entries,
    routers: Entries,
    section: Section,
    i: int,
    plan: Plan,
)
    requires
        expanded(entries, section) is Ok,
        value_ci(entries, "routers"@) == Some(Tree::Table(routers)),
        0 <= i < routers.len(),
        planned(routers[i].1, routers[i].0, section) == Ok::<
            Option<Plan>,
            RouterProblem<Seq<char>>,
        >(Some(plan)),
    ensures
        ({
            let after = expanded(entries, section)->Ok_0;
            &&& value_ci(after, "routers"@) matches Some(Tree::Table(done))
            &&& done.len() == routers.len()
            &&& done[i] == (routers[i].0, Tree::Table(plan.router))
            &&& value_ci(after, "services"@) matches Some(Tree::Table(services))
            &&& lookup(services, plan.service) == Some(plan.backend)
            &&& value_ci(entries, "services"@) matches Some(declared) ==> {
                &&& declared matches Tree::Table(before)
                &&& position_ci(before, plan.service) is None
                &&& forall|n: Seq<char>|
                    lookup(before, n) is Some ==> (#[trigger] lookup(services, n)) == lookup(
                        before,
                        n,
                    )
            }
        }),
{
    let after = expanded(entries, section)->Ok_0;
    position_found(entries, "routers"@);
    let r = position_ci(entries, "routers"@)->0;
    let (done, generated) = expanded_routers(routers, section)->Ok_0;
    let j = router_generates(routers, section, i);
    let pointed = entries.update(r, (entries[r].0, Tree::Table(done)));
    assert(same_keys(entries, pointed));
    position_by_keys(entries, pointed, "routers"@);
    position_by_keys(entries, pointed, "services"@);
    position_found(entries, "services"@);
    reveal_strlit("services");
    reveal_strlit("routers");
    assert("services"@.len() != "routers"@.len());
    match position_ci(pointed, "services"@) {
        Some(k) => {
            assert(k != r);
            assert(pointed[k] == entries[k]);
            let before = pointed[k].1->Table_0;
            generated_are_new(before, generated, section);
            assert(same_keys(pointed, after));
            position_by_keys(pointed, after, "routers"@);
            position_by_keys(pointed, after, "services"@);
        },
        None => {
            generated_are_new(Seq::empty(), generated, section);
            let all = with_services(Seq::empty(), generated, section)->Ok_0;
            value_just_inserted(pointed, "services"@, Tree::Table(all));
            value_beside_inserted(pointed, "services"@, Tree::Table(all), "routers"@);
        },
    }
}

/// A service that is declared is not made by a port as well: where the router's
/// service is among those of the section, whatever the case of its letters, the
/// guest's document is refused.
pub proof fn declared_service_is_refused(
    subtree: Entries,
    entries: Entries,
    routers: Entries,
    services: Entries,
    guest: GuestView,
    section: Section,
    i: int,
    plan: Plan,
)
    requires
        value_ci(filled_entries(subtree, guest), section_key(section)) == Some(
            Tree::Table(entries),
        ),
        value_ci(entries, "routers"@) == Some(Tree::Table(routers)),
        value_ci(entries, "services"@) == Some(Tree::Table(services)),
        0 <= i < routers.len(),
        planned(routers[i].1, routers[i].0, section) == Ok::<
            Option<Plan>,
            RouterProblem<Seq<char>>,
        >(Some(plan)),
        position_ci(services, plan.service) is Some,
    ensures
        rendered(subtree, guest) is Err,
{
    if rendered(subtree, guest) is Ok {
        let doc = filled_entries(subtree, guest);
        finished_expands(
            doc,
            position_ci(doc, section_key(section))->0,
            entries,
            section,
            guest,
        );
        port_makes_its_service(entries, routers, section, i, plan);
    }
}

/// Two routers' ports do not make one service, whatever the case of its letters.
pub proof fn one_service_for_two_ports_is_refused(
    entries: Entries,
    routers: Entries,
    section: Section,
    i: int,
    k: int,
    one: Plan,
    other: Plan,
)
    requires
        value_ci(entries, "routers"@) == Some(Tree::Table(routers)),
        0 <= i < k < routers.len(),
        planned(routers[i].1, routers[i].0, section) == Ok::<
            Option<Plan>,
            RouterProblem<Seq<char>>,
        >(Some(one)),
        planned(routers[k].1, routers[k].0, section) == Ok::<
            Option<Plan>,
            RouterProblem<Seq<char>>,
        >(Some(other)),
        same_name(one.service, other.service),
    ensures
        expanded(entries, section) is Err,
{
    if expanded(entries, section) is Ok {
        let (done, generated) = expanded_routers(routers, section)->Ok_0;
        let a = router_generates_in_order(routers, section, i, k);
        let r = position_ci(entries, "routers"@)->0;
        let pointed = entries.update(r, (entries[r].0, Tree::Table(done)));
        match position_ci(pointed, "services"@) {
            Some(p) => generated_are_new(pointed[p].1->Table_0, generated, section),
            None => generated_are_new(Seq::empty(), generated, section),
        }
    }
}

/// The services of two routers come in the order of the routers.
proof fn router_generates_in_order(routers: Entries, section: Section, i: int, k: int) -> (at: (
    int,
    int,
))
    requires
        expanded_routers(routers, section) is Ok,
        0 <= i < k < routers.len(),
        planned(routers[i].1, routers[i].0, section) matches Ok(Some(_)),
        planned(routers[k].1, routers[k].0, section) matches Ok(Some(_)),
    ensures
        ({
            let generated = expanded_routers(routers, section)->Ok_0.1;
            &&& 0 <= at.0 < at.1 < generated.len()
            &&& generated[at.0].0 == planned(
                routers[i].1,
                routers[i].0,
                section,
            )->Ok_0->0.service
            &&& generated[at.1].0 == planned(
                routers[k].1,
                routers[k].0,
                section,
            )->Ok_0->0.service
        }),
    decreases routers.len(),
{
    let front = routers.drop_last();
    assert(front[i] == routers[i]);
    if k == routers.len() - 1 {
        let j = router_generates(front, section, i);
        (j, expanded_routers(front, section)->Ok_0.1.len() as int)
    } else {
        assert(front[k] == routers[k]);
        router_generates_in_order(front, section, i, k)
    }
}

} // verus!
