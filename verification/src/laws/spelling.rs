//! One router's port and its service spelled out are the same: either both
//! documents render, and equally, or neither does.
use vstd::prelude::*;

use crate::laws::filling::{filled_inserted, filled_updated, filled_value, filled_without};
use crate::laws::filling::{plain_text, plain_text_stays};
use crate::laws::rendering::section_in_finished;
use crate::laws::shorthand::{document_put, filled_backend, finished_expands};
use crate::laws::shorthand::{generated_are_new, port_makes_its_service, router_spelled};
use crate::laws::shorthand::{service_of, spelled_router, spelled_service, without_port};
use crate::laws::tables::{absent_beside_inserted, absent_when_removed, found_at};
use crate::laws::tables::{inserted_in_either_order, position_by_keys, position_found, rank_by_keys};
use crate::laws::tables::{same_keys, same_name_between, value_beside_inserted};
use crate::laws::tables::value_just_inserted;
use crate::problem::{section_key, target_key};
use crate::problem::{Problem, RouterProblem, Section};
use crate::render::{rendered, GuestView};
use crate::router::Plan;
use crate::router::{backend, expanded, expanded_routers, planned, with_services};
use crate::server::{completed_server, completed_servers, completed_service, completed_services};
use crate::server::port_text;
use crate::substitute::{filled, filled_entries};
use crate::text::{is_port, precedes, same_name};
use crate::value::{inserted, inserted_ordered, lookup, lookup_inserted, name_at, name_at_unique};
use crate::value::{ordered, position_ci, rank, value_ci, without_ci, Entries, Tree};

verus! {

/// A section with a service put in among its services.
pub open spec fn with_service(entries: Entries, service: (Seq<char>, Tree)) -> Entries {
    match position_ci(entries, "services"@) {
        Some(i) => match entries[i].1 {
            Tree::Table(services) => entries.update(
                i,
                (entries[i].0, Tree::Table(inserted(services, service.0, service.1))),
            ),
            _ => entries,
        },
        None => inserted(
            entries,
            "services"@,
            Tree::Table(inserted(Seq::empty(), service.0, service.1)),
        ),
    }
}

/// A section in which the port on the router `j` is spelled out as its service.
pub open spec fn spelled_in(entries: Entries, j: int) -> Entries {
    match position_ci(entries, "routers"@) {
        Some(r) => match entries[r].1 {
            Tree::Table(routers) => {
                let (name, router) = routers[j];
                let pointed = routers.update(j, (name, spelled_router(router, name)));
                match spelled_service(router, name) {
                    Some(service) => with_service(
                        entries.update(r, (entries[r].0, Tree::Table(pointed))),
                        service,
                    ),
                    None => entries,
                }
            },
            _ => entries,
        },
        None => entries,
    }
}

/// A subtree in which the port on the router `j` of the section is spelled out.
pub open spec fn spelled_at(subtree: Entries, section: Section, j: int) -> Entries {
    match position_ci(subtree, section_key(section)) {
        Some(i) => match subtree[i].1 {
            Tree::Table(entries) => subtree.update(
                i,
                (subtree[i].0, Tree::Table(spelled_in(entries, j))),
            ),
            _ => subtree,
        },
        None => subtree,
    }
}

/// A router whose port can be spelled out: it has one, names its service by a
/// text that is not empty if at all, and no placeholder stands in the name of
/// its service.
pub open spec fn can_be_spelled(router: Tree, name: Seq<char>) -> bool {
    &&& router matches Tree::Table(entries)
    &&& value_ci(entries, "port"@) is Some
    &&& match value_ci(without_port(entries), "service"@) {
        None => true,
        Some(Tree::Text(s)) => s.len() > 0,
        Some(_) => false,
    }
    &&& plain_text(service_of(without_port(entries), name))
}

/// The name of the service that a router's port stands for.
pub open spec fn service_name(router: Tree, name: Seq<char>) -> Seq<char> {
    match spelled_service(router, name) {
        Some(service) => service.0,
        None => name,
    }
}

/// A section that has no service of that name, whatever the case of its letters.
pub open spec fn can_take_service(entries: Entries, service: Seq<char>) -> bool {
    match value_ci(entries, "services"@) {
        None => true,
        Some(Tree::Table(services)) => ordered(services) && position_ci(services, service) is None,
        Some(_) => false,
    }
}

proof fn services_stay_ordered(services: Entries, generated: Entries, section: Section)
    requires
        ordered(services),
    ensures
        with_services(services, generated, section) matches Ok(done) ==> ordered(done),
    decreases generated.len(),
{
    if generated.len() > 0 {
        let front = generated.drop_last();
        services_stay_ordered(services, front, section);
        if let Ok(done) = with_services(services, front, section) {
            inserted_ordered(done, generated.last().0, generated.last().1);
        }
    }
}

/// A service can be put in before the generated ones or after them.
proof fn service_put_first(
    services: Entries,
    generated: Entries,
    service: (Seq<char>, Tree),
    section: Section,
)
    requires
        ordered(services),
        position_ci(services, service.0) is None,
    ensures
        match with_services(inserted(services, service.0, service.1), generated, section) {
            Ok(all) => {
                &&& with_services(services, generated, section) matches Ok(done)
                &&& position_ci(done, service.0) is None
                &&& all == inserted(done, service.0, service.1)
            },
            Err(_) => with_services(services, generated, section) matches Ok(done) ==> position_ci(
                done,
                service.0,
            ) is Some,
        },
    decreases generated.len(),
{
    if generated.len() > 0 {
        let front = generated.drop_last();
        let (name, value) = generated.last();
        service_put_first(services, front, service, section);
        services_stay_ordered(services, front, section);
        if let Ok(done) = with_services(services, front, section) {
            absent_beside_inserted(done, service.0, service.1, name);
            absent_beside_inserted(done, name, value, service.0);
            if same_name(service.0, name) != same_name(name, service.0) {
                names_agree(service.0, name);
            }
            if service.0 != name {
                inserted_in_either_order(done, service.0, service.1, name, value);
            } else {
                assert(same_name(name, name));
            }
        }
    }
}

proof fn names_agree(a: Seq<char>, b: Seq<char>)
    ensures
        same_name(a, b) == same_name(b, a),
{
    if same_name(a, b) {
        same_name_between(a, b, a);
    }
    if same_name(b, a) {
        same_name_between(b, a, b);
    }
}

/// A generated service can as well be declared.
proof fn service_declared(services: Entries, generated: Entries, q: int, section: Section)
    requires
        ordered(services),
        0 <= q < generated.len(),
        position_ci(services, generated[q].0) is None,
    ensures
        ({
            let one = with_services(services, generated, section);
            let other = with_services(
                inserted(services, generated[q].0, generated[q].1),
                generated.remove(q),
                section,
            );
            &&& one is Ok <==> other is Ok
            &&& one is Ok ==> one == other
        }),
    decreases generated.len(),
{
    let front = generated.drop_last();
    let less = generated.remove(q);
    if q == generated.len() - 1 {
        assert(less =~= front);
        service_put_first(services, front, generated[q], section);
    } else {
        assert(front[q] == generated[q]);
        service_declared(services, front, q, section);
        assert(less.drop_last() =~= front.remove(q));
        assert(less.last() == generated.last());
    }
}

/// A router without a port comes to nothing new.
proof fn spelled_router_stays(plan: Plan, name: Seq<char>, section: Section)
    requires
        position_ci(plan.router, "port"@) is None,
    ensures
        planned(Tree::Table(plan.router), name, section) == Ok::<
            Option<Plan>,
            RouterProblem<Seq<char>>,
        >(None),
{
}

/// The routers with one of them spelled out: the same routers come of them, and
/// its service is not among the generated ones.
proof fn router_taken_out(routers: Entries, j: int, plan: Plan, section: Section) -> (q: int)
    requires
        0 <= j < routers.len(),
        planned(routers[j].1, routers[j].0, section) == Ok::<
            Option<Plan>,
            RouterProblem<Seq<char>>,
        >(Some(plan)),
        position_ci(plan.router, "port"@) is None,
    ensures
        ({
            let one = expanded_routers(routers, section);
            let other = expanded_routers(
                routers.update(j, (routers[j].0, Tree::Table(plan.router))),
                section,
            );
            &&& one is Ok <==> other is Ok
            &&& one is Ok ==> {
                &&& one->Ok_0.0 == other->Ok_0.0
                &&& 0 <= q < one->Ok_0.1.len()
                &&& one->Ok_0.1[q] == (plan.service, plan.backend)
                &&& other->Ok_0.1 == one->Ok_0.1.remove(q)
            }
        }),
    decreases routers.len(),
{
    let changed = routers.update(j, (routers[j].0, Tree::Table(plan.router)));
    let front = routers.drop_last();
    spelled_router_stays(plan, routers[j].0, section);
    if j == routers.len() - 1 {
        assert(changed.drop_last() =~= front);
        assert(changed.last() == (routers[j].0, Tree::Table(plan.router)));
        if let Ok((done, generated)) = expanded_routers(front, section) {
            let more = generated.push((plan.service, plan.backend));
            assert(more.remove(generated.len() as int) =~= generated);
            generated.len() as int
        } else {
            0
        }
    } else {
        assert(front[j] == routers[j]);
        let q = router_taken_out(front, j, plan, section);
        assert(changed.drop_last() =~= front.update(j, (front[j].0, Tree::Table(plan.router))));
        assert(changed.last() == routers.last());
        if let Ok((done, generated)) = expanded_routers(front, section) {
            if let Ok(Some(last)) = planned(routers.last().1, routers.last().0, section) {
                assert(generated.push((last.service, last.backend)).remove(q) =~= generated.remove(
                    q,
                ).push((last.service, last.backend)));
            }
        }
        q
    }
}

/// A section with the router spelled out expands to the same, or neither does.
#[verifier::rlimit(40)]
proof fn section_taken_out(
    entries: Entries,
    routers: Entries,
    j: int,
    plan: Plan,
    section: Section,
)
    requires
        value_ci(entries, "routers"@) == Some(Tree::Table(routers)),
        0 <= j < routers.len(),
        planned(routers[j].1, routers[j].0, section) == Ok::<
            Option<Plan>,
            RouterProblem<Seq<char>>,
        >(Some(plan)),
        position_ci(plan.router, "port"@) is None,
        can_take_service(entries, plan.service),
    ensures
        ({
            let r = position_ci(entries, "routers"@)->0;
            let pointed = routers.update(j, (routers[j].0, Tree::Table(plan.router)));
            let other = with_service(
                entries.update(r, (entries[r].0, Tree::Table(pointed))),
                (plan.service, plan.backend),
            );
            &&& expanded(entries, section) is Ok <==> expanded(other, section) is Ok
            &&& expanded(entries, section) is Ok ==> expanded(entries, section) == expanded(
                other,
                section,
            )
        }),
{
    let r = position_ci(entries, "routers"@)->0;
    let spelled = routers.update(j, (routers[j].0, Tree::Table(plan.router)));
    let base = entries.update(r, (entries[r].0, Tree::Table(spelled)));
    let service = (plan.service, plan.backend);
    let other = with_service(base, service);
    let q = router_taken_out(routers, j, plan, section);
    position_found(entries, "routers"@);
    position_found(entries, "services"@);
    assert(same_keys(entries, base));
    position_by_keys(entries, base, "routers"@);
    position_by_keys(entries, base, "services"@);
    reveal_strlit("services");
    reveal_strlit("routers");
    assert("services"@.len() != "routers"@.len());
    match position_ci(entries, "services"@) {
        Some(k) => {
            assert(k != r);
            let services = entries[k].1->Table_0;
            let declared = inserted(services, service.0, service.1);
            assert(other == base.update(k, (entries[k].0, Tree::Table(declared))));
            assert(same_keys(base, other));
            position_by_keys(base, other, "routers"@);
            position_by_keys(base, other, "services"@);
            assert(other[r].1 == Tree::Table(spelled));
            if let Ok((done, generated)) = expanded_routers(routers, section) {
                let one = entries.update(r, (entries[r].0, Tree::Table(done)));
                let two = other.update(r, (other[r].0, Tree::Table(done)));
                assert(same_keys(entries, one));
                assert(same_keys(other, two));
                position_by_keys(entries, one, "services"@);
                position_by_keys(other, two, "services"@);
                assert(one[k].1 == Tree::Table(services));
                assert(two[k].1 == Tree::Table(declared));
                service_declared(services, generated, q, section);
                let less = generated.remove(q);
                if less.len() == 0 {
                    assert(with_services(declared, less, section) == Ok::<
                        Entries,
                        Problem<Seq<char>>,
                    >(declared));
                }
                if let Ok(all) = with_services(services, generated, section) {
                    assert(one.update(k, (one[k].0, Tree::Table(all))) =~= two.update(
                        k,
                        (two[k].0, Tree::Table(all)),
                    ));
                    if less.len() == 0 {
                        assert(two.update(k, (two[k].0, Tree::Table(all))) =~= two);
                    }
                }
            }
        },
        None => {
            let none = Seq::<(Seq<char>, Tree)>::empty();
            let declared = inserted(none, service.0, service.1);
            let p = rank(base, "services"@);
            value_just_inserted(base, "services"@, Tree::Table(declared));
            value_beside_inserted(base, "services"@, Tree::Table(declared), "routers"@);
            let at: int = if r < p {
                r
            } else {
                r + 1
            };
            if p < base.len() && base[p].0 == "services"@ {
                assert(same_name(base[p].0, "services"@));
            }
            assert(position_ci(other, "routers"@) == Some(at));
            assert(other[at].1 == Tree::Table(spelled));
            if let Ok((done, generated)) = expanded_routers(routers, section) {
                let one = entries.update(r, (entries[r].0, Tree::Table(done)));
                let two = other.update(at, (other[at].0, Tree::Table(done)));
                assert(same_keys(entries, one));
                assert(same_keys(other, two));
                position_by_keys(entries, one, "services"@);
                position_by_keys(other, two, "services"@);
                assert(two[p].1 == Tree::Table(declared));
                assert(ordered(none));
                assert(position_ci(none, service.0) is None);
                service_declared(none, generated, q, section);
                let less = generated.remove(q);
                if less.len() == 0 {
                    assert(with_services(declared, less, section) == Ok::<
                        Entries,
                        Problem<Seq<char>>,
                    >(declared));
                }
                if let Ok(all) = with_services(none, generated, section) {
                    assert(same_keys(base, one));
                    rank_by_keys(base, one, "services"@);
                    value_just_inserted(one, "services"@, Tree::Table(all));
                    assert(one.insert(p, ("services"@, Tree::Table(all))) =~= two.update(
                        p,
                        (two[p].0, Tree::Table(all)),
                    ));
                    if less.len() == 0 {
                        assert(two.update(p, (two[p].0, Tree::Table(all))) =~= two);
                    }
                }
            }
        },
    }
}

proof fn each_service_completes(services: Entries, section: Section, guest: GuestView, i: int)
    requires
        completed_services(services, section, guest) is Ok,
        0 <= i < services.len(),
    ensures
        completed_service(services[i].1, section, guest) is Ok,
    decreases services.len(),
{
    let front = services.drop_last();
    if i < front.len() {
        assert(front[i] == services[i]);
        each_service_completes(front, section, guest, i);
    }
}

proof fn only_name(key: Seq<char>, value: Tree)
    ensures
        position_ci(seq![(key, value)], key) == Some(0int),
{
    assert(same_name(key, key));
    assert(name_at(seq![(key, value)], key, 0));
    name_at_unique(seq![(key, value)], key, 0);
}

/// The service of a port completes only where the guest has an address and the
/// port is one, and a scheme only for HTTP.
proof fn backend_completes(
    services: Entries,
    name: Seq<char>,
    port: Tree,
    scheme: Option<Tree>,
    section: Section,
    guest: GuestView,
)
    requires
        completed_services(services, section, guest) is Ok,
        lookup(services, name) == Some(backend(port, scheme)),
    ensures
        guest.ip is Some,
        port_text(port) matches Some(text) && is_port(text),
        scheme is Some ==> section == Section::Http,
{
    let i = found_at(services, name);
    each_service_completes(services, section, guest, i);
    let server = match scheme {
        Some(scheme) => seq![("port"@, port), ("scheme"@, scheme)],
        None => seq![("port"@, port)],
    };
    let servers = Tree::List(seq![Tree::Table(server)]);
    let balancer = seq![("servers"@, servers)];
    only_name("servers"@, servers);
    only_name("loadBalancer"@, Tree::Table(balancer));
    let list = seq![Tree::Table(server)];
    assert(list.last() == Tree::Table(server));
    assert(completed_servers(list.drop_last(), section, guest) is Ok);
    assert(completed_server(Tree::Table(server), section, guest) is Ok);
    reveal_strlit("port");
    reveal_strlit("scheme");
    reveal_strlit("url");
    reveal_strlit("address");
    position_found(server, target_key(section));
    assert(same_name("port"@, "port"@));
    assert(name_at(server, "port"@, 0));
    name_at_unique(server, "port"@, 0);
    if let Some(q) = scheme {
        let rest = without_ci(server, "port"@);
        assert(server.drop_last() =~= seq![("port"@, port)]);
        assert(server.drop_last().drop_last() =~= Seq::empty());
        assert(without_ci(server.drop_last().drop_last(), "port"@) =~= Seq::empty());
        assert(without_ci(server.drop_last(), "port"@) =~= Seq::empty());
        assert("scheme"@.len() != "port"@.len());
        assert(rest =~= seq![("scheme"@, q)]);
        only_name("scheme"@, q);
    }
}

/// A declared service stays when the section is expanded.
proof fn declared_service_stays(
    entries: Entries,
    services: Entries,
    name: Seq<char>,
    service: Tree,
    section: Section,
)
    requires
        expanded(entries, section) is Ok,
        value_ci(entries, "services"@) == Some(Tree::Table(services)),
        lookup(services, name) == Some(service),
    ensures
        value_ci(expanded(entries, section)->Ok_0, "services"@) matches Some(Tree::Table(all))
            && lookup(all, name) == Some(service),
{
    let after = expanded(entries, section)->Ok_0;
    position_found(entries, "services"@);
    position_found(entries, "routers"@);
    let k = position_ci(entries, "services"@)->0;
    if let Some(r) = position_ci(entries, "routers"@) {
        if let Tree::Table(routers) = entries[r].1 {
            let (done, generated) = expanded_routers(routers, section)->Ok_0;
            let pointed = entries.update(r, (entries[r].0, Tree::Table(done)));
            reveal_strlit("services");
            reveal_strlit("routers");
            assert("services"@.len() != "routers"@.len());
            assert(k != r);
            assert(same_keys(entries, pointed));
            position_by_keys(entries, pointed, "services"@);
            if generated.len() > 0 {
                generated_are_new(services, generated, section);
                assert(same_keys(pointed, after));
                position_by_keys(pointed, after, "services"@);
            }
        }
    }
}

proof fn each_router_plans(routers: Entries, section: Section, j: int)
    requires
        expanded_routers(routers, section) is Ok,
        0 <= j < routers.len(),
    ensures
        planned(routers[j].1, routers[j].0, section) is Ok,
    decreases routers.len(),
{
    let front = routers.drop_last();
    if j < front.len() {
        assert(front[j] == routers[j]);
        each_router_plans(front, section, j);
    }
}

/// A section with the service put in has it.
proof fn service_is_in(entries: Entries, service: (Seq<char>, Tree))
    requires
        can_take_service(entries, service.0),
    ensures
        value_ci(with_service(entries, service), "services"@) matches Some(Tree::Table(services))
            && lookup(services, service.0) == Some(service.1),
{
    position_found(entries, "services"@);
    let after = with_service(entries, service);
    match position_ci(entries, "services"@) {
        Some(k) => {
            let services = entries[k].1->Table_0;
            lookup_inserted(services, service.0, service.1, service.0);
            assert(same_keys(entries, after));
            position_by_keys(entries, after, "services"@);
        },
        None => {
            let one = inserted(Seq::empty(), service.0, service.1);
            lookup_inserted(Seq::empty(), service.0, service.1, service.0);
            value_just_inserted(entries, "services"@, Tree::Table(one));
        },
    }
}

/// Spelling out and filling in go in any order.
proof fn spelled_and_filled(entries: Entries, routers: Entries, j: int, guest: GuestView)
    requires
        value_ci(entries, "routers"@) == Some(Tree::Table(routers)),
        0 <= j < routers.len(),
        can_be_spelled(routers[j].1, routers[j].0),
        can_take_service(entries, service_name(routers[j].1, routers[j].0)),
    ensures
        ({
            let given = filled_entries(entries, guest);
            let (name, router) = routers[j];
            let r = position_ci(entries, "routers"@)->0;
            let service = spelled_service(router, name)->0;
            let pointed = filled_entries(routers, guest).update(
                j,
                (name, filled(spelled_router(router, name), guest)),
            );
            let base = given.update(r, (given[r].0, Tree::Table(pointed)));
            &&& filled_entries(spelled_in(entries, j), guest) == with_service(
                base,
                (service.0, filled(service.1, guest)),
            )
            &&& can_take_service(base, service.0)
            &&& can_take_service(given, service.0)
            &&& position_ci(given, "routers"@) == Some(r)
            &&& value_ci(given, "routers"@) == Some(Tree::Table(filled_entries(routers, guest)))
        }),
{
    let given = filled_entries(entries, guest);
    let (name, router) = routers[j];
    let service = spelled_service(router, name)->0;
    position_found(entries, "routers"@);
    position_found(entries, "services"@);
    let r = position_ci(entries, "routers"@)->0;
    let spelled = spelled_router(router, name);
    let base = entries.update(
        r,
        (entries[r].0, Tree::Table(routers.update(j, (name, spelled)))),
    );
    filled_updated(routers, j, spelled, guest);
    filled_updated(entries, r, Tree::Table(routers.update(j, (name, spelled))), guest);
    filled_value(entries, "routers"@, guest);
    filled_value(entries, "services"@, guest);
    let done = filled_entries(base, guest);
    assert(same_keys(entries, base));
    position_by_keys(entries, base, "services"@);
    filled_value(base, "services"@, guest);
    reveal_strlit("services");
    reveal_strlit("routers");
    assert("services"@.len() != "routers"@.len());
    match position_ci(entries, "services"@) {
        Some(k) => {
            assert(k != r);
            assert(base[k] == entries[k]);
            let services = entries[k].1->Table_0;
            filled_inserted(services, service.0, service.1, guest);
            filled_updated(
                base,
                k,
                Tree::Table(inserted(services, service.0, service.1)),
                guest,
            );
            filled_value(services, service.0, guest);
            filled_keeps_order(services, guest);
        },
        None => {
            let none = Seq::<(Seq<char>, Tree)>::empty();
            assert(filled_entries(none, guest) =~= none);
            filled_inserted(none, service.0, service.1, guest);
            filled_inserted(
                base,
                "services"@,
                Tree::Table(inserted(none, service.0, service.1)),
                guest,
            );
        },
    }
}

proof fn filled_keeps_order(entries: Entries, guest: GuestView)
    requires
        ordered(entries),
    ensures
        ordered(filled_entries(entries, guest)),
{
    let done = filled_entries(entries, guest);
    assert forall|i: int, j: int| 0 <= i < j < done.len() implies precedes(
        (#[trigger] done[i]).0,
        (#[trigger] done[j]).0,
    ) by {
        assert(precedes(entries[i].0, entries[j].0));
    }
}

/// A router whose port and scheme are in order comes to a plan, and its plan has
/// no port.
proof fn router_plans(
    router: Entries,
    name: Seq<char>,
    section: Section,
    guest: GuestView,
    port: Tree,
    scheme: Option<Tree>,
)
    requires
        can_be_spelled(Tree::Table(router), name),
        value_ci(router, "port"@) == Some(port),
        value_ci(without_ci(router, "port"@), "scheme"@) == scheme,
    ensures
        ({
            let text = port_text(filled(port, guest));
            let plan = planned(filled(Tree::Table(router), guest), name, section);
            &&& plan is Ok ==> plan->Ok_0 is Some
            &&& text is Some && is_port(text->0) && (scheme is Some ==> section == Section::Http)
                ==> plan is Ok
            &&& plan is Ok ==> position_ci(plan->Ok_0->0.router, "port"@) is None
        }),
{
    let given = filled_entries(router, guest);
    let rest = without_ci(router, "port"@);
    let bare = without_ci(rest, "scheme"@);
    filled_value(router, "port"@, guest);
    filled_without(router, "port"@, guest);
    filled_value(rest, "scheme"@, guest);
    filled_without(rest, "scheme"@, guest);
    filled_value(bare, "service"@, guest);
    plain_text_stays(service_of(bare, name), guest);
    let given_rest = without_ci(given, "port"@);
    let given_bare = without_ci(given_rest, "scheme"@);
    assert(same_name("port"@, "port"@));
    absent_when_removed(given, "port"@, "port"@);
    absent_when_removed(given_rest, "scheme"@, "port"@);
    reveal_strlit("service");
    reveal_strlit("port");
    value_beside_inserted(given_bare, "service"@, Tree::Text(name), "port"@);
}

/// A port on a router is the same as its service spelled out: of the two
/// documents either both render, and to the same, or neither does. The service
/// is not declared besides, whatever the case of its letters, and no placeholder
/// stands in its name.
#[verifier::rlimit(40)]
pub proof fn port_is_the_same_as_its_service(
    subtree: Entries,
    section: Section,
    guest: GuestView,
    entries: Entries,
    routers: Entries,
    j: int,
)
    requires
        value_ci(subtree, section_key(section)) == Some(Tree::Table(entries)),
        value_ci(entries, "routers"@) == Some(Tree::Table(routers)),
        0 <= j < routers.len(),
        can_be_spelled(routers[j].1, routers[j].0),
        can_take_service(entries, service_name(routers[j].1, routers[j].0)),
    ensures
        rendered(subtree, guest) is Ok <==> rendered(spelled_at(subtree, section, j), guest) is Ok,
        rendered(subtree, guest) is Ok ==> rendered(spelled_at(subtree, section, j), guest)
            == rendered(subtree, guest),
{
    let key = section_key(section);
    let other = spelled_at(subtree, section, j);
    let (name, router_tree) = routers[j];
    let router = router_tree->Table_0;
    let port = value_ci(router, "port"@)->0;
    let scheme = value_ci(without_ci(router, "port"@), "scheme"@);
    let service = spelled_service(router_tree, name)->0;
    position_found(subtree, key);
    let i = position_ci(subtree, key)->0;
    let doc = filled_entries(subtree, guest);
    let given = filled_entries(entries, guest);
    let long = filled_entries(spelled_in(entries, j), guest);
    filled_value(subtree, key, guest);
    filled_updated(subtree, i, Tree::Table(spelled_in(entries, j)), guest);
    let changed = doc.update(i, (doc[i].0, Tree::Table(long)));
    assert(filled_entries(other, guest) == changed);
    assert(same_keys(doc, changed));
    position_by_keys(doc, changed, key);
    spelled_and_filled(entries, routers, j, guest);
    router_plans(router, name, section, guest, port, scheme);
    filled_backend(port, scheme, guest);
    let filled_scheme = match scheme {
        Some(s) => Some(filled(s, guest)),
        None => None,
    };
    let ready = planned(filled(router_tree, guest), name, section);
    let given_routers = filled_entries(routers, guest);
    assert(given_routers[j] == (name, filled(router_tree, guest)));
    if rendered(subtree, guest) is Ok {
        section_in_finished(doc, section, guest);
        let done = expanded(given, section)->Ok_0;
        each_router_plans(given_routers, section, j);
        let plan = ready->Ok_0->0;
        router_spelled(router_tree, name, section, guest);
        port_makes_its_service(given, given_routers, section, j, plan);
        let services = value_ci(done, "services"@)->0->Table_0;
        position_found(done, "services"@);
        backend_completes(
            services,
            service.0,
            filled(port, guest),
            filled_scheme,
            section,
            guest,
        );
    }
    if rendered(other, guest) is Ok {
        section_in_finished(changed, section, guest);
        let done = expanded(long, section)->Ok_0;
        let r = position_ci(entries, "routers"@)->0;
        let pointed = given_routers.update(
            j,
            (name, filled(spelled_router(router_tree, name), guest)),
        );
        let base = given.update(r, (given[r].0, Tree::Table(pointed)));
        let put = (service.0, filled(service.1, guest));
        service_is_in(base, put);
        let declared = value_ci(long, "services"@)->0->Table_0;
        declared_service_stays(long, declared, service.0, put.1, section);
        let services = value_ci(done, "services"@)->0->Table_0;
        position_found(done, "services"@);
        backend_completes(
            services,
            service.0,
            filled(port, guest),
            filled_scheme,
            section,
            guest,
        );
    }
    if rendered(subtree, guest) is Ok || rendered(other, guest) is Ok {
        let plan = ready->Ok_0->0;
        router_spelled(router_tree, name, section, guest);
        section_taken_out(given, given_routers, j, plan, section);
        if rendered(subtree, guest) is Ok {
            finished_expands(doc, i, given, section, guest);
        } else {
            finished_expands(changed, i, long, section, guest);
        }
        assert(expanded(given, section) == expanded(long, section));
        document_put(doc, i, given, long, section, guest);
    }
}

} // verus!
