//! Routers that are given by a port: the service is one server on it.
use vstd::prelude::*;

use crate::problem::{Problem, RouterProblem, Section};
use crate::server::text_of_port;
use crate::server::port_text;
use crate::text::is_port_number;
use crate::text::{is_port, precedes};
use crate::value::{entries_of, inserted, inserted_last, position_ci, trees_of, viewed};
use crate::value::{find_ci, remove_ci, Table, Value};
use crate::value::{value_ci, viewed_option, without_ci, without_ci_absent, Entries, Tree};

verus! {

/// What a router with a port comes to: the router without it, pointing at its
/// service, and the service.
pub struct Plan {
    pub router: Entries,
    pub service: Seq<char>,
    pub backend: Tree,
}

/// The service of one server on a port.
pub open spec fn backend(port: Tree, scheme: Option<Tree>) -> Tree {
    let server = match scheme {
        Some(scheme) => seq![("port"@, port), ("scheme"@, scheme)],
        None => seq![("port"@, port)],
    };
    let servers = Tree::List(seq![Tree::Table(server)]);
    Tree::Table(seq![("loadBalancer"@, Tree::Table(seq![("servers"@, servers)]))])
}

/// What the router `name` comes to whose port is `port` and whose other entries
/// are `rest`, its scheme still among them.
pub open spec fn planned_with(
    rest: Entries,
    port: Tree,
    name: Seq<char>,
    section: Section,
) -> Result<Option<Plan>, RouterProblem<Seq<char>>> {
    let scheme = value_ci(rest, "scheme"@);
    let router = without_ci(rest, "scheme"@);
    if scheme is Some && section != Section::Http {
        Err(RouterProblem::SchemeUnused)
    } else {
        match value_ci(router, "service"@) {
            Some(Tree::Text(s)) => if s.len() > 0 {
                Ok(Some(Plan { router, service: s, backend: backend(port, scheme) }))
            } else {
                Err(RouterProblem::ServiceKind)
            },
            Some(_) => Err(RouterProblem::ServiceKind),
            None => Ok(
                Some(
                    Plan {
                        router: inserted(router, "service"@, Tree::Text(name)),
                        service: name,
                        backend: backend(port, scheme),
                    },
                ),
            ),
        }
    }
}

/// What the router `name` comes to; nothing new where it has no port.
pub open spec fn planned(router: Tree, name: Seq<char>, section: Section) -> Result<
    Option<Plan>,
    RouterProblem<Seq<char>>,
> {
    match router {
        Tree::Table(entries) => match value_ci(entries, "port"@) {
            None => Ok(None),
            Some(port) => match port_text(port) {
                None => Err(RouterProblem::PortKind),
                Some(text) => if !is_port(text) {
                    Err(RouterProblem::BadPort(text))
                } else {
                    planned_with(without_ci(entries, "port"@), port, name, section)
                },
            },
        },
        _ => Ok(None),
    }
}

/// The routers without their ports, and the services that the ports stand for,
/// in the order of the routers. The first router that is at fault decides.
pub open spec fn expanded_routers(routers: Entries, section: Section) -> Result<
    (Entries, Entries),
    Problem<Seq<char>>,
>
    decreases routers.len(),
{
    if routers.len() == 0 {
        Ok((Seq::empty(), Seq::empty()))
    } else {
        match expanded_routers(routers.drop_last(), section) {
            Err(e) => Err(e),
            Ok((done, generated)) => {
                let (name, router) = routers.last();
                match planned(router, name, section) {
                    Err(fault) => Err(Problem::Router { section, router: name, fault }),
                    Ok(None) => Ok((done.push((name, router)), generated)),
                    Ok(Some(plan)) => Ok(
                        (
                            done.push((name, Tree::Table(plan.router))),
                            generated.push((plan.service, plan.backend)),
                        ),
                    ),
                }
            },
        }
    }
}

/// The services with the generated ones added, none of which may be there
/// already, whatever the case of the letters.
pub open spec fn with_services(services: Entries, generated: Entries, section: Section) -> Result<
    Entries,
    Problem<Seq<char>>,
>
    decreases generated.len(),
{
    if generated.len() == 0 {
        Ok(services)
    } else {
        match with_services(services, generated.drop_last(), section) {
            Err(e) => Err(e),
            Ok(done) => {
                let (name, service) = generated.last();
                if position_ci(done, name) is Some {
                    Err(Problem::Declared { section, service: name })
                } else {
                    Ok(inserted(done, name, service))
                }
            },
        }
    }
}

/// A section with the generated services among its services.
pub open spec fn with_generated(entries: Entries, generated: Entries, section: Section) -> Result<
    Entries,
    Problem<Seq<char>>,
> {
    match position_ci(entries, "services"@) {
        Some(i) => match entries[i].1 {
            Tree::Table(services) => match with_services(services, generated, section) {
                Err(e) => Err(e),
                Ok(done) => Ok(entries.update(i, (entries[i].0, Tree::Table(done)))),
            },
            _ => Err(Problem::ServicesNotAMap { section }),
        },
        None => match with_services(Seq::empty(), generated, section) {
            Err(e) => Err(e),
            Ok(done) => Ok(inserted(entries, "services"@, Tree::Table(done))),
        },
    }
}

/// A section with its routers' ports made services.
pub open spec fn expanded(entries: Entries, section: Section) -> Result<
    Entries,
    Problem<Seq<char>>,
> {
    match position_ci(entries, "routers"@) {
        Some(r) => match entries[r].1 {
            Tree::Table(routers) => match expanded_routers(routers, section) {
                Err(e) => Err(e),
                Ok((done, generated)) => {
                    let pointed = entries.update(r, (entries[r].0, Tree::Table(done)));
                    if generated.len() == 0 {
                        Ok(pointed)
                    } else {
                        with_generated(pointed, generated, section)
                    }
                },
            },
            _ => Ok(entries),
        },
        None => Ok(entries),
    }
}

/// A table of one entry.
fn single(key: &str, value: Value) -> (r: Table)
    ensures
        r@ == seq![(key@, value@)],
{
    let mut out = Table::new();
    proof {
        inserted_last(out@, key@, value@);
    }
    out.insert(key.to_string(), value);
    assert(out@ =~= seq![(key@, value@)]);
    out
}

fn make_backend(port: Value, scheme: Option<Value>) -> (r: Value)
    ensures
        r@ == backend(port@, viewed_option(scheme)),
{
    let ghost wanted = viewed_option(scheme);
    let ghost given = port@;
    let mut server = single("port", port);
    match scheme {
        Some(scheme) => {
            proof {
                reveal_strlit("port");
                reveal_strlit("scheme");
                assert(precedes("port"@, "scheme"@));
                inserted_last(server@, "scheme"@, scheme@);
            }
            server.insert("scheme".to_string(), scheme);
            assert(server@ =~= seq![("port"@, given), ("scheme"@, wanted->0)]);
        },
        None => {},
    }
    let ghost table = server@;
    let mut servers: Vec<Value> = Vec::new();
    servers.push(Value::Table(server));
    assert(trees_of(servers@) =~= seq![Tree::Table(table)]);
    Value::Table(single("loadBalancer", Value::Table(single("servers", Value::List(servers)))))
}

/// What the router comes to, with its service; nothing where it has no port.
fn plan_router(router: &mut Table, name: &String, section: Section) -> (r: Result<
    Option<(String, Value)>,
    RouterProblem<String>,
>)
    ensures
        match planned(Tree::Table(old(router)@), name@, section) {
            Err(e) => r is Err && r->Err_0@ == e,
            Ok(None) => r is Ok && r->Ok_0 is None && final(router)@ == old(router)@,
            Ok(Some(plan)) => {
                &&& r matches Ok(Some((service, backend)))
                &&& service@ == plan.service
                &&& backend@ == plan.backend
                &&& final(router)@ == plan.router
            },
        },
{
    let ghost given = router@;
    let port = match remove_ci(router, "port") {
        Some(port) => port,
        None => {
            proof {
                without_ci_absent(given, "port"@);
            }
            return Ok(None);
        },
    };
    let text = match text_of_port(&port) {
        Some(text) => text,
        None => {
            return Err(RouterProblem::PortKind);
        },
    };
    if !is_port_number(text.as_str()) {
        return Err(RouterProblem::BadPort(text));
    }
    let scheme = remove_ci(router, "scheme");
    if scheme.is_some() && section != Section::Http {
        return Err(RouterProblem::SchemeUnused);
    }
    let service = match find_ci(router, "service") {
        Some(i) => match router.value(i) {
            Value::Text(s) => {
                if s.as_str().is_empty() {
                    return Err(RouterProblem::ServiceKind);
                }
                s.clone()
            },
            _ => {
                return Err(RouterProblem::ServiceKind);
            },
        },
        None => {
            router.insert("service".to_string(), Value::Text(name.clone()));
            name.clone()
        },
    };
    Ok(Some((service, make_backend(port, scheme))))
}

proof fn expanded_routers_fails(routers: Entries, section: Section, n: int)
    requires
        0 <= n <= routers.len(),
        expanded_routers(routers.take(n), section) is Err,
    ensures
        expanded_routers(routers, section) == expanded_routers(routers.take(n), section),
    decreases routers.len() - n,
{
    if n == routers.len() {
        assert(routers.take(n) == routers);
    } else {
        assert(routers.take(n + 1).drop_last() == routers.take(n));
        expanded_routers_fails(routers, section, n + 1);
    }
}

/// The routers without their ports, and the services that the ports stand for.
fn expand_routers(routers: Table, section: Section) -> (r: Result<
    (Table, Vec<(String, Value)>),
    Problem<String>,
>)
    ensures
        match r {
            Ok((done, generated)) => expanded_routers(routers@, section) == Ok::<
                (Entries, Entries),
                Problem<Seq<char>>,
            >((done@, entries_of(generated@))),
            Err(e) => expanded_routers(routers@, section) == Err::<
                (Entries, Entries),
                Problem<Seq<char>>,
            >(e@),
        },
{
    let ghost given = routers@;
    let mut work = routers;
    let mut generated: Vec<(String, Value)> = Vec::new();
    let mut i: usize = 0;
    assert(entries_of(generated@) =~= Seq::<(Seq<char>, Tree)>::empty());
    assert(given.take(0).len() == 0);
    assert(work@.take(0) =~= Seq::<(Seq<char>, Tree)>::empty());
    assert(given.skip(0) == given);
    while i < work.len()
        invariant
            i <= given.len(),
            given == routers@,
            work@.len() == given.len(),
            expanded_routers(given.take(i as int), section) == Ok::<
                (Entries, Entries),
                Problem<Seq<char>>,
            >((work@.take(i as int), entries_of(generated@))),
            work@.skip(i as int) == given.skip(i as int),
        decreases given.len() - i,
    {
        let ghost before = work@;
        let ghost made = entries_of(generated@);
        assert(given.take(i + 1).drop_last() == given.take(i as int));
        assert(before[i as int] == given[i as int]) by {
            assert(before.skip(i as int)[0] == given.skip(i as int)[0]);
        }
        let name = work.key(i).clone();
        let value = work.replace(i, Value::Null);
        let value = match value {
            Value::Table(table) => {
                let mut router = table;
                match plan_router(&mut router, &name, section) {
                    Err(fault) => {
                        proof {
                            expanded_routers_fails(given, section, i + 1);
                        }
                        return Err(Problem::Router { section, router: name, fault });
                    },
                    Ok(None) => {},
                    Ok(Some(service)) => {
                        let ghost service_view = (service.0@, service.1@);
                        generated.push(service);
                        assert(entries_of(generated@) =~= made.push(service_view));
                    },
                }
                Value::Table(router)
            },
            other => other,
        };
        let ghost put = value@;
        work.replace(i, value);
        assert(work@ =~= before.update(i as int, (given[i as int].0, put)));
        assert(work@.take(i + 1) =~= before.take(i as int).push((given[i as int].0, put)));
        assert(work@.skip(i + 1) =~= given.skip(i + 1)) by {
            assert forall|j: int| i + 1 <= j < given.len() implies work@[j] == given[j] by {
                assert(before.skip(i as int)[j - i] == given.skip(i as int)[j - i]);
            }
        }
        i = i + 1;
    }
    assert(given.take(i as int) == given);
    assert(work@.take(i as int) == work@);
    Ok((work, generated))
}

proof fn with_services_fails(services: Entries, generated: Entries, section: Section, n: int)
    requires
        0 <= n <= generated.len(),
        with_services(services, generated.take(n), section) is Err,
    ensures
        with_services(services, generated, section) == with_services(
            services,
            generated.take(n),
            section,
        ),
    decreases generated.len() - n,
{
    if n == generated.len() {
        assert(generated.take(n) == generated);
    } else {
        assert(generated.take(n + 1).drop_last() == generated.take(n));
        with_services_fails(services, generated, section, n + 1);
    }
}

/// The services with the generated ones added.
fn add_services(services: Table, generated: Vec<(String, Value)>, section: Section) -> (r: Result<
    Table,
    Problem<String>,
>)
    ensures
        viewed(r) == with_services(services@, entries_of(generated@), section),
{
    let ghost given = services@;
    let ghost pairs = generated@;
    let ghost added = entries_of(pairs);
    let mut all = services;
    assert(added.take(0).len() == 0);
    for entry in it: generated
        invariant
            it.seq() == pairs,
            given == services@,
            added == entries_of(pairs),
            added == entries_of(generated@),
            with_services(given, added.take(it.index()), section) == Ok::<
                Entries,
                Problem<Seq<char>>,
            >(all@),
    {
        let ghost i = it.index();
        let (name, service) = entry;
        assert(added.take(i + 1).drop_last() == added.take(i));
        assert(added.take(i + 1).last() == (name@, service@));
        if find_ci(&all, name.as_str()).is_some() {
            proof {
                with_services_fails(given, added, section, i + 1);
            }
            return Err(Problem::Declared { section, service: name });
        }
        all.insert(name, service);
    }
    assert(added.take(added.len() as int) == added);
    Ok(all)
}

/// `port` on a router becomes a service of one server on that port, named after
/// the router (or after the router's own `service`), and the router points at
/// it. The server is left for [`complete_server`] to finish, so both spellings
/// build the same thing. A service that is also declared under `services` is a
/// conflict: the document would say two things about one name.
pub fn expand_router_ports(entries: Table, section: Section) -> (r: Result<Table, Problem<String>>)
    ensures
        viewed(r) == expanded(entries@, section),
{
    let ghost given = entries@;
    let mut entries = entries;
    let place = match find_ci(&entries, "routers") {
        Some(place) => place,
        None => {
            return Ok(entries);
        },
    };
    let routers = match entries.replace(place, Value::Null) {
        Value::Table(routers) => routers,
        other => {
            entries.replace(place, other);
            assert(entries@ =~= given);
            return Ok(entries);
        },
    };
    let generated = match expand_routers(routers, section) {
        Err(e) => {
            return Err(e);
        },
        Ok((done, generated)) => {
            let ghost put = Tree::Table(done@);
            entries.replace(place, Value::Table(done));
            assert(entries@ =~= given.update(place as int, (given[place as int].0, put)));
            generated
        },
    };
    if generated.len() == 0 {
        return Ok(entries);
    }
    let ghost pointed = entries@;
    match find_ci(&entries, "services") {
        Some(place) => match entries.replace(place, Value::Null) {
            Value::Table(services) => match add_services(services, generated, section) {
                Err(e) => Err(e),
                Ok(done) => {
                    let ghost put = Tree::Table(done@);
                    entries.replace(place, Value::Table(done));
                    assert(entries@ =~= pointed.update(
                        place as int,
                        (pointed[place as int].0, put),
                    ));
                    Ok(entries)
                },
            },
            _ => Err(Problem::ServicesNotAMap { section }),
        },
        None => match add_services(Table::new(), generated, section) {
            Err(e) => Err(e),
            Ok(done) => {
                entries.insert("services".to_string(), Value::Table(done));
                Ok(entries)
            },
        },
    }
}

} // verus!
