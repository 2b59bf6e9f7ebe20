//! Servers that are given by a port: the endpoint comes from the guest's
//! address.
use vstd::prelude::*;

use crate::address::host_notation;
use crate::address::IpAddr;
use crate::problem::target_key;
use crate::problem::{Problem, Section, ServerProblem};
use crate::render::{Guest, GuestView};
use crate::text::is_port;
use crate::text::is_port_number;
use crate::value::{find_ci, remove_ci, Table, Value};
use crate::value::{inserted, numeral_text, position_ci, trees_of, value_ci, viewed, viewed_option};
use crate::value::{without_ci, Entries, Tree};

verus! {

/// The text of a port: a number's numeral, or a text.
pub open spec fn port_text(port: Tree) -> Option<Seq<char>> {
    match port {
        Tree::Number(n) => Some(numeral_text(n)),
        Tree::Text(s) => Some(s),
        _ => None,
    }
}

/// The endpoint of a server: a URL for HTTP, of the scheme `http` unless another
/// is given, else host and port.
pub open spec fn endpoint(
    section: Section,
    scheme: Option<Tree>,
    ip: IpAddr,
    port: Seq<char>,
) -> Result<Seq<char>, ServerProblem<Seq<char>>> {
    match (section, scheme) {
        (Section::Http, Some(Tree::Text(s))) => Ok(
            s + "://"@ + host_notation(ip) + ":"@ + port,
        ),
        (Section::Http, Some(_)) => Err(ServerProblem::SchemeKind),
        (Section::Http, None) => Ok("http"@ + "://"@ + host_notation(ip) + ":"@ + port),
        (_, Some(_)) => Err(ServerProblem::SchemeUnused),
        (_, None) => Ok(host_notation(ip) + ":"@ + port),
    }
}

/// The server whose port is written `port` and whose other entries are `rest`,
/// its scheme still among them: the scheme makes place for the endpoint.
pub open spec fn completed_with(
    rest: Entries,
    port: Seq<char>,
    section: Section,
    guest: GuestView,
) -> Result<Entries, ServerProblem<Seq<char>>> {
    match guest.ip {
        None => Err(ServerProblem::NoAddress),
        Some(ip) => match endpoint(section, value_ci(rest, "scheme"@), ip, port) {
            Err(e) => Err(e),
            Ok(target) => Ok(
                inserted(without_ci(rest, "scheme"@), target_key(section), Tree::Text(target)),
            ),
        },
    }
}

/// A server entry with its endpoint. One that has it stays as it is; of another
/// the port and the scheme make place for it.
pub open spec fn completed_server(server: Tree, section: Section, guest: GuestView) -> Result<
    Tree,
    ServerProblem<Seq<char>>,
> {
    match server {
        Tree::Table(entries) => if position_ci(entries, target_key(section)) is Some {
            Ok(server)
        } else {
            match value_ci(entries, "port"@) {
                None => Err(ServerProblem::NoPort),
                Some(port) => match port_text(port) {
                    None => Err(ServerProblem::PortKind),
                    Some(text) => if !is_port(text) {
                        Err(ServerProblem::BadPort(text))
                    } else {
                        match completed_with(without_ci(entries, "port"@), text, section, guest) {
                            Err(e) => Err(e),
                            Ok(done) => Ok(Tree::Table(done)),
                        }
                    },
                },
            }
        },
        _ => Err(ServerProblem::NotAMap),
    }
}

/// The text of a port, where it has one.
pub fn text_of_port(port: &Value) -> (r: Option<String>)
    ensures
        viewed_option(r) == port_text(port@),
{
    match port {
        Value::Number(n) => Some(n.text()),
        Value::Text(s) => Some(s.clone()),
        _ => None,
    }
}

/// A server entry with `url`/`address` is left alone. One without gets it from
/// `port` and `scheme`, which are then removed so Traefik never sees a field its
/// file format does not accept.
pub fn complete_server(server: Value, section: Section, guest: &Guest) -> (r: Result<
    Value,
    ServerProblem<String>,
>)
    ensures
        viewed(r) == completed_server(server@, section, guest@),
{
    let mut map = match server {
        Value::Table(table) => table,
        _ => {
            return Err(ServerProblem::NotAMap);
        },
    };
    if find_ci(&map, section.target()).is_some() {
        return Ok(Value::Table(map));
    }
    let port = match remove_ci(&mut map, "port") {
        Some(port) => port,
        None => {
            return Err(ServerProblem::NoPort);
        },
    };
    let text = match text_of_port(&port) {
        Some(text) => text,
        None => {
            return Err(ServerProblem::PortKind);
        },
    };
    if !is_port_number(text.as_str()) {
        return Err(ServerProblem::BadPort(text));
    }
    let scheme = remove_ci(&mut map, "scheme");
    let host = match &guest.ip {
        Some(ip) => ip.host(),
        None => {
            return Err(ServerProblem::NoAddress);
        },
    };
    let target = match section {
        Section::Http => {
            let scheme = match scheme {
                Some(Value::Text(s)) => s,
                Some(_) => {
                    return Err(ServerProblem::SchemeKind);
                },
                None => "http".to_string(),
            };
            scheme.concat("://").concat(host.as_str()).concat(":").concat(text.as_str())
        },
        _ => {
            if scheme.is_some() {
                return Err(ServerProblem::SchemeUnused);
            }
            host.concat(":").concat(text.as_str())
        },
    };
    map.insert(section.target().to_string(), Value::Text(target));
    Ok(Value::Table(map))
}

/// The servers, each with its endpoint. The first that is at fault decides.
pub open spec fn completed_servers(servers: Seq<Tree>, section: Section, guest: GuestView) -> Result<
    Seq<Tree>,
    ServerProblem<Seq<char>>,
>
    decreases servers.len(),
{
    if servers.len() == 0 {
        Ok(Seq::empty())
    } else {
        match completed_servers(servers.drop_last(), section, guest) {
            Err(e) => Err(e),
            Ok(done) => match completed_server(servers.last(), section, guest) {
                Err(e) => Err(e),
                Ok(server) => Ok(done.push(server)),
            },
        }
    }
}

/// A load balancer with its servers completed, where it lists any.
pub open spec fn completed_balancer(balancer: Entries, section: Section, guest: GuestView) -> Result<
    Entries,
    ServerProblem<Seq<char>>,
> {
    match position_ci(balancer, "servers"@) {
        Some(i) => match balancer[i].1 {
            Tree::List(servers) => match completed_servers(servers, section, guest) {
                Err(e) => Err(e),
                Ok(done) => Ok(balancer.update(i, (balancer[i].0, Tree::List(done)))),
            },
            _ => Ok(balancer),
        },
        None => Ok(balancer),
    }
}

/// A service with the servers of its load balancer completed, where it has any.
pub open spec fn completed_service(service: Tree, section: Section, guest: GuestView) -> Result<
    Tree,
    ServerProblem<Seq<char>>,
> {
    match service {
        Tree::Table(entries) => match position_ci(entries, "loadBalancer"@) {
            Some(i) => match entries[i].1 {
                Tree::Table(balancer) => match completed_balancer(balancer, section, guest) {
                    Err(e) => Err(e),
                    Ok(done) => Ok(
                        Tree::Table(entries.update(i, (entries[i].0, Tree::Table(done)))),
                    ),
                },
                _ => Ok(service),
            },
            None => Ok(service),
        },
        _ => Ok(service),
    }
}

/// The services, each completed. The first that is at fault decides.
pub open spec fn completed_services(services: Entries, section: Section, guest: GuestView) -> Result<
    Entries,
    Problem<Seq<char>>,
>
    decreases services.len(),
{
    if services.len() == 0 {
        Ok(Seq::empty())
    } else {
        match completed_services(services.drop_last(), section, guest) {
            Err(e) => Err(e),
            Ok(done) => {
                let (name, service) = services.last();
                match completed_service(service, section, guest) {
                    Err(entry) => Err(Problem::Server { section, service: name, entry }),
                    Ok(service) => Ok(done.push((name, service))),
                }
            },
        }
    }
}

/// A section with its services completed, where it has any.
pub open spec fn completed_section(entries: Entries, section: Section, guest: GuestView) -> Result<
    Entries,
    Problem<Seq<char>>,
> {
    match position_ci(entries, "services"@) {
        Some(i) => match entries[i].1 {
            Tree::Table(services) => match completed_services(services, section, guest) {
                Err(e) => Err(e),
                Ok(done) => Ok(entries.update(i, (entries[i].0, Tree::Table(done)))),
            },
            _ => Ok(entries),
        },
        None => Ok(entries),
    }
}

proof fn completed_servers_fails(
    servers: Seq<Tree>,
    section: Section,
    guest: GuestView,
    n: int,
)
    requires
        0 <= n <= servers.len(),
        completed_servers(servers.take(n), section, guest) is Err,
    ensures
        completed_servers(servers, section, guest) == completed_servers(
            servers.take(n),
            section,
            guest,
        ),
    decreases servers.len() - n,
{
    if n == servers.len() {
        assert(servers.take(n) == servers);
    } else {
        assert(servers.take(n + 1).drop_last() == servers.take(n));
        completed_servers_fails(servers, section, guest, n + 1);
    }
}

fn complete_servers(servers: Vec<Value>, section: Section, guest: &Guest) -> (r: Result<
    Vec<Value>,
    ServerProblem<String>,
>)
    ensures
        match r {
            Ok(done) => completed_servers(trees_of(servers@), section, guest@) == Ok::<
                Seq<Tree>,
                ServerProblem<Seq<char>>,
            >(trees_of(done@)),
            Err(e) => completed_servers(trees_of(servers@), section, guest@) == Err::<
                Seq<Tree>,
                ServerProblem<Seq<char>>,
            >(e@),
        },
{
    let ghost given = servers@;
    let ghost trees = trees_of(given);
    let mut out: Vec<Value> = Vec::new();
    assert(trees.take(0).len() == 0);
    assert(trees_of(out@) =~= Seq::<Tree>::empty());
    for server in it: servers
        invariant
            it.seq() == given,
            trees == trees_of(given),
            trees == trees_of(servers@),
            completed_servers(trees.take(it.index()), section, guest@) == Ok::<
                Seq<Tree>,
                ServerProblem<Seq<char>>,
            >(trees_of(out@)),
    {
        let ghost i = it.index();
        assert(trees.take(i + 1).drop_last() == trees.take(i));
        assert(trees.take(i + 1).last() == server@);
        match complete_server(server, section, guest) {
            Err(e) => {
                proof {
                    completed_servers_fails(trees, section, guest@, i + 1);
                }
                return Err(e);
            },
            Ok(done) => {
                let ghost before = trees_of(out@);
                out.push(done);
                assert(trees_of(out@) =~= before.push(done@));
            },
        }
    }
    assert(trees.take(trees.len() as int) == trees);
    Ok(out)
}

fn complete_balancer(balancer: Table, section: Section, guest: &Guest) -> (r: Result<
    Table,
    ServerProblem<String>,
>)
    ensures
        viewed(r) == completed_balancer(balancer@, section, guest@),
{
    let ghost given = balancer@;
    let mut balancer = balancer;
    if let Some(place) = find_ci(&balancer, "servers") {
        let done = match balancer.replace(place, Value::Null) {
            Value::List(servers) => match complete_servers(servers, section, guest) {
                Err(e) => {
                    return Err(e);
                },
                Ok(done) => Value::List(done),
            },
            other => other,
        };
        let ghost put = done@;
        balancer.replace(place, done);
        assert(balancer@ =~= given.update(place as int, (given[place as int].0, put)));
        assert(put == given[place as int].1 ==> balancer@ =~= given);
    }
    Ok(balancer)
}

fn complete_service(service: Value, section: Section, guest: &Guest) -> (r: Result<
    Value,
    ServerProblem<String>,
>)
    ensures
        viewed(r) == completed_service(service@, section, guest@),
{
    let mut entries = match service {
        Value::Table(entries) => entries,
        other => {
            return Ok(other);
        },
    };
    let ghost given = entries@;
    if let Some(place) = find_ci(&entries, "loadBalancer") {
        let done = match entries.replace(place, Value::Null) {
            Value::Table(balancer) => match complete_balancer(balancer, section, guest) {
                Err(e) => {
                    return Err(e);
                },
                Ok(done) => Value::Table(done),
            },
            other => other,
        };
        let ghost put = done@;
        entries.replace(place, done);
        assert(entries@ =~= given.update(place as int, (given[place as int].0, put)));
        assert(put == given[place as int].1 ==> entries@ =~= given);
    }
    Ok(Value::Table(entries))
}

proof fn completed_services_fails(services: Entries, section: Section, guest: GuestView, n: int)
    requires
        0 <= n <= services.len(),
        completed_services(services.take(n), section, guest) is Err,
    ensures
        completed_services(services, section, guest) == completed_services(
            services.take(n),
            section,
            guest,
        ),
    decreases services.len() - n,
{
    if n == services.len() {
        assert(services.take(n) == services);
    } else {
        assert(services.take(n + 1).drop_last() == services.take(n));
        completed_services_fails(services, section, guest, n + 1);
    }
}

fn complete_services(services: Table, section: Section, guest: &Guest) -> (r: Result<
    Table,
    Problem<String>,
>)
    ensures
        viewed(r) == completed_services(services@, section, guest@),
{
    let ghost given = services@;
    let mut work = services;
    let mut i: usize = 0;
    assert(given.take(0).len() == 0);
    assert(work@.take(0) =~= Seq::<(Seq<char>, Tree)>::empty());
    assert(given.skip(0) == given);
    while i < work.len()
        invariant
            i <= given.len(),
            given == services@,
            work@.len() == given.len(),
            completed_services(given.take(i as int), section, guest@) == Ok::<
                Entries,
                Problem<Seq<char>>,
            >(work@.take(i as int)),
            work@.skip(i as int) == given.skip(i as int),
        decreases given.len() - i,
    {
        let ghost before = work@;
        assert(given.take(i + 1).drop_last() == given.take(i as int));
        assert(before[i as int] == given[i as int]) by {
            assert(before.skip(i as int)[0] == given.skip(i as int)[0]);
        }
        let value = work.replace(i, Value::Null);
        let done = match complete_service(value, section, guest) {
            Err(entry) => {
                let service = work.key(i).clone();
                proof {
                    completed_services_fails(given, section, guest@, i + 1);
                }
                return Err(Problem::Server { section, service, entry });
            },
            Ok(done) => done,
        };
        let ghost put = done@;
        work.replace(i, done);
        assert(work@ =~= before.update(i as int, (given[i as int].0, put)));
        assert(work@.take(i + 1) =~= before.take(i as int).push((given[i as int].0, put)));
        assert(work@.skip(i + 1) =~= given.skip(i + 1)) by {
            assert forall|j: int| i + 1 <= j < given.len() implies work@[j] == given[j] by {
                assert(before.skip(i as int)[j - i] == given.skip(i as int)[j - i]);
            }
        }
        i = i + 1;
    }
    assert(given.take(i as int) == given);
    assert(work@.take(i as int) == work@);
    Ok(work)
}

pub fn complete_section(entries: Table, section: Section, guest: &Guest) -> (r: Result<
    Table,
    Problem<String>,
>)
    ensures
        viewed(r) == completed_section(entries@, section, guest@),
{
    let ghost given = entries@;
    let mut entries = entries;
    if let Some(place) = find_ci(&entries, "services") {
        let done = match entries.replace(place, Value::Null) {
            Value::Table(services) => match complete_services(services, section, guest) {
                Err(e) => {
                    return Err(e);
                },
                Ok(done) => Value::Table(done),
            },
            other => other,
        };
        let ghost put = done@;
        entries.replace(place, done);
        assert(entries@ =~= given.update(place as int, (given[place as int].0, put)));
        assert(put == given[place as int].1 ==> entries@ =~= given);
    }
    Ok(entries)
}

} // verus!
