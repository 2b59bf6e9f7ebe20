//! What a port comes to: the endpoint of the server that has it, and the service
//! of the router that has it.
use vstd::prelude::*;

use crate::address::{host_notation, notation, v6_notation, IpAddr};
use crate::laws::addresses::{bytes_of_an_address, of_bytes};
use crate::laws::rendering::section_in_finished;
use crate::laws::shorthand::port_makes_its_service;
use crate::laws::tables::{found_at, position_by_keys, position_found, same_keys};
use crate::laws::tables::{same_name_through, value_just_inserted};
use crate::problem::{section_key, target_key, Problem, RouterProblem, Section, ServerProblem};
use crate::render::{finished, GuestView};
use crate::router::{expanded, planned, Plan};
use crate::server::{completed_balancer, completed_section, completed_server, completed_servers};
use crate::server::{completed_service, completed_services, port_text};
use crate::text::{decimal, is_port, same_name};
use crate::value::{inserted, inserted_last, key_at, key_at_unique, lookup, lookup_inserted};
use crate::value::{name_at, name_at_unique, position_ci, rank, rank_defined, value_ci};
use crate::value::{without_ci, without_ci_keeps, Entries, Numeral, Tree};

verus! {

/// The entry at `i` is the first with a key of that name, whatever the case of
/// the letters.
pub open spec fn first_named(entries: Entries, name: Seq<char>, i: int) -> bool {
    &&& 0 <= i < entries.len()
    &&& same_name(entries[i].0, name)
    &&& forall|j: int| 0 <= j < i ==> !same_name((#[trigger] entries[j]).0, name)
}

/// No entry has a key of that name.
pub open spec fn unnamed(entries: Entries, name: Seq<char>) -> bool {
    forall|j: int| 0 <= j < entries.len() ==> !same_name((#[trigger] entries[j]).0, name)
}

/// Where the first entry of that name is, if there is one.
pub open spec fn stands_at(entries: Entries, name: Seq<char>, at: Option<int>) -> bool {
    match at {
        Some(i) => first_named(entries, name, i),
        None => unnamed(entries, name),
    }
}

/// A port as it is written in a document.
pub open spec fn as_written(port: Tree) -> Option<Seq<char>> {
    match port {
        Tree::Text(s) => Some(s),
        Tree::Number(Numeral::Unsigned(n)) => Some(decimal(n as nat)),
        Tree::Number(Numeral::Negative(n)) => Some(
            if n < 0 {
                seq!['-'] + decimal((-n) as nat)
            } else {
                decimal(n as nat)
            },
        ),
        Tree::Number(Numeral::Real(s)) => Some(s),
        _ => None,
    }
}

/// The key of a server's endpoint.
pub open spec fn endpoint_key(section: Section) -> Seq<char> {
    if section == Section::Http {
        seq!['u', 'r', 'l']
    } else {
        seq!['a', 'd', 'd', 'r', 'e', 's', 's']
    }
}

proof fn found_where_it_stands(entries: Entries, name: Seq<char>, at: Option<int>)
    requires
        stands_at(entries, name, at),
    ensures
        position_ci(entries, name) == at,
        value_ci(entries, name) == match at {
            Some(i) => Some(entries[i].1),
            None => None,
        },
{
    position_found(entries, name);
    if let Some(i) = at {
        assert(name_at(entries, name, i));
        name_at_unique(entries, name, i);
    }
}

proof fn port_text_as_written(port: Tree)
    ensures
        port_text(port) == as_written(port),
{
    reveal_strlit("-");
    if let Tree::Number(Numeral::Negative(n)) = port {
        if n < 0 {
            assert("-"@ =~= seq!['-']);
        }
    }
}

proof fn keys_spelled(section: Section)
    ensures
        target_key(section) == endpoint_key(section),
        !same_name(target_key(section), "port"@),
        !same_name(target_key(section), "scheme"@),
        !same_name("port"@, "scheme"@),
        !same_name("scheme"@, "port"@),
        !same_name("service"@, "port"@),
        !same_name("service"@, "scheme"@),
        !same_name("port"@, "service"@),
        !same_name("scheme"@, "service"@),
        !same_name("port"@, target_key(section)),
        !same_name("scheme"@, target_key(section)),
        same_name("port"@, "port"@),
        same_name("scheme"@, "scheme"@),
        same_name("service"@, "service"@),
{
    reveal_strlit("port");
    reveal_strlit("scheme");
    reveal_strlit("service");
    reveal_strlit("url");
    reveal_strlit("address");
    assert("url"@ =~= seq!['u', 'r', 'l']);
    assert("address"@ =~= seq!['a', 'd', 'd', 'r', 'e', 's', 's']);
    assert("port"@.len() == 4 && "scheme"@.len() == 6 && "service"@.len() == 7);
}

/// What stands under another name stays when a name is taken out.
pub proof fn value_beside_removed(entries: Entries, taken: Seq<char>, name: Seq<char>)
    requires
        !same_name(taken, name),
    ensures
        value_ci(without_ci(entries, taken), name) == value_ci(entries, name),
    decreases entries.len(),
{
    let after = without_ci(entries, taken);
    position_found(entries, name);
    position_found(after, name);
    if entries.len() > 0 {
        let front = entries.drop_last();
        let before = without_ci(front, taken);
        let last = entries.len() - 1;
        value_beside_removed(front, taken, name);
        position_found(front, name);
        position_found(before, name);
        assert(forall|j: int| 0 <= j < front.len() ==> front[j] == #[trigger] entries[j]);
        if let Some(i) = position_ci(front, name) {
            assert(name_at(entries, name, i));
            name_at_unique(entries, name, i);
            let k = position_ci(before, name)->0;
            assert(forall|j: int| 0 <= j < before.len() ==> before[j] == #[trigger] after[j]);
            assert(name_at(after, name, k));
            name_at_unique(after, name, k);
        } else if same_name(entries[last].0, name) {
            assert(name_at(entries, name, last));
            name_at_unique(entries, name, last);
            if same_name(entries[last].0, taken) {
                same_name_through(taken, entries[last].0, name);
            }
            assert(forall|j: int| 0 <= j < before.len() ==> before[j] == #[trigger] after[j]);
            assert(name_at(after, name, before.len() as int));
            name_at_unique(after, name, before.len() as int);
        } else {
            assert forall|j: int| 0 <= j < after.len() implies !same_name(
                (#[trigger] after[j]).0,
                name,
            ) by {
                if j < before.len() {
                    assert(after[j] == before[j]);
                }
            }
        }
    }
}

/// What is not of that name stays when the name is taken out.
pub proof fn others_stay(entries: Entries, taken: Seq<char>, i: int)
    requires
        0 <= i < entries.len(),
        !same_name(entries[i].0, taken),
    ensures
        without_ci(entries, taken).contains(entries[i]),
    decreases entries.len(),
{
    let after = without_ci(entries, taken);
    let before = without_ci(entries.drop_last(), taken);
    if i < entries.len() - 1 {
        others_stay(entries.drop_last(), taken, i);
        assert(entries.drop_last()[i] == entries[i]);
        let k = choose|k: int| 0 <= k < before.len() && before[k] == entries[i];
        assert(after[k] == entries[i]);
    } else {
        assert(after[before.len() as int] == entries[i]);
    }
}

proof fn there_beside_inserted(entries: Entries, key: Seq<char>, value: Tree, entry: (
    Seq<char>,
    Tree,
))
    requires
        entries.contains(entry),
        entry.0 != key,
    ensures
        inserted(entries, key, value).contains(entry),
{
    let after = inserted(entries, key, value);
    let p = rank(entries, key);
    rank_defined(entries, key);
    let i = choose|i: int| 0 <= i < entries.len() && entries[i] == entry;
    if p < entries.len() && entries[p].0 == key {
        assert(after[i] == entry);
    } else if i < p {
        assert(after[i] == entry);
    } else {
        assert(after[i + 1] == entry);
    }
}

proof fn from_before_or_inserted(entries: Entries, key: Seq<char>, value: Tree, k: int)
    requires
        0 <= k < inserted(entries, key, value).len(),
    ensures
        inserted(entries, key, value)[k] == (key, value) || entries.contains(
            inserted(entries, key, value)[k],
        ),
{
    let after = inserted(entries, key, value);
    let p = rank(entries, key);
    rank_defined(entries, key);
    if p < entries.len() && entries[p].0 == key {
        if k != p {
            assert(after[k] == entries[k]);
        }
    } else if k < p {
        assert(after[k] == entries[k]);
    } else if k > p {
        assert(after[k] == entries[k - 1]);
    }
}

/// The endpoint of a server: where it is, and for HTTP how it is spoken to.
pub open spec fn endpoint_text(
    section: Section,
    scheme: Option<Seq<char>>,
    ip: IpAddr,
    port: Seq<char>,
) -> Seq<char> {
    let place = host_notation(ip) + seq![':'] + port;
    if section == Section::Http {
        (match scheme {
            Some(scheme) => scheme,
            None => seq!['h', 't', 't', 'p'],
        }) + seq![':', '/', '/'] + place
    } else {
        place
    }
}

/// The text of the entry that is there, if one is.
pub open spec fn text_at(entries: Entries, at: Option<int>) -> Option<Seq<char>> {
    match at {
        Some(i) => Some(entries[i].1->Text_0),
        None => None,
    }
}

proof fn server_completed(
    entries: Entries,
    section: Section,
    guest: GuestView,
    ip: IpAddr,
    p: int,
    text: Seq<char>,
    s: Option<int>,
)
    requires
        unnamed(entries, endpoint_key(section)),
        first_named(entries, "port"@, p),
        as_written(entries[p].1) == Some(text),
        is_port(text),
        guest.ip == Some(ip),
        stands_at(entries, "scheme"@, s),
        s matches Some(i) ==> section == Section::Http && entries[i].1 is Text,
    ensures
        completed_server(Tree::Table(entries), section, guest) == Ok::<
            Tree,
            ServerProblem<Seq<char>>,
        >(
            Tree::Table(
                inserted(
                    without_ci(without_ci(entries, "port"@), "scheme"@),
                    endpoint_key(section),
                    Tree::Text(endpoint_text(section, text_at(entries, s), ip, text)),
                ),
            ),
        ),
{
    let place = host_notation(ip) + seq![':'] + text;
    let scheme = match text_at(entries, s) {
        Some(scheme) => scheme,
        None => seq!['h', 't', 't', 'p'],
    };
    keys_spelled(section);
    found_where_it_stands(entries, endpoint_key(section), None);
    found_where_it_stands(entries, "port"@, Some(p));
    found_where_it_stands(entries, "scheme"@, s);
    port_text_as_written(entries[p].1);
    value_beside_removed(entries, "port"@, "scheme"@);
    reveal_strlit("http");
    reveal_strlit("://");
    reveal_strlit(":");
    assert("http"@ =~= seq!['h', 't', 't', 'p']);
    assert("://"@ =~= seq![':', '/', '/']);
    assert(":"@ =~= seq![':']);
    assert(scheme + "://"@ + host_notation(ip) + ":"@ + text =~= scheme + seq![':', '/', '/']
        + place);
}

proof fn target_spelled(section: Section, scheme: Option<Seq<char>>, ip: IpAddr, text: Seq<char>)
    ensures
        endpoint_text(section, scheme, ip, text) == match (section, scheme) {
            (Section::Http, Some(scheme)) => scheme + "://"@ + host_notation(ip) + ":"@ + text,
            (Section::Http, None) => "http://"@ + host_notation(ip) + ":"@ + text,
            _ => host_notation(ip) + ":"@ + text,
        },
        section == Section::Http ==> endpoint_key(section) == "url"@,
        section != Section::Http ==> endpoint_key(section) == "address"@,
{
    reveal_strlit("://");
    reveal_strlit("http://");
    reveal_strlit(":");
    reveal_strlit("url");
    reveal_strlit("address");
    assert("url"@ =~= seq!['u', 'r', 'l']);
    assert("address"@ =~= seq!['a', 'd', 'd', 'r', 'e', 's', 's']);
    assert("://"@ =~= seq![':', '/', '/']);
    assert(":"@ =~= seq![':']);
    assert("http://"@ =~= seq!['h', 't', 't', 'p'] + seq![':', '/', '/']);
    let place = host_notation(ip) + seq![':'] + text;
    if let Some(scheme) = scheme {
        assert(scheme + "://"@ + host_notation(ip) + ":"@ + text =~= scheme + seq![':', '/', '/']
            + place);
    }
    assert("http://"@ + host_notation(ip) + ":"@ + text =~= seq!['h', 't', 't', 'p'] + seq![
        ':',
        '/',
        '/',
    ] + place);
}

/// A server without an endpoint gets it under its key from the guest's address
/// and its port: scheme, host and port for HTTP, host and port for TCP and for
/// UDP. Its port and its scheme go, and every other entry stays.
#[verifier::rlimit(40)]
pub proof fn server_gets_its_endpoint(
    entries: Entries,
    section: Section,
    guest: GuestView,
    ip: IpAddr,
    p: int,
    text: Seq<char>,
    s: Option<int>,
)
    requires
        unnamed(entries, endpoint_key(section)),
        first_named(entries, "port"@, p),
        match entries[p].1 {
            Tree::Text(s) => text == s,
            Tree::Number(Numeral::Unsigned(n)) => text == decimal(n as nat),
            Tree::Number(Numeral::Real(s)) => text == s,
            _ => false,
        },
        is_port(text),
        guest.ip == Some(ip),
        stands_at(entries, "scheme"@, s),
        s matches Some(i) ==> section == Section::Http && entries[i].1 is Text,
    ensures
        ({
            let key = if section == Section::Http {
                "url"@
            } else {
                "address"@
            };
            let target = match (section, s) {
                (Section::Http, Some(i)) => entries[i].1->Text_0 + "://"@ + host_notation(ip)
                    + ":"@ + text,
                (Section::Http, None) => "http://"@ + host_notation(ip) + ":"@ + text,
                (Section::Tcp, _) => host_notation(ip) + ":"@ + text,
                (Section::Udp, _) => host_notation(ip) + ":"@ + text,
            };
            &&& completed_server(Tree::Table(entries), section, guest) matches Ok(Tree::Table(done))
            &&& lookup(done, key) == Some(Tree::Text(target))
            &&& forall|i: int|
                0 <= i < entries.len() && !same_name((#[trigger] entries[i]).0, "port"@)
                    && !same_name(entries[i].0, "scheme"@) ==> done.contains(entries[i])
            &&& forall|k: int|
                0 <= k < done.len() ==> (#[trigger] done[k]) == (key, Tree::Text(target)) || (
                entries.contains(done[k]) && !same_name(done[k].0, "port"@) && !same_name(
                    done[k].0,
                    "scheme"@,
                ))
        }),
{
    let key = endpoint_key(section);
    let target = endpoint_text(section, text_at(entries, s), ip, text);
    server_completed(entries, section, guest, ip, p, text, s);
    keys_spelled(section);
    target_spelled(section, text_at(entries, s), ip, text);
    let rest = without_ci(entries, "port"@);
    let bare = without_ci(rest, "scheme"@);
    let done = inserted(bare, key, Tree::Text(target));
    lookup_inserted(bare, key, Tree::Text(target), key);
    assert forall|i: int|
        0 <= i < entries.len() && !same_name((#[trigger] entries[i]).0, "port"@) && !same_name(
            entries[i].0,
            "scheme"@,
        ) implies done.contains(entries[i]) by {
        others_stay(entries, "port"@, i);
        let k = choose|k: int| 0 <= k < rest.len() && rest[k] == entries[i];
        others_stay(rest, "scheme"@, k);
        assert(same_name(key, key));
        there_beside_inserted(bare, key, Tree::Text(target), entries[i]);
    }
    without_ci_keeps(entries, "port"@);
    without_ci_keeps(rest, "scheme"@);
    assert forall|k: int| 0 <= k < done.len() implies (#[trigger] done[k]) == (
        key,
        Tree::Text(target),
    ) || (entries.contains(done[k]) && !same_name(done[k].0, "port"@) && !same_name(
        done[k].0,
        "scheme"@,
    )) by {
        from_before_or_inserted(bare, key, Tree::Text(target), k);
        if bare.contains(done[k]) {
            let q = choose|q: int| 0 <= q < bare.len() && bare[q] == done[k];
            assert(rest.contains(bare[q]));
            let r = choose|r: int| 0 <= r < rest.len() && rest[r] == bare[q];
            assert(entries.contains(rest[r]));
        }
    }
}

/// When a server is left as it is, and when it is refused for what.
pub proof fn server_is_refused(
    entries: Entries,
    section: Section,
    guest: GuestView,
    t: Option<int>,
    p: Option<int>,
    s: Option<int>,
)
    requires
        stands_at(entries, endpoint_key(section), t),
        stands_at(entries, "port"@, p),
        stands_at(entries, "scheme"@, s),
    ensures
        ({
            let r = completed_server(Tree::Table(entries), section, guest);
            if t is Some {
                r == Ok::<Tree, ServerProblem<Seq<char>>>(Tree::Table(entries))
            } else if p is None {
                r matches Err(ServerProblem::NoPort)
            } else if as_written(entries[p->0].1) is None {
                r matches Err(ServerProblem::PortKind)
            } else if !is_port(as_written(entries[p->0].1)->0) {
                r == Err::<Tree, ServerProblem<Seq<char>>>(
                    ServerProblem::BadPort(as_written(entries[p->0].1)->0),
                )
            } else if guest.ip is None {
                r matches Err(ServerProblem::NoAddress)
            } else if s is Some && section != Section::Http {
                r matches Err(ServerProblem::SchemeUnused)
            } else if s is Some && !(entries[s->0].1 is Text) {
                r matches Err(ServerProblem::SchemeKind)
            } else {
                r is Ok
            }
        }),
{
    keys_spelled(section);
    found_where_it_stands(entries, target_key(section), t);
    found_where_it_stands(entries, "port"@, p);
    found_where_it_stands(entries, "scheme"@, s);
    value_beside_removed(entries, "port"@, "scheme"@);
    if let Some(i) = p {
        port_text_as_written(entries[i].1);
    }
}

/// What is no map is no server.
pub proof fn server_is_a_map(server: Tree, section: Section, guest: GuestView)
    requires
        !(server is Table),
    ensures
        completed_server(server, section, guest) matches Err(ServerProblem::NotAMap),
{
}

/// A service of one server, of the port and the scheme given.
pub open spec fn one_server(service: Tree, port: Tree, scheme: Option<Tree>) -> bool {
    &&& service matches Tree::Table(entries)
    &&& entries.len() == 1
    &&& entries[0].0 == "loadBalancer"@
    &&& entries[0].1 matches Tree::Table(balancer)
    &&& balancer.len() == 1
    &&& balancer[0].0 == "servers"@
    &&& balancer[0].1 matches Tree::List(servers)
    &&& servers.len() == 1
    &&& servers[0] matches Tree::Table(server)
    &&& server[0] == ("port"@, port)
    &&& match scheme {
        Some(scheme) => server.len() == 2 && server[1] == ("scheme"@, scheme),
        None => server.len() == 1,
    }
}

/// A router with a port gets a service of one server, which has the very port
/// and the very scheme that the router had. It points at the service, by its own
/// name where it names none, and keeps every other entry.
#[verifier::rlimit(40)]
pub proof fn router_gets_its_service(
    entries: Entries,
    name: Seq<char>,
    section: Section,
    p: int,
    text: Seq<char>,
    s: Option<int>,
    v: Option<int>,
)
    requires
        first_named(entries, "port"@, p),
        match entries[p].1 {
            Tree::Text(s) => text == s,
            Tree::Number(Numeral::Unsigned(n)) => text == decimal(n as nat),
            Tree::Number(Numeral::Real(s)) => text == s,
            _ => false,
        },
        is_port(text),
        stands_at(entries, "scheme"@, s),
        s is Some ==> section == Section::Http,
        stands_at(entries, "service"@, v),
        v matches Some(i) ==> (entries[i].1 matches Tree::Text(t) && t.len() > 0),
    ensures
        ({
            let service = match v {
                Some(i) => entries[i].1->Text_0,
                None => name,
            };
            &&& planned(Tree::Table(entries), name, section) matches Ok(Some(plan))
            &&& plan.backend matches Tree::Table(made)
            &&& made.len() == 1
            &&& made[0].0 == "loadBalancer"@
            &&& made[0].1 matches Tree::Table(balancer)
            &&& balancer.len() == 1
            &&& balancer[0].0 == "servers"@
            &&& balancer[0].1 matches Tree::List(servers)
            &&& servers.len() == 1
            &&& servers[0] matches Tree::Table(server)
            &&& server[0] == ("port"@, entries[p].1)
            &&& match s {
                Some(i) => server.len() == 2 && server[1] == ("scheme"@, entries[i].1),
                None => server.len() == 1,
            }
            &&& plan.service == service
            &&& value_ci(plan.router, "service"@) == Some(Tree::Text(service))
            &&& unnamed(plan.router, "port"@)
            &&& unnamed(plan.router, "scheme"@)
            &&& forall|i: int|
                0 <= i < entries.len() && !same_name((#[trigger] entries[i]).0, "port"@)
                    && !same_name(entries[i].0, "scheme"@) ==> plan.router.contains(entries[i])
            &&& forall|k: int|
                0 <= k < plan.router.len() ==> entries.contains(#[trigger] plan.router[k]) || (v
                    is None && plan.router[k] == ("service"@, Tree::Text(name)))
        }),
{
    let scheme = match s {
        Some(i) => Some(entries[i].1),
        None => None,
    };
    keys_spelled(section);
    found_where_it_stands(entries, "port"@, Some(p));
    found_where_it_stands(entries, "scheme"@, s);
    found_where_it_stands(entries, "service"@, v);
    port_text_as_written(entries[p].1);
    let rest = without_ci(entries, "port"@);
    let bare = without_ci(rest, "scheme"@);
    value_beside_removed(entries, "port"@, "scheme"@);
    value_beside_removed(entries, "port"@, "service"@);
    value_beside_removed(rest, "scheme"@, "service"@);
    let plan = planned(Tree::Table(entries), name, section)->Ok_0->0;
    let done = plan.router;
    without_ci_keeps(entries, "port"@);
    without_ci_keeps(rest, "scheme"@);
    position_found(bare, "service"@);
    if v is None {
        value_just_inserted(bare, "service"@, Tree::Text(name));
    }
    assert forall|i: int|
        0 <= i < entries.len() && !same_name((#[trigger] entries[i]).0, "port"@) && !same_name(
            entries[i].0,
            "scheme"@,
        ) implies done.contains(entries[i]) by {
        others_stay(entries, "port"@, i);
        let k = choose|k: int| 0 <= k < rest.len() && rest[k] == entries[i];
        others_stay(rest, "scheme"@, k);
        if v is None {
            assert(!same_name(entries[i].0, "service"@));
            there_beside_inserted(bare, "service"@, Tree::Text(name), entries[i]);
        }
    }
    assert forall|k: int| 0 <= k < done.len() implies (entries.contains(#[trigger] done[k])
        && !same_name(done[k].0, "port"@) && !same_name(done[k].0, "scheme"@)) || (v is None
        && done[k] == ("service"@, Tree::Text(name))) by {
        if v is None {
            from_before_or_inserted(bare, "service"@, Tree::Text(name), k);
        } else {
            assert(done == bare);
            assert(bare.contains(done[k]));
        }
        if bare.contains(done[k]) {
            let q = choose|q: int| 0 <= q < bare.len() && bare[q] == done[k];
            assert(rest.contains(bare[q]));
            let r = choose|r: int| 0 <= r < rest.len() && rest[r] == bare[q];
            assert(entries.contains(rest[r]));
        }
    }
}

/// When a router is left as it is, and when it is refused for what.
pub proof fn router_is_refused(
    entries: Entries,
    name: Seq<char>,
    section: Section,
    p: Option<int>,
    s: Option<int>,
    v: Option<int>,
)
    requires
        stands_at(entries, "port"@, p),
        stands_at(entries, "scheme"@, s),
        stands_at(entries, "service"@, v),
    ensures
        ({
            let r = planned(Tree::Table(entries), name, section);
            if p is None {
                r matches Ok(None)
            } else if as_written(entries[p->0].1) is None {
                r matches Err(RouterProblem::PortKind)
            } else if !is_port(as_written(entries[p->0].1)->0) {
                r == Err::<Option<Plan>, RouterProblem<Seq<char>>>(
                    RouterProblem::BadPort(as_written(entries[p->0].1)->0),
                )
            } else if s is Some && section != Section::Http {
                r matches Err(RouterProblem::SchemeUnused)
            } else if v is Some && !(entries[v->0].1 matches Tree::Text(t) && t.len() > 0) {
                r matches Err(RouterProblem::ServiceKind)
            } else {
                r matches Ok(Some(_))
            }
        }),
{
    keys_spelled(section);
    found_where_it_stands(entries, "port"@, p);
    found_where_it_stands(entries, "scheme"@, s);
    found_where_it_stands(entries, "service"@, v);
    let rest = without_ci(entries, "port"@);
    value_beside_removed(entries, "port"@, "scheme"@);
    value_beside_removed(entries, "port"@, "service"@);
    value_beside_removed(rest, "scheme"@, "service"@);
    if let Some(i) = p {
        port_text_as_written(entries[i].1);
    }
}

/// Each server of a list is completed on its own, where it stands, and the first
/// that is refused decides.
pub proof fn servers_complete_one_by_one(servers: Seq<Tree>, section: Section, guest: GuestView)
    ensures
        match completed_servers(servers, section, guest) {
            Ok(done) => {
                &&& done.len() == servers.len()
                &&& forall|i: int|
                    0 <= i < servers.len() ==> completed_server(
                        #[trigger] servers[i],
                        section,
                        guest,
                    ) == Ok::<Tree, ServerProblem<Seq<char>>>(done[i])
            },
            Err(e) => exists|i: int|
                {
                    &&& 0 <= i < servers.len()
                    &&& completed_server(#[trigger] servers[i], section, guest) == Err::<
                        Tree,
                        ServerProblem<Seq<char>>,
                    >(e)
                    &&& forall|j: int|
                        0 <= j < i ==> completed_server(#[trigger] servers[j], section, guest) is Ok
                },
        },
    decreases servers.len(),
{
    if servers.len() > 0 {
        let front = servers.drop_last();
        let last = servers.len() - 1;
        servers_complete_one_by_one(front, section, guest);
        assert(forall|j: int| 0 <= j < front.len() ==> front[j] == #[trigger] servers[j]);
        match completed_servers(front, section, guest) {
            Ok(before) => {
                assert(forall|j: int|
                    0 <= j < last ==> completed_server(#[trigger] servers[j], section, guest)
                        == Ok::<Tree, ServerProblem<Seq<char>>>(before[j])) by {
                    assert(forall|j: int| 0 <= j < last ==> front[j] == #[trigger] servers[j]);
                }
                if let Err(e) = completed_server(servers[last], section, guest) {
                    assert(completed_servers(servers, section, guest) == Err::<
                        Seq<Tree>,
                        ServerProblem<Seq<char>>,
                    >(e));
                }
            },
            Err(e) => {
                let i = choose|i: int|
                    {
                        &&& 0 <= i < front.len()
                        &&& completed_server(#[trigger] front[i], section, guest) == Err::<
                            Tree,
                            ServerProblem<Seq<char>>,
                        >(e)
                        &&& forall|j: int|
                            0 <= j < i ==> completed_server(
                                #[trigger] front[j],
                                section,
                                guest,
                            ) is Ok
                    };
                assert(servers[i] == front[i]);
                assert forall|j: int| 0 <= j < i implies completed_server(
                    #[trigger] servers[j],
                    section,
                    guest,
                ) is Ok by {
                    assert(servers[j] == front[j]);
                }
            },
        }
    }
}

/// Each service of a map is completed on its own, under its name, and the first
/// that is refused decides and is named.
#[verifier::rlimit(40)]
pub proof fn services_complete_one_by_one(services: Entries, section: Section, guest: GuestView)
    ensures
        match completed_services(services, section, guest) {
            Ok(done) => {
                &&& done.len() == services.len()
                &&& forall|i: int|
                    0 <= i < services.len() ==> {
                        &&& (#[trigger] done[i]).0 == services[i].0
                        &&& completed_service(services[i].1, section, guest) == Ok::<
                            Tree,
                            ServerProblem<Seq<char>>,
                        >(done[i].1)
                    }
            },
            Err(e) => exists|i: int|
                {
                    &&& 0 <= i < services.len()
                    &&& completed_service((#[trigger] services[i]).1, section, guest) matches Err(
                        entry,
                    )
                    &&& e == Problem::Server { section, service: services[i].0, entry }
                    &&& forall|j: int|
                        0 <= j < i ==> completed_service(
                            (#[trigger] services[j]).1,
                            section,
                            guest,
                        ) is Ok
                },
        },
    decreases services.len(),
{
    if services.len() > 0 {
        let front = services.drop_last();
        let last = services.len() - 1;
        services_complete_one_by_one(front, section, guest);
        match completed_services(front, section, guest) {
            Ok(before) => {
                assert forall|j: int| 0 <= j < last implies completed_service(
                    (#[trigger] services[j]).1,
                    section,
                    guest,
                ) == Ok::<Tree, ServerProblem<Seq<char>>>(before[j].1) && before[j].0
                    == services[j].0 by {
                    assert(front[j] == services[j]);
                    assert(before[j].0 == front[j].0);
                }
                match completed_service(services[last].1, section, guest) {
                    Err(entry) => {
                        assert(completed_services(services, section, guest) == Err::<
                            Entries,
                            Problem<Seq<char>>,
                        >(Problem::Server { section, service: services[last].0, entry }));
                    },
                    Ok(service) => {
                        let done = completed_services(services, section, guest)->Ok_0;
                        assert(done == before.push((services[last].0, service)));
                        assert forall|i: int| 0 <= i < services.len() implies {
                            &&& (#[trigger] done[i]).0 == services[i].0
                            &&& completed_service(services[i].1, section, guest) == Ok::<
                                Tree,
                                ServerProblem<Seq<char>>,
                            >(done[i].1)
                        } by {
                            if i < last {
                                assert(done[i] == before[i]);
                                assert(services[i] == front[i]);
                            }
                        }
                    },
                }
            },
            Err(e) => {
                let i = choose|i: int|
                    {
                        &&& 0 <= i < front.len()
                        &&& completed_service((#[trigger] front[i]).1, section, guest) matches Err(
                            entry,
                        )
                        &&& e == Problem::Server { section, service: front[i].0, entry }
                        &&& forall|j: int|
                            0 <= j < i ==> completed_service(
                                (#[trigger] front[j]).1,
                                section,
                                guest,
                            ) is Ok
                    };
                assert(services[i] == front[i]);
                assert forall|j: int| 0 <= j < i implies completed_service(
                    (#[trigger] services[j]).1,
                    section,
                    guest,
                ) is Ok by {
                    assert(services[j] == front[j]);
                }
            },
        }
    }
}

/// Of a service only the servers of its load balancer change.
pub proof fn service_changes_in_its_servers(
    entries: Entries,
    balancer: Entries,
    servers: Seq<Tree>,
    section: Section,
    guest: GuestView,
    b: int,
    q: int,
)
    requires
        first_named(entries, "loadBalancer"@, b),
        entries[b].1 == Tree::Table(balancer),
        first_named(balancer, "servers"@, q),
        balancer[q].1 == Tree::List(servers),
    ensures
        match completed_servers(servers, section, guest) {
            Err(e) => completed_service(Tree::Table(entries), section, guest) == Err::<
                Tree,
                ServerProblem<Seq<char>>,
            >(e),
            Ok(done) => {
                &&& completed_service(Tree::Table(entries), section, guest) matches Ok(
                    Tree::Table(after),
                )
                &&& after.len() == entries.len()
                &&& forall|i: int|
                    0 <= i < entries.len() && i != b ==> #[trigger] after[i] == entries[i]
                &&& after[b].0 == entries[b].0
                &&& after[b].1 matches Tree::Table(ready)
                &&& ready.len() == balancer.len()
                &&& forall|i: int|
                    0 <= i < balancer.len() && i != q ==> #[trigger] ready[i] == balancer[i]
                &&& ready[q] == (balancer[q].0, Tree::List(done))
            },
        },
{
    found_where_it_stands(entries, "loadBalancer"@, Some(b));
    found_where_it_stands(balancer, "servers"@, Some(q));
}

/// A service stays as it is where it has no load balancer that lists servers.
pub proof fn service_without_servers_stays(service: Tree, section: Section, guest: GuestView)
    requires
        !exists|entries: Entries, b: int|
            service == Tree::Table(entries) && #[trigger] first_named(
                entries,
                "loadBalancer"@,
                b,
            ) && lists_servers(entries[b].1),
    ensures
        completed_service(service, section, guest) == Ok::<Tree, ServerProblem<Seq<char>>>(service),
{
    if let Tree::Table(entries) = service {
        position_found(entries, "loadBalancer"@);
        if let Some(b) = position_ci(entries, "loadBalancer"@) {
            assert(first_named(entries, "loadBalancer"@, b));
            if let Tree::Table(balancer) = entries[b].1 {
                position_found(balancer, "servers"@);
                if let Some(q) = position_ci(balancer, "servers"@) {
                    assert(first_named(balancer, "servers"@, q));
                }
                assert(completed_balancer(balancer, section, guest) == Ok::<
                    Entries,
                    ServerProblem<Seq<char>>,
                >(balancer));
                assert(entries.update(b, (entries[b].0, Tree::Table(balancer))) =~= entries);
            }
        }
    }
}

/// A load balancer that lists servers.
pub open spec fn lists_servers(balancer: Tree) -> bool {
    exists|entries: Entries, q: int|
        balancer == Tree::Table(entries) && #[trigger] first_named(entries, "servers"@, q)
            && entries[q].1 is List
}

#[verifier::rlimit(40)]
proof fn one_server_completes(
    service: Tree,
    port: Tree,
    scheme: Option<Tree>,
    text: Seq<char>,
    ip: IpAddr,
    section: Section,
    guest: GuestView,
)
    requires
        one_server(service, port, scheme),
        as_written(port) == Some(text),
        is_port(text),
        guest.ip == Some(ip),
        scheme matches Some(t) ==> section == Section::Http && t is Text,
    ensures
        completed_service(service, section, guest) == Ok::<Tree, ServerProblem<Seq<char>>>(
            one_endpoint(
                section,
                endpoint_text(
                    section,
                    match scheme {
                        Some(t) => Some(t->Text_0),
                        None => None,
                    },
                    ip,
                    text,
                ),
            ),
        ),
{
    let entries = service->Table_0;
    let balancer = entries[0].1->Table_0;
    let servers = balancer[0].1->List_0;
    let server = servers[0]->Table_0;
    let s: Option<int> = if scheme is Some {
        Some(1)
    } else {
        None
    };
    let key = endpoint_key(section);
    let target = endpoint_text(section, text_at(server, s), ip, text);
    keys_spelled(section);
    assert(first_named(server, "port"@, 0));
    assert(stands_at(server, "scheme"@, s));
    assert(unnamed(server, key));
    server_completed(server, section, guest, ip, 0, text, s);
    let rest = without_ci(server, "port"@);
    let bare = without_ci(rest, "scheme"@);
    without_ci_keeps(server, "port"@);
    without_ci_keeps(rest, "scheme"@);
    if bare.len() > 0 {
        assert(rest.contains(bare[0]));
        let r = choose|r: int| 0 <= r < rest.len() && rest[r] == bare[0];
        assert(server.contains(rest[r]));
    }
    assert(bare =~= Seq::empty());
    inserted_last(bare, key, Tree::Text(target));
    let done = seq![(key, Tree::Text(target))];
    assert(inserted(bare, key, Tree::Text(target)) =~= done);
    servers_complete_one_by_one(servers, section, guest);
    assert(completed_server(servers[0], section, guest) == Ok::<Tree, ServerProblem<Seq<char>>>(
        Tree::Table(done),
    ));
    let list = completed_servers(servers, section, guest)->Ok_0;
    assert(list =~= seq![Tree::Table(done)]);
    assert(same_name("loadBalancer"@, "loadBalancer"@));
    assert(same_name("servers"@, "servers"@));
    assert(first_named(entries, "loadBalancer"@, 0));
    assert(first_named(balancer, "servers"@, 0));
    service_changes_in_its_servers(entries, balancer, servers, section, guest, 0, 0);
    let after = completed_service(service, section, guest)->Ok_0->Table_0;
    let ready = after[0].1->Table_0;
    assert(ready =~= seq![("servers"@, Tree::List(list))]);
    assert(after =~= seq![("loadBalancer"@, Tree::Table(ready))]);
}

/// The service of one server that has only its endpoint.
pub open spec fn one_endpoint(section: Section, target: Seq<char>) -> Tree {
    let server = Tree::Table(seq![(endpoint_key(section), Tree::Text(target))]);
    let balancer = Tree::Table(seq![("servers"@, Tree::List(seq![server]))]);
    Tree::Table(seq![("loadBalancer"@, balancer)])
}

proof fn lookup_where_keys_agree(a: Entries, b: Entries, key: Seq<char>, i: int)
    requires
        same_keys(a, b),
        key_at(a, key, i),
    ensures
        lookup(b, key) == Some(b[i].1),
{
    assert(key_at(b, key, i));
    key_at_unique(b, key, i);
}

/// A router's port in the finished document: the router points at a service, and
/// that is one server at the guest's address and the router's port.
#[verifier::rlimit(40)]
pub proof fn port_is_the_guests_port(
    doc: Entries,
    section: Section,
    guest: GuestView,
    ip: IpAddr,
    entries: Entries,
    routers: Entries,
    i: int,
    router: Entries,
    p: int,
    text: Seq<char>,
    s: Option<int>,
    v: Option<int>,
)
    requires
        finished(doc, guest) is Ok,
        guest.ip == Some(ip),
        value_ci(doc, section_key(section)) == Some(Tree::Table(entries)),
        value_ci(entries, "routers"@) == Some(Tree::Table(routers)),
        0 <= i < routers.len(),
        routers[i].1 == Tree::Table(router),
        first_named(router, "port"@, p),
        match router[p].1 {
            Tree::Text(s) => text == s,
            Tree::Number(Numeral::Unsigned(n)) => text == decimal(n as nat),
            Tree::Number(Numeral::Real(s)) => text == s,
            _ => false,
        },
        is_port(text),
        stands_at(router, "scheme"@, s),
        s matches Some(k) ==> section == Section::Http && router[k].1 is Text,
        stands_at(router, "service"@, v),
        v matches Some(k) ==> (router[k].1 matches Tree::Text(t) && t.len() > 0),
    ensures
        ({
            let service = match v {
                Some(k) => router[k].1->Text_0,
                None => routers[i].0,
            };
            &&& value_ci(finished(doc, guest)->Ok_0, section_key(section)) matches Some(
                Tree::Table(after),
            )
            &&& value_ci(after, "routers"@) matches Some(Tree::Table(pointed))
            &&& pointed.len() == routers.len()
            &&& pointed[i].0 == routers[i].0
            &&& pointed[i].1 matches Tree::Table(bare)
            &&& value_ci(bare, "service"@) == Some(Tree::Text(service))
            &&& unnamed(bare, "port"@)
            &&& unnamed(bare, "scheme"@)
            &&& value_ci(after, "services"@) matches Some(Tree::Table(services))
            &&& lookup(services, service) matches Some(Tree::Table(made))
            &&& made.len() == 1
            &&& made[0].0 == "loadBalancer"@
            &&& made[0].1 matches Tree::Table(balancer)
            &&& balancer.len() == 1
            &&& balancer[0].0 == "servers"@
            &&& balancer[0].1 matches Tree::List(servers)
            &&& servers.len() == 1
            &&& servers[0] matches Tree::Table(server)
            &&& server.len() == 1
            &&& server[0] == match (section, s) {
                (Section::Http, Some(k)) => (
                    "url"@,
                    Tree::Text(router[k].1->Text_0 + "://"@ + host_notation(ip) + ":"@ + text),
                ),
                (Section::Http, None) => (
                    "url"@,
                    Tree::Text("http://"@ + host_notation(ip) + ":"@ + text),
                ),
                _ => ("address"@, Tree::Text(host_notation(ip) + ":"@ + text)),
            }
        }),
{
    let name = routers[i].0;
    let scheme = match s {
        Some(k) => Some(router[k].1),
        None => None,
    };
    section_in_finished(doc, section, guest);
    router_gets_its_service(router, name, section, p, text, s, v);
    let plan = planned(routers[i].1, name, section)->Ok_0->0;
    port_makes_its_service(entries, routers, section, i, plan);
    let pointed = expanded(entries, section)->Ok_0;
    let at = position_ci(pointed, "services"@)->0;
    position_found(pointed, "services"@);
    let services = pointed[at].1->Table_0;
    let ready = completed_services(services, section, guest)->Ok_0;
    let after = completed_section(pointed, section, guest)->Ok_0;
    assert(same_keys(pointed, after));
    position_by_keys(pointed, after, "services"@);
    position_by_keys(pointed, after, "routers"@);
    reveal_strlit("services");
    reveal_strlit("routers");
    assert("services"@.len() != "routers"@.len());
    position_found(pointed, "routers"@);
    services_complete_one_by_one(services, section, guest);
    let k = found_at(services, plan.service);
    assert(ready[k].0 == services[k].0);
    assert(same_keys(services, ready));
    lookup_where_keys_agree(services, ready, plan.service, k);
    target_spelled(section, text_at(router, s), ip, text);
    one_server_completes(plan.backend, router[p].1, scheme, text, ip, section, guest);
}

/// How a host is written: the four bytes of an IPv4 address with dots between
/// them, and an IPv6 address in brackets.
pub proof fn hosts_are_written_out(a: u8, b: u8, c: u8, d: u8, v6: u128)
    ensures
        ({
            let bits = of_bytes(a, b, c, d);
            let dotted = decimal(a as nat) + seq!['.'] + decimal(b as nat) + seq!['.'] + decimal(
                c as nat,
            ) + seq!['.'] + decimal(d as nat);
            &&& host_notation(IpAddr::V4(bits)) == dotted
            &&& notation(IpAddr::V4(bits)) == dotted
            &&& host_notation(IpAddr::V6(v6)) == seq!['['] + v6_notation(v6) + seq![']']
            &&& notation(IpAddr::V6(v6)) == v6_notation(v6)
        }),
{
    bytes_of_an_address(a, b, c, d);
    reveal_strlit(".");
    reveal_strlit("[");
    reveal_strlit("]");
    assert("."@ =~= seq!['.']);
    assert("["@ =~= seq!['[']);
    assert("]"@ =~= seq![']']);
}

/// Of a section only its services change.
pub proof fn section_changes_in_its_services(
    entries: Entries,
    section: Section,
    guest: GuestView,
    at: Option<int>,
)
    requires
        stands_at(entries, "services"@, at),
    ensures
        ({
            let r = completed_section(entries, section, guest);
            match at {
                Some(i) => match entries[i].1 {
                    Tree::Table(services) => match completed_services(services, section, guest) {
                        Ok(done) => {
                            &&& r matches Ok(after)
                            &&& after.len() == entries.len()
                            &&& after[i] == (entries[i].0, Tree::Table(done))
                            &&& forall|j: int|
                                0 <= j < entries.len() && j != i ==> #[trigger] after[j]
                                    == entries[j]
                        },
                        Err(e) => r == Err::<Entries, Problem<Seq<char>>>(e),
                    },
                    _ => r == Ok::<Entries, Problem<Seq<char>>>(entries),
                },
                None => r == Ok::<Entries, Problem<Seq<char>>>(entries),
            }
        }),
{
    found_where_it_stands(entries, "services"@, at);
}

} // verus!
