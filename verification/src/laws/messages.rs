//! What is said of a problem: which guest it is about, where it is, and what is
//! wrong there.
use vstd::prelude::*;

use crate::merge::{kind_conflict, path_conflict, path_of, section_conflict};
use crate::poll::about_guest;
use crate::problem::{problem_text, quoted, router_problem_text, section_key, server_problem_text};
use crate::problem::{Problem, RouterProblem, Section, ServerProblem};
use crate::text::decimal;

verus! {

/// How a section is named.
pub open spec fn section_name(section: Section) -> Seq<char> {
    match section {
        Section::Http => seq!['h', 't', 't', 'p'],
        Section::Tcp => seq!['t', 'c', 'p'],
        Section::Udp => seq!['u', 'd', 'p'],
    }
}

/// The sections go by their names.
pub proof fn section_named(section: Section)
    ensures
        section_key(section) == section_name(section),
{
    reveal_strlit("http");
    reveal_strlit("tcp");
    reveal_strlit("udp");
    assert("http"@ =~= seq!['h', 't', 't', 'p']);
    assert("tcp"@ =~= seq!['t', 'c', 'p']);
    assert("udp"@ =~= seq!['u', 'd', 'p']);
}

/// What is wrong with a server is said of its service, by the path to it.
pub proof fn server_problem_names_the_service(
    section: Section,
    service: Seq<char>,
    entry: ServerProblem<Seq<char>>,
)
    ensures
        problem_text(Problem::Server { section, service, entry }) == section_name(section)
            + ".services."@ + service + seq![':', ' '] + server_problem_text(section, entry),
{
    section_named(section);
    reveal_strlit(": ");
    assert(": "@ =~= seq![':', ' ']);
}

/// What is wrong with a router is said of it, by the path to it.
pub proof fn router_problem_names_the_router(
    section: Section,
    router: Seq<char>,
    fault: RouterProblem<Seq<char>>,
)
    ensures
        problem_text(Problem::Router { section, router, fault }) == section_name(section)
            + ".routers."@ + router + seq![':', ' '] + router_problem_text(fault),
{
    section_named(section);
    reveal_strlit(": ");
    assert(": "@ =~= seq![':', ' ']);
}

/// A port that is none is quoted.
pub proof fn bad_port_is_quoted(section: Section, text: Seq<char>)
    ensures
        ({
            let said = "'port' "@ + quoted(text) + " is not a port number"@;
            &&& server_problem_text(section, ServerProblem::BadPort(text)) == said
            &&& router_problem_text(RouterProblem::BadPort(text)) == said
        }),
{
}

/// What is wrong with a server where nothing needs quoting. The key that is
/// missing is the section's.
pub proof fn server_problems_are_told_apart(section: Section)
    ensures
        server_problem_text(section, ServerProblem::NotAMap) == "server entry is not a map"@,
        server_problem_text(section, ServerProblem::PortKind) == "'port' must be a number"@,
        server_problem_text(section, ServerProblem::NoAddress)
            == "needs an address and none could be resolved"@,
        server_problem_text(section, ServerProblem::SchemeKind) == "'scheme' must be a string"@,
        server_problem_text(section, ServerProblem::SchemeUnused)
            == "'scheme' has no meaning for a TCP or UDP server"@,
        server_problem_text(section, ServerProblem::NoPort) == if section == Section::Http {
            "server has neither '"@ + "url"@ + "' nor 'port'"@
        } else {
            "server has neither '"@ + "address"@ + "' nor 'port'"@
        },
        problem_text(Problem::NoAddress) == "needs an address and none could be resolved"@,
{
}

/// What is wrong with a router where nothing needs quoting.
pub proof fn router_problems_are_told_apart()
    ensures
        router_problem_text(RouterProblem::PortKind) == "'port' must be a number"@,
        router_problem_text(RouterProblem::SchemeUnused)
            == "'scheme' has no meaning for a TCP or UDP router"@,
        router_problem_text(RouterProblem::ServiceKind) == "'service' must be a name"@,
{
}

/// What is wrong with a section's services names the section, and the service
/// that is there twice.
pub proof fn services_problem_names_the_section(section: Section, service: Seq<char>)
    ensures
        problem_text(Problem::ServicesNotAMap { section }) == section_name(section)
            + ".services is not a map"@,
        problem_text(Problem::Declared { section, service }) == section_name(section)
            + ".routers: 'port' would define service '"@ + service
            + "', which is also declared under "@ + section_name(section)
            + ".services; use one or the other"@,
{
    section_named(section);
}

/// A conflict begins with the guest it is about, whichever it is.
pub open spec fn guest_first(text: Seq<char>, vmid: u64, rest: Seq<char>) -> bool {
    text == seq!['g', 'u', 'e', 's', 't', ' '] + decimal(vmid as nat) + seq![':', ' '] + rest
}

/// Everything that is said of a guest begins with its vmid. A conflict goes on with
/// what is concerned, by its path, and a declaration that was there before with
/// the guest that it belongs to.
pub proof fn conflicts_name_the_guest(
    vmid: u64,
    section: Seq<char>,
    kind: Seq<char>,
    name: Seq<char>,
    owner: u64,
    rest: Seq<char>,
)
    ensures
        guest_first(about_guest(vmid, rest), vmid, rest),
        guest_first(
            section_conflict(vmid, section),
            vmid,
            seq!['\''] + section + "' is not a map; ignored"@,
        ),
        guest_first(
            kind_conflict(vmid, section, kind, rest),
            vmid,
            seq!['\''] + section + seq!['.'] + kind + rest,
        ),
        guest_first(
            path_conflict(vmid, path_of(section, kind, name), owner),
            vmid,
            seq!['\''] + section + seq!['.'] + kind + seq!['.'] + name
                + "' is already declared by guest "@ + decimal(owner as nat) + "; ignored"@,
        ),
{
    reveal_strlit("guest ");
    reveal_strlit(": ");
    reveal_strlit(": '");
    reveal_strlit(".");
    assert("guest "@ =~= seq!['g', 'u', 'e', 's', 't', ' ']);
    assert(": "@ =~= seq![':', ' ']);
    assert(": '"@ =~= seq![':', ' '] + seq!['\'']);
    assert("."@ =~= seq!['.']);
    let start = seq!['g', 'u', 'e', 's', 't', ' '] + decimal(vmid as nat) + seq![':', ' '];
    assert(section_conflict(vmid, section) =~= start + (seq!['\''] + section
        + "' is not a map; ignored"@));
    assert(kind_conflict(vmid, section, kind, rest) =~= start + (seq!['\''] + section + seq!['.']
        + kind + rest));
    assert(path_conflict(vmid, path_of(section, kind, name), owner) =~= start + (seq!['\'']
        + section + seq!['.'] + kind + seq!['.'] + name + "' is already declared by guest "@
        + decimal(owner as nat) + "; ignored"@));
}

} // verus!
