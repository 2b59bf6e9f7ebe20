//! What can be wrong with a guest's subtree, and how it is said.
use vstd::prelude::*;

verus! {

/// The sections of a dynamic configuration that have routers and services.
#[derive(Clone, Copy, Debug, PartialEq, Eq, Structural)]
pub enum Section {
    Http,
    Tcp,
    Udp,
}

/// What is wrong with a server entry. The texts are of the type `S`.
pub enum ServerProblem<S> {
    NotAMap,
    PortKind,
    NoPort,
    BadPort(S),
    NoAddress,
    SchemeKind,
    SchemeUnused,
}

/// What is wrong with a router that has a port. The texts are of the type `S`.
pub enum RouterProblem<S> {
    PortKind,
    BadPort(S),
    SchemeUnused,
    ServiceKind,
}

/// What is wrong with a subtree. The texts are of the type `S`.
pub enum Problem<S> {
    NoAddress,
    Server { section: Section, service: S, entry: ServerProblem<S> },
    Router { section: Section, router: S, fault: RouterProblem<S> },
    ServicesNotAMap { section: Section },
    Declared { section: Section, service: S },
}

impl View for ServerProblem<String> {
    type V = ServerProblem<Seq<char>>;

    open spec fn view(&self) -> ServerProblem<Seq<char>> {
        match *self {
            ServerProblem::NotAMap => ServerProblem::NotAMap,
            ServerProblem::PortKind => ServerProblem::PortKind,
            ServerProblem::NoPort => ServerProblem::NoPort,
            ServerProblem::BadPort(s) => ServerProblem::BadPort(s@),
            ServerProblem::NoAddress => ServerProblem::NoAddress,
            ServerProblem::SchemeKind => ServerProblem::SchemeKind,
            ServerProblem::SchemeUnused => ServerProblem::SchemeUnused,
        }
    }
}

impl View for RouterProblem<String> {
    type V = RouterProblem<Seq<char>>;

    open spec fn view(&self) -> RouterProblem<Seq<char>> {
        match *self {
            RouterProblem::PortKind => RouterProblem::PortKind,
            RouterProblem::BadPort(s) => RouterProblem::BadPort(s@),
            RouterProblem::SchemeUnused => RouterProblem::SchemeUnused,
            RouterProblem::ServiceKind => RouterProblem::ServiceKind,
        }
    }
}

impl View for Problem<String> {
    type V = Problem<Seq<char>>;

    open spec fn view(&self) -> Problem<Seq<char>> {
        match *self {
            Problem::NoAddress => Problem::NoAddress,
            Problem::Server { section, service, entry } => Problem::Server {
                section,
                service: service@,
                entry: entry@,
            },
            Problem::Router { section, router, fault } => Problem::Router {
                section,
                router: router@,
                fault: fault@,
            },
            Problem::ServicesNotAMap { section } => Problem::ServicesNotAMap { section },
            Problem::Declared { section, service } => Problem::Declared {
                section,
                service: service@,
            },
        }
    }
}

/// The key of a section.
pub open spec fn section_key(section: Section) -> Seq<char> {
    match section {
        Section::Http => "http"@,
        Section::Tcp => "tcp"@,
        Section::Udp => "udp"@,
    }
}

/// The key of a server's endpoint: a URL for HTTP, else an address.
pub open spec fn target_key(section: Section) -> Seq<char> {
    match section {
        Section::Http => "url"@,
        _ => "address"@,
    }
}

impl Section {
    /// The key of the section.
    pub fn key(self) -> (r: &'static str)
        ensures
            r@ == section_key(self),
    {
        match self {
            Section::Http => "http",
            Section::Tcp => "tcp",
            Section::Udp => "udp",
        }
    }

    /// The key of a server's endpoint.
    pub fn target(self) -> (r: &'static str)
        ensures
            r@ == target_key(self),
    {
        match self {
            Section::Http => "url",
            _ => "address",
        }
    }
}

/// A text between quotes, with the characters escaped that cannot stand there.
pub uninterp spec fn quoted(s: Seq<char>) -> Seq<char>;

/// `format!` of std with the `Debug` form of a `str`: the text between double
/// quotes and escaped, which depends on the text alone. Which characters are
/// escaped, and how, is left to std.
#[verifier::external_body]
pub(crate) fn quote(s: &str) -> (r: String)
    ensures
        r@ == quoted(s@),
{
    format!("{s:?}")
}

/// What is said of a port that is none.
pub open spec fn bad_port_text(s: Seq<char>) -> Seq<char> {
    "'port' "@ + quoted(s) + " is not a port number"@
}

/// What is said of a server entry.
pub open spec fn server_problem_text(section: Section, problem: ServerProblem<Seq<char>>) -> Seq<
    char,
> {
    match problem {
        ServerProblem::NotAMap => "server entry is not a map"@,
        ServerProblem::PortKind => "'port' must be a number"@,
        ServerProblem::NoPort => "server has neither '"@ + target_key(section) + "' nor 'port'"@,
        ServerProblem::BadPort(s) => bad_port_text(s),
        ServerProblem::NoAddress => "needs an address and none could be resolved"@,
        ServerProblem::SchemeKind => "'scheme' must be a string"@,
        ServerProblem::SchemeUnused => "'scheme' has no meaning for a TCP or UDP server"@,
    }
}

/// What is said of a router.
pub open spec fn router_problem_text(problem: RouterProblem<Seq<char>>) -> Seq<char> {
    match problem {
        RouterProblem::PortKind => "'port' must be a number"@,
        RouterProblem::BadPort(s) => bad_port_text(s),
        RouterProblem::SchemeUnused => "'scheme' has no meaning for a TCP or UDP router"@,
        RouterProblem::ServiceKind => "'service' must be a name"@,
    }
}

/// What is said of a subtree.
pub open spec fn problem_text(problem: Problem<Seq<char>>) -> Seq<char> {
    match problem {
        Problem::NoAddress => "needs an address and none could be resolved"@,
        Problem::Server { section, service, entry } => section_key(section) + ".services."@
            + service + ": "@ + server_problem_text(section, entry),
        Problem::Router { section, router, fault } => section_key(section) + ".routers."@ + router
            + ": "@ + router_problem_text(fault),
        Problem::ServicesNotAMap { section } => section_key(section) + ".services is not a map"@,
        Problem::Declared { section, service } => section_key(section)
            + ".routers: 'port' would define service '"@ + service
            + "', which is also declared under "@ + section_key(section)
            + ".services; use one or the other"@,
    }
}

/// What is said of a port that is none; `quoted` is its text between quotes.
pub fn bad_port_message(quoted: &str) -> (r: String)
    ensures
        r@ == "'port' "@ + quoted@ + " is not a port number"@,
{
    "'port' ".to_string().concat(quoted).concat(" is not a port number")
}

impl ServerProblem<String> {
    /// What is said of the server entry.
    pub fn message(&self, section: Section) -> (r: String)
        ensures
            r@ == server_problem_text(section, self@),
    {
        match self {
            ServerProblem::NotAMap => "server entry is not a map".to_string(),
            ServerProblem::PortKind => "'port' must be a number".to_string(),
            ServerProblem::NoPort => "server has neither '".to_string().concat(
                section.target(),
            ).concat("' nor 'port'"),
            ServerProblem::BadPort(s) => bad_port_message(quote(s.as_str()).as_str()),
            ServerProblem::NoAddress => "needs an address and none could be resolved".to_string(),
            ServerProblem::SchemeKind => "'scheme' must be a string".to_string(),
            ServerProblem::SchemeUnused =>
                "'scheme' has no meaning for a TCP or UDP server".to_string(),
        }
    }
}

impl RouterProblem<String> {
    /// What is said of the router.
    pub fn message(&self) -> (r: String)
        ensures
            r@ == router_problem_text(self@),
    {
        match self {
            RouterProblem::PortKind => "'port' must be a number".to_string(),
            RouterProblem::BadPort(s) => bad_port_message(quote(s.as_str()).as_str()),
            RouterProblem::SchemeUnused =>
                "'scheme' has no meaning for a TCP or UDP router".to_string(),
            RouterProblem::ServiceKind => "'service' must be a name".to_string(),
        }
    }
}

impl Problem<String> {
    /// What is said of the subtree.
    pub fn message(&self) -> (r: String)
        ensures
            r@ == problem_text(self@),
    {
        match self {
            Problem::NoAddress => "needs an address and none could be resolved".to_string(),
            Problem::Server { section, service, entry } => {
                let place = section.key().to_string().concat(".services.").concat(service.as_str());
                place.concat(": ").concat(entry.message(*section).as_str())
            },
            Problem::Router { section, router, fault } => {
                let place = section.key().to_string().concat(".routers.").concat(router.as_str());
                place.concat(": ").concat(fault.message().as_str())
            },
            Problem::ServicesNotAMap { section } => section.key().to_string().concat(
                ".services is not a map",
            ),
            Problem::Declared { section, service } => {
                let start = section.key().to_string().concat(
                    ".routers: 'port' would define service '",
                );
                let named = start.concat(service.as_str()).concat(
                    "', which is also declared under ",
                );
                named.concat(section.key()).concat(".services; use one or the other")
            },
        }
    }
}

} // verus!
