//! One guest's part of a poll: what to ask the cluster for it, and what comes
//! of the replies.
use vstd::prelude::*;

use crate::address::{address_in, picked};
use crate::address::{parse_address, pick, IpAddr, IpNet};
use crate::config::Config;
use crate::problem::{problem_text, quoted};
use crate::problem::quote;
use crate::pve::{addresses_in, tags_of};
use crate::pve::{addresses_of, Resource};
use crate::render::{render, Guest};
use crate::render::{rendered, GuestView};
use crate::text::decimal;
use crate::text::{decimal_text, equal_text};
use crate::value::{lookup, position, Entries, Tree};
use crate::value::{Table, Value};

verus! {

/// What comes of a guest.
pub enum Outcome {
    /// Nothing to contribute, silently.
    Nothing,
    /// Its share of the document.
    Share(Table),
    /// Nothing to contribute, and worth a warning.
    Skip(String),
    /// The whole poll fails, so Traefik keeps what it has rather than getting a
    /// document with a guest missing.
    Fail(String),
}

/// What an [`Outcome`] says.
pub enum OutcomeView {
    Nothing,
    Share(Entries),
    Skip(Seq<char>),
    Fail(Seq<char>),
}

impl View for Outcome {
    type V = OutcomeView;

    open spec fn view(&self) -> OutcomeView {
        match *self {
            Outcome::Nothing => OutcomeView::Nothing,
            Outcome::Share(share) => OutcomeView::Share(share@),
            Outcome::Skip(reason) => OutcomeView::Skip(reason@),
            Outcome::Fail(error) => OutcomeView::Fail(error@),
        }
    }
}

/// Who knows a guest's addresses.
#[derive(Clone, Copy, Debug, PartialEq, Eq, Structural)]
pub enum Source {
    /// The container itself reports them.
    Container,
    /// The guest agent of the VM reports them.
    Agent,
}

/// What is next for a guest.
pub enum Step {
    /// Read its subtree, and go on with [`after_subtree`].
    ReadSubtree,
    /// Ask for its addresses, and go on with [`after_addresses`].
    AskAddresses { source: Source, subtree: Table },
    /// Nothing; this came of it.
    Done(Outcome),
}

/// What a [`Step`] says.
pub enum StepView {
    ReadSubtree,
    AskAddresses { source: Source, subtree: Entries },
    Done(OutcomeView),
}

impl View for Step {
    type V = StepView;

    open spec fn view(&self) -> StepView {
        match *self {
            Step::ReadSubtree => StepView::ReadSubtree,
            Step::AskAddresses { source, subtree } => StepView::AskAddresses {
                source,
                subtree: subtree@,
            },
            Step::Done(outcome) => StepView::Done(outcome@),
        }
    }
}

/// What a subtree says of the guest's address.
pub enum Opened {
    /// The subtree is no use, for this reason.
    Skip(String),
    /// It gives the address.
    Given { subtree: Table, ip: IpAddr },
    /// It gives none: the cluster has to say.
    Resolve { subtree: Table },
}

/// What an [`Opened`] says.
pub enum OpenedView {
    Skip(Seq<char>),
    Given { subtree: Entries, ip: IpAddr },
    Resolve { subtree: Entries },
}

impl View for Opened {
    type V = OpenedView;

    open spec fn view(&self) -> OpenedView {
        match *self {
            Opened::Skip(reason) => OpenedView::Skip(reason@),
            Opened::Given { subtree, ip } => OpenedView::Given { subtree: subtree@, ip },
            Opened::Resolve { subtree } => OpenedView::Resolve { subtree: subtree@ },
        }
    }
}

/// The entries without the one under `key`.
pub open spec fn without_key(entries: Entries, key: Seq<char>) -> Entries {
    match position(entries, key) {
        Some(i) => entries.remove(i),
        None => entries,
    }
}

/// A subtree that gives `text` as the guest's address, where that denotes
/// `parsed`.
pub open spec fn given_address(
    subtree: Entries,
    text: Seq<char>,
    parsed: Option<IpAddr>,
) -> OpenedView {
    match parsed {
        Some(ip) => OpenedView::Given { subtree, ip },
        None => OpenedView::Skip("'ip' "@ + quoted(text) + " is not an address"@),
    }
}

/// What a guest's subtree says of its address; `ip` is taken out of it.
pub open spec fn opened(data: Tree, prefix: Seq<char>) -> OpenedView {
    match data {
        Tree::Table(entries) => {
            let subtree = without_key(entries, "ip"@);
            match lookup(entries, "ip"@) {
                Some(Tree::Text(s)) => given_address(subtree, s, address_in(s)),
                Some(Tree::Null) => OpenedView::Resolve { subtree },
                None => OpenedView::Resolve { subtree },
                Some(_) => OpenedView::Skip("'ip' must be a string"@),
            }
        },
        _ => OpenedView::Skip("'"@ + prefix + "' is not a map"@),
    }
}

/// The guest that is rendered for a resource: without a name it goes by its
/// vmid.
pub open spec fn guest_of(resource: Resource, ip: Option<IpAddr>) -> GuestView {
    GuestView {
        vmid: resource.vmid,
        name: match resource.name {
            Some(name) => name@,
            None => decimal(resource.vmid as nat),
        },
        ip,
    }
}

/// What comes of a guest whose subtree and address are known.
pub open spec fn outcome(resource: Resource, subtree: Entries, ip: Option<IpAddr>) -> OutcomeView {
    match rendered(subtree, guest_of(resource, ip)) {
        Ok(share) => OutcomeView::Share(share),
        Err(problem) => OutcomeView::Skip(problem_text(problem)),
    }
}

/// The address to use: one that the guest reports, else one of its tags.
pub open spec fn resolved(live: Seq<IpAddr>, tagged: Seq<IpAddr>, cidrs: Seq<IpNet>) -> Option<
    IpAddr,
> {
    match picked(live, cidrs) {
        Some(ip) => Some(ip),
        None => picked(tagged, cidrs),
    }
}

/// The addresses that a resource's tags are.
pub open spec fn tagged_addresses(resource: Resource) -> Seq<IpAddr> {
    addresses_in(tags_of(resource.tags))
}

/// Who knows the addresses of a guest of this kind.
pub open spec fn source_of(kind: Seq<char>) -> Option<Source> {
    if kind == "lxc"@ {
        Some(Source::Container)
    } else if kind == "qemu"@ {
        Some(Source::Agent)
    } else {
        None
    }
}

/// What is next once the cluster said which addresses the guest has.
pub open spec fn with_addresses(
    resource: Resource,
    cidrs: Seq<IpNet>,
    subtree: Entries,
    live: Seq<IpAddr>,
) -> OutcomeView {
    outcome(resource, subtree, resolved(live, tagged_addresses(resource), cidrs))
}

/// What comes of a guest once its addresses were asked for. A container always
/// knows them, so a reply that failed is a failure of the cluster; a guest agent
/// may not be there, so its failure counts as none.
pub open spec fn heard(
    resource: Resource,
    cidrs: Seq<IpNet>,
    subtree: Entries,
    reply: Result<Seq<IpAddr>, Seq<char>>,
) -> OutcomeView {
    match reply {
        Ok(live) => with_addresses(resource, cidrs, subtree, live),
        Err(error) => if source_of(resource.kind@) == Some(Source::Container) {
            OutcomeView::Fail(error)
        } else {
            with_addresses(resource, cidrs, subtree, Seq::empty())
        },
    }
}

/// What is next for a guest whose subtree says this of its address.
pub open spec fn next_step(resource: Resource, cidrs: Seq<IpNet>, opened: OpenedView) -> StepView {
    match opened {
        OpenedView::Skip(reason) => StepView::Done(OutcomeView::Skip(reason)),
        OpenedView::Given { subtree, ip } => StepView::Done(outcome(resource, subtree, Some(ip))),
        OpenedView::Resolve { subtree } => match source_of(resource.kind@) {
            Some(source) => StepView::AskAddresses { source, subtree },
            None => StepView::Done(with_addresses(resource, cidrs, subtree, Seq::empty())),
        },
    }
}

/// What is said of an `ip` that is no address; `quoted` is its text between
/// quotes.
pub fn no_address_message(quoted: &str) -> (r: String)
    ensures
        r@ == "'ip' "@ + quoted@ + " is not an address"@,
{
    "'ip' ".to_string().concat(quoted).concat(" is not an address")
}

/// Reads the address that a subtree gives as `text`, where that denotes
/// `parsed`.
pub fn open_given(subtree: Table, text: &str, parsed: Option<IpAddr>) -> (r: Opened)
    ensures
        r@ == given_address(subtree@, text@, parsed),
{
    match parsed {
        Some(ip) => Opened::Given { subtree, ip },
        None => Opened::Skip(no_address_message(quote(text).as_str())),
    }
}

/// Reads what a guest's subtree says of its address, and takes `ip` out of it.
pub fn open_subtree(data: Value, prefix: &str) -> (r: Opened)
    ensures
        r@ == opened(data@, prefix@),
{
    let mut subtree = match data {
        Value::Table(subtree) => subtree,
        _ => {
            return Opened::Skip("'".to_string().concat(prefix).concat("' is not a map"));
        },
    };
    match subtree.position("ip") {
        None => Opened::Resolve { subtree },
        Some(i) => match subtree.remove_at(i) {
            Value::Text(s) => {
                let parsed = parse_address(s.as_str());
                open_given(subtree, s.as_str(), parsed)
            },
            Value::Null => Opened::Resolve { subtree },
            _ => Opened::Skip("'ip' must be a string".to_string()),
        },
    }
}

/// The address to use: one that the guest reports, else one of its tags.
pub fn resolve(live: &Vec<IpAddr>, tagged: &Vec<IpAddr>, cidrs: &Vec<IpNet>) -> (r: Option<IpAddr>)
    ensures
        r == resolved(live@, tagged@, cidrs@),
{
    match pick(live.as_slice(), cidrs.as_slice()) {
        Some(ip) => Some(ip),
        None => pick(tagged.as_slice(), cidrs.as_slice()),
    }
}

/// What comes of a guest whose subtree and address are known.
pub fn finish_guest(resource: &Resource, subtree: Table, ip: Option<IpAddr>) -> (r: Outcome)
    ensures
        r@ == outcome(*resource, subtree@, ip),
{
    let name = match &resource.name {
        Some(name) => name.clone(),
        None => decimal_text(resource.vmid),
    };
    let guest = Guest { vmid: resource.vmid, name, ip };
    match render(subtree, &guest) {
        Ok(share) => Outcome::Share(share),
        Err(problem) => Outcome::Skip(problem.message()),
    }
}

/// The first step for a guest: one that is not running contributes nothing.
pub fn begin(resource: &Resource) -> (r: Step)
    ensures
        r@ == if resource.status@ == "running"@ {
            StepView::ReadSubtree
        } else {
            StepView::Done(OutcomeView::Nothing)
        },
{
    if equal_text(resource.status.as_str(), "running") {
        Step::ReadSubtree
    } else {
        Step::Done(Outcome::Nothing)
    }
}

/// What is next for a guest whose subtree says this of its address.
pub fn after_opening(resource: &Resource, config: &Config, opened: Opened) -> (r: Step)
    ensures
        r@ == next_step(*resource, config.cidrs@, opened@),
{
    match opened {
        Opened::Skip(reason) => Step::Done(Outcome::Skip(reason)),
        Opened::Given { subtree, ip } => Step::Done(finish_guest(resource, subtree, Some(ip))),
        Opened::Resolve { subtree } => {
            if equal_text(resource.kind.as_str(), "lxc") {
                Step::AskAddresses { source: Source::Container, subtree }
            } else if equal_text(resource.kind.as_str(), "qemu") {
                Step::AskAddresses { source: Source::Agent, subtree }
            } else {
                Step::Done(after_addresses(resource, config, subtree, Ok(Vec::new())))
            }
        },
    }
}

/// What is next once the subtree was read, or could not be.
pub fn after_subtree(resource: &Resource, config: &Config, reply: Result<Value, String>) -> (r: Step)
    ensures
        r@ == match reply {
            Ok(data) => next_step(*resource, config.cidrs@, opened(data@, config.prefix@)),
            Err(error) => StepView::Done(OutcomeView::Fail(error@)),
        },
{
    match reply {
        Ok(data) => after_opening(resource, config, open_subtree(data, config.prefix.as_str())),
        Err(error) => Step::Done(Outcome::Fail(error)),
    }
}

/// What comes of a guest once its addresses were asked for. A failed reply of a
/// container fails the poll; one of a guest agent counts as no addresses.
pub fn after_addresses(
    resource: &Resource,
    config: &Config,
    subtree: Table,
    reply: Result<Vec<IpAddr>, String>,
) -> (r: Outcome)
    ensures
        r@ == heard(
            *resource,
            config.cidrs@,
            subtree@,
            match reply {
                Ok(live) => Ok(live@),
                Err(error) => Err(error@),
            },
        ),
{
    let live = match reply {
        Ok(live) => live,
        Err(error) => {
            if equal_text(resource.kind.as_str(), "lxc") {
                return Outcome::Fail(error);
            }
            Vec::new()
        },
    };
    let tagged = addresses_of(&resource.tags());
    finish_guest(resource, subtree, resolve(&live, &tagged, &config.cidrs))
}

} // verus!
