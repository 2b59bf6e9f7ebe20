//! What comes of a guest: where it is rendered, and when it is not.
use vstd::prelude::*;

use crate::address::{address_in, pick_follows_the_networks, picked, IpAddr, IpNet};
use crate::address::pick_without_networks_takes_a_global_address;
use crate::guest::{heard, next_step, opened, outcome, tagged_addresses, without_key};
use crate::guest::{OutcomeView, Source, StepView};
use crate::laws::addresses::{comes_first, first_candidate_inside_is_picked};
use crate::laws::addresses::{first_usable_candidate_is_picked, goes_first, inside, usable};
use crate::laws::tables::found_at;
use crate::problem::{problem_text, quoted};
use crate::pve::Resource;
use crate::render::{rendered, GuestView};
use crate::text::{decimal, precedes, precedes_irreflexive};
use crate::value::{key_at, key_at_unique, key_found, lookup, ordered, position, Entries, Tree};

verus! {

/// The subtree is rendered for the guest at that address, and what comes of it
/// is the guest's share, or the reason why there is none.
pub open spec fn rendered_at(
    resource: Resource,
    subtree: Entries,
    ip: Option<IpAddr>,
    result: OutcomeView,
) -> bool {
    let name = match resource.name {
        Some(name) => name@,
        None => decimal(resource.vmid as nat),
    };
    match rendered(subtree, GuestView { vmid: resource.vmid, name, ip }) {
        Ok(share) => result == OutcomeView::Share(share),
        Err(problem) => result == OutcomeView::Skip(problem_text(problem)),
    }
}

/// A guest goes by its name, or by its vmid where it has none, and a subtree that
/// cannot be rendered skips it with the reason.
pub proof fn guest_is_rendered(resource: Resource, subtree: Entries, ip: Option<IpAddr>)
    ensures
        rendered_at(resource, subtree, ip, outcome(resource, subtree, ip)),
{
}

/// Whatever kind of guest it is: where it replied with addresses and one of them
/// can be picked, it is rendered at that one. Only where none can be its tags
/// count, and it is rendered at the one picked from them, or at none.
pub proof fn reply_decides_the_address(
    resource: Resource,
    cidrs: Seq<IpNet>,
    subtree: Entries,
    live: Seq<IpAddr>,
)
    ensures
        ({
            let name = match resource.name {
                Some(name) => name@,
                None => decimal(resource.vmid as nat),
            };
            let ip = match picked(live, cidrs) {
                Some(ip) => Some(ip),
                None => picked(tagged_addresses(resource), cidrs),
            };
            heard(resource, cidrs, subtree, Ok(live)) == match rendered(
                subtree,
                GuestView { vmid: resource.vmid, name, ip },
            ) {
                Ok(share) => OutcomeView::Share(share),
                Err(problem) => OutcomeView::Skip(problem_text(problem)),
            }
        }),
{
}

/// Without networks a guest is rendered at the first address of its reply that
/// counts, IPv4 before IPv6.
pub proof fn first_usable_reply_is_rendered(
    resource: Resource,
    subtree: Entries,
    live: Seq<IpAddr>,
    i: int,
)
    requires
        comes_first(live, i),
    ensures
        rendered_at(
            resource,
            subtree,
            Some(live[i]),
            heard(resource, Seq::empty(), subtree, Ok(live)),
        ),
{
    first_usable_candidate_is_picked(live);
    assert(usable(live[i]));
    let k = choose|k: int| #[trigger]
        comes_first(live, k) && live[k] == picked(live, Seq::empty())->0;
    assert(k == i);
}

/// With networks a guest is rendered at the first address of its reply inside the
/// first network that has one.
pub proof fn first_reply_inside_is_rendered(
    resource: Resource,
    cidrs: Seq<IpNet>,
    subtree: Entries,
    live: Seq<IpAddr>,
    n: int,
    k: int,
)
    requires
        goes_first(live, cidrs, n, k),
        forall|m: int|
            0 <= m < cidrs.len() ==> match #[trigger] cidrs[m] {
                IpNet::V4(v4) => v4.prefix_len() <= 32,
                IpNet::V6(v6) => v6.prefix_len() <= 128,
            },
    ensures
        rendered_at(resource, subtree, Some(live[k]), heard(resource, cidrs, subtree, Ok(live))),
{
    first_candidate_inside_is_picked(live, cidrs);
    assert(inside(cidrs[n], live[k]));
    let (m, j) = choose|m: int, j: int| #[trigger]
        goes_first(live, cidrs, m, j) && live[j] == picked(live, cidrs)->0;
    if m < n {
        assert(!inside(cidrs[m], live[j]));
    }
    if n < m {
        assert(!inside(cidrs[n], live[k]));
    }
    assert(j == k);
}

/// A failed reply of a container fails the poll with its error. One of any other
/// guest counts as no addresses: its tags decide.
pub proof fn failed_reply_leaves_the_tags(
    resource: Resource,
    cidrs: Seq<IpNet>,
    subtree: Entries,
    error: Seq<char>,
)
    ensures
        ({
            let result = heard(resource, cidrs, subtree, Err(error));
            if resource.kind@ == seq!['l', 'x', 'c'] {
                result == OutcomeView::Fail(error)
            } else {
                rendered_at(
                    resource,
                    subtree,
                    picked(tagged_addresses(resource), cidrs),
                    result,
                )
            }
        }),
{
    reveal_strlit("lxc");
    assert("lxc"@ =~= seq!['l', 'x', 'c']);
    reveal_strlit("qemu");
    assert("qemu"@.len() == 4);
    assert(picked(Seq::empty(), cidrs) is None) by {
        nothing_to_pick(cidrs);
    }
}

proof fn nothing_to_pick(cidrs: Seq<IpNet>)
    ensures
        picked(Seq::empty(), cidrs) is None,
{
    if cidrs.len() > 0 {
        pick_follows_the_networks(Seq::empty(), cidrs);
    } else {
        assert(cidrs =~= Seq::empty());
        pick_without_networks_takes_a_global_address(Seq::empty());
    }
}

/// Who is asked for the addresses: a container itself, a VM's guest agent, and
/// nobody for a guest of another kind, whose tags decide at once. The subtree is
/// the one without the address in it.
pub proof fn cluster_is_asked_for_addresses(
    resource: Resource,
    cidrs: Seq<IpNet>,
    entries: Entries,
    prefix: Seq<char>,
)
    requires
        lookup(entries, "ip"@) is None || lookup(entries, "ip"@) == Some(Tree::Null),
    ensures
        ({
            let step = next_step(resource, cidrs, opened(Tree::Table(entries), prefix));
            let subtree = without_key(entries, "ip"@);
            if resource.kind@ == seq!['l', 'x', 'c'] {
                step == StepView::AskAddresses { source: Source::Container, subtree }
            } else if resource.kind@ == seq!['q', 'e', 'm', 'u'] {
                step == StepView::AskAddresses { source: Source::Agent, subtree }
            } else {
                step matches StepView::Done(result) && rendered_at(
                    resource,
                    subtree,
                    picked(tagged_addresses(resource), cidrs),
                    result,
                )
            }
        }),
{
    reveal_strlit("lxc");
    assert("lxc"@ =~= seq!['l', 'x', 'c']);
    reveal_strlit("qemu");
    assert("qemu"@ =~= seq!['q', 'e', 'm', 'u']);
    nothing_to_pick(cidrs);
}

/// A guest whose subtree gives an address is rendered at that one, without the
/// address in the subtree.
pub proof fn given_address_is_rendered(
    resource: Resource,
    cidrs: Seq<IpNet>,
    entries: Entries,
    prefix: Seq<char>,
    text: Seq<char>,
)
    requires
        lookup(entries, "ip"@) == Some(Tree::Text(text)),
    ensures
        ({
            let step = next_step(resource, cidrs, opened(Tree::Table(entries), prefix));
            match address_in(text) {
                Some(ip) => step matches StepView::Done(result) && rendered_at(
                    resource,
                    without_key(entries, "ip"@),
                    Some(ip),
                    result,
                ),
                None => step == StepView::Done(
                    OutcomeView::Skip("'ip' "@ + quoted(text) + " is not an address"@),
                ),
            }
        }),
{
}

/// A subtree that is no map, or whose address is no text, is no use, and the guest
/// is skipped with the reason.
pub proof fn useless_subtree_is_skipped(
    resource: Resource,
    cidrs: Seq<IpNet>,
    data: Tree,
    prefix: Seq<char>,
)
    ensures
        ({
            let step = next_step(resource, cidrs, opened(data, prefix));
            match data {
                Tree::Table(entries) => match lookup(entries, "ip"@) {
                    None => true,
                    Some(Tree::Null) => true,
                    Some(Tree::Text(_)) => true,
                    Some(_) => step == StepView::Done(
                        OutcomeView::Skip("'ip' must be a string"@),
                    ),
                },
                _ => step == StepView::Done(
                    OutcomeView::Skip(seq!['\''] + prefix + "' is not a map"@),
                ),
            }
        }),
{
    reveal_strlit("'");
    assert("'"@ =~= seq!['\'']);
}

/// What is taken out is gone, and everything else stays where it is.
pub proof fn only_that_key_is_taken_out(entries: Entries, key: Seq<char>, other: Seq<char>)
    requires
        ordered(entries),
    ensures
        lookup(without_key(entries, key), key) is None,
        other != key ==> lookup(without_key(entries, key), other) == lookup(entries, other),
        lookup(entries, key) is None ==> without_key(entries, key) == entries,
        lookup(entries, key) is Some ==> without_key(entries, key).len() == entries.len() - 1,
{
    let after = without_key(entries, key);
    if let Some(i) = position(entries, key) {
        assert(key_at(entries, key, i));
        assert(after == entries.remove(i));
        assert forall|j: int| 0 <= j < after.len() implies (#[trigger] after[j]).0 != key by {
            let q = if j < i {
                j
            } else {
                j + 1
            };
            assert(after[j] == entries[q]);
            if entries[q].0 == key {
                precedes_irreflexive(key);
                if q < i {
                    assert(precedes(entries[q].0, entries[i].0));
                } else {
                    assert(precedes(entries[i].0, entries[q].0));
                }
            }
        }
        if lookup(after, key) is Some {
            let j = found_at(after, key);
            assert(after[j].0 == key);
        }
        if other != key {
            if lookup(entries, other) is Some {
                let k = found_at(entries, other);
                let q = if k < i {
                    k
                } else {
                    k - 1
                };
                assert(after[q] == entries[k]);
                assert forall|j: int| 0 <= j < q implies (#[trigger] after[j]).0 != other by {
                    if j < i {
                        assert(after[j] == entries[j]);
                    } else {
                        assert(after[j] == entries[j + 1]);
                    }
                }
                assert(key_at(after, other, q));
                key_at_unique(after, other, q);
            } else if lookup(after, other) is Some {
                let j = found_at(after, other);
                let q = if j < i {
                    j
                } else {
                    j + 1
                };
                assert(after[j] == entries[q]);
                key_found(entries, other, q);
            }
        }
    } else if lookup(after, key) is Some {
        assert(false);
    }
}

} // verus!
