//! What holds of every poll: a guest that fails fails the poll, one that has
//! nothing to say changes nothing, and of two guests the lower vmid wins.
use vstd::prelude::*;

use crate::address::{address_in, picked};
use crate::address::{IpAddr, IpNet};
use crate::guest::{heard, next_step, opened, outcome, resolved, without_key};
use crate::guest::{OpenedView, OutcomeView, StepView};
use crate::laws::merging::{entry_in, names_belong_to_the_lowest_vmid};
use crate::laws::merging::{reports_make_no_difference, winner, winner_has_the_lowest_vmid};
use crate::merge::orderly;
use crate::poll::{assembled, failure_in, shares_in, warnings_in, RoundView};
use crate::poll::{distinct_vmids, of_vmid, order_of_rows_makes_no_difference, selects};
use crate::pve::Resource;
use crate::text::{precedes, precedes_irreflexive};
use crate::value::{lookup, Entries, Tree};
use crate::warnings::lists;

verus! {

proof fn failure_found(results: Seq<(u64, OutcomeView)>, i: int)
    requires
        0 <= i < results.len(),
        results[i].1 is Fail,
    ensures
        failure_in(results) is Some,
    decreases results.len(),
{
    let front = results.drop_last();
    if i < front.len() {
        assert(front[i] == results[i]);
        failure_found(front, i);
    }
}

proof fn failure_comes_from(results: Seq<(u64, OutcomeView)>) -> (i: int)
    requires
        failure_in(results) is Some,
    ensures
        0 <= i < results.len(),
        results[i].1 is Fail,
    decreases results.len(),
{
    let front = results.drop_last();
    if failure_in(front) is Some {
        let i = failure_comes_from(front);
        assert(front[i] == results[i]);
        i
    } else {
        results.len() - 1
    }
}

/// A poll fails exactly when one of its guests fails: there is no document with
/// a guest missing that could not be read.
pub proof fn failed_guest_fails_the_poll(results: Seq<(u64, OutcomeView)>)
    ensures
        assembled(results) is Failed <==> exists|i: int|
            0 <= i < results.len() && (#[trigger] results[i]).1 is Fail,
{
    if failure_in(results) is Some {
        let i = failure_comes_from(results);
        assert(results[i].1 is Fail);
    }
    if exists|i: int| 0 <= i < results.len() && (#[trigger] results[i]).1 is Fail {
        let i = choose|i: int| 0 <= i < results.len() && (#[trigger] results[i]).1 is Fail;
        failure_found(results, i);
    }
}

proof fn dropped(results: Seq<(u64, OutcomeView)>, i: int)
    requires
        0 <= i < results.len(),
    ensures
        !(results[i].1 is Fail) ==> failure_in(results.remove(i)) == failure_in(results),
        !(results[i].1 is Share) ==> shares_in(results.remove(i)) == shares_in(results),
        !(results[i].1 is Skip) ==> warnings_in(results.remove(i)) == warnings_in(results),
    decreases results.len(),
{
    let front = results.drop_last();
    let less = results.remove(i);
    if i == results.len() - 1 {
        assert(less =~= front);
    } else {
        assert(front[i] == results[i]);
        dropped(front, i);
        assert(less.drop_last() =~= front.remove(i));
        assert(less.last() == results.last());
    }
}

/// A guest that has nothing to contribute makes no difference to the poll, as
/// if it were not there.
pub proof fn silent_guest_changes_nothing(results: Seq<(u64, OutcomeView)>, i: int)
    requires
        0 <= i < results.len(),
        results[i].1 is Nothing,
    ensures
        assembled(results.remove(i)) == assembled(results),
{
    dropped(results, i);
}

/// A guest that is skipped takes nothing from the others: the document is what
/// it would be without the guest.
pub proof fn skipped_guest_leaves_the_others(results: Seq<(u64, OutcomeView)>, i: int)
    requires
        0 <= i < results.len(),
        results[i].1 is Skip,
    ensures
        match (assembled(results), assembled(results.remove(i))) {
            (RoundView::Document { doc, .. }, RoundView::Document { doc: without, .. }) => doc
                == without,
            (RoundView::Failed(error), RoundView::Failed(other)) => error == other,
            _ => false,
        },
{
    dropped(results, i);
    reports_make_no_difference(
        shares_in(results),
        warnings_in(results),
        warnings_in(results.remove(i)),
    );
}

/// What came of the guests that took part.
pub open spec fn outcomes_for(
    picked: Seq<Resource>,
    outcome: spec_fn(Resource) -> OutcomeView,
) -> Seq<(u64, OutcomeView)> {
    picked.map_values(|r: Resource| (r.vmid, outcome(r)))
}

/// A round follows from what the cluster lists and from what comes of each guest:
/// another order of the rows, where each guest has one, or of the vmids with the
/// prefix, or a vmid named more than once, changes neither the document nor the
/// warnings nor an error.
pub proof fn round_follows_from_the_lists(
    picked: Seq<Resource>,
    other_picked: Seq<Resource>,
    rows: Seq<Resource>,
    other_rows: Seq<Resource>,
    vmids: Seq<u64>,
    other_vmids: Seq<u64>,
    outcome: spec_fn(Resource) -> OutcomeView,
)
    requires
        distinct_vmids(rows),
        distinct_vmids(other_rows),
        forall|r: Resource| #[trigger] rows.contains(r) <==> other_rows.contains(r),
        forall|v: u64| #[trigger] vmids.contains(v) <==> other_vmids.contains(v),
        selects(picked, rows, vmids),
        selects(other_picked, other_rows, other_vmids),
    ensures
        assembled(outcomes_for(picked, outcome)) == assembled(
            outcomes_for(other_picked, outcome),
        ),
{
    order_of_rows_makes_no_difference(
        picked,
        other_picked,
        rows,
        other_rows,
        vmids,
        other_vmids,
    );
}

/// The shares are those of the guests.
proof fn share_comes_from(results: Seq<(u64, OutcomeView)>, p: int) -> (i: int)
    requires
        0 <= p < shares_in(results).len(),
    ensures
        0 <= i < results.len(),
        results[i] == (
            shares_in(results)[p].0,
            OutcomeView::Share(shares_in(results)[p].1),
        ),
    decreases results.len(),
{
    let front = results.drop_last();
    if p < shares_in(front).len() {
        let i = share_comes_from(front, p);
        assert(front[i] == results[i]);
        i
    } else {
        results.len() - 1
    }
}

proof fn share_listed(results: Seq<(u64, OutcomeView)>, i: int, share: Entries) -> (p: int)
    requires
        0 <= i < results.len(),
        results[i].1 == OutcomeView::Share(share),
    ensures
        0 <= p < shares_in(results).len(),
        shares_in(results)[p] == (results[i].0, share),
    decreases results.len(),
{
    let front = results.drop_last();
    if i < front.len() {
        assert(front[i] == results[i]);
        share_listed(front, i, share)
    } else {
        shares_in(front).len() as int
    }
}

/// The lower vmid wins: whatever guest declares a name that the document has,
/// the document has it as a guest declares it whose vmid is not higher.
pub proof fn lower_vmid_wins(
    results: Seq<(u64, OutcomeView)>,
    doc: Entries,
    section: Seq<char>,
    kind: Seq<char>,
    name: Seq<char>,
    i: int,
    share: Entries,
)
    requires
        forall|k: int|
            0 <= k < results.len() ==> ((#[trigger] results[k]).1 matches OutcomeView::Share(own)
                ==> orderly(own)),
        assembled(results) matches RoundView::Document { doc: d, .. } && d == doc,
        entry_in(doc, section, kind, name) is Some,
        0 <= i < results.len(),
        results[i].1 == OutcomeView::Share(share),
        entry_in(share, section, kind, name) is Some,
    ensures
        exists|j: int|
            {
                &&& 0 <= j < results.len()
                &&& (#[trigger] results[j]).0 <= results[i].0
                &&& results[j].1 matches OutcomeView::Share(own)
                &&& entry_in(own, section, kind, name) == entry_in(doc, section, kind, name)
            },
{
    let shares = shares_in(results);
    let p = share_listed(results, i, share);
    assert forall|q: int| 0 <= q < shares.len() implies orderly((#[trigger] shares[q]).1) by {
        let k = share_comes_from(results, q);
        assert(results[k].1 == OutcomeView::Share(shares[q].1));
    }
    names_belong_to_the_lowest_vmid(shares, warnings_in(results), section, kind, name);
    winner_has_the_lowest_vmid(shares, section, kind, name);
    assert(shares[p].1 == share);
    let w = winner(shares, section, kind, name)->0;
    let j = share_comes_from(results, w);
    assert(results[j].0 <= results[i].0);
}

/// The address that a subtree gives is trusted as given: the cluster is not
/// asked, and its networks do not count.
pub proof fn given_address_is_trusted(
    resource: Resource,
    cidrs: Seq<IpNet>,
    entries: Entries,
    prefix: Seq<char>,
    text: Seq<char>,
    ip: IpAddr,
)
    requires
        lookup(entries, "ip"@) == Some(Tree::Text(text)),
        address_in(text) == Some(ip),
    ensures
        next_step(resource, cidrs, opened(Tree::Table(entries), prefix)) == StepView::Done(
            outcome(resource, without_key(entries, "ip"@), Some(ip)),
        ),
{
}

/// A guest whose subtree was read fails the poll only where it is a container
/// and asking for its addresses failed. Nothing that its subtree says, and no
/// failure of a guest agent, does so.
pub proof fn only_the_cluster_fails(
    resource: Resource,
    cidrs: Seq<IpNet>,
    opened: OpenedView,
    subtree: Entries,
    reply: Result<Seq<IpAddr>, Seq<char>>,
)
    ensures
        !(next_step(resource, cidrs, opened) matches StepView::Done(OutcomeView::Fail(_))),
        heard(resource, cidrs, subtree, reply) is Fail <==> reply is Err && resource.kind@
            == "lxc"@,
{
}

/// What the guest reports goes before its tags; they count where nothing that it
/// reports does.
pub proof fn reported_addresses_go_before_tags(
    live: Seq<IpAddr>,
    tagged: Seq<IpAddr>,
    cidrs: Seq<IpNet>,
)
    ensures
        picked(live, cidrs) is Some ==> resolved(live, tagged, cidrs) == picked(live, cidrs),
        picked(live, cidrs) is None ==> resolved(live, tagged, cidrs) == picked(tagged, cidrs),
{
}

/// A warning that stays is not reported again: nothing appears and nothing is
/// resolved between two rounds with the same warnings.
pub proof fn standing_warnings_are_no_news(
    now: Set<Seq<char>>,
    appeared: Seq<Seq<char>>,
    resolved: Seq<Seq<char>>,
)
    requires
        lists(appeared, now.difference(now)),
        lists(resolved, now.difference(now)),
    ensures
        appeared.len() == 0,
        resolved.len() == 0,
{
    if appeared.len() > 0 {
        assert(appeared.to_set().contains(appeared[0]));
    }
    if resolved.len() > 0 {
        assert(resolved.to_set().contains(resolved[0]));
    }
}

/// What is listed of a set is in the order of texts, each text once.
pub proof fn lists_are_in_order(list: Seq<Seq<char>>, set: Set<Seq<char>>, i: int, j: int)
    requires
        lists(list, set),
        0 <= i < j < list.len(),
    ensures
        precedes(list[i], list[j]),
        list[i] != list[j],
        set.contains(list[i]),
{
    precedes_irreflexive(list[i]);
    assert(list.contains(list[i]));
}

/// Whatever is in the set is listed.
pub proof fn lists_are_complete(list: Seq<Seq<char>>, set: Set<Seq<char>>, text: Seq<char>)
    requires
        lists(list, set),
        set.contains(text),
    ensures
        list.contains(text),
{
}

/// The guests take part in the order of their vmids, and the rows of one vmid, if
/// it has something at the prefix, in the order that the cluster lists them in,
/// none left out and none added.
pub proof fn guests_come_in_the_order_of_their_vmids(
    picked: Seq<Resource>,
    rows: Seq<Resource>,
    vmids: Seq<u64>,
    i: int,
    j: int,
    vmid: u64,
)
    requires
        selects(picked, rows, vmids),
    ensures
        0 <= i < j < picked.len() ==> picked[i].vmid <= picked[j].vmid,
        vmids.contains(vmid) ==> picked.filter(|r: Resource| r.vmid == vmid) == rows.filter(
            |r: Resource| r.vmid == vmid,
        ),
        !vmids.contains(vmid) ==> picked.filter(|r: Resource| r.vmid == vmid).len() == 0,
{
    assert(of_vmid(picked, vmid) == if vmids.contains(vmid) {
        of_vmid(rows, vmid)
    } else {
        Seq::<Resource>::empty()
    });
}

} // verus!
