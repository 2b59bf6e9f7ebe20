//! What a round makes of the guests' outcomes, guest by guest.
use vstd::prelude::*;

use crate::guest::{Outcome, OutcomeView};
use crate::laws::messages::{conflicts_name_the_guest, guest_first};
use crate::merge::{merged, merging, shares_of, Share};
use crate::poll::{about_guest, assembled, failure_in, outcomes_of, shares_in, warnings_in};
use crate::poll::RoundView;
use crate::text::texts;
use crate::value::Table;

verus! {

/// Outcomes are taken one by one, in the order of the guests.
pub proof fn outcomes_are_taken_one_by_one(
    results: Seq<(u64, OutcomeView)>,
    more: Seq<(u64, OutcomeView)>,
)
    ensures
        shares_in(results + more) == shares_in(results) + shares_in(more),
        warnings_in(results + more) == warnings_in(results) + warnings_in(more),
    decreases more.len(),
{
    if more.len() == 0 {
        assert(results + more =~= results);
        assert(shares_in(results) + shares_in(more) =~= shares_in(results));
        assert(warnings_in(results) + warnings_in(more) =~= warnings_in(results));
    } else {
        outcomes_are_taken_one_by_one(results, more.drop_last());
        assert((results + more).drop_last() =~= results + more.drop_last());
        assert((results + more).last() == more.last());
        assert(shares_in(results + more) =~= shares_in(results) + shares_in(more));
        assert(warnings_in(results + more) =~= warnings_in(results) + warnings_in(more));
    }
}

/// What one guest adds: its share under its vmid, or a warning that begins with
/// its vmid and gives the reason, or nothing.
pub proof fn outcome_adds_what_it_says(vmid: u64, outcome: OutcomeView)
    ensures
        shares_in(seq![(vmid, outcome)]) == (match outcome {
            OutcomeView::Share(share) => seq![(vmid, share)],
            _ => Seq::<Share>::empty(),
        }),
        warnings_in(seq![(vmid, outcome)]).len() == if outcome is Skip {
            1int
        } else {
            0
        },
        outcome matches OutcomeView::Skip(reason) ==> guest_first(
            warnings_in(seq![(vmid, outcome)])[0],
            vmid,
            reason,
        ),
{
    let results = seq![(vmid, outcome)];
    assert(results.drop_last() =~= Seq::empty());
    assert(results.last() == (vmid, outcome));
    assert(shares_in(results.drop_last()) =~= Seq::<Share>::empty());
    assert(warnings_in(results.drop_last()) =~= Seq::<Seq<char>>::empty());
    if let OutcomeView::Share(share) = outcome {
        assert(shares_in(results) =~= seq![(vmid, share)]);
    }
    if let OutcomeView::Skip(reason) = outcome {
        assert(warnings_in(results) =~= seq![about_guest(vmid, reason)]);
        conflicts_name_the_guest(
            vmid,
            reason,
            reason,
            reason,
            vmid,
            reason,
        );
    }
}

/// The poll fails with the error of the first guest that failed, said of that
/// guest.
pub proof fn first_failure_is_the_polls(
    results: Seq<(u64, OutcomeView)>,
    i: int,
    error: Seq<char>,
)
    requires
        0 <= i < results.len(),
        results[i].1 == OutcomeView::Fail(error),
        forall|j: int| 0 <= j < i ==> !((#[trigger] results[j]).1 is Fail),
    ensures
        assembled(results) matches RoundView::Failed(text) && guest_first(
            text,
            results[i].0,
            error,
        ),
    decreases results.len(),
{
    let front = results.drop_last();
    assert(forall|j: int| 0 <= j < front.len() ==> front[j] == #[trigger] results[j]);
    if i < front.len() {
        first_failure_is_the_polls(front, i, error);
    } else {
        no_failure(front);
        conflicts_name_the_guest(
            results[i].0,
            error,
            error,
            error,
            results[i].0,
            error,
        );
    }
}

proof fn no_failure(results: Seq<(u64, OutcomeView)>)
    requires
        forall|j: int| 0 <= j < results.len() ==> !((#[trigger] results[j]).1 is Fail),
    ensures
        failure_in(results) is None,
    decreases results.len(),
{
    if results.len() > 0 {
        let front = results.drop_last();
        assert(forall|j: int| 0 <= j < front.len() ==> front[j] == #[trigger] results[j]);
        no_failure(front);
        assert(!(results[results.len() - 1].1 is Fail));
    }
}

/// Where no guest failed the document is that of all shares, and the warnings are
/// those about guests that were skipped and those about conflicts.
pub proof fn shares_make_the_document(results: Seq<(u64, OutcomeView)>)
    requires
        forall|j: int| 0 <= j < results.len() ==> !((#[trigger] results[j]).1 is Fail),
    ensures
        assembled(results) matches RoundView::Document { doc, warnings } && doc == merged(
            shares_in(results),
            warnings_in(results),
        ).table && warnings == merged(shares_in(results), warnings_in(results)).conflicts,
{
    no_failure(results);
}

/// Every guest's outcome counts as its own, under its vmid.
pub proof fn outcomes_keep_their_guests(
    results: Seq<(u64, Outcome)>,
    shares: Seq<(u64, Table)>,
    i: int,
)
    ensures
        outcomes_of(results).len() == results.len(),
        shares_of(shares).len() == shares.len(),
        0 <= i < results.len() ==> outcomes_of(results)[i] == (results[i].0, results[i].1@),
        0 <= i < shares.len() ==> shares_of(shares)[i] == (shares[i].0, shares[i].1@),
{
}

/// A list of texts says each of them.
pub proof fn texts_are_said_one_by_one(said: Seq<String>, table: Table, i: int)
    ensures
        texts(said).len() == said.len(),
        0 <= i < said.len() ==> texts(said)[i] == said[i]@,
        merging(table, said).table == table@,
        merging(table, said).conflicts == texts(said),
{
}

} // verus!
