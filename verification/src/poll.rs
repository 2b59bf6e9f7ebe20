//! One round of a poll: which guests take part, what their outcomes make of the
//! document, and what Traefik is answered.
use vstd::prelude::*;

use crate::guest::{Outcome, OutcomeView};
use crate::merge::merge;
use crate::merge::{merged, shares_of, Share};
use crate::pve::Resource;
use crate::text::decimal_text;
use crate::text::{decimal, texts};
use crate::value::Entries;
use crate::value::Table;

verus! {

/// The resources with this vmid, in their order.
pub open spec fn of_vmid(resources: Seq<Resource>, vmid: u64) -> Seq<Resource> {
    resources.filter(|r: Resource| r.vmid == vmid)
}

/// Resources in the order of their vmids.
pub open spec fn by_vmid(resources: Seq<Resource>) -> bool {
    forall|i: int, j: int|
        0 <= i < j < resources.len() ==> (#[trigger] resources[i]).vmid <= (
        #[trigger] resources[j]).vmid
}

proof fn of_vmid_push(resources: Seq<Resource>, r: Resource, vmid: u64)
    ensures
        of_vmid(resources.push(r), vmid) == if r.vmid == vmid {
            of_vmid(resources, vmid).push(r)
        } else {
            of_vmid(resources, vmid)
        },
{
    reveal(Seq::filter);
    assert(resources.push(r).drop_last() == resources);
}

proof fn of_vmid_none(resources: Seq<Resource>, vmid: u64)
    requires
        forall|i: int| 0 <= i < resources.len() ==> (#[trigger] resources[i]).vmid != vmid,
    ensures
        of_vmid(resources, vmid) == Seq::<Resource>::empty(),
    decreases resources.len(),
{
    reveal(Seq::filter);
    if resources.len() > 0 {
        assert(resources.last() == resources[resources.len() - 1]);
        of_vmid_none(resources.drop_last(), vmid);
    }
}

proof fn of_vmid_add(a: Seq<Resource>, b: Seq<Resource>, vmid: u64)
    ensures
        of_vmid(a + b, vmid) == of_vmid(a, vmid) + of_vmid(b, vmid),
    decreases b.len(),
{
    if b.len() == 0 {
        of_vmid_none(b, vmid);
        assert(a + b == a);
        assert(of_vmid(a, vmid) + Seq::<Resource>::empty() == of_vmid(a, vmid));
    } else {
        let front = b.drop_last();
        of_vmid_add(a, front, vmid);
        assert(a + b == (a + front).push(b.last()));
        assert(b == front.push(b.last()));
        of_vmid_push(a + front, b.last(), vmid);
        of_vmid_push(front, b.last(), vmid);
        if b.last().vmid == vmid {
            assert((of_vmid(a, vmid) + of_vmid(front, vmid)).push(b.last()) == of_vmid(a, vmid)
                + of_vmid(front, vmid).push(b.last()));
        }
    }
}

proof fn of_vmid_insert(resources: Seq<Resource>, p: int, r: Resource, vmid: u64)
    requires
        0 <= p <= resources.len(),
        forall|j: int| p <= j < resources.len() ==> r.vmid < (#[trigger] resources[j]).vmid,
    ensures
        of_vmid(resources.insert(p, r), vmid) == if r.vmid == vmid {
            of_vmid(resources, vmid).push(r)
        } else {
            of_vmid(resources, vmid)
        },
{
    let front = resources.take(p);
    let back = resources.skip(p);
    assert(resources == front + back);
    assert(resources.insert(p, r) == front.push(r) + back);
    of_vmid_add(front, back, vmid);
    of_vmid_add(front.push(r), back, vmid);
    of_vmid_push(front, r, vmid);
    if r.vmid == vmid {
        of_vmid_none(back, vmid);
        assert(of_vmid(resources, vmid) == of_vmid(front, vmid));
        assert(of_vmid(front, vmid).push(r) + Seq::<Resource>::empty() == of_vmid(
            front,
            vmid,
        ).push(r));
    }
}

/// The guests that take part: those with a vmid of the list, in the order of
/// their vmids, and rows of one vmid in the order that they had.
pub open spec fn selects(
    picked: Seq<Resource>,
    resources: Seq<Resource>,
    with_prefix: Seq<u64>,
) -> bool {
    &&& by_vmid(picked)
    &&& forall|vmid: u64|
        #![trigger of_vmid(picked, vmid)]
        of_vmid(picked, vmid) == if with_prefix.contains(vmid) {
            of_vmid(resources, vmid)
        } else {
            Seq::<Resource>::empty()
        }
}

fn among(vmids: &Vec<u64>, vmid: u64) -> (r: bool)
    ensures
        r == vmids@.contains(vmid),
{
    let mut i: usize = 0;
    while i < vmids.len()
        invariant
            i <= vmids@.len(),
            forall|j: int| 0 <= j < i ==> vmids@[j] != vmid,
        decreases vmids@.len() - i,
    {
        if vmids[i] == vmid {
            return true;
        }
        i = i + 1;
    }
    false
}

/// The guests that take part: those whose metadata has something at the prefix,
/// in the order of their vmids.
pub fn select_guests(resources: Vec<Resource>, with_prefix: &Vec<u64>) -> (r: Vec<Resource>)
    ensures
        selects(r@, resources@, with_prefix@),
{
    let ghost given = resources@;
    let mut out: Vec<Resource> = Vec::new();
    proof {
        assert forall|vmid: u64| #[trigger] of_vmid(out@, vmid) == of_vmid(given.take(0), vmid) by {
            assert(given.take(0) == out@);
        }
        assert forall|vmid: u64| #[trigger] of_vmid(out@, vmid) == Seq::<Resource>::empty() by {
            of_vmid_none(out@, vmid);
        }
    }
    for resource in it: resources
        invariant
            it.seq() == given,
            by_vmid(out@),
            forall|vmid: u64|
                #![trigger of_vmid(out@, vmid)]
                of_vmid(out@, vmid) == if with_prefix@.contains(vmid) {
                    of_vmid(given.take(it.index()), vmid)
                } else {
                    Seq::<Resource>::empty()
                },
    {
        let ghost i = it.index();
        let ghost before = out@;
        assert(given.take(i + 1) == given.take(i).push(resource));
        if among(with_prefix, resource.vmid) {
            let mut p: usize = 0;
            while p < out.len() && out[p].vmid <= resource.vmid
                invariant
                    p <= out@.len(),
                    forall|j: int| 0 <= j < p ==> (#[trigger] out@[j]).vmid <= resource.vmid,
                decreases out@.len() - p,
            {
                p = p + 1;
            }
            assert forall|j: int| p <= j < before.len() implies resource.vmid < (
            #[trigger] before[j]).vmid by {
                if p < j {
                    assert(before[p as int].vmid <= before[j].vmid);
                }
            }
            let ghost added = resource;
            out.insert(p, resource);
            assert(out@ == before.insert(p as int, added));
            proof {
                assert forall|vmid: u64| #[trigger]
                    of_vmid(out@, vmid) == if with_prefix@.contains(vmid) {
                        of_vmid(given.take(i + 1), vmid)
                    } else {
                        Seq::<Resource>::empty()
                    } by {
                    of_vmid_insert(before, p as int, added, vmid);
                    of_vmid_push(given.take(i), added, vmid);
                    assert(of_vmid(before, vmid) == if with_prefix@.contains(vmid) {
                        of_vmid(given.take(i), vmid)
                    } else {
                        Seq::<Resource>::empty()
                    });
                }
                assert forall|a: int, b: int| 0 <= a < b < out@.len() implies (
                #[trigger] out@[a]).vmid <= (#[trigger] out@[b]).vmid by {
                    let a0 = if a > p {
                        a - 1
                    } else {
                        a
                    };
                    let b0 = if b > p {
                        b - 1
                    } else {
                        b
                    };
                    if a != p {
                        assert(out@[a] == before[a0]);
                    }
                    if b != p {
                        assert(out@[b] == before[b0]);
                    }
                }
            }
        } else {
            proof {
                assert forall|vmid: u64| #[trigger]
                    of_vmid(out@, vmid) == if with_prefix@.contains(vmid) {
                        of_vmid(given.take(i + 1), vmid)
                    } else {
                        Seq::<Resource>::empty()
                    } by {
                    of_vmid_push(given.take(i), resource, vmid);
                }
            }
        }
    }
    assert(given.take(given.len() as int) == given);
    out
}

/// No two rows are of one vmid.
pub open spec fn distinct_vmids(rows: Seq<Resource>) -> bool {
    forall|i: int, j: int|
        0 <= i < j < rows.len() ==> (#[trigger] rows[i]).vmid != (#[trigger] rows[j]).vmid
}

proof fn of_vmid_one(rows: Seq<Resource>, i: int)
    requires
        distinct_vmids(rows),
        0 <= i < rows.len(),
    ensures
        of_vmid(rows, rows[i].vmid) == seq![rows[i]],
    decreases rows.len(),
{
    let front = rows.drop_last();
    let last = rows.len() - 1;
    assert(forall|j: int| 0 <= j < front.len() ==> front[j] == #[trigger] rows[j]);
    assert(rows == front.push(rows.last()));
    of_vmid_push(front, rows.last(), rows[i].vmid);
    if i == last {
        assert forall|j: int| 0 <= j < front.len() implies (#[trigger] front[j]).vmid
            != rows[i].vmid by {
            assert(rows[j].vmid != rows[last].vmid);
        }
        of_vmid_none(front, rows[i].vmid);
        assert(Seq::<Resource>::empty().push(rows[i]) == seq![rows[i]]);
    } else {
        of_vmid_one(front, i);
        assert(rows[i].vmid != rows[last].vmid);
    }
}

proof fn of_vmid_some(rows: Seq<Resource>, vmid: u64) -> (i: int)
    requires
        of_vmid(rows, vmid).len() > 0,
    ensures
        0 <= i < rows.len(),
        rows[i].vmid == vmid,
{
    if forall|i: int| 0 <= i < rows.len() ==> (#[trigger] rows[i]).vmid != vmid {
        of_vmid_none(rows, vmid);
    }
    choose|i: int| 0 <= i < rows.len() && (#[trigger] rows[i]).vmid == vmid
}

/// Rows in the order of their vmids are what they are for each vmid.
proof fn determined_by_vmid(a: Seq<Resource>, b: Seq<Resource>)
    requires
        by_vmid(a),
        by_vmid(b),
        forall|vmid: u64| #[trigger] of_vmid(a, vmid) == of_vmid(b, vmid),
    ensures
        a == b,
    decreases a.len(),
{
    if a.len() == 0 {
        if b.len() > 0 {
            let v = b.last().vmid;
            assert(b == b.drop_last().push(b.last()));
            of_vmid_push(b.drop_last(), b.last(), v);
            of_vmid_none(a, v);
            assert(of_vmid(a, v) == of_vmid(b, v));
            assert(of_vmid(b, v).last() == b.last());
            assert(of_vmid(b, v).len() > 0);
        }
        assert(b.len() == 0);
        assert(a =~= b);
    } else {
        let x = a.last();
        let front = a.drop_last();
        assert(a == front.push(x));
        of_vmid_push(front, x, x.vmid);
        assert(of_vmid(a, x.vmid) == of_vmid(b, x.vmid));
        let i = of_vmid_some(b, x.vmid);
        let y = b.last();
        let other = b.drop_last();
        assert(b == other.push(y));
        of_vmid_push(other, y, y.vmid);
        assert(of_vmid(a, y.vmid) == of_vmid(b, y.vmid));
        let j = of_vmid_some(a, y.vmid);
        if i < b.len() - 1 {
            assert(b[i].vmid <= b[b.len() - 1].vmid);
        }
        if j < a.len() - 1 {
            assert(a[j].vmid <= a[a.len() - 1].vmid);
        }
        assert(x.vmid == y.vmid);
        assert(of_vmid(a, x.vmid).last() == x);
        assert(of_vmid(b, x.vmid).last() == y);
        assert forall|vmid: u64| #[trigger] of_vmid(front, vmid) == of_vmid(other, vmid) by {
            of_vmid_push(front, x, vmid);
            of_vmid_push(other, y, vmid);
            assert(of_vmid(a, vmid) == of_vmid(b, vmid));
            if vmid == x.vmid {
                assert(of_vmid(front, vmid) == of_vmid(a, vmid).drop_last());
                assert(of_vmid(other, vmid) == of_vmid(b, vmid).drop_last());
            }
        }
        assert forall|p: int, q: int| 0 <= p < q < front.len() implies (#[trigger] front[p]).vmid
            <= (#[trigger] front[q]).vmid by {
            assert(a[p].vmid <= a[q].vmid);
        }
        assert forall|p: int, q: int| 0 <= p < q < other.len() implies (#[trigger] other[p]).vmid
            <= (#[trigger] other[q]).vmid by {
            assert(b[p].vmid <= b[q].vmid);
        }
        determined_by_vmid(front, other);
    }
}

proof fn of_vmid_holds(rows: Seq<Resource>, vmid: u64, r: Resource)
    ensures
        of_vmid(rows, vmid).contains(r) <==> rows.contains(r) && r.vmid == vmid,
    decreases rows.len(),
{
    if rows.len() == 0 {
        of_vmid_none(rows, vmid);
    } else {
        let front = rows.drop_last();
        let last = rows.last();
        let before = of_vmid(front, vmid);
        of_vmid_holds(front, vmid, r);
        assert(rows == front.push(last));
        of_vmid_push(front, last, vmid);
        assert(rows.contains(r) <==> front.contains(r) || r == last) by {
            if front.contains(r) {
                let i = choose|i: int| 0 <= i < front.len() && front[i] == r;
                assert(rows[i] == r);
            }
            assert(rows[rows.len() - 1] == last);
            if rows.contains(r) {
                let i = choose|i: int| 0 <= i < rows.len() && rows[i] == r;
                if i < front.len() {
                    assert(front[i] == r);
                }
            }
        }
        assert(before.push(last).contains(r) <==> before.contains(r) || r == last) by {
            if before.contains(r) {
                let i = choose|i: int| 0 <= i < before.len() && before[i] == r;
                assert(before.push(last)[i] == r);
            }
            assert(before.push(last)[before.len() as int] == last);
        }
    }
}

/// Exactly those guests take part that the cluster lists and that have something
/// at the prefix.
pub proof fn listed_guests_with_the_prefix_take_part(
    picked: Seq<Resource>,
    rows: Seq<Resource>,
    vmids: Seq<u64>,
    r: Resource,
)
    requires
        selects(picked, rows, vmids),
    ensures
        picked.contains(r) <==> rows.contains(r) && vmids.contains(r.vmid),
{
    of_vmid_holds(picked, r.vmid, r);
    of_vmid_holds(rows, r.vmid, r);
    assert(of_vmid(picked, r.vmid) == if vmids.contains(r.vmid) {
        of_vmid(rows, r.vmid)
    } else {
        Seq::<Resource>::empty()
    });
}

/// Neither the order of the rows, where each guest has one, nor the order of the
/// vmids with the prefix nor how often one is named makes a difference to the
/// guests that take part.
pub proof fn order_of_rows_makes_no_difference(
    picked: Seq<Resource>,
    other_picked: Seq<Resource>,
    rows: Seq<Resource>,
    other_rows: Seq<Resource>,
    vmids: Seq<u64>,
    other_vmids: Seq<u64>,
)
    requires
        distinct_vmids(rows),
        distinct_vmids(other_rows),
        forall|r: Resource| #[trigger] rows.contains(r) <==> other_rows.contains(r),
        forall|v: u64| #[trigger] vmids.contains(v) <==> other_vmids.contains(v),
        selects(picked, rows, vmids),
        selects(other_picked, other_rows, other_vmids),
    ensures
        picked == other_picked,
{
    assert forall|vmid: u64| #[trigger] of_vmid(picked, vmid) == of_vmid(other_picked, vmid) by {
        assert(vmids.contains(vmid) <==> other_vmids.contains(vmid));
        assert(of_vmid(other_picked, vmid) == of_vmid(other_picked, vmid));
        if exists|i: int| 0 <= i < rows.len() && (#[trigger] rows[i]).vmid == vmid {
            let i = choose|i: int| 0 <= i < rows.len() && (#[trigger] rows[i]).vmid == vmid;
            assert(rows.contains(rows[i]));
            let j = choose|j: int| 0 <= j < other_rows.len() && other_rows[j] == rows[i];
            of_vmid_one(rows, i);
            of_vmid_one(other_rows, j);
        } else {
            of_vmid_none(rows, vmid);
            assert forall|j: int| 0 <= j < other_rows.len() implies (
            #[trigger] other_rows[j]).vmid != vmid by {
                assert(other_rows.contains(other_rows[j]));
                assert(rows.contains(other_rows[j]));
                let i = choose|i: int| 0 <= i < rows.len() && rows[i] == other_rows[j];
                assert(rows[i].vmid != vmid);
            }
            of_vmid_none(other_rows, vmid);
        }
    }
    determined_by_vmid(picked, other_picked);
}

/// The guests that take part, by the replies of the cluster: which guests there
/// are, and which of them have something at the prefix. Where either could not
/// be had there are none to speak of, and the round fails.
pub fn discover(
    resources: Result<Vec<Resource>, String>,
    with_prefix: Result<Vec<u64>, String>,
) -> (r: Result<Vec<Resource>, String>)
    ensures
        match (resources, with_prefix) {
            (Err(error), _) => r == Err::<Vec<Resource>, String>(error),
            (Ok(_), Err(error)) => r == Err::<Vec<Resource>, String>(error),
            (Ok(rows), Ok(vmids)) => r is Ok && selects(r->Ok_0@, rows@, vmids@),
        },
{
    match (resources, with_prefix) {
        (Err(error), _) => Err(error),
        (Ok(_), Err(error)) => Err(error),
        (Ok(rows), Ok(vmids)) => Ok(select_guests(rows, &vmids)),
    }
}

/// What the guests' outcomes say.
pub open spec fn outcomes_of(results: Seq<(u64, Outcome)>) -> Seq<(u64, OutcomeView)> {
    results.map_values(|r: (u64, Outcome)| (r.0, r.1@))
}

/// What is said of a guest.
pub open spec fn about_guest(vmid: u64, text: Seq<char>) -> Seq<char> {
    "guest "@ + decimal(vmid as nat) + ": "@ + text
}

/// The first failure, which is the whole poll's.
pub open spec fn failure_in(results: Seq<(u64, OutcomeView)>) -> Option<Seq<char>>
    decreases results.len(),
{
    if results.len() == 0 {
        None
    } else {
        match failure_in(results.drop_last()) {
            Some(error) => Some(error),
            None => match results.last().1 {
                OutcomeView::Fail(error) => Some(about_guest(results.last().0, error)),
                _ => None,
            },
        }
    }
}

/// The shares, in the order of the guests.
pub open spec fn shares_in(results: Seq<(u64, OutcomeView)>) -> Seq<Share>
    decreases results.len(),
{
    if results.len() == 0 {
        Seq::empty()
    } else {
        let before = shares_in(results.drop_last());
        match results.last().1 {
            OutcomeView::Share(share) => before.push((results.last().0, share)),
            _ => before,
        }
    }
}

/// The warnings about guests that were skipped, in the order of the guests.
pub open spec fn warnings_in(results: Seq<(u64, OutcomeView)>) -> Seq<Seq<char>>
    decreases results.len(),
{
    if results.len() == 0 {
        Seq::empty()
    } else {
        let before = warnings_in(results.drop_last());
        match results.last().1 {
            OutcomeView::Skip(reason) => before.push(about_guest(results.last().0, reason)),
            _ => before,
        }
    }
}

/// What a poll comes to: the document and the warnings, or an error.
pub enum Round {
    Document { doc: Table, warnings: Vec<String> },
    Failed(String),
}

/// What a [`Round`] says.
pub enum RoundView {
    Document { doc: Entries, warnings: Seq<Seq<char>> },
    Failed(Seq<char>),
}

impl View for Round {
    type V = RoundView;

    open spec fn view(&self) -> RoundView {
        match *self {
            Round::Document { doc, warnings } => RoundView::Document {
                doc: doc@,
                warnings: texts(warnings@),
            },
            Round::Failed(error) => RoundView::Failed(error@),
        }
    }
}

/// What the guests' outcomes come to.
pub open spec fn assembled(results: Seq<(u64, OutcomeView)>) -> RoundView {
    match failure_in(results) {
        Some(error) => RoundView::Failed(error),
        None => {
            let m = merged(shares_in(results), warnings_in(results));
            RoundView::Document { doc: m.table, warnings: m.conflicts }
        },
    }
}

proof fn failure_stays(results: Seq<(u64, OutcomeView)>, n: int)
    requires
        0 <= n <= results.len(),
        failure_in(results.take(n)) is Some,
    ensures
        failure_in(results) == failure_in(results.take(n)),
    decreases results.len() - n,
{
    if n == results.len() {
        assert(results.take(n) == results);
    } else {
        assert(results.take(n + 1).drop_last() == results.take(n));
        failure_stays(results, n + 1);
    }
}

fn speak_of(vmid: u64, text: &String) -> (r: String)
    ensures
        r@ == about_guest(vmid, text@),
{
    "guest ".to_string().concat(decimal_text(vmid).as_str()).concat(": ").concat(text.as_str())
}

/// The document of the guests' shares, with the warnings about those that were
/// skipped and about conflicts; an error where a guest failed.
pub fn assemble(results: Vec<(u64, Outcome)>) -> (r: Round)
    ensures
        r@ == assembled(outcomes_of(results@)),
{
    let ghost given = outcomes_of(results@);
    let ghost pairs = results@;
    let mut shares: Vec<(u64, Table)> = Vec::new();
    let mut warnings: Vec<String> = Vec::new();
    assert(given.take(0).len() == 0);
    assert(shares_of(shares@) =~= Seq::<Share>::empty());
    assert(texts(warnings@) =~= Seq::<Seq<char>>::empty());
    for result in it: results
        invariant
            it.seq() == pairs,
            given == outcomes_of(pairs),
            given == outcomes_of(results@),
            failure_in(given.take(it.index())) is None,
            shares_of(shares@) == shares_in(given.take(it.index())),
            texts(warnings@) == warnings_in(given.take(it.index())),
    {
        let ghost i = it.index();
        assert(given.take(i + 1).drop_last() == given.take(i));
        let (vmid, outcome) = result;
        assert(given.take(i + 1).last() == (vmid, outcome@));
        match outcome {
            Outcome::Share(share) => {
                let ghost before = shares_of(shares@);
                let ghost said = share@;
                shares.push((vmid, share));
                assert(shares_of(shares@) =~= before.push((vmid, said)));
            },
            Outcome::Nothing => {},
            Outcome::Skip(reason) => {
                let ghost before = texts(warnings@);
                let warning = speak_of(vmid, &reason);
                let ghost said = warning@;
                warnings.push(warning);
                assert(texts(warnings@) =~= before.push(said));
            },
            Outcome::Fail(error) => {
                let text = speak_of(vmid, &error);
                proof {
                    assert(failure_in(given.take(i + 1)) == Some(text@));
                    failure_stays(given, i + 1);
                }
                return Round::Failed(text);
            },
        }
    }
    assert(given.take(given.len() as int) == given);
    let doc = merge(shares, &mut warnings);
    Round::Document { doc, warnings }
}

/// The last document that was rendered, and when: `T` marks a point in time.
pub struct Cache<T> {
    pub rendered: Option<(T, String)>,
}

impl<T> Cache<T> {
    pub fn new() -> (r: Cache<T>)
        ensures
            r.rendered is None,
    {
        Cache { rendered: None }
    }

    /// The document, while it is fresh: rendered less than `ttl_seconds` ago. Of
    /// its age only the whole seconds matter.
    pub fn fresh(&self, age_seconds: u64, ttl_seconds: u64) -> (r: Option<&String>)
        ensures
            r == match self.rendered {
                Some((_, body)) => if age_seconds < ttl_seconds {
                    Some(&body)
                } else {
                    None
                },
                None => None,
            },
            ttl_seconds == 0 ==> r is None,
    {
        match &self.rendered {
            Some((_, body)) => {
                if age_seconds < ttl_seconds {
                    Some(body)
                } else {
                    None
                }
            },
            None => None,
        }
    }

    /// Takes note of a round that ended at `now`. One that failed leaves what was
    /// rendered before.
    pub fn settle(&mut self, now: T, round: &Result<String, String>)
        ensures
            *final(self) == match *round {
                Ok(body) => (Cache { rendered: Some((now, body)) }),
                Err(_) => *old(self),
            },
    {
        if let Ok(body) = round {
            self.rendered = Some((now, body.clone()));
        }
    }
}

/// What Traefik is answered.
pub struct Answer {
    pub status: u16,
    /// Whether the body is a JSON document.
    pub json: bool,
    pub body: String,
}

/// The answer to a poll: the document, or the error with the status 502, on
/// which Traefik keeps the configuration it has.
pub fn answer(document: Result<String, String>) -> (r: Answer)
    ensures
        match document {
            Ok(body) => r.status == 200 && r.json && r.body == body,
            Err(error) => r.status == 502 && !r.json && r.body@ == error@ + "\n"@,
        },
{
    match document {
        Ok(body) => Answer { status: 200, json: true, body },
        Err(error) => Answer { status: 502, json: false, body: error.concat("\n") },
    }
}

} // verus!
