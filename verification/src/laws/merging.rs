//! What holds of every merge: a name is the lowest vmid's that declares it, the
//! others are reported, lists are concatenated, and nothing is made up.
use vstd::prelude::*;

use crate::merge::{claimed_entries, claimed_kinds, claimed_sections, owners_of};
use crate::merge::{merged, merged_entries, merged_kind, merged_kinds};
use crate::merge::{merged_section, merged_sections, merged_shares};
use crate::merge::{kind_conflict, orderly, orderly_kinds, path_conflict, path_of};
use crate::merge::{section_conflict, table_under};
use crate::merge::{Declared, Merging, Owners, Share};
use crate::laws::tables::{lookup_last_only, lookup_not_last, ordered_front};
use crate::text::precedes;
use crate::value::{inserted_last, lookup, lookup_inserted, ordered, Entries, Tree};

verus! {

/// What stands under a section's kind of things.
pub open spec fn kind_in(doc: Entries, section: Seq<char>, kind: Seq<char>) -> Option<Tree> {
    match lookup(doc, section) {
        Some(Tree::Table(kinds)) => lookup(kinds, kind),
        _ => None,
    }
}

/// The thing `name` in a map of things.
pub open spec fn thing_in(things: Option<Tree>, name: Seq<char>) -> Option<Tree> {
    match things {
        Some(Tree::Table(entries)) => lookup(entries, name),
        _ => None,
    }
}

/// The router, service or middleware that a document declares by this name.
pub open spec fn entry_in(
    doc: Entries,
    section: Seq<char>,
    kind: Seq<char>,
    name: Seq<char>,
) -> Option<Tree> {
    thing_in(kind_in(doc, section, kind), name)
}

/// The guest that a declaration belongs to.
pub open spec fn owner_in(owners: Owners, what: Declared) -> Option<u64> {
    if owners.contains_key(what) {
        Some(owners[what])
    } else {
        None
    }
}

/// The share that a name is taken from: of those that declare it one of the
/// lowest vmid, and of these the first.
pub open spec fn winner(
    shares: Seq<Share>,
    section: Seq<char>,
    kind: Seq<char>,
    name: Seq<char>,
) -> Option<int>
    decreases shares.len(),
{
    if shares.len() == 0 {
        None
    } else {
        let before = winner(shares.drop_last(), section, kind, name);
        if entry_in(shares.last().1, section, kind, name) is Some && (before is None
            || shares.last().0 < shares[before->0].0) {
            Some(shares.len() - 1)
        } else {
            before
        }
    }
}

/// All shares are as a table holds them.
pub open spec fn all_orderly(shares: Seq<Share>) -> bool {
    forall|i: int| 0 <= i < shares.len() ==> orderly((#[trigger] shares[i]).1)
}

/// The winner is the first share of the lowest vmid that declares the name;
/// there is one unless no share declares it.
pub proof fn winner_has_the_lowest_vmid(
    shares: Seq<Share>,
    section: Seq<char>,
    kind: Seq<char>,
    name: Seq<char>,
)
    ensures
        match winner(shares, section, kind, name) {
            Some(w) => {
                &&& 0 <= w < shares.len()
                &&& entry_in(shares[w].1, section, kind, name) is Some
                &&& forall|i: int|
                    0 <= i < shares.len() && entry_in(
                        (#[trigger] shares[i]).1,
                        section,
                        kind,
                        name,
                    ) is Some ==> shares[w].0 < shares[i].0 || (shares[w].0 == shares[i].0 && w
                        <= i)
            },
            None => forall|i: int|
                0 <= i < shares.len() ==> entry_in(
                    (#[trigger] shares[i]).1,
                    section,
                    kind,
                    name,
                ) is None,
        },
    decreases shares.len(),
{
    if shares.len() > 0 {
        let front = shares.drop_last();
        winner_has_the_lowest_vmid(front, section, kind, name);
        assert(forall|j: int| 0 <= j < front.len() ==> front[j] == #[trigger] shares[j]);
        assert(shares.last() == shares[shares.len() - 1]);
        match winner(shares, section, kind, name) {
            Some(w) => {
                assert forall|i: int|
                    0 <= i < shares.len() && entry_in(
                        (#[trigger] shares[i]).1,
                        section,
                        kind,
                        name,
                    ) is Some implies shares[w].0 < shares[i].0 || (shares[w].0 == shares[i].0
                    && w <= i) by {
                    if i < front.len() {
                        assert(front[i] == shares[i]);
                    }
                }
            },
            None => {
                assert forall|i: int| 0 <= i < shares.len() implies entry_in(
                    (#[trigger] shares[i]).1,
                    section,
                    kind,
                    name,
                ) is None by {
                    if i < front.len() {
                        assert(front[i] == shares[i]);
                    }
                }
            },
        }
    }
}

/// What a guest's declaration does to whom the name belongs to.
spec fn lowered(owner: Option<u64>, vmid: u64) -> Option<u64> {
    match owner {
        Some(o) => if o <= vmid {
            owner
        } else {
            Some(vmid)
        },
        None => Some(vmid),
    }
}

proof fn entries_claim(
    owners: Owners,
    vmid: u64,
    s: Seq<char>,
    k: Seq<char>,
    entries: Entries,
    what: Declared,
)
    requires
        ordered(entries),
    ensures
        owner_in(claimed_entries(owners, vmid, s, k, entries), what) == if what.0 == s && what.1
            == k && lookup(entries, what.2) is Some {
            lowered(owner_in(owners, what), vmid)
        } else {
            owner_in(owners, what)
        },
    decreases entries.len(),
{
    if entries.len() == 0 {
        assert(lookup(entries, what.2) is None);
    } else {
        ordered_front(entries);
        entries_claim(owners, vmid, s, k, entries.drop_last(), what);
        lookup_last_only(entries);
        if entries.last().0 != what.2 {
            lookup_not_last(entries, what.2);
        }
    }
}

proof fn kinds_claim(owners: Owners, vmid: u64, s: Seq<char>, kinds: Entries, what: Declared)
    requires
        orderly_kinds(kinds),
    ensures
        owner_in(claimed_kinds(owners, vmid, s, kinds), what) == if what.0 == s && thing_in(
            lookup(kinds, what.1),
            what.2,
        ) is Some {
            lowered(owner_in(owners, what), vmid)
        } else {
            owner_in(owners, what)
        },
    decreases kinds.len(),
{
    if kinds.len() == 0 {
        assert(lookup(kinds, what.1) is None);
    } else {
        let front = kinds.drop_last();
        let before = claimed_kinds(owners, vmid, s, front);
        ordered_front(kinds);
        assert(forall|j: int| 0 <= j < front.len() ==> front[j] == #[trigger] kinds[j]);
        assert(kinds[kinds.len() - 1] == kinds.last());
        kinds_claim(owners, vmid, s, front, what);
        lookup_last_only(kinds);
        if let Tree::Table(entries) = kinds.last().1 {
            entries_claim(before, vmid, s, kinds.last().0, entries, what);
        }
        if kinds.last().0 != what.1 {
            lookup_not_last(kinds, what.1);
        }
    }
}

proof fn sections_claim(owners: Owners, vmid: u64, sections: Entries, what: Declared)
    requires
        orderly(sections),
    ensures
        owner_in(claimed_sections(owners, vmid, sections), what) == if entry_in(
            sections,
            what.0,
            what.1,
            what.2,
        ) is Some {
            lowered(owner_in(owners, what), vmid)
        } else {
            owner_in(owners, what)
        },
    decreases sections.len(),
{
    if sections.len() == 0 {
        assert(lookup(sections, what.0) is None);
    } else {
        let front = sections.drop_last();
        let before = claimed_sections(owners, vmid, front);
        ordered_front(sections);
        assert(forall|j: int| 0 <= j < front.len() ==> front[j] == #[trigger] sections[j]);
        assert(sections[sections.len() - 1] == sections.last());
        sections_claim(owners, vmid, front, what);
        lookup_last_only(sections);
        if let Tree::Table(kinds) = sections.last().1 {
            kinds_claim(before, vmid, sections.last().0, kinds, what);
        }
        if sections.last().0 != what.0 {
            lookup_not_last(sections, what.0);
        }
    }
}

/// A declaration belongs to the vmid of its winner.
pub proof fn owner_is_the_winner(
    shares: Seq<Share>,
    section: Seq<char>,
    kind: Seq<char>,
    name: Seq<char>,
)
    requires
        all_orderly(shares),
    ensures
        owner_in(owners_of(shares), (section, kind, name)) == match winner(
            shares,
            section,
            kind,
            name,
        ) {
            Some(w) => Some(shares[w].0),
            None => None,
        },
    decreases shares.len(),
{
    if shares.len() > 0 {
        let front = shares.drop_last();
        assert(forall|j: int| 0 <= j < front.len() ==> front[j] == #[trigger] shares[j]);
        assert(shares[shares.len() - 1] == shares.last());
        owner_is_the_winner(front, section, kind, name);
        winner_has_the_lowest_vmid(front, section, kind, name);
        sections_claim(
            owners_of(front),
            shares.last().0,
            shares.last().1,
            (section, kind, name),
        );
    }
}

/// What stands under a name once a guest gave `given` for it.
spec fn put(
    current: Option<Tree>,
    given: Option<Tree>,
    owner: Option<u64>,
    vmid: u64,
) -> Option<Tree> {
    match (given, owner) {
        (Some(_), Some(o)) => if o < vmid || current is Some {
            current
        } else {
            given
        },
        (Some(_), None) => given,
        (None, _) => current,
    }
}

proof fn entries_put(
    m: Merging,
    owners: Owners,
    vmid: u64,
    s: Seq<char>,
    k: Seq<char>,
    entries: Entries,
    n: Seq<char>,
)
    requires
        ordered(entries),
    ensures
        lookup(merged_entries(m, owners, vmid, s, k, entries).table, n) == put(
            lookup(m.table, n),
            lookup(entries, n),
            owner_in(owners, (s, k, n)),
            vmid,
        ),
    decreases entries.len(),
{
    if entries.len() == 0 {
        assert(lookup(entries, n) is None);
    } else {
        let front = entries.drop_last();
        let mid = merged_entries(m, owners, vmid, s, k, front);
        ordered_front(entries);
        entries_put(m, owners, vmid, s, k, front, n);
        lookup_last_only(entries);
        lookup_inserted(mid.table, entries.last().0, entries.last().1, n);
        if entries.last().0 != n {
            lookup_not_last(entries, n);
        }
    }
}

/// What becomes of what stands under a kind, and of the thing `n` there, when
/// a guest gives `given` for it.
spec fn received(
    current: Option<Tree>,
    given: Option<Tree>,
    now: Option<Tree>,
    n: Seq<char>,
    owner: Option<u64>,
    vmid: u64,
) -> bool {
    match given {
        Some(Tree::List(items)) => match current {
            None => now == Some(Tree::List(items)),
            Some(Tree::List(have)) => now == Some(Tree::List(have + items)),
            _ => now == current,
        },
        Some(Tree::Table(entries)) => match current {
            None => {
                &&& now matches Some(Tree::Table(_))
                &&& thing_in(now, n) == put(None, lookup(entries, n), owner, vmid)
            },
            Some(Tree::Table(slot)) => {
                &&& now matches Some(Tree::Table(_))
                &&& thing_in(now, n) == put(lookup(slot, n), lookup(entries, n), owner, vmid)
            },
            _ => now == current,
        },
        _ => now == current,
    }
}

proof fn kind_received(
    m: Merging,
    owners: Owners,
    vmid: u64,
    s: Seq<char>,
    kind: Seq<char>,
    things: Tree,
    k: Seq<char>,
    n: Seq<char>,
)
    requires
        things matches Tree::Table(entries) ==> ordered(entries),
    ensures
        ({
            let now = lookup(merged_kind(m, owners, vmid, s, kind, things).table, k);
            if kind == k {
                received(
                    lookup(m.table, k),
                    Some(things),
                    now,
                    n,
                    owner_in(owners, (s, k, n)),
                    vmid,
                )
            } else {
                now == lookup(m.table, k)
            }
        }),
{
    match (things, lookup(m.table, kind)) {
        (Tree::Table(entries), None) => {
            let empty = Merging { table: Seq::empty(), ..m };
            let inner = merged_entries(empty, owners, vmid, s, kind, entries);
            lookup_inserted(m.table, kind, Tree::Table(inner.table), k);
            entries_put(empty, owners, vmid, s, kind, entries, n);
            assert(lookup(empty.table, n) is None);
        },
        (Tree::Table(entries), Some(Tree::Table(slot))) => {
            let inside = Merging { table: slot, ..m };
            let inner = merged_entries(inside, owners, vmid, s, kind, entries);
            lookup_inserted(m.table, kind, Tree::Table(inner.table), k);
            entries_put(inside, owners, vmid, s, kind, entries, n);
        },
        (Tree::List(items), None) => {
            lookup_inserted(m.table, kind, Tree::List(items), k);
        },
        (Tree::List(items), Some(Tree::List(have))) => {
            lookup_inserted(m.table, kind, Tree::List(have + items), k);
        },
        _ => {},
    }
}

proof fn kinds_received(
    m: Merging,
    owners: Owners,
    vmid: u64,
    s: Seq<char>,
    kinds: Entries,
    k: Seq<char>,
    n: Seq<char>,
)
    requires
        orderly_kinds(kinds),
    ensures
        received(
            lookup(m.table, k),
            lookup(kinds, k),
            lookup(merged_kinds(m, owners, vmid, s, kinds).table, k),
            n,
            owner_in(owners, (s, k, n)),
            vmid,
        ),
    decreases kinds.len(),
{
    if kinds.len() == 0 {
        assert(lookup(kinds, k) is None);
    } else {
        let front = kinds.drop_last();
        let mid = merged_kinds(m, owners, vmid, s, front);
        let (kind, things) = kinds.last();
        ordered_front(kinds);
        assert(forall|j: int| 0 <= j < front.len() ==> front[j] == #[trigger] kinds[j]);
        assert(kinds[kinds.len() - 1] == kinds.last());
        kinds_received(m, owners, vmid, s, front, k, n);
        kind_received(mid, owners, vmid, s, kind, things, k, n);
        lookup_last_only(kinds);
        if kind != k {
            lookup_not_last(kinds, k);
        }
    }
}

/// Where a section's merge starts: with what stands there.
spec fn entered(m: Merging, section: Seq<char>) -> Merging {
    Merging { table: table_under(m.table, section), ..m }
}

proof fn entered_kind(m: Merging, s: Seq<char>, k: Seq<char>)
    ensures
        lookup(entered(m, s).table, k) == kind_in(m.table, s, k),
{
    if !(lookup(m.table, s) matches Some(Tree::Table(_))) {
        assert(lookup(entered(m, s).table, k) is None);
    }
}

proof fn sections_received(
    m: Merging,
    owners: Owners,
    vmid: u64,
    sections: Entries,
    s: Seq<char>,
    k: Seq<char>,
    n: Seq<char>,
)
    requires
        orderly(sections),
    ensures
        received(
            kind_in(m.table, s, k),
            kind_in(sections, s, k),
            kind_in(merged_sections(m, owners, vmid, sections).table, s, k),
            n,
            owner_in(owners, (s, k, n)),
            vmid,
        ),
    decreases sections.len(),
{
    if sections.len() == 0 {
        assert(lookup(sections, s) is None);
    } else {
        let front = sections.drop_last();
        let mid = merged_sections(m, owners, vmid, front);
        let (section, kinds) = sections.last();
        ordered_front(sections);
        assert(forall|j: int| 0 <= j < front.len() ==> front[j] == #[trigger] sections[j]);
        assert(sections[sections.len() - 1] == sections.last());
        sections_received(m, owners, vmid, front, s, k, n);
        lookup_last_only(sections);
        if section != s {
            lookup_not_last(sections, s);
        }
        if let Tree::Table(rows) = kinds {
            let inside = entered(mid, section);
            let inner = merged_kinds(inside, owners, vmid, section, rows);
            lookup_inserted(mid.table, section, Tree::Table(inner.table), s);
            entered_kind(mid, section, k);
            kinds_received(inside, owners, vmid, section, rows, k, n);
        }
    }
}

spec fn start(conflicts: Seq<Seq<char>>) -> Merging {
    Merging { table: Seq::empty(), conflicts }
}

/// The merge once the first `i` shares are in.
spec fn stage(all: Seq<Share>, conflicts: Seq<Seq<char>>, i: int) -> Merging {
    merged_shares(start(conflicts), owners_of(all), all.take(i))
}

/// What stands under a kind is a map or a list.
pub open spec fn map_or_list(things: Option<Tree>) -> bool {
    match things {
        None => true,
        Some(Tree::Table(_)) => true,
        Some(Tree::List(_)) => true,
        _ => false,
    }
}

/// One share more.
proof fn stage_grows(
    all: Seq<Share>,
    conflicts: Seq<Seq<char>>,
    i: int,
    s: Seq<char>,
    k: Seq<char>,
    n: Seq<char>,
)
    requires
        all_orderly(all),
        0 <= i < all.len(),
    ensures
        received(
            kind_in(stage(all, conflicts, i).table, s, k),
            kind_in(all[i].1, s, k),
            kind_in(stage(all, conflicts, i + 1).table, s, k),
            n,
            owner_in(owners_of(all), (s, k, n)),
            all[i].0,
        ),
        stage(all, conflicts, i + 1) == merged_sections(
            stage(all, conflicts, i),
            owners_of(all),
            all[i].0,
            all[i].1,
        ),
{
    assert(all.take(i + 1).drop_last() == all.take(i));
    assert(all.take(i + 1).last() == all[i]);
    sections_received(stage(all, conflicts, i), owners_of(all), all[i].0, all[i].1, s, k, n);
}

/// After the first `i` shares: the name is there as the winner among them wrote
/// it, if that one has the vmid that it belongs to.
proof fn stage_holds(
    all: Seq<Share>,
    conflicts: Seq<Seq<char>>,
    i: int,
    s: Seq<char>,
    k: Seq<char>,
    n: Seq<char>,
)
    requires
        all_orderly(all),
        0 <= i <= all.len(),
    ensures
        ({
            let things = kind_in(stage(all, conflicts, i).table, s, k);
            let first = winner(all.take(i), s, k, n);
            &&& map_or_list(things)
            &&& things is None ==> first is None
            &&& things matches Some(Tree::Table(_)) ==> thing_in(things, n) == match first {
                Some(w) => if owner_in(owners_of(all), (s, k, n)) == Some(all[w].0) {
                    entry_in(all[w].1, s, k, n)
                } else {
                    None
                },
                None => None,
            }
        }),
    decreases i,
{
    if i == 0 {
        assert(all.take(0).len() == 0);
        assert(lookup(stage(all, conflicts, 0).table, s) is None);
    } else {
        let before = all.take(i - 1);
        let last = all[i - 1];
        stage_holds(all, conflicts, i - 1, s, k, n);
        stage_grows(all, conflicts, i - 1, s, k, n);
        assert(all.take(i).drop_last() == before);
        assert(all.take(i).last() == last);
        owner_is_the_winner(all, s, k, n);
        winner_has_the_lowest_vmid(all, s, k, n);
        winner_has_the_lowest_vmid(before, s, k, n);
        if let Some(w) = winner(before, s, k, n) {
            assert(before[w] == all[w]);
            assert(all.take(i)[w] == all[w]);
        }
    }
}

/// A name is the lowest vmid's: where the document has a map of a kind, it has
/// under each name what the winner among the shares wrote, and nothing where no
/// share declares the name. A kind that is a list has no names.
pub proof fn names_belong_to_the_lowest_vmid(
    shares: Seq<Share>,
    conflicts: Seq<Seq<char>>,
    section: Seq<char>,
    kind: Seq<char>,
    name: Seq<char>,
)
    requires
        all_orderly(shares),
    ensures
        ({
            let doc = merged(shares, conflicts).table;
            let won = winner(shares, section, kind, name);
            &&& entry_in(doc, section, kind, name) == match (kind_in(doc, section, kind), won) {
                (Some(Tree::Table(_)), Some(w)) => entry_in(shares[w].1, section, kind, name),
                _ => None,
            }
            &&& won is Some ==> kind_in(doc, section, kind) is Some
        }),
{
    let n = shares.len() as int;
    assert(shares.take(n) == shares);
    stage_holds(shares, conflicts, n, section, kind, name);
    owner_is_the_winner(shares, section, kind, name);
}

/// Whatever stands under a kind of the document is a map or a list.
pub proof fn kinds_are_maps_or_lists(
    shares: Seq<Share>,
    conflicts: Seq<Seq<char>>,
    section: Seq<char>,
    kind: Seq<char>,
)
    requires
        all_orderly(shares),
    ensures
        map_or_list(kind_in(merged(shares, conflicts).table, section, kind)),
{
    let n = shares.len() as int;
    assert(shares.take(n) == shares);
    stage_holds(shares, conflicts, n, section, kind, Seq::empty());
}

proof fn sections_stay_maps(m: Merging, owners: Owners, vmid: u64, sections: Entries, s: Seq<char>)
    requires
        lookup(m.table, s) is Some ==> (lookup(m.table, s) matches Some(Tree::Table(_))),
    ensures
        ({
            let after = merged_sections(m, owners, vmid, sections).table;
            lookup(after, s) is Some ==> (lookup(after, s) matches Some(Tree::Table(_)))
        }),
    decreases sections.len(),
{
    if sections.len() > 0 {
        let front = sections.drop_last();
        let mid = merged_sections(m, owners, vmid, front);
        sections_stay_maps(m, owners, vmid, front, s);
        let (section, kinds) = sections.last();
        if let Tree::Table(rows) = kinds {
            let inner = merged_kinds(entered(mid, section), owners, vmid, section, rows);
            lookup_inserted(mid.table, section, Tree::Table(inner.table), s);
        }
    }
}

proof fn shares_stay_maps(m: Merging, owners: Owners, shares: Seq<Share>, s: Seq<char>)
    requires
        lookup(m.table, s) is Some ==> (lookup(m.table, s) matches Some(Tree::Table(_))),
    ensures
        ({
            let after = merged_shares(m, owners, shares).table;
            lookup(after, s) is Some ==> (lookup(after, s) matches Some(Tree::Table(_)))
        }),
    decreases shares.len(),
{
    if shares.len() > 0 {
        let front = shares.drop_last();
        shares_stay_maps(m, owners, front, s);
        sections_stay_maps(
            merged_shares(m, owners, front),
            owners,
            shares.last().0,
            shares.last().1,
            s,
        );
    }
}

/// Whatever stands at the top of the document is a map.
pub proof fn sections_are_maps(
    shares: Seq<Share>,
    conflicts: Seq<Seq<char>>,
    section: Seq<char>,
)
    ensures
        ({
            let doc = merged(shares, conflicts).table;
            lookup(doc, section) is Some ==> (lookup(doc, section) matches Some(Tree::Table(_)))
        }),
{
    assert(lookup(start(conflicts).table, section) is None);
    shares_stay_maps(start(conflicts), owners_of(shares), shares, section);
}

/// The lists that the shares give for a kind, one after the other.
pub open spec fn lists_of(shares: Seq<Share>, section: Seq<char>, kind: Seq<char>) -> Seq<Tree>
    decreases shares.len(),
{
    if shares.len() == 0 {
        Seq::empty()
    } else {
        lists_of(shares.drop_last(), section, kind) + (match kind_in(
            shares.last().1,
            section,
            kind,
        ) {
            Some(Tree::List(items)) => items,
            _ => Seq::empty(),
        })
    }
}

proof fn stage_lists(
    all: Seq<Share>,
    conflicts: Seq<Seq<char>>,
    i: int,
    s: Seq<char>,
    k: Seq<char>,
)
    requires
        all_orderly(all),
        0 <= i <= all.len(),
    ensures
        kind_in(stage(all, conflicts, i).table, s, k) matches Some(Tree::List(items)) ==> items
            == lists_of(all.take(i), s, k),
        kind_in(stage(all, conflicts, i).table, s, k) is None ==> lists_of(all.take(i), s, k)
            == Seq::<Tree>::empty(),
    decreases i,
{
    if i == 0 {
        assert(all.take(0).len() == 0);
        assert(lookup(stage(all, conflicts, 0).table, s) is None);
    } else {
        let before = lists_of(all.take(i - 1), s, k);
        stage_lists(all, conflicts, i - 1, s, k);
        stage_grows(all, conflicts, i - 1, s, k, Seq::empty());
        assert(all.take(i).drop_last() == all.take(i - 1));
        assert(all.take(i).last() == all[i - 1]);
        assert(before + Seq::<Tree>::empty() == before);
        if let Some(Tree::List(items)) = kind_in(all[i - 1].1, s, k) {
            assert(Seq::<Tree>::empty() + items == items);
        }
    }
}

/// Lists are concatenated: where the document has a list, it is those of the
/// guests, one after the other in the order of the shares.
pub proof fn lists_are_concatenated(
    shares: Seq<Share>,
    conflicts: Seq<Seq<char>>,
    section: Seq<char>,
    kind: Seq<char>,
)
    requires
        all_orderly(shares),
    ensures
        kind_in(merged(shares, conflicts).table, section, kind) matches Some(Tree::List(items))
            ==> items == lists_of(shares, section, kind),
        kind_in(merged(shares, conflicts).table, section, kind) is None ==> lists_of(
            shares,
            section,
            kind,
        ) == Seq::<Tree>::empty(),
{
    let n = shares.len() as int;
    assert(shares.take(n) == shares);
    stage_lists(shares, conflicts, n, section, kind);
}

proof fn prefix_on(a: Seq<Seq<char>>, b: Seq<Seq<char>>, c: Seq<Seq<char>>)
    requires
        a.is_prefix_of(b),
        b.is_prefix_of(c),
    ensures
        a.is_prefix_of(c),
{
}

proof fn entries_add_reports(
    m: Merging,
    owners: Owners,
    vmid: u64,
    s: Seq<char>,
    k: Seq<char>,
    entries: Entries,
)
    ensures
        m.conflicts.is_prefix_of(merged_entries(m, owners, vmid, s, k, entries).conflicts),
    decreases entries.len(),
{
    if entries.len() > 0 {
        let front = entries.drop_last();
        entries_add_reports(m, owners, vmid, s, k, front);
        prefix_on(
            m.conflicts,
            merged_entries(m, owners, vmid, s, k, front).conflicts,
            merged_entries(m, owners, vmid, s, k, entries).conflicts,
        );
    }
}

proof fn kind_adds_reports(
    m: Merging,
    owners: Owners,
    vmid: u64,
    s: Seq<char>,
    kind: Seq<char>,
    things: Tree,
)
    ensures
        m.conflicts.is_prefix_of(merged_kind(m, owners, vmid, s, kind, things).conflicts),
{
    if let Tree::Table(entries) = things {
        let slot = match lookup(m.table, kind) {
            Some(Tree::Table(slot)) => slot,
            _ => Seq::empty(),
        };
        entries_add_reports(Merging { table: slot, ..m }, owners, vmid, s, kind, entries);
    }
}

proof fn kinds_add_reports(m: Merging, owners: Owners, vmid: u64, s: Seq<char>, kinds: Entries)
    ensures
        m.conflicts.is_prefix_of(merged_kinds(m, owners, vmid, s, kinds).conflicts),
    decreases kinds.len(),
{
    if kinds.len() > 0 {
        let front = kinds.drop_last();
        let mid = merged_kinds(m, owners, vmid, s, front);
        kinds_add_reports(m, owners, vmid, s, front);
        kind_adds_reports(mid, owners, vmid, s, kinds.last().0, kinds.last().1);
        prefix_on(
            m.conflicts,
            mid.conflicts,
            merged_kinds(m, owners, vmid, s, kinds).conflicts,
        );
    }
}

proof fn section_adds_reports(m: Merging, owners: Owners, vmid: u64, s: Seq<char>, kinds: Tree)
    ensures
        m.conflicts.is_prefix_of(merged_section(m, owners, vmid, s, kinds).conflicts),
{
    if let Tree::Table(rows) = kinds {
        kinds_add_reports(entered(m, s), owners, vmid, s, rows);
    }
}

proof fn sections_add_reports(m: Merging, owners: Owners, vmid: u64, sections: Entries)
    ensures
        m.conflicts.is_prefix_of(merged_sections(m, owners, vmid, sections).conflicts),
    decreases sections.len(),
{
    if sections.len() > 0 {
        let front = sections.drop_last();
        let mid = merged_sections(m, owners, vmid, front);
        sections_add_reports(m, owners, vmid, front);
        section_adds_reports(mid, owners, vmid, sections.last().0, sections.last().1);
        prefix_on(
            m.conflicts,
            mid.conflicts,
            merged_sections(m, owners, vmid, sections).conflicts,
        );
    }
}

proof fn shares_add_reports(m: Merging, owners: Owners, shares: Seq<Share>)
    ensures
        m.conflicts.is_prefix_of(merged_shares(m, owners, shares).conflicts),
    decreases shares.len(),
{
    if shares.len() > 0 {
        let front = shares.drop_last();
        let mid = merged_shares(m, owners, front);
        shares_add_reports(m, owners, front);
        sections_add_reports(mid, owners, shares.last().0, shares.last().1);
        prefix_on(m.conflicts, mid.conflicts, merged_shares(m, owners, shares).conflicts);
    }
}

/// What was reported before the merge stays in front.
pub proof fn conflicts_are_added(shares: Seq<Share>, conflicts: Seq<Seq<char>>)
    ensures
        conflicts.is_prefix_of(merged(shares, conflicts).conflicts),
{
    shares_add_reports(start(conflicts), owners_of(shares), shares);
}

proof fn stays_reported(a: Seq<Seq<char>>, b: Seq<Seq<char>>, text: Seq<char>)
    requires
        a.is_prefix_of(b),
        a.contains(text),
    ensures
        b.contains(text),
{
    let i = choose|i: int| 0 <= i < a.len() && a[i] == text;
    assert(b[i] == text);
}

/// The name is not the guest's, or is there already.
spec fn loses(current: Option<Tree>, owner: Option<u64>, vmid: u64) -> bool {
    owner matches Some(o) && (o < vmid || current is Some)
}

proof fn entries_report(
    m: Merging,
    owners: Owners,
    vmid: u64,
    s: Seq<char>,
    k: Seq<char>,
    entries: Entries,
    n: Seq<char>,
)
    requires
        ordered(entries),
        lookup(entries, n) is Some,
        loses(lookup(m.table, n), owner_in(owners, (s, k, n)), vmid),
    ensures
        merged_entries(m, owners, vmid, s, k, entries).conflicts.contains(
            path_conflict(vmid, path_of(s, k, n), owners[(s, k, n)]),
        ),
    decreases entries.len(),
{
    if entries.len() == 0 {
        assert(lookup(entries, n) is None);
    } else {
        let front = entries.drop_last();
        let mid = merged_entries(m, owners, vmid, s, k, front);
        let after = merged_entries(m, owners, vmid, s, k, entries);
        let text = path_conflict(vmid, path_of(s, k, n), owners[(s, k, n)]);
        ordered_front(entries);
        lookup_last_only(entries);
        if entries.last().0 == n {
            entries_put(m, owners, vmid, s, k, front, n);
            assert(after.conflicts[mid.conflicts.len() as int] == text);
        } else {
            lookup_not_last(entries, n);
            entries_report(m, owners, vmid, s, k, front, n);
            stays_reported(mid.conflicts, after.conflicts, text);
        }
    }
}

proof fn kinds_report(
    m: Merging,
    owners: Owners,
    vmid: u64,
    s: Seq<char>,
    kinds: Entries,
    k: Seq<char>,
    n: Seq<char>,
)
    requires
        orderly_kinds(kinds),
        thing_in(lookup(kinds, k), n) is Some,
        lookup(m.table, k) is None || (lookup(m.table, k) matches Some(Tree::Table(_))),
        loses(thing_in(lookup(m.table, k), n), owner_in(owners, (s, k, n)), vmid),
    ensures
        merged_kinds(m, owners, vmid, s, kinds).conflicts.contains(
            path_conflict(vmid, path_of(s, k, n), owners[(s, k, n)]),
        ),
    decreases kinds.len(),
{
    if kinds.len() == 0 {
        assert(lookup(kinds, k) is None);
    } else {
        let front = kinds.drop_last();
        let mid = merged_kinds(m, owners, vmid, s, front);
        let (kind, things) = kinds.last();
        let text = path_conflict(vmid, path_of(s, k, n), owners[(s, k, n)]);
        ordered_front(kinds);
        assert(forall|j: int| 0 <= j < front.len() ==> front[j] == #[trigger] kinds[j]);
        assert(kinds[kinds.len() - 1] == kinds.last());
        lookup_last_only(kinds);
        if kind == k {
            kinds_received(m, owners, vmid, s, front, k, n);
            let slot = match lookup(mid.table, k) {
                Some(Tree::Table(slot)) => slot,
                _ => Seq::empty(),
            };
            let inside = Merging { table: slot, ..mid };
            assert(lookup(slot, n) == thing_in(lookup(m.table, k), n)) by {
                if lookup(mid.table, k) is None {
                    assert(lookup(Seq::<(Seq<char>, Tree)>::empty(), n) is None);
                }
            }
            entries_report(inside, owners, vmid, s, k, things->Table_0, n);
        } else {
            lookup_not_last(kinds, k);
            kinds_report(m, owners, vmid, s, front, k, n);
            kind_adds_reports(mid, owners, vmid, s, kind, things);
            stays_reported(
                mid.conflicts,
                merged_kinds(m, owners, vmid, s, kinds).conflicts,
                text,
            );
        }
    }
}

proof fn sections_report(
    m: Merging,
    owners: Owners,
    vmid: u64,
    sections: Entries,
    s: Seq<char>,
    k: Seq<char>,
    n: Seq<char>,
)
    requires
        orderly(sections),
        entry_in(sections, s, k, n) is Some,
        kind_in(m.table, s, k) is None || (kind_in(m.table, s, k) matches Some(Tree::Table(_))),
        loses(entry_in(m.table, s, k, n), owner_in(owners, (s, k, n)), vmid),
    ensures
        merged_sections(m, owners, vmid, sections).conflicts.contains(
            path_conflict(vmid, path_of(s, k, n), owners[(s, k, n)]),
        ),
    decreases sections.len(),
{
    if sections.len() == 0 {
        assert(lookup(sections, s) is None);
    } else {
        let front = sections.drop_last();
        let mid = merged_sections(m, owners, vmid, front);
        let (section, kinds) = sections.last();
        let text = path_conflict(vmid, path_of(s, k, n), owners[(s, k, n)]);
        ordered_front(sections);
        assert(forall|j: int| 0 <= j < front.len() ==> front[j] == #[trigger] sections[j]);
        assert(sections[sections.len() - 1] == sections.last());
        lookup_last_only(sections);
        if section == s {
            sections_received(m, owners, vmid, front, s, k, n);
            entered_kind(mid, s, k);
            kinds_report(entered(mid, s), owners, vmid, s, kinds->Table_0, k, n);
        } else {
            lookup_not_last(sections, s);
            sections_report(m, owners, vmid, front, s, k, n);
            section_adds_reports(mid, owners, vmid, section, kinds);
            stays_reported(
                mid.conflicts,
                merged_sections(m, owners, vmid, sections).conflicts,
                text,
            );
        }
    }
}

proof fn stage_reports(
    all: Seq<Share>,
    conflicts: Seq<Seq<char>>,
    s: Seq<char>,
    k: Seq<char>,
    n: Seq<char>,
    i: int,
    j: int,
)
    requires
        all_orderly(all),
        0 <= i < j <= all.len(),
        entry_in(all[i].1, s, k, n) is Some,
        winner(all, s, k, n) != Some(i),
        kind_in(stage(all, conflicts, j).table, s, k) matches Some(Tree::Table(_)),
    ensures
        stage(all, conflicts, j).conflicts.contains(
            path_conflict(all[i].0, path_of(s, k, n), owners_of(all)[(s, k, n)]),
        ),
    decreases j,
{
    let owners = owners_of(all);
    let mid = stage(all, conflicts, j - 1);
    stage_holds(all, conflicts, j - 1, s, k, n);
    stage_grows(all, conflicts, j - 1, s, k, n);
    owner_is_the_winner(all, s, k, n);
    winner_has_the_lowest_vmid(all, s, k, n);
    winner_has_the_lowest_vmid(all.take(j - 1), s, k, n);
    let w = winner(all, s, k, n)->0;
    if i == j - 1 {
        if all[w].0 == all[i].0 {
            assert(all.take(i)[w] == all[w]);
            let v = winner(all.take(i), s, k, n)->0;
            assert(all.take(i)[v] == all[v]);
        }
        sections_report(mid, owners, all[i].0, all[i].1, s, k, n);
    } else {
        assert(all.take(j - 1)[i] == all[i]);
        stage_reports(all, conflicts, s, k, n, i, j - 1);
        sections_add_reports(mid, owners, all[j - 1].0, all[j - 1].1);
        stays_reported(
            mid.conflicts,
            stage(all, conflicts, j).conflicts,
            path_conflict(all[i].0, path_of(s, k, n), owners[(s, k, n)]),
        );
    }
}

/// A share that declares a name which the document has from another one is
/// reported, with the guest that lost and the guest that won.
pub proof fn losers_are_reported(
    shares: Seq<Share>,
    conflicts: Seq<Seq<char>>,
    section: Seq<char>,
    kind: Seq<char>,
    name: Seq<char>,
    i: int,
)
    requires
        all_orderly(shares),
        0 <= i < shares.len(),
        entry_in(shares[i].1, section, kind, name) is Some,
        winner(shares, section, kind, name) != Some(i),
        kind_in(merged(shares, conflicts).table, section, kind) matches Some(Tree::Table(_)),
    ensures
        winner(shares, section, kind, name) matches Some(w) && merged(
            shares,
            conflicts,
        ).conflicts.contains(
            path_conflict(shares[i].0, path_of(section, kind, name), shares[w].0),
        ),
{
    let n = shares.len() as int;
    assert(shares.take(n) == shares);
    winner_has_the_lowest_vmid(shares, section, kind, name);
    owner_is_the_winner(shares, section, kind, name);
    stage_reports(shares, conflicts, section, kind, name, i, n);
}

proof fn entries_same(
    a: Merging,
    b: Merging,
    owners: Owners,
    vmid: u64,
    s: Seq<char>,
    k: Seq<char>,
    entries: Entries,
)
    requires
        a.table == b.table,
    ensures
        merged_entries(a, owners, vmid, s, k, entries).table == merged_entries(
            b,
            owners,
            vmid,
            s,
            k,
            entries,
        ).table,
    decreases entries.len(),
{
    if entries.len() > 0 {
        entries_same(a, b, owners, vmid, s, k, entries.drop_last());
    }
}

proof fn kinds_same(
    a: Merging,
    b: Merging,
    owners: Owners,
    vmid: u64,
    s: Seq<char>,
    kinds: Entries,
)
    requires
        a.table == b.table,
    ensures
        merged_kinds(a, owners, vmid, s, kinds).table == merged_kinds(
            b,
            owners,
            vmid,
            s,
            kinds,
        ).table,
    decreases kinds.len(),
{
    if kinds.len() > 0 {
        let front = kinds.drop_last();
        kinds_same(a, b, owners, vmid, s, front);
        let (kind, things) = kinds.last();
        let left = merged_kinds(a, owners, vmid, s, front);
        let right = merged_kinds(b, owners, vmid, s, front);
        if let Tree::Table(entries) = things {
            let slot = match lookup(left.table, kind) {
                Some(Tree::Table(slot)) => slot,
                _ => Seq::empty(),
            };
            entries_same(
                Merging { table: slot, ..left },
                Merging { table: slot, ..right },
                owners,
                vmid,
                s,
                kind,
                entries,
            );
        }
    }
}

proof fn sections_same(a: Merging, b: Merging, owners: Owners, vmid: u64, sections: Entries)
    requires
        a.table == b.table,
    ensures
        merged_sections(a, owners, vmid, sections).table == merged_sections(
            b,
            owners,
            vmid,
            sections,
        ).table,
    decreases sections.len(),
{
    if sections.len() > 0 {
        let front = sections.drop_last();
        sections_same(a, b, owners, vmid, front);
        let (section, kinds) = sections.last();
        let left = merged_sections(a, owners, vmid, front);
        let right = merged_sections(b, owners, vmid, front);
        if let Tree::Table(rows) = kinds {
            kinds_same(
                entered(left, section),
                entered(right, section),
                owners,
                vmid,
                section,
                rows,
            );
        }
    }
}

proof fn shares_same(a: Merging, b: Merging, owners: Owners, shares: Seq<Share>)
    requires
        a.table == b.table,
    ensures
        merged_shares(a, owners, shares).table == merged_shares(b, owners, shares).table,
    decreases shares.len(),
{
    if shares.len() > 0 {
        let front = shares.drop_last();
        shares_same(a, b, owners, front);
        sections_same(
            merged_shares(a, owners, front),
            merged_shares(b, owners, front),
            owners,
            shares.last().0,
            shares.last().1,
        );
    }
}

/// What was reported before makes no difference to the document.
pub proof fn reports_make_no_difference(
    shares: Seq<Share>,
    conflicts: Seq<Seq<char>>,
    others: Seq<Seq<char>>,
)
    ensures
        merged(shares, conflicts).table == merged(shares, others).table,
{
    shares_same(start(conflicts), start(others), owners_of(shares), shares);
}

/// Two kinds of one sort: maps both, or the same list, or nothing.
spec fn same_sort(a: Option<Tree>, b: Option<Tree>) -> bool {
    match a {
        Some(Tree::Table(_)) => b matches Some(Tree::Table(_)),
        _ => a == b,
    }
}

/// Whom the names belong to makes no difference to the sorts of the kinds.
proof fn sorts_agree(
    a: Owners,
    b: Owners,
    shares: Seq<Share>,
    conflicts: Seq<Seq<char>>,
    s: Seq<char>,
    k: Seq<char>,
)
    requires
        all_orderly(shares),
    ensures
        same_sort(
            kind_in(merged_shares(start(conflicts), a, shares).table, s, k),
            kind_in(merged_shares(start(conflicts), b, shares).table, s, k),
        ),
        map_or_list(kind_in(merged_shares(start(conflicts), a, shares).table, s, k)),
    decreases shares.len(),
{
    if shares.len() == 0 {
        assert(lookup(start(conflicts).table, s) is None);
    } else {
        let front = shares.drop_last();
        assert(forall|j: int| 0 <= j < front.len() ==> front[j] == #[trigger] shares[j]);
        assert(shares[shares.len() - 1] == shares.last());
        sorts_agree(a, b, front, conflicts, s, k);
        let (vmid, share) = shares.last();
        let n = Seq::<char>::empty();
        sections_received(merged_shares(start(conflicts), a, front), a, vmid, share, s, k, n);
        sections_received(merged_shares(start(conflicts), b, front), b, vmid, share, s, k, n);
    }
}

/// A share more only adds: a map stays a map and a list keeps its items in
/// front, and a name that was there stays there, with what stood under it unless
/// a guest of a lower vmid declares it.
pub proof fn another_share_only_adds(
    shares: Seq<Share>,
    vmid: u64,
    share: Entries,
    conflicts: Seq<Seq<char>>,
    section: Seq<char>,
    kind: Seq<char>,
    name: Seq<char>,
)
    requires
        all_orderly(shares),
        orderly(share),
    ensures
        ({
            let before = merged(shares, conflicts).table;
            let after = merged(shares.push((vmid, share)), conflicts).table;
            &&& kind_in(before, section, kind) matches Some(Tree::Table(_)) ==> (kind_in(
                after,
                section,
                kind,
            ) matches Some(Tree::Table(_)))
            &&& kind_in(before, section, kind) matches Some(Tree::List(items)) ==> (kind_in(
                after,
                section,
                kind,
            ) matches Some(Tree::List(more)) && items.is_prefix_of(more))
            &&& entry_in(before, section, kind, name) is Some ==> {
                &&& entry_in(after, section, kind, name) is Some
                &&& entry_in(after, section, kind, name) == entry_in(before, section, kind, name)
                    || (entry_in(after, section, kind, name) == entry_in(
                    share,
                    section,
                    kind,
                    name,
                ) && vmid < shares[winner(shares, section, kind, name)->0].0)
            }
        }),
{
    let all = shares.push((vmid, share));
    assert(all.drop_last() == shares);
    assert forall|i: int| 0 <= i < all.len() implies orderly((#[trigger] all[i]).1) by {
        if i < shares.len() {
            assert(all[i] == shares[i]);
        }
    }
    let owners = owners_of(all);
    let mid = merged_shares(start(conflicts), owners, shares);
    sorts_agree(owners_of(shares), owners, shares, conflicts, section, kind);
    sections_received(mid, owners, vmid, share, section, kind, name);
    names_belong_to_the_lowest_vmid(shares, conflicts, section, kind, name);
    names_belong_to_the_lowest_vmid(all, conflicts, section, kind, name);
    winner_has_the_lowest_vmid(shares, section, kind, name);
    winner_has_the_lowest_vmid(all, section, kind, name);
    if let Some(w) = winner(shares, section, kind, name) {
        assert(all[w] == shares[w]);
    }
}

/// A share that is nothing but maps of maps and lists.
pub open spec fn sound(share: Entries) -> bool {
    forall|i: int|
        0 <= i < share.len() ==> ((#[trigger] share[i]).1 matches Tree::Table(kinds)
            && sound_kinds(kinds))
}

/// Kinds that are maps or lists.
pub open spec fn sound_kinds(kinds: Entries) -> bool {
    forall|i: int| 0 <= i < kinds.len() ==> map_or_list(Some((#[trigger] kinds[i]).1))
}

proof fn entries_alone(
    conflicts: Seq<Seq<char>>,
    owners: Owners,
    vmid: u64,
    s: Seq<char>,
    k: Seq<char>,
    entries: Entries,
)
    requires
        ordered(entries),
        forall|what: Declared| #[trigger] owners.contains_key(what) ==> vmid <= owners[what],
    ensures
        merged_entries(start(conflicts), owners, vmid, s, k, entries) == (Merging {
            table: entries,
            conflicts,
        }),
    decreases entries.len(),
{
    if entries.len() == 0 {
        assert(entries =~= Seq::empty());
    } else {
        let front = entries.drop_last();
        ordered_front(entries);
        entries_alone(conflicts, owners, vmid, s, k, front);
        lookup_last_only(entries);
        all_before_last(entries);
        inserted_last(front, entries.last().0, entries.last().1);
        assert(front.push(entries.last()) =~= entries);
    }
}

proof fn all_before_last(entries: Entries)
    requires
        ordered(entries),
        entries.len() > 0,
    ensures
        forall|j: int|
            0 <= j < entries.drop_last().len() ==> precedes(
                (#[trigger] entries.drop_last()[j]).0,
                entries.last().0,
            ),
{
    let front = entries.drop_last();
    assert forall|j: int| 0 <= j < front.len() implies precedes(
        (#[trigger] front[j]).0,
        entries.last().0,
    ) by {
        assert(front[j] == entries[j]);
        assert(precedes(entries[j].0, entries[entries.len() - 1].0));
    }
}

proof fn kinds_alone(
    conflicts: Seq<Seq<char>>,
    owners: Owners,
    vmid: u64,
    s: Seq<char>,
    kinds: Entries,
)
    requires
        orderly_kinds(kinds),
        sound_kinds(kinds),
        forall|what: Declared| #[trigger] owners.contains_key(what) ==> vmid <= owners[what],
    ensures
        merged_kinds(start(conflicts), owners, vmid, s, kinds) == (Merging {
            table: kinds,
            conflicts,
        }),
    decreases kinds.len(),
{
    if kinds.len() == 0 {
        assert(kinds =~= Seq::empty());
    } else {
        let front = kinds.drop_last();
        ordered_front(kinds);
        assert(forall|j: int| 0 <= j < front.len() ==> front[j] == #[trigger] kinds[j]);
        assert(kinds[kinds.len() - 1] == kinds.last());
        kinds_alone(conflicts, owners, vmid, s, front);
        lookup_last_only(kinds);
        all_before_last(kinds);
        inserted_last(front, kinds.last().0, kinds.last().1);
        assert(front.push(kinds.last()) =~= kinds);
        if let Tree::Table(entries) = kinds.last().1 {
            entries_alone(conflicts, owners, vmid, s, kinds.last().0, entries);
        }
    }
}

proof fn sections_alone(conflicts: Seq<Seq<char>>, owners: Owners, vmid: u64, sections: Entries)
    requires
        orderly(sections),
        sound(sections),
        forall|what: Declared| #[trigger] owners.contains_key(what) ==> vmid <= owners[what],
    ensures
        merged_sections(start(conflicts), owners, vmid, sections) == (Merging {
            table: sections,
            conflicts,
        }),
    decreases sections.len(),
{
    if sections.len() == 0 {
        assert(sections =~= Seq::empty());
    } else {
        let front = sections.drop_last();
        ordered_front(sections);
        assert(forall|j: int| 0 <= j < front.len() ==> front[j] == #[trigger] sections[j]);
        assert(sections[sections.len() - 1] == sections.last());
        sections_alone(conflicts, owners, vmid, front);
        lookup_last_only(sections);
        all_before_last(sections);
        inserted_last(front, sections.last().0, sections.last().1);
        assert(front.push(sections.last()) =~= sections);
        if let Tree::Table(kinds) = sections.last().1 {
            kinds_alone(conflicts, owners, vmid, sections.last().0, kinds);
        }
    }
}

/// One share merges to itself, and nothing is reported, where it is nothing but
/// maps of maps and lists.
pub proof fn one_share_is_the_document(vmid: u64, share: Entries, conflicts: Seq<Seq<char>>)
    requires
        orderly(share),
        sound(share),
    ensures
        merged(seq![(vmid, share)], conflicts) == (Merging { table: share, conflicts }),
{
    let shares = seq![(vmid, share)];
    let owners = owners_of(shares);
    assert(all_orderly(shares));
    assert forall|what: Declared| #[trigger] owners.contains_key(what) implies vmid
        <= owners[what] by {
        owner_is_the_winner(shares, what.0, what.1, what.2);
        winner_has_the_lowest_vmid(shares, what.0, what.1, what.2);
        assert(what == (what.0, what.1, what.2));
    }
    sections_alone(conflicts, owners, vmid, share);
    let none = shares.drop_last();
    assert(merged_shares(start(conflicts), owners, none) == start(conflicts));
    assert(shares.last() == (vmid, share));
}

/// What is reported of a kind as a whole, where anything is: that it is no map
/// and no list, or that it is not of the sort that stands there.
pub open spec fn complaint(
    current: Option<Tree>,
    things: Tree,
    vmid: u64,
    section: Seq<char>,
    kind: Seq<char>,
) -> Option<Seq<char>> {
    match things {
        Tree::Table(_) => if current matches Some(Tree::List(_)) {
            Some(kind_conflict(vmid, section, kind, "' clashes with a list; ignored"@))
        } else {
            None
        },
        Tree::List(_) => if current matches Some(Tree::Table(_)) {
            Some(kind_conflict(vmid, section, kind, "' clashes with a map; ignored"@))
        } else {
            None
        },
        _ => Some(kind_conflict(vmid, section, kind, "' is neither a map nor a list; ignored"@)),
    }
}

/// The text reports the name `n` of these, which is another guest's or there
/// already.
spec fn entry_fault(
    current: Option<Tree>,
    owners: Owners,
    vmid: u64,
    s: Seq<char>,
    k: Seq<char>,
    things: Tree,
    n: Seq<char>,
    text: Seq<char>,
) -> bool {
    &&& !(current matches Some(Tree::List(_)))
    &&& thing_in(Some(things), n) is Some
    &&& loses(thing_in(current, n), owner_in(owners, (s, k, n)), vmid)
    &&& text == path_conflict(vmid, path_of(s, k, n), owners[(s, k, n)])
}

/// The text reports something of these things.
spec fn kind_fault(
    current: Option<Tree>,
    owners: Owners,
    vmid: u64,
    s: Seq<char>,
    k: Seq<char>,
    things: Tree,
    text: Seq<char>,
) -> bool {
    ||| complaint(current, things, vmid, s, k) == Some(text)
    ||| exists|n: Seq<char>| #[trigger] entry_fault(current, owners, vmid, s, k, things, n, text)
}

proof fn entries_reasons(
    m: Merging,
    owners: Owners,
    vmid: u64,
    s: Seq<char>,
    k: Seq<char>,
    entries: Entries,
    current: Option<Tree>,
    c: int,
)
    requires
        ordered(entries),
        current is None || (current matches Some(Tree::Table(_))),
        m.table == (match current {
            Some(Tree::Table(slot)) => slot,
            _ => Seq::empty(),
        }),
        m.conflicts.len() <= c < merged_entries(m, owners, vmid, s, k, entries).conflicts.len(),
    ensures
        kind_fault(
            current,
            owners,
            vmid,
            s,
            k,
            Tree::Table(entries),
            merged_entries(m, owners, vmid, s, k, entries).conflicts[c],
        ),
    decreases entries.len(),
{
    let after = merged_entries(m, owners, vmid, s, k, entries);
    if entries.len() > 0 {
        let front = entries.drop_last();
        let mid = merged_entries(m, owners, vmid, s, k, front);
        let n = entries.last().0;
        ordered_front(entries);
        lookup_last_only(entries);
        if c < mid.conflicts.len() {
            entries_reasons(m, owners, vmid, s, k, front, current, c);
            assert(after.conflicts[c] == mid.conflicts[c]);
            let q = choose|q: Seq<char>| #[trigger]
                entry_fault(
                    current,
                    owners,
                    vmid,
                    s,
                    k,
                    Tree::Table(front),
                    q,
                    mid.conflicts[c],
                );
            if q != n {
                lookup_not_last(entries, q);
            }
            assert(entry_fault(
                current,
                owners,
                vmid,
                s,
                k,
                Tree::Table(entries),
                q,
                after.conflicts[c],
            ));
        } else {
            entries_put(m, owners, vmid, s, k, front, n);
            assert(lookup(Seq::<(Seq<char>, Tree)>::empty(), n) is None);
            assert(lookup(m.table, n) == thing_in(current, n));
            assert(entry_fault(
                current,
                owners,
                vmid,
                s,
                k,
                Tree::Table(entries),
                n,
                after.conflicts[c],
            ));
        }
    }
}

proof fn kind_reasons(
    m: Merging,
    owners: Owners,
    vmid: u64,
    s: Seq<char>,
    kind: Seq<char>,
    things: Tree,
    c: int,
)
    requires
        things matches Tree::Table(entries) ==> ordered(entries),
        map_or_list(lookup(m.table, kind)),
        m.conflicts.len() <= c < merged_kind(m, owners, vmid, s, kind, things).conflicts.len(),
    ensures
        kind_fault(
            lookup(m.table, kind),
            owners,
            vmid,
            s,
            kind,
            things,
            merged_kind(m, owners, vmid, s, kind, things).conflicts[c],
        ),
{
    let current = lookup(m.table, kind);
    if let Tree::Table(entries) = things {
        let slot = match current {
            Some(Tree::Table(slot)) => slot,
            _ => Seq::empty(),
        };
        if !(current matches Some(Tree::List(_))) {
            entries_reasons(
                Merging { table: slot, ..m },
                owners,
                vmid,
                s,
                kind,
                entries,
                current,
                c,
            );
        }
    }
}

/// The text reports something of the kind `k`.
spec fn fault_of_kind(
    table: Entries,
    owners: Owners,
    vmid: u64,
    s: Seq<char>,
    kinds: Entries,
    k: Seq<char>,
    text: Seq<char>,
) -> bool {
    lookup(kinds, k) matches Some(things) && kind_fault(
        lookup(table, k),
        owners,
        vmid,
        s,
        k,
        things,
        text,
    )
}

#[verifier::rlimit(40)]
proof fn kinds_reasons(
    m: Merging,
    owners: Owners,
    vmid: u64,
    s: Seq<char>,
    kinds: Entries,
    c: int,
) -> (k: Seq<char>)
    requires
        orderly_kinds(kinds),
        forall|k: Seq<char>| map_or_list(#[trigger] lookup(m.table, k)),
        m.conflicts.len() <= c < merged_kinds(m, owners, vmid, s, kinds).conflicts.len(),
    ensures
        fault_of_kind(
            m.table,
            owners,
            vmid,
            s,
            kinds,
            k,
            merged_kinds(m, owners, vmid, s, kinds).conflicts[c],
        ),
    decreases kinds.len(),
{
    let after = merged_kinds(m, owners, vmid, s, kinds);
    if kinds.len() == 0 {
        Seq::empty()
    } else {
        let front = kinds.drop_last();
        let mid = merged_kinds(m, owners, vmid, s, front);
        let (kind, things) = kinds.last();
        ordered_front(kinds);
        assert(forall|j: int| 0 <= j < front.len() ==> front[j] == #[trigger] kinds[j]);
        assert(kinds[kinds.len() - 1] == kinds.last());
        lookup_last_only(kinds);
        kind_adds_reports(mid, owners, vmid, s, kind, things);
        if c < mid.conflicts.len() {
            let k = kinds_reasons(m, owners, vmid, s, front, c);
            assert(after.conflicts[c] == mid.conflicts[c]);
            if k != kind {
                lookup_not_last(kinds, k);
            }
            k
        } else {
            kinds_received(m, owners, vmid, s, front, kind, Seq::empty());
            assert(lookup(mid.table, kind) == lookup(m.table, kind));
            assert(map_or_list(lookup(m.table, kind)));
            kind_reasons(mid, owners, vmid, s, kind, things, c);
            kind
        }
    }
}

/// The text reports something of the section `s`: that it is no map, or something
/// of the kind `k` in it.
spec fn fault_of_section(
    doc: Entries,
    owners: Owners,
    vmid: u64,
    share: Entries,
    s: Seq<char>,
    k: Seq<char>,
    text: Seq<char>,
) -> bool {
    match lookup(share, s) {
        Some(Tree::Table(kinds)) => lookup(kinds, k) matches Some(things) && kind_fault(
            kind_in(doc, s, k),
            owners,
            vmid,
            s,
            k,
            things,
            text,
        ),
        Some(_) => text == section_conflict(vmid, s),
        None => false,
    }
}

#[verifier::rlimit(40)]
proof fn sections_reasons(
    m: Merging,
    owners: Owners,
    vmid: u64,
    sections: Entries,
    c: int,
) -> (at: (Seq<char>, Seq<char>))
    requires
        orderly(sections),
        forall|s: Seq<char>, k: Seq<char>| map_or_list(#[trigger] kind_in(m.table, s, k)),
        m.conflicts.len() <= c < merged_sections(m, owners, vmid, sections).conflicts.len(),
    ensures
        fault_of_section(
            m.table,
            owners,
            vmid,
            sections,
            at.0,
            at.1,
            merged_sections(m, owners, vmid, sections).conflicts[c],
        ),
    decreases sections.len(),
{
    let after = merged_sections(m, owners, vmid, sections);
    if sections.len() == 0 {
        (Seq::empty(), Seq::empty())
    } else {
        let front = sections.drop_last();
        let mid = merged_sections(m, owners, vmid, front);
        let (section, kinds) = sections.last();
        ordered_front(sections);
        assert(forall|j: int| 0 <= j < front.len() ==> front[j] == #[trigger] sections[j]);
        assert(sections[sections.len() - 1] == sections.last());
        lookup_last_only(sections);
        section_adds_reports(mid, owners, vmid, section, kinds);
        if c < mid.conflicts.len() {
            let at = sections_reasons(m, owners, vmid, front, c);
            assert(after.conflicts[c] == mid.conflicts[c]);
            if at.0 != section {
                lookup_not_last(sections, at.0);
            }
            at
        } else if let Tree::Table(rows) = kinds {
            let inside = entered(mid, section);
            assert forall|k: Seq<char>| map_or_list(#[trigger] lookup(inside.table, k)) by {
                entered_kind(mid, section, k);
                sections_received(m, owners, vmid, front, section, k, Seq::empty());
                assert(map_or_list(kind_in(m.table, section, k)));
            }
            let k = kinds_reasons(inside, owners, vmid, section, rows, c);
            entered_kind(mid, section, k);
            sections_received(m, owners, vmid, front, section, k, Seq::empty());
            assert(lookup(inside.table, k) == kind_in(m.table, section, k));
            (section, k)
        } else {
            (section, Seq::empty())
        }
    }
}

/// What a share is reported for, in the document that came out: a section of it
/// is no map, a kind of it is neither a map nor a list or clashes with what the
/// document has, or a name of it is not taken from it.
pub open spec fn reported_for(
    shares: Seq<Share>,
    doc: Entries,
    i: int,
    section: Seq<char>,
    kind: Seq<char>,
    name: Seq<char>,
    text: Seq<char>,
) -> bool {
    let vmid = shares[i].0;
    let share = shares[i].1;
    ||| {
        &&& lookup(share, section) matches Some(kinds)
        &&& !(kinds is Table)
        &&& text == section_conflict(vmid, section)
    }
    ||| {
        &&& kind_in(share, section, kind) matches Some(things)
        &&& complaint(kind_in(doc, section, kind), things, vmid, section, kind) == Some(text)
    }
    ||| {
        &&& kind_in(doc, section, kind) matches Some(Tree::Table(_))
        &&& entry_in(share, section, kind, name) is Some
        &&& winner(shares, section, kind, name) matches Some(w)
        &&& w != i
        &&& text == path_conflict(vmid, path_of(section, kind, name), shares[w].0)
    }
}

proof fn sort_stays(
    all: Seq<Share>,
    conflicts: Seq<Seq<char>>,
    i: int,
    j: int,
    s: Seq<char>,
    k: Seq<char>,
)
    requires
        all_orderly(all),
        0 <= i <= j <= all.len(),
    ensures
        ({
            let then = kind_in(stage(all, conflicts, i).table, s, k);
            let now = kind_in(stage(all, conflicts, j).table, s, k);
            &&& then matches Some(Tree::Table(_)) ==> (now matches Some(Tree::Table(_)))
            &&& then matches Some(Tree::List(_)) ==> (now matches Some(Tree::List(_)))
        }),
    decreases j - i,
{
    if i < j {
        sort_stays(all, conflicts, i, j - 1, s, k);
        stage_grows(all, conflicts, j - 1, s, k, Seq::empty());
    }
}

proof fn stage_reasons(
    all: Seq<Share>,
    conflicts: Seq<Seq<char>>,
    j: int,
    c: int,
) -> (at: (int, Seq<char>, Seq<char>))
    requires
        all_orderly(all),
        0 <= j <= all.len(),
        conflicts.len() <= c < stage(all, conflicts, j).conflicts.len(),
    ensures
        0 <= at.0 < j,
        fault_of_section(
            stage(all, conflicts, at.0).table,
            owners_of(all),
            all[at.0].0,
            all[at.0].1,
            at.1,
            at.2,
            stage(all, conflicts, j).conflicts[c],
        ),
    decreases j,
{
    if j == 0 {
        assert(all.take(0).len() == 0);
        (0, Seq::empty(), Seq::empty())
    } else {
        let mid = stage(all, conflicts, j - 1);
        let owners = owners_of(all);
        stage_grows(all, conflicts, j - 1, Seq::empty(), Seq::empty(), Seq::empty());
        sections_add_reports(mid, owners, all[j - 1].0, all[j - 1].1);
        if c < mid.conflicts.len() {
            let at = stage_reasons(all, conflicts, j - 1, c);
            assert(stage(all, conflicts, j).conflicts[c] == mid.conflicts[c]);
            at
        } else {
            assert forall|s: Seq<char>, k: Seq<char>| map_or_list(
                #[trigger] kind_in(mid.table, s, k),
            ) by {
                stage_holds(all, conflicts, j - 1, s, k, Seq::empty());
            }
            let at = sections_reasons(mid, owners, all[j - 1].0, all[j - 1].1, c);
            (j - 1, at.0, at.1)
        }
    }
}

/// Nothing is reported without a reason: each report of a merge is of a share
/// that has a section which is no map, a kind which cannot stand in the document,
/// or a name that the document has from another share.
#[verifier::rlimit(40)]
pub proof fn reports_have_a_reason(
    shares: Seq<Share>,
    conflicts: Seq<Seq<char>>,
    c: int,
) -> (at: (int, Seq<char>, Seq<char>, Seq<char>))
    requires
        all_orderly(shares),
        conflicts.len() <= c < merged(shares, conflicts).conflicts.len(),
    ensures
        0 <= at.0 < shares.len(),
        reported_for(
            shares,
            merged(shares, conflicts).table,
            at.0,
            at.1,
            at.2,
            at.3,
            merged(shares, conflicts).conflicts[c],
        ),
{
    let n = shares.len() as int;
    let doc = merged(shares, conflicts).table;
    let text = merged(shares, conflicts).conflicts[c];
    let owners = owners_of(shares);
    assert(shares.take(n) == shares);
    let (i, s, k) = stage_reasons(shares, conflicts, n, c);
    let vmid = shares[i].0;
    let share = shares[i].1;
    let current = kind_in(stage(shares, conflicts, i).table, s, k);
    match lookup(share, s) {
        Some(Tree::Table(kinds)) => {
            let things = lookup(kinds, k)->0;
            assert(kind_in(share, s, k) == Some(things));
            sort_stays(shares, conflicts, i, n, s, k);
            if complaint(current, things, vmid, s, k) == Some(text) {
                assert(complaint(kind_in(doc, s, k), things, vmid, s, k) == Some(text));
                (i, s, k, Seq::empty())
            } else {
                let q = choose|q: Seq<char>| #[trigger]
                    entry_fault(current, owners, vmid, s, k, things, q, text);
                stage_holds(shares, conflicts, i, s, k, q);
                stage_grows(shares, conflicts, i, s, k, q);
                sort_stays(shares, conflicts, i + 1, n, s, k);
                owner_is_the_winner(shares, s, k, q);
                winner_has_the_lowest_vmid(shares, s, k, q);
                winner_has_the_lowest_vmid(shares.take(i), s, k, q);
                let w = winner(shares, s, k, q)->0;
                assert(entry_in(share, s, k, q) is Some);
                if w == i {
                    let v = winner(shares.take(i), s, k, q)->0;
                    assert(shares.take(i)[v] == shares[v]);
                }
                (i, s, k, q)
            }
        },
        _ => (i, s, k, Seq::empty()),
    }
}

proof fn kinds_complain(
    m: Merging,
    owners: Owners,
    vmid: u64,
    s: Seq<char>,
    kinds: Entries,
    k: Seq<char>,
    things: Tree,
    text: Seq<char>,
)
    requires
        orderly_kinds(kinds),
        lookup(kinds, k) == Some(things),
        complaint(lookup(m.table, k), things, vmid, s, k) == Some(text),
    ensures
        merged_kinds(m, owners, vmid, s, kinds).conflicts.contains(text),
    decreases kinds.len(),
{
    if kinds.len() == 0 {
        assert(lookup(kinds, k) is None);
    } else {
        let front = kinds.drop_last();
        let mid = merged_kinds(m, owners, vmid, s, front);
        let after = merged_kinds(m, owners, vmid, s, kinds);
        let (kind, last) = kinds.last();
        ordered_front(kinds);
        assert(forall|j: int| 0 <= j < front.len() ==> front[j] == #[trigger] kinds[j]);
        assert(kinds[kinds.len() - 1] == kinds.last());
        lookup_last_only(kinds);
        if kind == k {
            kinds_received(m, owners, vmid, s, front, k, Seq::empty());
            assert(after.conflicts[mid.conflicts.len() as int] == text);
        } else {
            lookup_not_last(kinds, k);
            kinds_complain(m, owners, vmid, s, front, k, things, text);
            kind_adds_reports(mid, owners, vmid, s, kind, last);
            stays_reported(mid.conflicts, after.conflicts, text);
        }
    }
}

proof fn sections_complain(
    m: Merging,
    owners: Owners,
    vmid: u64,
    sections: Entries,
    s: Seq<char>,
    k: Seq<char>,
    text: Seq<char>,
)
    requires
        orderly(sections),
        match lookup(sections, s) {
            Some(Tree::Table(kinds)) => lookup(kinds, k) matches Some(things) && complaint(
                kind_in(m.table, s, k),
                things,
                vmid,
                s,
                k,
            ) == Some(text),
            Some(_) => text == section_conflict(vmid, s),
            None => false,
        },
    ensures
        merged_sections(m, owners, vmid, sections).conflicts.contains(text),
    decreases sections.len(),
{
    if sections.len() == 0 {
        assert(lookup(sections, s) is None);
    } else {
        let front = sections.drop_last();
        let mid = merged_sections(m, owners, vmid, front);
        let after = merged_sections(m, owners, vmid, sections);
        let (section, kinds) = sections.last();
        ordered_front(sections);
        assert(forall|j: int| 0 <= j < front.len() ==> front[j] == #[trigger] sections[j]);
        assert(sections[sections.len() - 1] == sections.last());
        lookup_last_only(sections);
        if section == s {
            sections_received(m, owners, vmid, front, s, k, Seq::empty());
            entered_kind(mid, s, k);
            if let Tree::Table(rows) = kinds {
                kinds_complain(
                    entered(mid, s),
                    owners,
                    vmid,
                    s,
                    rows,
                    k,
                    lookup(rows, k)->0,
                    text,
                );
            } else {
                assert(after.conflicts[mid.conflicts.len() as int] == text);
            }
        } else {
            lookup_not_last(sections, s);
            sections_complain(m, owners, vmid, front, s, k, text);
            section_adds_reports(mid, owners, vmid, section, kinds);
            stays_reported(mid.conflicts, after.conflicts, text);
        }
    }
}

proof fn stage_keeps_reports(
    all: Seq<Share>,
    conflicts: Seq<Seq<char>>,
    i: int,
    j: int,
    text: Seq<char>,
)
    requires
        all_orderly(all),
        0 <= i <= j <= all.len(),
        stage(all, conflicts, i).conflicts.contains(text),
    ensures
        stage(all, conflicts, j).conflicts.contains(text),
    decreases j - i,
{
    if i < j {
        stage_keeps_reports(all, conflicts, i, j - 1, text);
        stage_grows(all, conflicts, j - 1, Seq::empty(), Seq::empty(), Seq::empty());
        sections_add_reports(
            stage(all, conflicts, j - 1),
            owners_of(all),
            all[j - 1].0,
            all[j - 1].1,
        );
        stays_reported(
            stage(all, conflicts, j - 1).conflicts,
            stage(all, conflicts, j).conflicts,
            text,
        );
    }
}

/// Whatever is to be reported of a share is reported.
#[verifier::rlimit(40)]
pub proof fn reasons_are_reported(
    shares: Seq<Share>,
    conflicts: Seq<Seq<char>>,
    i: int,
    section: Seq<char>,
    kind: Seq<char>,
    name: Seq<char>,
    text: Seq<char>,
)
    requires
        all_orderly(shares),
        0 <= i < shares.len(),
        reported_for(
            shares,
            merged(shares, conflicts).table,
            i,
            section,
            kind,
            name,
            text,
        ),
    ensures
        merged(shares, conflicts).conflicts.contains(text),
{
    let n = shares.len() as int;
    let doc = merged(shares, conflicts).table;
    let share = shares[i].1;
    let owners = owners_of(shares);
    let mid = stage(shares, conflicts, i);
    assert(shares.take(n) == shares);
    stage_grows(shares, conflicts, i, section, kind, name);
    stage_holds(shares, conflicts, i, section, kind, name);
    sort_stays(shares, conflicts, i, n, section, kind);
    sort_stays(shares, conflicts, i + 1, n, section, kind);
    if (lookup(share, section) matches Some(kinds) && !(kinds is Table) && text
        == section_conflict(shares[i].0, section)) || (kind_in(share, section, kind) matches Some(
        things,
    ) && complaint(kind_in(doc, section, kind), things, shares[i].0, section, kind) == Some(text)) {
        sections_complain(mid, owners, shares[i].0, share, section, kind, text);
        stage_keeps_reports(shares, conflicts, i + 1, n, text);
    } else {
        losers_are_reported(shares, conflicts, section, kind, name, i);
    }
}

/// The first share that has a map or a list of a kind decides which of the two the
/// document has, and where none has either the document has nothing there.
pub proof fn first_share_decides_the_sort(
    shares: Seq<Share>,
    conflicts: Seq<Seq<char>>,
    section: Seq<char>,
    kind: Seq<char>,
    i: int,
)
    requires
        all_orderly(shares),
        0 <= i <= shares.len(),
        forall|j: int|
            0 <= j < i ==> {
                let things = kind_in((#[trigger] shares[j]).1, section, kind);
                !(things matches Some(Tree::Table(_))) && !(things matches Some(Tree::List(_)))
            },
    ensures
        ({
            let now = kind_in(merged(shares, conflicts).table, section, kind);
            if i == shares.len() {
                now is None
            } else {
                match kind_in(shares[i].1, section, kind) {
                    Some(Tree::Table(_)) => now matches Some(Tree::Table(_)),
                    Some(Tree::List(_)) => now matches Some(Tree::List(_)),
                    _ => true,
                }
            }
        }),
{
    let n = shares.len() as int;
    assert(shares.take(n) == shares);
    nothing_yet(shares, conflicts, section, kind, i);
    if i < n {
        stage_grows(shares, conflicts, i, section, kind, Seq::empty());
        sort_stays(shares, conflicts, i + 1, n, section, kind);
    }
}

proof fn nothing_yet(
    all: Seq<Share>,
    conflicts: Seq<Seq<char>>,
    s: Seq<char>,
    k: Seq<char>,
    i: int,
)
    requires
        all_orderly(all),
        0 <= i <= all.len(),
        forall|j: int|
            0 <= j < i ==> {
                let things = kind_in((#[trigger] all[j]).1, s, k);
                !(things matches Some(Tree::Table(_))) && !(things matches Some(Tree::List(_)))
            },
    ensures
        kind_in(stage(all, conflicts, i).table, s, k) is None,
    decreases i,
{
    if i == 0 {
        assert(all.take(0).len() == 0);
        assert(lookup(stage(all, conflicts, 0).table, s) is None);
    } else {
        nothing_yet(all, conflicts, s, k, i - 1);
        stage_grows(all, conflicts, i - 1, s, k, Seq::empty());
        assert(all[i - 1] == all[i - 1]);
    }
}

proof fn sections_entered(
    m: Merging,
    owners: Owners,
    vmid: u64,
    sections: Entries,
    s: Seq<char>,
)
    requires
        ordered(sections),
    ensures
        lookup(merged_sections(m, owners, vmid, sections).table, s) is Some <==> lookup(m.table, s)
            is Some || (lookup(sections, s) matches Some(Tree::Table(_))),
    decreases sections.len(),
{
    if sections.len() == 0 {
        assert(lookup(sections, s) is None);
    } else {
        let front = sections.drop_last();
        let mid = merged_sections(m, owners, vmid, front);
        let (section, kinds) = sections.last();
        ordered_front(sections);
        sections_entered(m, owners, vmid, front, s);
        lookup_last_only(sections);
        if section != s {
            lookup_not_last(sections, s);
        }
        if let Tree::Table(rows) = kinds {
            let inner = merged_kinds(entered(mid, section), owners, vmid, section, rows);
            lookup_inserted(mid.table, section, Tree::Table(inner.table), s);
        }
    }
}

proof fn shares_entered(m: Merging, owners: Owners, shares: Seq<Share>, s: Seq<char>)
    requires
        all_orderly(shares),
    ensures
        lookup(merged_shares(m, owners, shares).table, s) is Some <==> lookup(m.table, s) is Some
            || exists|i: int|
            0 <= i < shares.len() && (lookup((#[trigger] shares[i]).1, s) matches Some(
                Tree::Table(_),
            )),
    decreases shares.len(),
{
    if shares.len() > 0 {
        let front = shares.drop_last();
        let last = shares.len() - 1;
        assert(forall|j: int| 0 <= j < front.len() ==> front[j] == #[trigger] shares[j]);
        assert(shares[last] == shares.last());
        shares_entered(m, owners, front, s);
        sections_entered(
            merged_shares(m, owners, front),
            owners,
            shares.last().0,
            shares.last().1,
            s,
        );
        if exists|i: int|
            0 <= i < front.len() && (lookup((#[trigger] front[i]).1, s) matches Some(
                Tree::Table(_),
            )) {
            let i = choose|i: int|
                0 <= i < front.len() && (lookup((#[trigger] front[i]).1, s) matches Some(
                    Tree::Table(_),
                ));
            assert(lookup(shares[i].1, s) matches Some(Tree::Table(_)));
        }
    }
}

/// The document has the sections that some share has as a map, and no others.
pub proof fn sections_come_from_the_shares(
    shares: Seq<Share>,
    conflicts: Seq<Seq<char>>,
    section: Seq<char>,
)
    requires
        all_orderly(shares),
    ensures
        lookup(merged(shares, conflicts).table, section) is Some <==> exists|i: int|
            0 <= i < shares.len() && (lookup((#[trigger] shares[i]).1, section) matches Some(
                Tree::Table(_),
            )),
{
    assert(lookup(start(conflicts).table, section) is None);
    shares_entered(start(conflicts), owners_of(shares), shares, section);
}

} // verus!
