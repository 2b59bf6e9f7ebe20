//! From all guests' shares to the one document Traefik reads.
use vstd::prelude::*;

use crate::text::{decimal, texts};
use crate::text::{decimal_text, equal_text};
use crate::value::{entries_of, inserted, inserted_again, lookup, ordered, position, trees_of};
use crate::value::{Entries, Tree};
use crate::value::{Table, Value};

verus! {

/// A merge under way: the table that is being filled, and the conflicts so far.
pub struct Merging {
    pub table: Entries,
    pub conflicts: Seq<Seq<char>>,
}

/// A guest's share of the document.
pub type Share = (u64, Entries);

/// A router, a service or a middleware: its section, its kind and its name.
pub type Declared = (Seq<char>, Seq<char>, Seq<char>);

/// The guest that each of them belongs to.
pub type Owners = Map<Declared, u64>;

/// The path of a router, a service or a middleware.
pub open spec fn path_of(section: Seq<char>, kind: Seq<char>, name: Seq<char>) -> Seq<char> {
    section + "."@ + kind + "."@ + name
}

/// What is said of a section that is no map.
pub open spec fn section_conflict(vmid: u64, section: Seq<char>) -> Seq<char> {
    "guest "@ + decimal(vmid as nat) + ": '"@ + section + "' is not a map; ignored"@
}

/// What is said of a kind of things: `rest` says what is the matter with it.
pub open spec fn kind_conflict(
    vmid: u64,
    section: Seq<char>,
    kind: Seq<char>,
    rest: Seq<char>,
) -> Seq<char> {
    "guest "@ + decimal(vmid as nat) + ": '"@ + section + "."@ + kind + rest
}

/// What is said of a path that another guest, or the same one, declares.
pub open spec fn path_conflict(vmid: u64, path: Seq<char>, owner: u64) -> Seq<char> {
    "guest "@ + decimal(vmid as nat) + ": '"@ + path + "' is already declared by guest "@ + decimal(
        owner as nat,
    ) + "; ignored"@
}

/// A declaration more: it belongs to the guest, unless one whose vmid is not
/// higher has it.
pub open spec fn claimed(owners: Owners, vmid: u64, what: Declared) -> Owners {
    if owners.contains_key(what) && owners[what] <= vmid {
        owners
    } else {
        owners.insert(what, vmid)
    }
}

/// The declarations of one kind.
pub open spec fn claimed_entries(
    owners: Owners,
    vmid: u64,
    section: Seq<char>,
    kind: Seq<char>,
    entries: Entries,
) -> Owners
    decreases entries.len(),
{
    if entries.len() == 0 {
        owners
    } else {
        claimed(
            claimed_entries(owners, vmid, section, kind, entries.drop_last()),
            vmid,
            (section, kind, entries.last().0),
        )
    }
}

/// The declarations of one section.
pub open spec fn claimed_kinds(owners: Owners, vmid: u64, section: Seq<char>, kinds: Entries) -> Owners
    decreases kinds.len(),
{
    if kinds.len() == 0 {
        owners
    } else {
        let before = claimed_kinds(owners, vmid, section, kinds.drop_last());
        match kinds.last().1 {
            Tree::Table(entries) => claimed_entries(
                before,
                vmid,
                section,
                kinds.last().0,
                entries,
            ),
            _ => before,
        }
    }
}

/// The declarations of one share.
pub open spec fn claimed_sections(owners: Owners, vmid: u64, sections: Entries) -> Owners
    decreases sections.len(),
{
    if sections.len() == 0 {
        owners
    } else {
        let before = claimed_sections(owners, vmid, sections.drop_last());
        match sections.last().1 {
            Tree::Table(kinds) => claimed_kinds(before, vmid, sections.last().0, kinds),
            _ => before,
        }
    }
}

/// The declarations of all shares: each belongs to the lowest vmid that makes
/// it.
pub open spec fn owners_of(shares: Seq<Share>) -> Owners
    decreases shares.len(),
{
    if shares.len() == 0 {
        Map::empty()
    } else {
        claimed_sections(owners_of(shares.drop_last()), shares.last().0, shares.last().1)
    }
}

/// One thing more: it stays out, and is reported, where it belongs to a guest of
/// a lower vmid or is there already.
pub open spec fn merged_entry(
    m: Merging,
    owners: Owners,
    vmid: u64,
    section: Seq<char>,
    kind: Seq<char>,
    entry: (Seq<char>, Tree),
) -> Merging {
    let what = (section, kind, entry.0);
    if owners.contains_key(what) && (owners[what] < vmid || lookup(m.table, entry.0) is Some) {
        let path = path_of(section, kind, entry.0);
        Merging { conflicts: m.conflicts.push(path_conflict(vmid, path, owners[what])), ..m }
    } else {
        Merging { table: inserted(m.table, entry.0, entry.1), ..m }
    }
}

/// The things of one kind, in their order.
pub open spec fn merged_entries(
    m: Merging,
    owners: Owners,
    vmid: u64,
    section: Seq<char>,
    kind: Seq<char>,
    entries: Entries,
) -> Merging
    decreases entries.len(),
{
    if entries.len() == 0 {
        m
    } else {
        merged_entry(
            merged_entries(m, owners, vmid, section, kind, entries.drop_last()),
            owners,
            vmid,
            section,
            kind,
            entries.last(),
        )
    }
}

/// A table put under `key` once it is filled.
pub open spec fn placed(m: Merging, key: Seq<char>, inner: Merging) -> Merging {
    Merging { table: inserted(m.table, key, Tree::Table(inner.table)), ..inner }
}

/// One kind of things: maps are merged, lists are appended to one another.
pub open spec fn merged_kind(
    m: Merging,
    owners: Owners,
    vmid: u64,
    section: Seq<char>,
    kind: Seq<char>,
    things: Tree,
) -> Merging {
    match things {
        Tree::Table(entries) => match lookup(m.table, kind) {
            None => placed(
                m,
                kind,
                merged_entries(
                    Merging { table: Seq::empty(), ..m },
                    owners,
                    vmid,
                    section,
                    kind,
                    entries,
                ),
            ),
            Some(Tree::Table(slot)) => placed(
                m,
                kind,
                merged_entries(
                    Merging { table: slot, ..m },
                    owners,
                    vmid,
                    section,
                    kind,
                    entries,
                ),
            ),
            Some(_) => Merging {
                conflicts: m.conflicts.push(
                    kind_conflict(vmid, section, kind, "' clashes with a list; ignored"@),
                ),
                ..m
            },
        },
        Tree::List(items) => match lookup(m.table, kind) {
            None => Merging { table: inserted(m.table, kind, Tree::List(items)), ..m },
            Some(Tree::List(have)) => Merging {
                table: inserted(m.table, kind, Tree::List(have + items)),
                ..m
            },
            Some(_) => Merging {
                conflicts: m.conflicts.push(
                    kind_conflict(vmid, section, kind, "' clashes with a map; ignored"@),
                ),
                ..m
            },
        },
        _ => Merging {
            conflicts: m.conflicts.push(
                kind_conflict(vmid, section, kind, "' is neither a map nor a list; ignored"@),
            ),
            ..m
        },
    }
}

/// The kinds of one section, in their order.
pub open spec fn merged_kinds(
    m: Merging,
    owners: Owners,
    vmid: u64,
    section: Seq<char>,
    kinds: Entries,
) -> Merging
    decreases kinds.len(),
{
    if kinds.len() == 0 {
        m
    } else {
        let (kind, things) = kinds.last();
        merged_kind(
            merged_kinds(m, owners, vmid, section, kinds.drop_last()),
            owners,
            vmid,
            section,
            kind,
            things,
        )
    }
}

/// The table under `key`; an empty one where there is none.
pub open spec fn table_under(table: Entries, key: Seq<char>) -> Entries {
    match lookup(table, key) {
        Some(Tree::Table(inner)) => inner,
        _ => Seq::empty(),
    }
}

/// One section of a share.
pub open spec fn merged_section(
    m: Merging,
    owners: Owners,
    vmid: u64,
    section: Seq<char>,
    kinds: Tree,
) -> Merging {
    match kinds {
        Tree::Table(kinds) => placed(
            m,
            section,
            merged_kinds(
                Merging { table: table_under(m.table, section), ..m },
                owners,
                vmid,
                section,
                kinds,
            ),
        ),
        _ => Merging { conflicts: m.conflicts.push(section_conflict(vmid, section)), ..m },
    }
}

/// The sections of a share, in their order.
pub open spec fn merged_sections(m: Merging, owners: Owners, vmid: u64, sections: Entries) -> Merging
    decreases sections.len(),
{
    if sections.len() == 0 {
        m
    } else {
        let (section, kinds) = sections.last();
        merged_section(
            merged_sections(m, owners, vmid, sections.drop_last()),
            owners,
            vmid,
            section,
            kinds,
        )
    }
}

/// The shares, in their order.
pub open spec fn merged_shares(m: Merging, owners: Owners, shares: Seq<Share>) -> Merging
    decreases shares.len(),
{
    if shares.len() == 0 {
        m
    } else {
        let (vmid, sections) = shares.last();
        merged_sections(merged_shares(m, owners, shares.drop_last()), owners, vmid, sections)
    }
}

/// The merge of the shares, from an empty document on.
pub open spec fn merged(shares: Seq<Share>, conflicts: Seq<Seq<char>>) -> Merging {
    merged_shares(Merging { table: Seq::empty(), conflicts }, owners_of(shares), shares)
}

/// A share as a table holds it: its entries are in order, and so are those of
/// its sections and of their kinds.
pub open spec fn orderly(share: Entries) -> bool {
    &&& ordered(share)
    &&& forall|i: int|
        0 <= i < share.len() ==> ((#[trigger] share[i]).1 matches Tree::Table(kinds)
            ==> orderly_kinds(kinds))
}

/// A section as a table holds it.
pub open spec fn orderly_kinds(kinds: Entries) -> bool {
    &&& ordered(kinds)
    &&& forall|i: int|
        0 <= i < kinds.len() ==> ((#[trigger] kinds[i]).1 matches Tree::Table(entries) ==> ordered(
            entries,
        ))
}

fn in_order_by_kind(kinds: &Table)
    ensures
        orderly_kinds(kinds@),
{
    kinds.in_key_order();
    let mut i: usize = 0;
    while i < kinds.len()
        invariant
            i <= kinds@.len(),
            ordered(kinds@),
            forall|j: int|
                0 <= j < i ==> ((#[trigger] kinds@[j]).1 matches Tree::Table(entries) ==> ordered(
                    entries,
                )),
        decreases kinds@.len() - i,
    {
        if let Value::Table(entries) = kinds.value(i) {
            entries.in_key_order();
        }
        i = i + 1;
    }
}

/// Every table is in order, and so are the tables in it: a share that is a table
/// is orderly.
pub fn in_order(share: &Table)
    ensures
        orderly(share@),
{
    share.in_key_order();
    let mut i: usize = 0;
    while i < share.len()
        invariant
            i <= share@.len(),
            ordered(share@),
            forall|j: int|
                0 <= j < i ==> ((#[trigger] share@[j]).1 matches Tree::Table(kinds)
                    ==> orderly_kinds(kinds)),
        decreases share@.len() - i,
    {
        if let Value::Table(kinds) = share.value(i) {
            in_order_by_kind(kinds);
        }
        i = i + 1;
    }
}

/// What the shares say.
pub open spec fn shares_of(shares: Seq<(u64, Table)>) -> Seq<Share> {
    shares.map_values(|s: (u64, Table)| (s.0, s.1@))
}

/// The state of a merge that the two of them hold.
pub open spec fn merging(table: Table, conflicts: Seq<String>) -> Merging {
    Merging { table: table@, conflicts: texts(conflicts) }
}

/// A declaration and the guest that it belongs to.
struct Claim {
    section: String,
    kind: String,
    name: String,
    vmid: u64,
}

/// What the claims say: of several on one declaration the last counts.
spec fn claims_of(claims: Seq<Claim>) -> Owners
    decreases claims.len(),
{
    if claims.len() == 0 {
        Map::empty()
    } else {
        let last = claims.last();
        claims_of(claims.drop_last()).insert(
            (last.section@, last.kind@, last.name@),
            last.vmid,
        )
    }
}

fn find_owner(claims: &Vec<Claim>, section: &String, kind: &String, name: &String) -> (r: Option<u64>)
    ensures
        r == ({
            let what = (section@, kind@, name@);
            if claims_of(claims@).contains_key(what) {
                Some(claims_of(claims@)[what])
            } else {
                None
            }
        }),
{
    let ghost what = (section@, kind@, name@);
    let ghost all = claims@;
    let mut i: usize = claims.len();
    assert(all.take(i as int) == all);
    while i > 0
        invariant
            i <= claims@.len(),
            all == claims@,
            what == (section@, kind@, name@),
            claims_of(all).contains_key(what) == claims_of(all.take(i as int)).contains_key(what),
            claims_of(all).contains_key(what) ==> claims_of(all)[what] == claims_of(
                all.take(i as int),
            )[what],
        decreases i,
    {
        let ghost rest = all.take(i as int);
        i = i - 1;
        assert(rest.drop_last() == all.take(i as int));
        assert(rest.last() == all[i as int]);
        let claim = &claims[i];
        if equal_text(claim.section.as_str(), section.as_str()) && equal_text(
            claim.kind.as_str(),
            kind.as_str(),
        ) && equal_text(claim.name.as_str(), name.as_str()) {
            return Some(claim.vmid);
        }
    }
    None
}

fn claim_entries(
    claims: &mut Vec<Claim>,
    vmid: u64,
    section: &String,
    kind: &String,
    entries: &Table,
)
    ensures
        claims_of(final(claims)@) == claimed_entries(
            claims_of(old(claims)@),
            vmid,
            section@,
            kind@,
            entries@,
        ),
{
    let ghost start = claims_of(claims@);
    let ghost given = entries@;
    let mut i: usize = 0;
    assert(given.take(0).len() == 0);
    while i < entries.len()
        invariant
            i <= entries@.len(),
            given == entries@,
            claims_of(claims@) == claimed_entries(
                start,
                vmid,
                section@,
                kind@,
                given.take(i as int),
            ),
        decreases entries@.len() - i,
    {
        assert(given.take(i + 1).drop_last() == given.take(i as int));
        assert(given.take(i + 1).last() == given[i as int]);
        let name = entries.key(i);
        let taken = match find_owner(claims, section, kind, name) {
            Some(owner) => owner <= vmid,
            None => false,
        };
        if !taken {
            let ghost before = claims@;
            let claim = Claim {
                section: section.clone(),
                kind: kind.clone(),
                name: name.clone(),
                vmid,
            };
            claims.push(claim);
            assert(claims@.drop_last() == before);
        }
        i = i + 1;
    }
    assert(given.take(i as int) == given);
}

fn claim_kinds(claims: &mut Vec<Claim>, vmid: u64, section: &String, kinds: &Table)
    ensures
        claims_of(final(claims)@) == claimed_kinds(
            claims_of(old(claims)@),
            vmid,
            section@,
            kinds@,
        ),
{
    let ghost start = claims_of(claims@);
    let ghost given = kinds@;
    let mut i: usize = 0;
    assert(given.take(0).len() == 0);
    while i < kinds.len()
        invariant
            i <= kinds@.len(),
            given == kinds@,
            claims_of(claims@) == claimed_kinds(start, vmid, section@, given.take(i as int)),
        decreases kinds@.len() - i,
    {
        assert(given.take(i + 1).drop_last() == given.take(i as int));
        assert(given.take(i + 1).last() == given[i as int]);
        if let Value::Table(entries) = kinds.value(i) {
            claim_entries(claims, vmid, section, kinds.key(i), entries);
        }
        i = i + 1;
    }
    assert(given.take(i as int) == given);
}

fn claim_share(claims: &mut Vec<Claim>, vmid: u64, share: &Table)
    ensures
        claims_of(final(claims)@) == claimed_sections(claims_of(old(claims)@), vmid, share@),
{
    let ghost start = claims_of(claims@);
    let ghost given = share@;
    let mut i: usize = 0;
    assert(given.take(0).len() == 0);
    while i < share.len()
        invariant
            i <= share@.len(),
            given == share@,
            claims_of(claims@) == claimed_sections(start, vmid, given.take(i as int)),
        decreases share@.len() - i,
    {
        assert(given.take(i + 1).drop_last() == given.take(i as int));
        assert(given.take(i + 1).last() == given[i as int]);
        if let Value::Table(kinds) = share.value(i) {
            claim_kinds(claims, vmid, share.key(i), kinds);
        }
        i = i + 1;
    }
    assert(given.take(i as int) == given);
}

fn claim_all(shares: &Vec<(u64, Table)>) -> (r: Vec<Claim>)
    ensures
        claims_of(r@) == owners_of(shares_of(shares@)),
{
    let ghost given = shares_of(shares@);
    let mut claims: Vec<Claim> = Vec::new();
    let mut i: usize = 0;
    assert(given.take(0).len() == 0);
    while i < shares.len()
        invariant
            i <= shares@.len(),
            given == shares_of(shares@),
            claims_of(claims@) == owners_of(given.take(i as int)),
        decreases shares@.len() - i,
    {
        assert(given.take(i + 1).drop_last() == given.take(i as int));
        assert(given.take(i + 1).last() == given[i as int]);
        claim_share(&mut claims, shares[i].0, &shares[i].1);
        i = i + 1;
    }
    assert(given.take(i as int) == given);
    claims
}

fn complain(conflicts: &mut Vec<String>, text: String)
    ensures
        texts(final(conflicts)@) == texts(old(conflicts)@).push(text@),
{
    let ghost before = texts(conflicts@);
    conflicts.push(text);
    assert(texts(conflicts@) =~= before.push(text@));
}

fn kind_message(vmid: u64, section: &String, kind: &String, rest: &str) -> (r: String)
    ensures
        r@ == kind_conflict(vmid, section@, kind@, rest@),
{
    let start = "guest ".to_string().concat(decimal_text(vmid).as_str()).concat(": '");
    start.concat(section.as_str()).concat(".").concat(kind.as_str()).concat(rest)
}

fn path_message(
    vmid: u64,
    section: &String,
    kind: &String,
    name: &String,
    owner: u64,
) -> (r: String)
    ensures
        r@ == path_conflict(vmid, path_of(section@, kind@, name@), owner),
{
    let stem = section.clone().concat(".").concat(kind.as_str()).concat(".");
    let path = stem.concat(name.as_str());
    let start = "guest ".to_string().concat(decimal_text(vmid).as_str()).concat(": '");
    let named = start.concat(path.as_str()).concat("' is already declared by guest ");
    named.concat(decimal_text(owner).as_str()).concat("; ignored")
}

fn merge_entries(
    slot: &mut Table,
    claims: &Vec<Claim>,
    conflicts: &mut Vec<String>,
    vmid: u64,
    section: &String,
    kind: &String,
    entries: Table,
)
    ensures
        merging(*final(slot), final(conflicts)@) == merged_entries(
            merging(*old(slot), old(conflicts)@),
            claims_of(claims@),
            vmid,
            section@,
            kind@,
            entries@,
        ),
{
    let ghost start = merging(*slot, conflicts@);
    let ghost given = entries@;
    let rows = entries.into_entries();
    let ghost pairs = rows@;
    assert(given.take(0).len() == 0);
    for row in it: rows
        invariant
            it.seq() == pairs,
            given == entries_of(pairs),
            merging(*slot, conflicts@) == merged_entries(
                start,
                claims_of(claims@),
                vmid,
                section@,
                kind@,
                given.take(it.index()),
            ),
    {
        let ghost i = it.index();
        assert(given.take(i + 1).drop_last() == given.take(i));
        let (name, entry) = row;
        assert(given.take(i + 1).last() == (name@, entry@));
        let there = slot.position(name.as_str()).is_some();
        let loses_to = match find_owner(claims, section, kind, &name) {
            Some(owner) => if owner < vmid || there {
                Some(owner)
            } else {
                None
            },
            None => None,
        };
        match loses_to {
            Some(owner) => {
                complain(conflicts, path_message(vmid, section, kind, &name, owner));
            },
            None => {
                slot.insert(name, entry);
            },
        }
    }
    assert(given.take(given.len() as int) == given);
}

fn merge_kind(
    target: &mut Table,
    claims: &Vec<Claim>,
    conflicts: &mut Vec<String>,
    vmid: u64,
    section: &String,
    kind: String,
    things: Value,
)
    ensures
        merging(*final(target), final(conflicts)@) == merged_kind(
            merging(*old(target), old(conflicts)@),
            claims_of(claims@),
            vmid,
            section@,
            kind@,
            things@,
        ),
{
    let ghost before = target@;
    match things {
        Value::Table(entries) => {
            let mut slot = Table::new();
            if let Some(i) = target.position(kind.as_str()) {
                let have = match target.value(i) {
                    Value::Table(_) => true,
                    _ => false,
                };
                if !have {
                    complain(
                        conflicts,
                        kind_message(vmid, section, &kind, "' clashes with a list; ignored"),
                    );
                    return;
                }
                if let Value::Table(filled) = target.replace(i, Value::Null) {
                    slot = filled;
                }
            }
            merge_entries(&mut slot, claims, conflicts, vmid, section, &kind, entries);
            proof {
                if position(before, kind@) is Some {
                    inserted_again(before, kind@, Tree::Null, Tree::Table(slot@));
                }
            }
            target.insert(kind, Value::Table(slot));
        },
        Value::List(items) => {
            let mut slot: Vec<Value> = Vec::new();
            let mut items = items;
            if let Some(i) = target.position(kind.as_str()) {
                let have = match target.value(i) {
                    Value::List(_) => true,
                    _ => false,
                };
                if !have {
                    complain(
                        conflicts,
                        kind_message(vmid, section, &kind, "' clashes with a map; ignored"),
                    );
                    return;
                }
                if let Value::List(filled) = target.replace(i, Value::Null) {
                    slot = filled;
                }
            }
            let ghost first = trees_of(slot@);
            let ghost second = trees_of(items@);
            slot.append(&mut items);
            assert(trees_of(slot@) =~= first + second);
            proof {
                if position(before, kind@) is Some {
                    inserted_again(before, kind@, Tree::Null, Tree::List(first + second));
                } else {
                    assert(first + second =~= second);
                }
            }
            target.insert(kind, Value::List(slot));
        },
        _ => {
            complain(
                conflicts,
                kind_message(vmid, section, &kind, "' is neither a map nor a list; ignored"),
            );
        },
    }
}

fn merge_section(
    doc: &mut Table,
    claims: &Vec<Claim>,
    conflicts: &mut Vec<String>,
    vmid: u64,
    section: String,
    kinds: Value,
)
    ensures
        merging(*final(doc), final(conflicts)@) == merged_section(
            merging(*old(doc), old(conflicts)@),
            claims_of(claims@),
            vmid,
            section@,
            kinds@,
        ),
{
    let ghost before = doc@;
    let kinds = match kinds {
        Value::Table(kinds) => kinds,
        _ => {
            let start = "guest ".to_string().concat(decimal_text(vmid).as_str()).concat(": '");
            complain(
                conflicts,
                start.concat(section.as_str()).concat("' is not a map; ignored"),
            );
            return;
        },
    };
    let mut target = Table::new();
    if let Some(i) = doc.position(section.as_str()) {
        if let Value::Table(filled) = doc.replace(i, Value::Null) {
            target = filled;
        }
    }
    let ghost start = merging(target, conflicts@);
    let ghost given = kinds@;
    let rows = kinds.into_entries();
    let ghost pairs = rows@;
    assert(given.take(0).len() == 0);
    for row in it: rows
        invariant
            it.seq() == pairs,
            given == entries_of(pairs),
            merging(target, conflicts@) == merged_kinds(
                start,
                claims_of(claims@),
                vmid,
                section@,
                given.take(it.index()),
            ),
    {
        let ghost i = it.index();
        assert(given.take(i + 1).drop_last() == given.take(i));
        let (kind, things) = row;
        assert(given.take(i + 1).last() == (kind@, things@));
        merge_kind(&mut target, claims, conflicts, vmid, &section, kind, things);
    }
    assert(given.take(given.len() as int) == given);
    proof {
        if position(before, section@) is Some {
            inserted_again(before, section@, Tree::Null, Tree::Table(target@));
        }
    }
    doc.insert(section, Value::Table(target));
}

fn merge_share(
    doc: &mut Table,
    claims: &Vec<Claim>,
    conflicts: &mut Vec<String>,
    vmid: u64,
    share: Table,
)
    ensures
        merging(*final(doc), final(conflicts)@) == merged_sections(
            merging(*old(doc), old(conflicts)@),
            claims_of(claims@),
            vmid,
            share@,
        ),
{
    let ghost start = merging(*doc, conflicts@);
    let ghost given = share@;
    let rows = share.into_entries();
    let ghost pairs = rows@;
    assert(given.take(0).len() == 0);
    for row in it: rows
        invariant
            it.seq() == pairs,
            given == entries_of(pairs),
            merging(*doc, conflicts@) == merged_sections(
                start,
                claims_of(claims@),
                vmid,
                given.take(it.index()),
            ),
    {
        let ghost i = it.index();
        assert(given.take(i + 1).drop_last() == given.take(i));
        let (section, kinds) = row;
        assert(given.take(i + 1).last() == (section@, kinds@));
        merge_section(doc, claims, conflicts, vmid, section, kinds);
    }
    assert(given.take(given.len() as int) == given);
}

/// Every guest's share into one document. Names are the author's: a router,
/// service or middleware two guests both declare is a conflict, reported and
/// resolved in favour of the lower vmid, whatever the order of the shares; of
/// two shares of one vmid the first has it. Lists (`tls.certificates`) are
/// concatenated in the order of the shares.
pub fn merge(shares: Vec<(u64, Table)>, conflicts: &mut Vec<String>) -> (r: Table)
    ensures
        r@ == merged(shares_of(shares@), texts(old(conflicts)@)).table,
        texts(final(conflicts)@) == merged(
            shares_of(shares@),
            texts(old(conflicts)@),
        ).conflicts,
{
    let mut doc = Table::new();
    let claims = claim_all(&shares);
    let ghost start = merging(doc, conflicts@);
    let ghost given = shares_of(shares@);
    let ghost pairs = shares@;
    assert(given.take(0).len() == 0);
    for share in it: shares
        invariant
            it.seq() == pairs,
            given == shares_of(pairs),
            merging(doc, conflicts@) == merged_shares(
                start,
                claims_of(claims@),
                given.take(it.index()),
            ),
    {
        let ghost i = it.index();
        assert(given.take(i + 1).drop_last() == given.take(i));
        let (vmid, share) = share;
        assert(given.take(i + 1).last() == (vmid, share@));
        merge_share(&mut doc, &claims, conflicts, vmid, share);
    }
    assert(given.take(given.len() as int) == given);
    doc
}

} // verus!
