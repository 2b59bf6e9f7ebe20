//! The placeholders `${ip}`, `${name}` and `${vmid}` in the strings of a
//! subtree.
use vstd::prelude::*;

use crate::address::notation;
use crate::problem::Problem;
use crate::render::{Guest, GuestView};
use crate::text::{contains_text, decimal_text, replace_text};
use crate::text::{decimal, occurs, precedes, replaced, replaced_absent};
use crate::value::{entries_of, inserted_last, ordered, trees_of, Entries, Tree};
use crate::value::{Table, Value};

verus! {

/// A text with its placeholders filled in. `${ip}` stays where there is no
/// address to put in its place.
pub open spec fn filled_text(s: Seq<char>, guest: GuestView) -> Seq<char> {
    let with_ip = match guest.ip {
        Some(ip) => replaced(s, "${ip}"@, notation(ip)),
        None => s,
    };
    let with_name = replaced(with_ip, "${name}"@, guest.name);
    replaced(with_name, "${vmid}"@, decimal(guest.vmid as nat))
}

/// A value with the placeholders in its texts filled in, at any depth.
pub open spec fn filled(tree: Tree, guest: GuestView) -> Tree
    decreases tree,
{
    match tree {
        Tree::Text(s) => Tree::Text(filled_text(s, guest)),
        Tree::List(items) => Tree::List(filled_items(items, guest)),
        Tree::Table(entries) => Tree::Table(filled_entries(entries, guest)),
        _ => tree,
    }
}

/// The values of a row, each with its placeholders filled in.
pub open spec fn filled_items(items: Seq<Tree>, guest: GuestView) -> Seq<Tree>
    decreases items,
{
    Seq::new(
        items.len(),
        |i: int|
            if 0 <= i < items.len() {
                filled(items[i], guest)
            } else {
                Tree::Null
            },
    )
}

/// The entries of a table, each with the placeholders of its value filled in.
pub open spec fn filled_entries(entries: Entries, guest: GuestView) -> Entries
    decreases entries,
{
    Seq::new(
        entries.len(),
        |i: int|
            if 0 <= i < entries.len() {
                (entries[i].0, filled(entries[i].1, guest))
            } else {
                (Seq::empty(), Tree::Null)
            },
    )
}

/// Whether `${ip}` stands in any text of the value.
pub open spec fn mentions_ip(tree: Tree) -> bool
    decreases tree,
{
    match tree {
        Tree::Text(s) => occurs(s, "${ip}"@),
        Tree::List(items) => any_mentions_ip(items),
        Tree::Table(entries) => entries_mention_ip(entries),
        _ => false,
    }
}

/// Whether `${ip}` stands in any text of the values.
pub open spec fn any_mentions_ip(items: Seq<Tree>) -> bool
    decreases items,
{
    exists|i: int| 0 <= i < items.len() && mentions_ip(#[trigger] items[i])
}

/// Whether `${ip}` stands in any text of the entries' values.
pub open spec fn entries_mention_ip(entries: Entries) -> bool
    decreases entries,
{
    exists|i: int| 0 <= i < entries.len() && mentions_ip((#[trigger] entries[i]).1)
}

fn fill_text(s: String, guest: &Guest) -> (r: Result<String, Problem<String>>)
    ensures
        match r {
            Ok(t) => (guest.ip is Some || !occurs(s@, "${ip}"@)) && t@ == filled_text(s@, guest@),
            Err(e) => e is NoAddress && guest.ip is None && occurs(s@, "${ip}"@),
        },
{
    let mut out = s;
    if contains_text(out.as_str(), "${ip}") {
        match &guest.ip {
            Some(ip) => {
                out = replace_text(out.as_str(), "${ip}", ip.text().as_str());
            },
            None => {
                return Err(Problem::NoAddress);
            },
        }
    } else {
        proof {
            if let Some(ip) = guest.ip {
                replaced_absent(s@, "${ip}"@, notation(ip));
            }
        }
    }
    out = replace_text(out.as_str(), "${name}", guest.name.as_str());
    out = replace_text(out.as_str(), "${vmid}", decimal_text(guest.vmid).as_str());
    Ok(out)
}

/// `${ip}`, `${name}`, `${vmid}` in every string, at any depth. Fails where
/// `${ip}` stands and the guest has no address.
pub fn substitute(value: Value, guest: &Guest) -> (r: Result<Value, Problem<String>>)
    ensures
        match r {
            Ok(v) => (guest.ip is Some || !mentions_ip(value@)) && v@ == filled(value@, guest@),
            Err(e) => e is NoAddress && guest.ip is None && mentions_ip(value@),
        },
    decreases value@,
{
    match value {
        Value::Text(s) => match fill_text(s, guest) {
            Ok(t) => Ok(Value::Text(t)),
            Err(e) => Err(e),
        },
        Value::List(items) => match substitute_items(items, guest) {
            Ok(done) => Ok(Value::List(done)),
            Err(e) => Err(e),
        },
        Value::Table(table) => match substitute_table(table, guest) {
            Ok(done) => Ok(Value::Table(done)),
            Err(e) => Err(e),
        },
        Value::Null => Ok(Value::Null),
        Value::Bool(b) => Ok(Value::Bool(b)),
        Value::Number(n) => Ok(Value::Number(n)),
    }
}

fn substitute_items(items: Vec<Value>, guest: &Guest) -> (r: Result<Vec<Value>, Problem<String>>)
    ensures
        match r {
            Ok(v) => (guest.ip is Some || !any_mentions_ip(trees_of(items@))) && trees_of(v@)
                == filled_items(trees_of(items@), guest@),
            Err(e) => e is NoAddress && guest.ip is None && any_mentions_ip(trees_of(items@)),
        },
    decreases trees_of(items@),
{
    let mut out: Vec<Value> = Vec::new();
    let ghost given = items@;
    let ghost trees = trees_of(given);
    for item in it: items
        invariant
            it.seq() == given,
            trees == trees_of(given),
            out@.len() == it.index(),
            forall|j: int|
                0 <= j < it.index() ==> #[trigger] trees_of(out@)[j] == filled(trees[j], guest@),
            guest.ip is None ==> forall|j: int|
                0 <= j < it.index() ==> !mentions_ip(#[trigger] trees[j]),
    {
        let ghost i = it.index();
        assert(item@ == trees[i]);
        match substitute(item, guest) {
            Ok(v) => {
                let ghost before = trees_of(out@);
                out.push(v);
                assert(trees_of(out@) =~= before.push(v@));
            },
            Err(e) => {
                return Err(e);
            },
        }
    }
    assert(trees_of(out@) =~= filled_items(trees, guest@));
    Ok(out)
}

pub fn substitute_table(table: Table, guest: &Guest) -> (r: Result<Table, Problem<String>>)
    ensures
        match r {
            Ok(t) => (guest.ip is Some || !entries_mention_ip(table@)) && t@ == filled_entries(
                table@,
                guest@,
            ),
            Err(e) => e is NoAddress && guest.ip is None && entries_mention_ip(table@),
        },
    decreases table@,
{
    let ghost entries = table@;
    let mut out = Table::new();
    let given = table.into_entries();
    let ghost pairs = given@;
    for entry in it: given
        invariant
            it.seq() == pairs,
            entries == table@,
            entries == entries_of(pairs),
            ordered(entries),
            out@ == filled_entries(entries.take(it.index()), guest@),
            guest.ip is None ==> forall|j: int|
                0 <= j < it.index() ==> !mentions_ip((#[trigger] entries[j]).1),
    {
        let ghost i = it.index();
        let (key, value) = entry;
        assert(key@ == entries[i].0 && value@ == entries[i].1);
        assert(decreases_to!(entries => entries[i]));
        assert(decreases_to!(entries[i] => entries[i].1));
        match substitute(value, guest) {
            Ok(v) => {
                proof {
                    assert forall|j: int| 0 <= j < out@.len() implies precedes(
                        (#[trigger] out@[j]).0,
                        key@,
                    ) by {
                        assert(out@[j].0 == entries[j].0);
                        assert(precedes(entries[j].0, entries[i].0));
                    }
                    inserted_last(out@, key@, v@);
                }
                out.insert(key, v);
                assert(out@ =~= filled_entries(entries.take(i + 1), guest@));
            },
            Err(e) => {
                return Err(e);
            },
        }
    }
    assert(entries.take(entries.len() as int) == entries);
    Ok(out)
}

} // verus!
