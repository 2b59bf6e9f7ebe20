//! What holds of the placeholders: values without any stay as they are, and the
//! address matters only where it is asked for.
use vstd::prelude::*;

use crate::address::{notation, IpAddr};
use crate::laws::tables::{position_by_keys, position_found, rank_by_keys, same_keys};
use crate::render::GuestView;
use crate::value::{value_ci, without_ci};
use crate::substitute::{any_mentions_ip, entries_mention_ip, mentions_ip};
use crate::substitute::{filled, filled_entries, filled_items, filled_text};
use crate::text::{decimal, occurs, replaced_absent};
use crate::value::{inserted, position_ci, rank, rank_defined, Entries, Tree};

verus! {

/// A text without placeholders.
pub open spec fn plain_text(s: Seq<char>) -> bool {
    !occurs(s, "${ip}"@) && !occurs(s, "${name}"@) && !occurs(s, "${vmid}"@)
}

/// A value without placeholders, at any depth.
pub open spec fn plain(tree: Tree) -> bool
    decreases tree,
{
    match tree {
        Tree::Text(s) => plain_text(s),
        Tree::List(items) => plain_items(items),
        Tree::Table(entries) => plain_entries(entries),
        _ => true,
    }
}

/// Values without placeholders.
pub open spec fn plain_items(items: Seq<Tree>) -> bool
    decreases items,
{
    forall|i: int| 0 <= i < items.len() ==> plain(#[trigger] items[i])
}

/// Entries whose values have no placeholders.
pub open spec fn plain_entries(entries: Entries) -> bool
    decreases entries,
{
    forall|i: int| 0 <= i < entries.len() ==> plain((#[trigger] entries[i]).1)
}

/// A text without placeholders stays as it is.
pub proof fn plain_text_stays(s: Seq<char>, guest: GuestView)
    requires
        plain_text(s),
    ensures
        filled_text(s, guest) == s,
{
    if let Some(ip) = guest.ip {
        replaced_absent(s, "${ip}"@, notation(ip));
    }
    replaced_absent(s, "${name}"@, guest.name);
    replaced_absent(s, "${vmid}"@, decimal(guest.vmid as nat));
}

/// A value without placeholders stays as it is.
pub proof fn plain_stays(tree: Tree, guest: GuestView)
    requires
        plain(tree),
    ensures
        filled(tree, guest) == tree,
    decreases tree,
{
    match tree {
        Tree::Text(s) => plain_text_stays(s, guest),
        Tree::List(items) => plain_items_stay(items, guest),
        Tree::Table(entries) => plain_entries_stay(entries, guest),
        _ => {},
    }
}

/// Values without placeholders stay as they are.
pub proof fn plain_items_stay(items: Seq<Tree>, guest: GuestView)
    requires
        plain_items(items),
    ensures
        filled_items(items, guest) == items,
    decreases items,
{
    assert forall|i: int| 0 <= i < items.len() implies filled(#[trigger] items[i], guest)
        == items[i] by {
        plain_stays(items[i], guest);
    }
    assert(filled_items(items, guest) =~= items);
}

/// Entries without placeholders stay as they are.
pub proof fn plain_entries_stay(entries: Entries, guest: GuestView)
    requires
        plain_entries(entries),
    ensures
        filled_entries(entries, guest) == entries,
    decreases entries,
{
    assert forall|i: int| 0 <= i < entries.len() implies filled(
        (#[trigger] entries[i]).1,
        guest,
    ) == entries[i].1 by {
        plain_stays(entries[i].1, guest);
    }
    assert(filled_entries(entries, guest) =~= entries);
}

/// A value without placeholders does not ask for the address.
proof fn plain_value_asks_nothing(tree: Tree)
    requires
        plain(tree),
    ensures
        !mentions_ip(tree),
    decreases tree,
{
    match tree {
        Tree::List(items) => plain_items_ask_nothing(items),
        Tree::Table(entries) => plain_asks_nothing(entries),
        _ => {},
    }
}

proof fn plain_items_ask_nothing(items: Seq<Tree>)
    requires
        plain_items(items),
    ensures
        !any_mentions_ip(items),
    decreases items,
{
    assert forall|i: int| 0 <= i < items.len() implies !mentions_ip(#[trigger] items[i]) by {
        plain_value_asks_nothing(items[i]);
    }
}

/// Entries without placeholders do not ask for the address.
pub proof fn plain_asks_nothing(entries: Entries)
    requires
        plain_entries(entries),
    ensures
        !entries_mention_ip(entries),
    decreases entries,
{
    assert forall|i: int| 0 <= i < entries.len() implies !mentions_ip(
        (#[trigger] entries[i]).1,
    ) by {
        plain_value_asks_nothing(entries[i].1);
    }
}

/// The guest at another address.
pub open spec fn moved(guest: GuestView, ip: Option<IpAddr>) -> GuestView {
    GuestView { ip, ..guest }
}

/// A value that does not ask for the address is filled the same with any.
pub proof fn address_not_asked_for(
    tree: Tree,
    guest: GuestView,
    ip: Option<IpAddr>,
)
    requires
        !mentions_ip(tree),
    ensures
        filled(tree, moved(guest, ip)) == filled(tree, guest),
    decreases tree,
{
    match tree {
        Tree::Text(s) => {
            if let Some(a) = ip {
                replaced_absent(s, "${ip}"@, notation(a));
            }
            if let Some(a) = guest.ip {
                replaced_absent(s, "${ip}"@, notation(a));
            }
        },
        Tree::List(items) => {
            assert(!any_mentions_ip(items));
            address_not_asked_for_in(items, guest, ip);
        },
        Tree::Table(entries) => {
            assert(!entries_mention_ip(entries));
            address_not_asked_for_among(entries, guest, ip);
        },
        _ => {},
    }
}

proof fn address_not_asked_for_in(
    items: Seq<Tree>,
    guest: GuestView,
    ip: Option<IpAddr>,
)
    requires
        !any_mentions_ip(items),
    ensures
        filled_items(items, moved(guest, ip)) == filled_items(items, guest),
    decreases items,
{
    assert forall|i: int| 0 <= i < items.len() implies filled(#[trigger] items[i], moved(guest, ip))
        == filled(items[i], guest) by {
        address_not_asked_for(items[i], guest, ip);
    }
    assert(filled_items(items, moved(guest, ip)) =~= filled_items(items, guest));
}

/// Entries that do not ask for the address are filled the same with any.
pub proof fn address_not_asked_for_among(
    entries: Entries,
    guest: GuestView,
    ip: Option<IpAddr>,
)
    requires
        !entries_mention_ip(entries),
    ensures
        filled_entries(entries, moved(guest, ip)) == filled_entries(entries, guest),
    decreases entries,
{
    assert forall|i: int| 0 <= i < entries.len() implies filled(
        (#[trigger] entries[i]).1,
        moved(guest, ip),
    ) == filled(entries[i].1, guest) by {
        address_not_asked_for(entries[i].1, guest, ip);
    }
    assert(filled_entries(entries, moved(guest, ip)) =~= filled_entries(entries, guest));
}

/// Filling in leaves the keys alone.
pub proof fn keys_are_not_filled(entries: Entries, guest: GuestView)
    ensures
        same_keys(entries, filled_entries(entries, guest)),
{
}

/// What stands under a name is filled where it stands.
pub proof fn filled_value(entries: Entries, name: Seq<char>, guest: GuestView)
    ensures
        position_ci(filled_entries(entries, guest), name) == position_ci(entries, name),
        value_ci(filled_entries(entries, guest), name) == match value_ci(entries, name) {
            Some(value) => Some(filled(value, guest)),
            None => None,
        },
{
    keys_are_not_filled(entries, guest);
    position_by_keys(entries, filled_entries(entries, guest), name);
    position_found(entries, name);
}

/// Filling in and taking out go in any order.
pub proof fn filled_without(entries: Entries, name: Seq<char>, guest: GuestView)
    ensures
        filled_entries(without_ci(entries, name), guest) == without_ci(
            filled_entries(entries, guest),
            name,
        ),
    decreases entries.len(),
{
    let given = filled_entries(entries, guest);
    if entries.len() == 0 {
        assert(filled_entries(without_ci(entries, name), guest) =~= without_ci(given, name));
    } else {
        let front = entries.drop_last();
        filled_without(front, name, guest);
        assert(given.drop_last() =~= filled_entries(front, guest));
        assert(given.last() == (entries.last().0, filled(entries.last().1, guest)));
        assert(filled_entries(without_ci(entries, name), guest) =~= without_ci(given, name));
    }
}

/// Filling in and putting in go in any order.
pub proof fn filled_inserted(entries: Entries, key: Seq<char>, value: Tree, guest: GuestView)
    ensures
        filled_entries(inserted(entries, key, value), guest) == inserted(
            filled_entries(entries, guest),
            key,
            filled(value, guest),
        ),
{
    keys_are_not_filled(entries, guest);
    rank_by_keys(entries, filled_entries(entries, guest), key);
    rank_defined(entries, key);
    let p = rank(entries, key);
    assert(filled_entries(inserted(entries, key, value), guest) =~= inserted(
        filled_entries(entries, guest),
        key,
        filled(value, guest),
    ));
}

/// Filling in and exchanging a value go in any order.
pub proof fn filled_updated(entries: Entries, i: int, value: Tree, guest: GuestView)
    requires
        0 <= i < entries.len(),
    ensures
        filled_entries(entries.update(i, (entries[i].0, value)), guest) == filled_entries(
            entries,
            guest,
        ).update(i, (entries[i].0, filled(value, guest))),
{
    assert(filled_entries(entries.update(i, (entries[i].0, value)), guest) =~= filled_entries(
        entries,
        guest,
    ).update(i, (entries[i].0, filled(value, guest))));
}

} // verus!
