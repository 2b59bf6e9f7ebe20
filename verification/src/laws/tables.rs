//! How the operations on the entries of a table go together: where a name
//! stands depends on the keys alone.
use vstd::prelude::*;

use crate::text::{folded, precedes, precedes_irreflexive, precedes_transitive, same_name};
use crate::value::{inserted, inserted_ordered, key_at, key_at_unique, lookup, lookup_inserted};
use crate::value::{name_at, name_at_unique, name_found, ordered, position, position_ci};
use crate::value::{rank, rank_defined, rank_is, rank_unique, value_ci, without_ci};
use crate::value::{entries_of, trees_of, without_ci_keeps, Entries, Number, Numeral, Tree, Value};

verus! {

/// Two tables have the same keys, in the same order.
pub open spec fn same_keys(a: Entries, b: Entries) -> bool {
    &&& a.len() == b.len()
    &&& forall|i: int|
        #![trigger a[i]]
        #![trigger b[i]]
        0 <= i < a.len() ==> a[i].0 == b[i].0
}

/// Two names of one name are names of each other.
pub proof fn same_name_between(a: Seq<char>, b: Seq<char>, c: Seq<char>)
    requires
        same_name(a, b),
        same_name(a, c),
    ensures
        same_name(b, c),
{
    assert forall|i: int| 0 <= i < b.len() implies folded(#[trigger] b[i])
        == folded(c[i]) by {
        assert(folded(a[i]) == folded(b[i]));
    }
}

/// A name of a name of this one is a name of this one.
pub proof fn same_name_through(a: Seq<char>, b: Seq<char>, c: Seq<char>)
    requires
        same_name(a, b),
        same_name(b, c),
    ensures
        same_name(a, c),
{
    assert forall|i: int| 0 <= i < a.len() implies folded(#[trigger] a[i]) == folded(c[i]) by {
        assert(folded(a[i]) == folded(b[i]));
    }
}

/// Two names that are names of one name are names of each other.
pub proof fn same_name_back(a: Seq<char>, b: Seq<char>, c: Seq<char>)
    requires
        same_name(a, c),
        same_name(b, c),
    ensures
        same_name(a, b),
{
    assert forall|i: int| 0 <= i < a.len() implies folded(#[trigger] a[i]) == folded(b[i]) by {
        assert(folded(b[i]) == folded(c[i]));
    }
}

/// A name stands where it is found, and nowhere before.
pub proof fn position_found(entries: Entries, name: Seq<char>)
    ensures
        match position_ci(entries, name) {
            Some(i) => name_at(entries, name, i),
            None => forall|i: int|
                0 <= i < entries.len() ==> !same_name((#[trigger] entries[i]).0, name),
        },
{
    if position_ci(entries, name) is None {
        assert forall|i: int| 0 <= i < entries.len() implies !same_name(
            (#[trigger] entries[i]).0,
            name,
        ) by {
            if same_name(entries[i].0, name) {
                name_found(entries, name, i);
            }
        }
    }
}

/// Tables with the same keys have a name at the same place.
pub proof fn position_by_keys(a: Entries, b: Entries, name: Seq<char>)
    requires
        same_keys(a, b),
    ensures
        position_ci(a, name) == position_ci(b, name),
{
    position_found(a, name);
    position_found(b, name);
    if let Some(i) = position_ci(a, name) {
        assert(name_at(b, name, i));
        name_at_unique(b, name, i);
    } else if let Some(i) = position_ci(b, name) {
        assert(same_name(a[i].0, name));
    }
}

/// Tables with the same keys have as many before a key.
pub proof fn rank_by_keys(a: Entries, b: Entries, key: Seq<char>)
    requires
        same_keys(a, b),
    ensures
        rank(a, key) == rank(b, key),
{
    rank_defined(a, key);
    let p = rank(a, key);
    assert forall|j: int| 0 <= j < p implies precedes((#[trigger] b[j]).0, key) by {
        assert(a[j].0 == b[j].0);
    }
    assert(rank_is(b, key, p));
    rank_unique(b, key, p);
}

/// An entry under another name does not change what stands under this one.
pub proof fn value_beside_inserted(entries: Entries, key: Seq<char>, value: Tree, name: Seq<char>)
    requires
        !same_name(key, name),
    ensures
        value_ci(inserted(entries, key, value), name) == value_ci(entries, name),
        position_ci(entries, name) is None <==> position_ci(inserted(entries, key, value), name)
            is None,
        position_ci(entries, name) matches Some(i) ==> position_ci(
            inserted(entries, key, value),
            name,
        ) == Some(
            if i < rank(entries, key) || (rank(entries, key) < entries.len() && entries[rank(
                entries,
                key,
            )].0 == key) {
                i
            } else {
                i + 1
            },
        ),
{
    let after = inserted(entries, key, value);
    let p = rank(entries, key);
    rank_defined(entries, key);
    position_found(entries, name);
    position_found(after, name);
    let placed = p < entries.len() && entries[p].0 == key;
    if let Some(i) = position_ci(entries, name) {
        let k: int = if placed || i < p {
            i
        } else {
            i + 1
        };
        assert(after[k] == entries[i]);
        assert forall|j: int| 0 <= j < k implies !same_name((#[trigger] after[j]).0, name) by {
            if placed || j < p {
                if j != p || !placed {
                    assert(after[j] == entries[j]);
                }
            } else if j > p {
                assert(after[j] == entries[j - 1]);
            }
        }
        assert(name_at(after, name, k));
        name_at_unique(after, name, k);
    } else {
        assert forall|j: int| 0 <= j < after.len() implies !same_name(
            (#[trigger] after[j]).0,
            name,
        ) by {
            if placed || j < p {
                if j != p || !placed {
                    assert(after[j] == entries[j]);
                }
            } else if j > p {
                assert(after[j] == entries[j - 1]);
            }
        }
    }
}

/// The entry put in under a key is found under its name, if no other was.
pub proof fn value_just_inserted(entries: Entries, key: Seq<char>, value: Tree)
    requires
        position_ci(entries, key) is None,
    ensures
        value_ci(inserted(entries, key, value), key) == Some(value),
        position_ci(inserted(entries, key, value), key) == Some(rank(entries, key)),
        inserted(entries, key, value) == entries.insert(rank(entries, key), (key, value)),
        0 <= rank(entries, key) <= entries.len(),
{
    let after = inserted(entries, key, value);
    let p = rank(entries, key);
    rank_defined(entries, key);
    position_found(entries, key);
    assert(same_name(key, key));
    if p < entries.len() {
        assert(entries[p].0 != key);
    }
    assert(after[p] == (key, value));
    assert forall|j: int| 0 <= j < p implies !same_name((#[trigger] after[j]).0, key) by {
        assert(after[j] == entries[j]);
    }
    assert(name_at(after, key, p));
    name_at_unique(after, key, p);
}

/// What was taken out is not there, and neither is what was not there before.
pub proof fn absent_when_removed(entries: Entries, taken: Seq<char>, name: Seq<char>)
    requires
        position_ci(entries, name) is None || same_name(taken, name),
    ensures
        position_ci(without_ci(entries, taken), name) is None,
{
    let after = without_ci(entries, taken);
    position_found(entries, name);
    position_found(after, name);
    without_ci_keeps(entries, taken);
    if let Some(i) = position_ci(after, name) {
        assert(entries.contains(after[i]));
        let k = choose|k: int| 0 <= k < entries.len() && entries[k] == after[i];
        assert(same_name(entries[k].0, name));
        if same_name(taken, name) {
            same_name_back(after[i].0, taken, name);
        }
    }
}

/// A key that is looked up stands somewhere.
pub proof fn found_at(entries: Entries, key: Seq<char>) -> (i: int)
    requires
        lookup(entries, key) is Some,
    ensures
        key_at(entries, key, i),
        lookup(entries, key) == Some(entries[i].1),
{
    position(entries, key)->0
}

/// What is looked up in front is looked up in the whole.
pub proof fn lookup_front(entries: Entries, key: Seq<char>)
    requires
        entries.len() > 0,
        lookup(entries.drop_last(), key) is Some,
    ensures
        lookup(entries, key) == lookup(entries.drop_last(), key),
{
    let front = entries.drop_last();
    let i = found_at(front, key);
    assert(forall|j: int| 0 <= j < front.len() ==> front[j] == #[trigger] entries[j]);
    assert(key_at(entries, key, i));
    key_at_unique(entries, key, i);
}

/// A key that stands in entries that are in order is looked up where it stands.
pub proof fn lookup_ordered(entries: Entries, i: int)
    requires
        ordered(entries),
        0 <= i < entries.len(),
    ensures
        lookup(entries, entries[i].0) == Some(entries[i].1),
{
    let key = entries[i].0;
    assert forall|j: int| 0 <= j < i implies (#[trigger] entries[j]).0 != key by {
        assert(precedes(entries[j].0, entries[i].0));
        precedes_irreflexive(key);
    }
    assert(key_at(entries, key, i));
    key_at_unique(entries, key, i);
}

/// What is in order is in order without its last entry.
pub proof fn ordered_front(entries: Entries)
    requires
        ordered(entries),
        entries.len() > 0,
    ensures
        ordered(entries.drop_last()),
{
    let front = entries.drop_last();
    assert forall|i: int, j: int| 0 <= i < j < front.len() implies precedes(
        (#[trigger] front[i]).0,
        (#[trigger] front[j]).0,
    ) by {
        assert(front[i] == entries[i] && front[j] == entries[j]);
    }
}

/// In entries that are in order the last key stands once.
pub proof fn lookup_last_only(entries: Entries)
    requires
        ordered(entries),
        entries.len() > 0,
    ensures
        lookup(entries.drop_last(), entries.last().0) is None,
        lookup(entries, entries.last().0) == Some(entries.last().1),
{
    let front = entries.drop_last();
    let key = entries.last().0;
    lookup_ordered(entries, entries.len() - 1);
    if lookup(front, key) is Some {
        let i = found_at(front, key);
        assert(front[i] == entries[i]);
        assert(precedes(entries[i].0, entries[entries.len() - 1].0));
        precedes_irreflexive(key);
    }
}

/// Another key than the last is looked up in front.
pub proof fn lookup_not_last(entries: Entries, key: Seq<char>)
    requires
        entries.len() > 0,
        entries.last().0 != key,
    ensures
        lookup(entries, key) == lookup(entries.drop_last(), key),
{
    let front = entries.drop_last();
    if lookup(front, key) is Some {
        lookup_front(entries, key);
    } else if lookup(entries, key) is Some {
        let i = found_at(entries, key);
        assert(forall|j: int| 0 <= j < front.len() ==> front[j] == #[trigger] entries[j]);
        assert(key_at(front, key, i));
        key_at_unique(front, key, i);
    }
}

/// Entries in order are what is looked up in them.
pub proof fn ordered_by_lookup(a: Entries, b: Entries)
    requires
        ordered(a),
        ordered(b),
        forall|key: Seq<char>| #[trigger] lookup(a, key) == lookup(b, key),
    ensures
        a == b,
    decreases a.len(),
{
    if a.len() == 0 || b.len() == 0 {
        if a.len() > 0 {
            lookup_last_only(a);
            assert(lookup(a, a.last().0) == lookup(b, a.last().0));
        }
        if b.len() > 0 {
            lookup_last_only(b);
            assert(lookup(a, b.last().0) == lookup(b, b.last().0));
        }
        assert(a =~= b);
    } else {
        let x = a.last();
        let y = b.last();
        lookup_last_only(a);
        lookup_last_only(b);
        assert(lookup(a, x.0) == lookup(b, x.0));
        assert(lookup(a, y.0) == lookup(b, y.0));
        let i = found_at(b, x.0);
        let j = found_at(a, y.0);
        if x.0 != y.0 {
            assert(precedes(b[i].0, b[b.len() - 1].0));
            assert(precedes(a[j].0, a[a.len() - 1].0));
            precedes_transitive(x.0, y.0, x.0);
            precedes_irreflexive(x.0);
        }
        assert forall|key: Seq<char>| #[trigger] lookup(a.drop_last(), key) == lookup(
            b.drop_last(),
            key,
        ) by {
            assert(lookup(a, key) == lookup(b, key));
            if key != x.0 {
                lookup_not_last(a, key);
                lookup_not_last(b, key);
            }
        }
        ordered_front(a);
        ordered_front(b);
        ordered_by_lookup(a.drop_last(), b.drop_last());
        assert(a =~= a.drop_last().push(x));
        assert(b =~= b.drop_last().push(y));
    }
}

/// Under two keys values can be put in either order.
pub proof fn inserted_in_either_order(
    entries: Entries,
    a: Seq<char>,
    x: Tree,
    b: Seq<char>,
    y: Tree,
)
    requires
        ordered(entries),
        a != b,
    ensures
        inserted(inserted(entries, a, x), b, y) == inserted(inserted(entries, b, y), a, x),
{
    let one = inserted(entries, a, x);
    let other = inserted(entries, b, y);
    inserted_ordered(entries, a, x);
    inserted_ordered(entries, b, y);
    inserted_ordered(one, b, y);
    inserted_ordered(other, a, x);
    assert forall|key: Seq<char>| #[trigger] lookup(inserted(one, b, y), key) == lookup(
        inserted(other, a, x),
        key,
    ) by {
        lookup_inserted(one, b, y, key);
        lookup_inserted(other, a, x, key);
        lookup_inserted(entries, a, x, key);
        lookup_inserted(entries, b, y, key);
    }
    ordered_by_lookup(inserted(one, b, y), inserted(other, a, x));
}

/// A name is absent once a value was put in exactly where it was absent and the
/// key is another.
pub proof fn absent_beside_inserted(
    entries: Entries,
    key: Seq<char>,
    value: Tree,
    name: Seq<char>,
)
    ensures
        position_ci(inserted(entries, key, value), name) is None <==> position_ci(entries, name)
            is None && !same_name(key, name),
{
    if same_name(key, name) {
        let after = inserted(entries, key, value);
        rank_defined(entries, key);
        position_found(after, name);
        assert(after[rank(entries, key)].0 == key);
    } else {
        value_beside_inserted(entries, key, value, name);
    }
}

/// A key is looked up where it stands first, and not found where it does not
/// stand.
pub proof fn lookup_finds_the_first(entries: Entries, key: Seq<char>, i: int)
    ensures
        0 <= i < entries.len() && entries[i].0 == key && (forall|j: int|
            0 <= j < i ==> (#[trigger] entries[j]).0 != key) ==> lookup(entries, key) == Some(
            entries[i].1,
        ),
        (forall|j: int| 0 <= j < entries.len() ==> (#[trigger] entries[j]).0 != key) ==> lookup(
            entries,
            key,
        ) is None,
{
    if 0 <= i < entries.len() && entries[i].0 == key && (forall|j: int|
        0 <= j < i ==> (#[trigger] entries[j]).0 != key) {
        assert(key_at(entries, key, i));
        key_at_unique(entries, key, i);
    }
}

/// A name is found where it stands first, whatever the case of the letters, and
/// not found where it does not stand.
pub proof fn name_is_found_where_it_stands_first(entries: Entries, name: Seq<char>, i: int)
    ensures
        0 <= i < entries.len() && same_name(entries[i].0, name) && (forall|j: int|
            0 <= j < i ==> !same_name((#[trigger] entries[j]).0, name)) ==> value_ci(entries, name)
            == Some(entries[i].1),
        (forall|j: int| 0 <= j < entries.len() ==> !same_name((#[trigger] entries[j]).0, name))
            ==> value_ci(entries, name) is None,
{
    position_found(entries, name);
    if 0 <= i < entries.len() && same_name(entries[i].0, name) && (forall|j: int|
        0 <= j < i ==> !same_name((#[trigger] entries[j]).0, name)) {
        assert(name_at(entries, name, i));
        name_at_unique(entries, name, i);
    }
}

/// A value says what it holds, item by item and entry by entry.
pub proof fn values_say_what_they_hold(
    value: Value,
    items: Seq<Value>,
    entries: Seq<(String, Value)>,
    i: int,
)
    ensures
        match value {
            Value::Null => value@ == Tree::Null,
            Value::Bool(b) => value@ == Tree::Bool(b),
            Value::Number(Number::Unsigned(n)) => value@ == Tree::Number(Numeral::Unsigned(n)),
            Value::Number(Number::Negative(n)) => value@ == Tree::Number(Numeral::Negative(n)),
            Value::Number(Number::Real(s)) => value@ == Tree::Number(Numeral::Real(s@)),
            Value::Text(s) => value@ == Tree::Text(s@),
            Value::List(list) => value@ == Tree::List(trees_of(list@)),
            Value::Table(table) => value@ == Tree::Table(table@),
        },
        trees_of(items).len() == items.len(),
        0 <= i < items.len() ==> trees_of(items)[i] == items[i]@,
        entries_of(entries).len() == entries.len(),
        0 <= i < entries.len() ==> entries_of(entries)[i] == (entries[i].0@, entries[i].1@),
{
}

} // verus!
