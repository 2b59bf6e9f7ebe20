//! Configuration documents as values: what JSON can say, tables in the order
//! of their keys.
use vstd::prelude::*;

use crate::text::{comes_before, decimal_text, equal_name, equal_text, signed_text};
use crate::text::{decimal, precedes, precedes_irreflexive, precedes_total, precedes_transitive};
use crate::text::{same_name, signed_decimal};

verus! {

/// A number of a document.
pub enum Number {
    /// A whole number that is not negative.
    Unsigned(u64),
    /// A negative whole number.
    Negative(i64),
    /// Any other number, by the numeral that it is written with.
    Real(String),
}

/// A value of a document.
pub enum Value {
    Null,
    Bool(bool),
    Number(Number),
    Text(String),
    List(Vec<Value>),
    Table(Table),
}

/// A table of values by key. No key stands in it twice, and its entries are in
/// the order of their keys.
pub struct Table {
    entries: Vec<(String, Value)>,
}

/// What a [`Number`] says.
pub enum Numeral {
    Unsigned(u64),
    Negative(i64),
    Real(Seq<char>),
}

/// What a [`Value`] says.
pub enum Tree {
    Null,
    Bool(bool),
    Number(Numeral),
    Text(Seq<char>),
    List(Seq<Tree>),
    Table(Seq<(Seq<char>, Tree)>),
}

/// What a [`Table`] says: its keys with their values.
pub type Entries = Seq<(Seq<char>, Tree)>;

impl View for Number {
    type V = Numeral;

    open spec fn view(&self) -> Numeral {
        match *self {
            Number::Unsigned(n) => Numeral::Unsigned(n),
            Number::Negative(n) => Numeral::Negative(n),
            Number::Real(s) => Numeral::Real(s@),
        }
    }
}

/// What a value says.
pub open spec fn tree_of(v: Value) -> Tree
    decreases v,
{
    match v {
        Value::Null => Tree::Null,
        Value::Bool(b) => Tree::Bool(b),
        Value::Number(n) => Tree::Number(n@),
        Value::Text(s) => Tree::Text(s@),
        Value::List(items) => Tree::List(trees_of(items@)),
        Value::Table(table) => Tree::Table(table.rows()),
    }
}

/// What each value of a row says.
pub open spec fn trees_of(items: Seq<Value>) -> Seq<Tree>
    decreases items,
{
    Seq::new(
        items.len(),
        |i: int|
            if 0 <= i < items.len() {
                tree_of(items[i])
            } else {
                Tree::Null
            },
    )
}

/// What each entry of a row says.
pub open spec fn entries_of(entries: Seq<(String, Value)>) -> Entries
    decreases entries,
{
    Seq::new(
        entries.len(),
        |i: int|
            if 0 <= i < entries.len() {
                (entries[i].0@, tree_of(entries[i].1))
            } else {
                (Seq::empty(), Tree::Null)
            },
    )
}

impl View for Table {
    type V = Entries;

    open spec fn view(&self) -> Entries {
        self.rows()
    }
}

/// A result, by what its value or its error says.
pub open spec fn viewed<T: View, E: View>(r: Result<T, E>) -> Result<T::V, E::V> {
    match r {
        Ok(t) => Ok(t@),
        Err(e) => Err(e@),
    }
}

/// An optional value, by what it says.
pub open spec fn viewed_option<T: View>(r: Option<T>) -> Option<T::V> {
    match r {
        Some(t) => Some(t@),
        None => None,
    }
}

impl View for Value {
    type V = Tree;

    open spec fn view(&self) -> Tree {
        tree_of(*self)
    }
}

/// Entries in the strict order of their keys.
pub open spec fn ordered(entries: Entries) -> bool {
    forall|i: int, j: int|
        0 <= i < j < entries.len() ==> precedes((#[trigger] entries[i]).0, (#[trigger] entries[j]).0)
}

/// `i` is where the key `key` stands first.
pub open spec fn key_at(entries: Entries, key: Seq<char>, i: int) -> bool {
    &&& 0 <= i < entries.len()
    &&& entries[i].0 == key
    &&& forall|j: int| 0 <= j < i ==> (#[trigger] entries[j]).0 != key
}

/// `i` is where the first key stands that is `name`, whatever the case of its
/// letters.
pub open spec fn name_at(entries: Entries, name: Seq<char>, i: int) -> bool {
    &&& 0 <= i < entries.len()
    &&& same_name(entries[i].0, name)
    &&& forall|j: int| 0 <= j < i ==> !same_name((#[trigger] entries[j]).0, name)
}

/// Where the key `key` stands.
pub open spec fn position(entries: Entries, key: Seq<char>) -> Option<int> {
    if exists|i: int| key_at(entries, key, i) {
        Some(choose|i: int| key_at(entries, key, i))
    } else {
        None
    }
}

/// Where the first key stands that is `name`, whatever the case of its letters.
pub open spec fn position_ci(entries: Entries, name: Seq<char>) -> Option<int> {
    if exists|i: int| name_at(entries, name, i) {
        Some(choose|i: int| name_at(entries, name, i))
    } else {
        None
    }
}

/// The value under the first key that is `name`, whatever the case of its
/// letters.
pub open spec fn value_ci(entries: Entries, name: Seq<char>) -> Option<Tree> {
    match position_ci(entries, name) {
        Some(i) => Some(entries[i].1),
        None => None,
    }
}

/// The entries whose key is not `name`, whatever the case of its letters.
pub open spec fn without_ci(entries: Entries, name: Seq<char>) -> Entries
    decreases entries.len(),
{
    if entries.len() == 0 {
        Seq::empty()
    } else {
        let before = without_ci(entries.drop_last(), name);
        if same_name(entries.last().0, name) {
            before
        } else {
            before.push(entries.last())
        }
    }
}

/// The value under `key`.
pub open spec fn lookup(entries: Entries, key: Seq<char>) -> Option<Tree> {
    match position(entries, key) {
        Some(i) => Some(entries[i].1),
        None => None,
    }
}

/// `p` entries come before the key `key`.
pub open spec fn rank_is(entries: Entries, key: Seq<char>, p: int) -> bool {
    &&& 0 <= p <= entries.len()
    &&& forall|j: int| 0 <= j < p ==> precedes((#[trigger] entries[j]).0, key)
    &&& p < entries.len() ==> !precedes(entries[p].0, key)
}

/// How many entries come before the key `key`.
pub open spec fn rank(entries: Entries, key: Seq<char>) -> int {
    choose|p: int| rank_is(entries, key, p)
}

/// The entries with `value` under `key`, in place of what stood there.
pub open spec fn inserted(entries: Entries, key: Seq<char>, value: Tree) -> Entries {
    let p = rank(entries, key);
    if p < entries.len() && entries[p].0 == key {
        entries.update(p, (key, value))
    } else {
        entries.insert(p, (key, value))
    }
}

/// The numeral that a number is written with.
pub open spec fn numeral_text(n: Numeral) -> Seq<char> {
    match n {
        Numeral::Unsigned(n) => decimal(n as nat),
        Numeral::Negative(n) => signed_decimal(n as int),
        Numeral::Real(s) => s,
    }
}

/// A key stands first at one place only.
pub proof fn key_at_unique(entries: Entries, key: Seq<char>, i: int)
    requires
        key_at(entries, key, i),
    ensures
        position(entries, key) == Some(i),
{
    let k = position(entries, key).unwrap();
    assert(key_at(entries, key, k));
    if k < i {
        assert(entries[k].0 != key);
    }
    if i < k {
        assert(entries[i].0 != key);
    }
}

/// A name stands first at one place only.
pub proof fn name_at_unique(entries: Entries, name: Seq<char>, i: int)
    requires
        name_at(entries, name, i),
    ensures
        position_ci(entries, name) == Some(i),
{
    let k = position_ci(entries, name).unwrap();
    assert(name_at(entries, name, k));
    if k < i {
        assert(!same_name(entries[k].0, name));
    }
    if i < k {
        assert(!same_name(entries[i].0, name));
    }
}

/// Where a key stands, it stands first somewhere.
pub proof fn key_found(entries: Entries, key: Seq<char>, i: int)
    requires
        0 <= i < entries.len(),
        entries[i].0 == key,
    ensures
        exists|k: int| key_at(entries, key, k),
    decreases i,
{
    if exists|j: int| 0 <= j < i && (#[trigger] entries[j]).0 == key {
        let j = choose|j: int| 0 <= j < i && (#[trigger] entries[j]).0 == key;
        key_found(entries, key, j);
    } else {
        assert(key_at(entries, key, i));
    }
}

/// Where a name stands, it stands first somewhere.
pub proof fn name_found(entries: Entries, name: Seq<char>, i: int)
    requires
        0 <= i < entries.len(),
        same_name(entries[i].0, name),
    ensures
        exists|k: int| name_at(entries, name, k),
    decreases i,
{
    if exists|j: int| 0 <= j < i && same_name((#[trigger] entries[j]).0, name) {
        let j = choose|j: int| 0 <= j < i && same_name((#[trigger] entries[j]).0, name);
        name_found(entries, name, j);
    } else {
        assert(name_at(entries, name, i));
    }
}

/// Every key has its rank, and one only.
pub proof fn rank_defined(entries: Entries, key: Seq<char>)
    ensures
        rank_is(entries, key, rank(entries, key)),
    decreases entries.len(),
{
    if entries.len() == 0 {
        assert(rank_is(entries, key, 0));
    } else {
        let front = entries.drop_last();
        rank_defined(front, key);
        let p = rank(front, key);
        assert(forall|j: int| 0 <= j < front.len() ==> front[j] == #[trigger] entries[j]);
        if p < front.len() {
            assert(rank_is(entries, key, p));
        } else if precedes(entries.last().0, key) {
            assert(rank_is(entries, key, p + 1));
        } else {
            assert(rank_is(entries, key, p));
        }
    }
}

pub proof fn rank_unique(entries: Entries, key: Seq<char>, p: int)
    requires
        rank_is(entries, key, p),
    ensures
        rank(entries, key) == p,
{
    rank_defined(entries, key);
    let q = rank(entries, key);
    if p < q {
        assert(precedes(entries[p].0, key));
    }
    if q < p {
        assert(precedes(entries[q].0, key));
    }
}

/// A read of the key that was written gives back what was written there; every
/// other key reads as it did before.
pub proof fn lookup_inserted(entries: Entries, key: Seq<char>, value: Tree, other: Seq<char>)
    ensures
        lookup(inserted(entries, key, value), other) == if other == key {
            Some(value)
        } else {
            lookup(entries, other)
        },
{
    rank_defined(entries, key);
    let p = rank(entries, key);
    let after = inserted(entries, key, value);
    assert forall|j: int| 0 <= j < p implies (#[trigger] entries[j]).0 != key by {
        if entries[j].0 == key {
            precedes_irreflexive(key);
        }
    }
    if other == key {
        assert(key_at(after, key, p));
        key_at_unique(after, key, p);
    } else {
        let grown = !(p < entries.len() && entries[p].0 == key);
        if exists|i: int| key_at(entries, other, i) {
            let i = choose|i: int| key_at(entries, other, i);
            let k = if grown && p <= i {
                i + 1
            } else {
                i
            };
            assert(key_at(after, other, k)) by {
                assert forall|j: int| 0 <= j < k implies (#[trigger] after[j]).0 != other by {
                    if j != p {
                        let j0 = if grown && p < j {
                            j - 1
                        } else {
                            j
                        };
                        assert(after[j] == entries[j0]);
                    }
                }
            }
            key_at_unique(after, other, k);
            key_at_unique(entries, other, i);
        } else {
            if exists|k: int| key_at(after, other, k) {
                let k = choose|k: int| key_at(after, other, k);
                let k0 = if grown && p < k {
                    k - 1
                } else {
                    k
                };
                assert(after[k] == entries[k0]);
                key_found(entries, other, k0);
            }
        }
    }
}

/// Writing into entries that are in order keeps them in order.
pub proof fn inserted_ordered(entries: Entries, key: Seq<char>, value: Tree)
    requires
        ordered(entries),
    ensures
        ordered(inserted(entries, key, value)),
{
    rank_defined(entries, key);
    let p = rank(entries, key);
    let after = inserted(entries, key, value);
    assert forall|j: int| p <= j < entries.len() implies (#[trigger] entries[j]).0 == key
        || precedes(key, entries[j].0) by {
        precedes_total(entries[p].0, key);
        if p < j && precedes(key, entries[p].0) {
            precedes_transitive(key, entries[p].0, entries[j].0);
        }
    }
    if p < entries.len() && entries[p].0 == key {
        assert forall|i: int, j: int| 0 <= i < j < after.len() implies precedes(
            (#[trigger] after[i]).0,
            (#[trigger] after[j]).0,
        ) by {
            assert(after[i].0 == entries[i].0);
            assert(after[j].0 == entries[j].0);
        }
    } else {
        assert forall|i: int, j: int| 0 <= i < j < after.len() implies precedes(
            (#[trigger] after[i]).0,
            (#[trigger] after[j]).0,
        ) by {
            let i0 = if i > p {
                i - 1
            } else {
                i
            };
            let j0 = if j > p {
                j - 1
            } else {
                j
            };
            if i != p {
                assert(after[i] == entries[i0]);
            }
            if j != p {
                assert(after[j] == entries[j0]);
            }
            if i == p {
                assert(p <= j0 < entries.len());
                if entries[j0].0 == key {
                    precedes_total(entries[p].0, key);
                    if j0 > p {
                        assert(precedes(entries[p].0, entries[j0].0));
                    }
                }
            }
        }
    }
}

/// What is written under a key makes no difference to the next write there.
pub proof fn inserted_again(entries: Entries, key: Seq<char>, first: Tree, second: Tree)
    requires
        rank(entries, key) < entries.len(),
        entries[rank(entries, key)].0 == key,
    ensures
        inserted(entries.update(rank(entries, key), (key, first)), key, second) == inserted(
            entries,
            key,
            second,
        ),
{
    rank_defined(entries, key);
    let p = rank(entries, key);
    let between = entries.update(p, (key, first));
    assert(rank_is(between, key, p));
    rank_unique(between, key, p);
    assert(inserted(between, key, second) =~= inserted(entries, key, second));
}

/// A key after all others is written at the end.
pub proof fn inserted_last(entries: Entries, key: Seq<char>, value: Tree)
    requires
        forall|j: int| 0 <= j < entries.len() ==> precedes((#[trigger] entries[j]).0, key),
    ensures
        inserted(entries, key, value) == entries.push((key, value)),
{
    assert(rank_is(entries, key, entries.len() as int));
    rank_unique(entries, key, entries.len() as int);
    assert(inserted(entries, key, value) =~= entries.push((key, value)));
}

impl Number {
    /// The numeral that the number is written with.
    pub fn text(&self) -> (r: String)
        ensures
            r@ == numeral_text(self@),
    {
        match self {
            Number::Unsigned(n) => decimal_text(*n),
            Number::Negative(n) => signed_text(*n),
            Number::Real(s) => s.clone(),
        }
    }
}

impl Value {
    /// The value under `key`, where this is a table that has it.
    pub fn get(&self, key: &str) -> (r: Option<&Value>)
        ensures
            viewed_option(r) == match self@ {
                Tree::Table(entries) => lookup(entries, key@),
                _ => None,
            },
    {
        match self {
            Value::Table(table) => table.get(key),
            _ => None,
        }
    }

    /// The number, where this is a whole one that is not negative.
    pub fn as_u64(&self) -> (r: Option<u64>)
        ensures
            r == match self@ {
                Tree::Number(Numeral::Unsigned(n)) => Some(n),
                _ => None,
            },
    {
        match self {
            Value::Number(Number::Unsigned(n)) => Some(*n),
            _ => None,
        }
    }
}

impl Table {
    #[verifier::type_invariant]
    spec fn in_order(self) -> bool {
        ordered(entries_of(self.entries@))
    }

    /// The entries of the table.
    pub closed spec fn rows(self) -> Entries
        decreases self,
    {
        entries_of(self.entries@)
    }

    /// The empty table.
    pub fn new() -> (r: Table)
        ensures
            r@ == Seq::<(Seq<char>, Tree)>::empty(),
    {
        let r = Table { entries: Vec::new() };
        assert(r@ =~= Seq::<(Seq<char>, Tree)>::empty());
        r
    }

    /// How many entries there are.
    pub fn len(&self) -> (r: usize)
        ensures
            r == self@.len(),
    {
        self.entries.len()
    }

    /// The key of the entry `i`.
    pub fn key(&self, i: usize) -> (r: &String)
        requires
            i < self@.len(),
        ensures
            r@ == self@[i as int].0,
    {
        &self.entries[i].0
    }

    /// The value of the entry `i`.
    pub fn value(&self, i: usize) -> (r: &Value)
        requires
            i < self@.len(),
        ensures
            r@ == self@[i as int].1,
    {
        &self.entries[i].1
    }

    /// Where the key `key` stands: after the keys that come before it.
    pub fn position(&self, key: &str) -> (r: Option<usize>)
        ensures
            match r {
                Some(i) => {
                    &&& position(self@, key@) == Some(i as int)
                    &&& i < self@.len()
                    &&& rank(self@, key@) == i
                },
                None => position(self@, key@) is None,
            },
    {
        proof {
            use_type_invariant(self);
        }
        let mut i: usize = 0;
        while i < self.entries.len()
            invariant
                i <= self@.len(),
                self@.len() == self.entries@.len(),
                ordered(self@),
                forall|j: int| 0 <= j < i ==> (#[trigger] self@[j]).0 != key@,
            decreases self@.len() - i,
        {
            if equal_text(self.entries[i].0.as_str(), key) {
                proof {
                    assert(key_at(self@, key@, i as int));
                    key_at_unique(self@, key@, i as int);
                    precedes_irreflexive(key@);
                    assert(rank_is(self@, key@, i as int));
                    rank_unique(self@, key@, i as int);
                }
                return Some(i);
            }
            i = i + 1;
        }
        None
    }

    /// The value under `key`.
    pub fn get(&self, key: &str) -> (r: Option<&Value>)
        ensures
            viewed_option(r) == lookup(self@, key@),
    {
        match self.position(key) {
            Some(i) => Some(self.value(i)),
            None => None,
        }
    }

    /// Puts `value` under `key`, in place of what stood there.
    pub fn insert(&mut self, key: String, value: Value)
        ensures
            final(self)@ == inserted(old(self)@, key@, value@),
    {
        proof {
            use_type_invariant(&*self);
        }
        let ghost before = self@;
        let mut entries: Vec<(String, Value)> = Vec::new();
        std::mem::swap(&mut entries, &mut self.entries);
        let mut p: usize = 0;
        while p < entries.len() && comes_before(entries[p].0.as_str(), key.as_str())
            invariant
                entries_of(entries@) == before,
                p <= entries@.len(),
                forall|j: int| 0 <= j < p ==> precedes((#[trigger] before[j]).0, key@),
            decreases entries@.len() - p,
        {
            p = p + 1;
        }
        proof {
            assert(rank_is(before, key@, p as int));
            rank_unique(before, key@, p as int);
            inserted_ordered(before, key@, value@);
        }
        let ghost after = inserted(before, key@, value@);
        if p < entries.len() && equal_text(entries[p].0.as_str(), key.as_str()) {
            entries[p].1 = value;
            assert(entries_of(entries@) =~= after);
        } else {
            entries.insert(p, (key, value));
            assert(entries_of(entries@) =~= after);
        }
        self.entries = entries;
    }

    /// Takes the entry `i` out and gives its value.
    pub fn remove_at(&mut self, i: usize) -> (r: Value)
        requires
            i < old(self)@.len(),
        ensures
            final(self)@ == old(self)@.remove(i as int),
            r@ == old(self)@[i as int].1,
    {
        proof {
            use_type_invariant(&*self);
        }
        let ghost before = self@;
        let mut entries: Vec<(String, Value)> = Vec::new();
        std::mem::swap(&mut entries, &mut self.entries);
        let (_, value) = entries.remove(i);
        assert(entries_of(entries@) =~= before.remove(i as int));
        self.entries = entries;
        value
    }

    /// Puts `value` in the place of the entry `i`'s and gives what stood there.
    pub fn replace(&mut self, i: usize, value: Value) -> (r: Value)
        requires
            i < old(self)@.len(),
        ensures
            final(self)@ == old(self)@.update(i as int, (old(self)@[i as int].0, value@)),
            r@ == old(self)@[i as int].1,
    {
        proof {
            use_type_invariant(&*self);
        }
        let ghost before = self@;
        let mut entries: Vec<(String, Value)> = Vec::new();
        std::mem::swap(&mut entries, &mut self.entries);
        let mut value = value;
        let ghost put = value@;
        std::mem::swap(&mut value, &mut entries[i].1);
        assert(entries_of(entries@) =~= before.update(i as int, (before[i as int].0, put)));
        self.entries = entries;
        value
    }

    /// The entries, in the order of their keys.
    pub fn into_entries(self) -> (r: Vec<(String, Value)>)
        ensures
            entries_of(r@) == self@,
            ordered(self@),
    {
        proof {
            use_type_invariant(&self);
        }
        self.entries
    }
}

/// Where the first key stands that is `key`, whatever the case of its letters.
pub fn find_ci(map: &Table, key: &str) -> (r: Option<usize>)
    ensures
        match r {
            Some(i) => position_ci(map@, key@) == Some(i as int) && i < map@.len(),
            None => position_ci(map@, key@) is None,
        },
{
    let mut i: usize = 0;
    while i < map.len()
        invariant
            i <= map@.len(),
            forall|j: int| 0 <= j < i ==> !same_name((#[trigger] map@[j]).0, key@),
        decreases map@.len() - i,
    {
        if equal_name(map.key(i).as_str(), key) {
            proof {
                assert(name_at(map@, key@, i as int));
                name_at_unique(map@, key@, i as int);
            }
            return Some(i);
        }
        i = i + 1;
    }
    None
}

/// Where no key is of that name, all stays.
pub proof fn without_ci_absent(entries: Entries, name: Seq<char>)
    requires
        position_ci(entries, name) is None,
    ensures
        without_ci(entries, name) == entries,
    decreases entries.len(),
{
    if entries.len() > 0 {
        let front = entries.drop_last();
        let last = entries.len() - 1;
        if same_name(entries[last].0, name) {
            name_found(entries, name, last);
        }
        assert forall|i: int| !name_at(front, name, i) by {
            if name_at(front, name, i) {
                assert(same_name(entries[i].0, name));
                name_found(entries, name, i);
            }
        }
        without_ci_absent(front, name);
        assert(front.push(entries.last()) =~= entries);
    } else {
        assert(entries =~= Seq::empty());
    }
}

/// What is left is what was there, in its order.
pub proof fn without_ci_keeps(entries: Entries, name: Seq<char>)
    ensures
        forall|i: int|
            0 <= i < without_ci(entries, name).len() ==> entries.contains(
                #[trigger] without_ci(entries, name)[i],
            ) && !same_name(without_ci(entries, name)[i].0, name),
        ordered(entries) ==> ordered(without_ci(entries, name)),
    decreases entries.len(),
{
    if entries.len() > 0 {
        let front = entries.drop_last();
        let after = without_ci(entries, name);
        let before = without_ci(front, name);
        without_ci_keeps(front, name);
        assert forall|i: int| 0 <= i < after.len() implies entries.contains(#[trigger] after[i])
            && !same_name(after[i].0, name) by {
            if i < before.len() {
                assert(after[i] == before[i]);
                let k = choose|k: int| 0 <= k < front.len() && front[k] == before[i];
                assert(entries[k] == before[i]);
            } else {
                assert(entries[entries.len() - 1] == after[i]);
            }
        }
        if ordered(entries) {
            assert forall|i: int, j: int| 0 <= i < j < front.len() implies precedes(
                (#[trigger] front[i]).0,
                (#[trigger] front[j]).0,
            ) by {
                assert(front[i] == entries[i] && front[j] == entries[j]);
            }
            assert forall|i: int, j: int| 0 <= i < j < after.len() implies precedes(
                (#[trigger] after[i]).0,
                (#[trigger] after[j]).0,
            ) by {
                assert(after[i] == before[i]);
                if j < before.len() {
                    assert(after[j] == before[j]);
                } else {
                    let k = choose|k: int| 0 <= k < front.len() && front[k] == before[i];
                    assert(entries[k] == before[i]);
                    assert(precedes(entries[k].0, entries[entries.len() - 1].0));
                }
            }
        }
    }
}

impl Table {
    /// Takes the entries out whose key is `key`, whatever the case of its
    /// letters, and gives the value of the first.
    fn take_ci(&mut self, key: &str) -> (r: Option<Value>)
        ensures
            final(self)@ == without_ci(old(self)@, key@),
            viewed_option(r) == value_ci(old(self)@, key@),
    {
        proof {
            use_type_invariant(&*self);
        }
        let ghost before = self@;
        let mut entries: Vec<(String, Value)> = Vec::new();
        std::mem::swap(&mut entries, &mut self.entries);
        let ghost pairs = entries@;
        let mut kept: Vec<(String, Value)> = Vec::new();
        let mut first: Option<Value> = None;
        assert(before.take(0).len() == 0);
        assert(entries_of(kept@) =~= Seq::<(Seq<char>, Tree)>::empty());
        for row in it: entries
            invariant
                it.seq() == pairs,
                before == entries_of(pairs),
                entries_of(kept@) == without_ci(before.take(it.index()), key@),
                match first {
                    Some(value) => exists|i: int| #[trigger]
                        name_at(before, key@, i) && i < it.index() && before[i].1 == value@,
                    None => forall|i: int|
                        0 <= i < it.index() ==> !same_name((#[trigger] before[i]).0, key@),
                },
        {
            let ghost n = it.index();
            assert(before.take(n + 1).drop_last() == before.take(n));
            let (name, value) = row;
            assert(before.take(n + 1).last() == (name@, value@));
            assert(before[n] == (name@, value@));
            if equal_name(name.as_str(), key) {
                if first.is_none() {
                    assert(name_at(before, key@, n));
                    first = Some(value);
                }
            } else {
                let ghost so_far = entries_of(kept@);
                kept.push((name, value));
                assert(entries_of(kept@) =~= so_far.push(before[n]));
            }
        }
        assert(before.take(before.len() as int) == before);
        proof {
            without_ci_keeps(before, key@);
            if first is Some {
                let i = choose|i: int| #[trigger]
                    name_at(before, key@, i) && before[i].1 == first->0@;
                name_at_unique(before, key@, i);
            }
        }
        self.entries = kept;
        first
    }

    /// The keys are in order and none stands twice, as in every table.
    pub fn in_key_order(&self)
        ensures
            ordered(self@),
    {
        proof {
            use_type_invariant(self);
        }
    }
}

/// Takes the entries out whose key is `key`, whatever the case of its letters,
/// and gives the value of the first.
pub fn remove_ci(map: &mut Table, key: &str) -> (r: Option<Value>)
    ensures
        final(map)@ == without_ci(old(map)@, key@),
        viewed_option(r) == value_ci(old(map)@, key@),
{
    map.take_ci(key)
}

} // verus!
