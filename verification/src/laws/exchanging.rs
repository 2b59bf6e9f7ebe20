//! What filling in does to a text: each placeholder is exchanged for its own
//! value, whichever of them stand together, what stands between them is kept,
//! and none is left.
use vstd::prelude::*;

use crate::address::{notation, v4_notation, IpAddr};
use crate::laws::texts::{decimal_digit, numeral_stands_for_its_number};
use crate::problem::Problem;
use crate::render::{finished, rendered, GuestView};
use crate::substitute::{entries_mention_ip, filled, filled_entries, filled_text, mentions_ip};
use crate::text::{decimal, occurs, occurs_at, replaced};
use crate::value::{Entries, Tree};

verus! {

/// A part of a text: a placeholder, or what stands between them.
pub enum Part {
    Plain(Seq<char>),
    Ip,
    Name,
    Vmid,
}

/// How a part is written.
pub open spec fn mark(part: Part) -> Seq<char> {
    match part {
        Part::Plain(s) => s,
        Part::Ip => seq!['$', '{', 'i', 'p', '}'],
        Part::Name => seq!['$', '{', 'n', 'a', 'm', 'e', '}'],
        Part::Vmid => seq!['$', '{', 'v', 'm', 'i', 'd', '}'],
    }
}

/// The text that the parts make.
pub open spec fn written(parts: Seq<Part>) -> Seq<char>
    decreases parts.len(),
{
    if parts.len() == 0 {
        Seq::empty()
    } else {
        mark(parts[0]) + written(parts.skip(1))
    }
}

/// What a part stands for.
pub open spec fn worth(part: Part, guest: GuestView) -> Seq<char> {
    match part {
        Part::Plain(s) => s,
        Part::Ip => match guest.ip {
            Some(ip) => notation(ip),
            None => mark(part),
        },
        Part::Name => guest.name,
        Part::Vmid => decimal(guest.vmid as nat),
    }
}

/// The parts with the values in the place of the placeholders.
pub open spec fn spoken(parts: Seq<Part>, guest: GuestView) -> Seq<char>
    decreases parts.len(),
{
    if parts.len() == 0 {
        Seq::empty()
    } else {
        worth(parts[0], guest) + spoken(parts.skip(1), guest)
    }
}

/// From `i` on stands what looks like a placeholder and is none.
pub open spec fn unknown_at(s: Seq<char>, i: int) -> bool {
    exists|j: int|
        {
            &&& i + 2 <= j < s.len()
            &&& #[trigger] s[j] == '}'
            &&& s[i + 1] == '{'
            &&& forall|k: int| i + 2 <= k < j ==> #[trigger] s[k] != '}'
            &&& s.subrange(i, j + 1) != mark(Part::Ip)
            &&& s.subrange(i, j + 1) != mark(Part::Name)
            &&& s.subrange(i, j + 1) != mark(Part::Vmid)
        }
}

/// No placeholder begins in `s` when `rest` follows: a dollar sign has no brace
/// behind it, or opens what is none.
pub open spec fn opens_nothing(s: Seq<char>, rest: Seq<char>) -> bool {
    forall|i: int|
        0 <= i < s.len() && #[trigger] s[i] == '$' ==> unknown_at(s, i) || !(i + 1 < (s
            + rest).len() && (s + rest)[i + 1] == '{')
}

/// Parts in which all placeholders are parts of their own.
pub open spec fn taken_apart(parts: Seq<Part>) -> bool
    decreases parts.len(),
{
    parts.len() > 0 ==> {
        &&& parts[0] matches Part::Plain(s) ==> opens_nothing(s, written(parts.skip(1)))
        &&& taken_apart(parts.skip(1))
    }
}

/// A value that makes no placeholder of what is around it.
pub open spec fn harmless(value: Seq<char>) -> bool {
    &&& value.len() > 0
    &&& forall|i: int| 0 <= i < value.len() ==> #[trigger] value[i] != '$' && value[i] != '{'
}

/// The parts with a placeholder exchanged for a value.
spec fn exchanged(parts: Seq<Part>, which: Part, by: Seq<char>) -> Seq<Part> {
    Seq::new(
        parts.len(),
        |i: int|
            if parts[i] == which {
                Part::Plain(by)
            } else {
                parts[i]
            },
    )
}

proof fn no_mark_begins(s: Seq<char>, rest: Seq<char>, which: Part, i: int)
    requires
        opens_nothing(s, rest),
        !(which is Plain),
        0 <= i < s.len(),
    ensures
        !occurs_at(s + rest, mark(which), i),
{
    let text = s + rest;
    let m = mark(which);
    if occurs_at(text, m, i) {
        let found = text.subrange(i, i + m.len());
        assert(found[0] == text[i] && found[1] == text[i + 1]);
        assert(s[i] == '$');
        assert(unknown_at(s, i));
        let j = choose|j: int|
            {
                &&& i + 2 <= j < s.len()
                &&& #[trigger] s[j] == '}'
                &&& s[i + 1] == '{'
                &&& forall|k: int| i + 2 <= k < j ==> #[trigger] s[k] != '}'
                &&& s.subrange(i, j + 1) != mark(Part::Ip)
                &&& s.subrange(i, j + 1) != mark(Part::Name)
                &&& s.subrange(i, j + 1) != mark(Part::Vmid)
            };
        let last = m.len() - 1;
        assert(forall|k: int| 0 <= k < m.len() ==> #[trigger] found[k] == text[i + k]);
        assert(m[last] == '}');
        assert(forall|k: int| 0 <= k < last ==> #[trigger] m[k] != '}');
        if i + last < j {
            assert(found[last] == '}');
            assert(s[i + last] == text[i + last]);
        } else if i + last > j {
            assert(found[j - i] == text[j]);
            assert(m[j - i] != '}');
        } else {
            assert(s.subrange(i, j + 1) =~= m);
        }
    }
}

proof fn no_mark_within(first: Part, rest: Seq<char>, which: Part, i: int)
    requires
        !(first is Plain),
        !(which is Plain),
        first != which,
        0 <= i < mark(first).len(),
    ensures
        !occurs_at(mark(first) + rest, mark(which), i),
{
    let text = mark(first) + rest;
    let m = mark(which);
    if occurs_at(text, m, i) {
        let found = text.subrange(i, i + m.len());
        assert(found[0] == text[i]);
        assert(text[i] == mark(first)[i]);
        assert(i == 0);
        assert(found[2] == text[2]);
        assert(text[2] == mark(first)[2]);
    }
}

proof fn stretch_stays(before: Seq<char>, rest: Seq<char>, part: Seq<char>, by: Seq<char>)
    requires
        part.len() > 0,
        forall|i: int| 0 <= i < before.len() ==> !#[trigger] occurs_at(before + rest, part, i),
    ensures
        replaced(before + rest, part, by) == before + replaced(rest, part, by),
    decreases before.len(),
{
    let s = before + rest;
    if before.len() == 0 {
        assert(s == rest);
        assert(before + replaced(rest, part, by) == replaced(rest, part, by));
    } else {
        let less = before.skip(1);
        let tail = less + rest;
        assert(s.skip(1) == tail);
        assert(!occurs_at(s, part, 0));
        assert forall|i: int| 0 <= i < less.len() implies !#[trigger] occurs_at(tail, part, i) by {
            assert(!occurs_at(s, part, i + 1));
            if i + part.len() <= tail.len() {
                assert(tail.subrange(i, i + part.len()) == s.subrange(
                    i + 1,
                    i + 1 + part.len(),
                ));
            }
        }
        stretch_stays(less, rest, part, by);
        if s.len() >= part.len() {
            assert(s.take(part.len() as int) == s.subrange(0, part.len() as int));
            assert(seq![s[0]] + (less + replaced(rest, part, by)) == before + replaced(
                rest,
                part,
                by,
            ));
        } else {
            assert(replaced(rest, part, by) == rest);
        }
    }
}

proof fn one_kind_exchanged(parts: Seq<Part>, which: Part, by: Seq<char>)
    requires
        taken_apart(parts),
        !(which is Plain),
    ensures
        replaced(written(parts), mark(which), by) == written(exchanged(parts, which, by)),
    decreases parts.len(),
{
    let done = exchanged(parts, which, by);
    let m = mark(which);
    if parts.len() > 0 {
        let rest = parts.skip(1);
        let first = parts[0];
        let text = written(parts);
        one_kind_exchanged(rest, which, by);
        assert(done.skip(1) == exchanged(rest, which, by));
        if first == which {
            assert(text.take(m.len() as int) == m);
            assert(text.skip(m.len() as int) == written(rest));
        } else {
            assert forall|i: int| 0 <= i < mark(first).len() implies !#[trigger] occurs_at(
                mark(first) + written(rest),
                m,
                i,
            ) by {
                if let Part::Plain(s) = first {
                    no_mark_begins(s, written(rest), which, i);
                } else {
                    no_mark_within(first, written(rest), which, i);
                }
            }
            stretch_stays(mark(first), written(rest), m, by);
        }
    }
}

proof fn opening_stays(parts: Seq<Part>, which: Part, by: Seq<char>)
    requires
        harmless(by),
        !(which is Plain),
    ensures
        ({
            let done = written(exchanged(parts, which, by));
            done.len() > 0 && done[0] == '{' ==> written(parts).len() > 0 && written(parts)[0]
                == '{'
        }),
    decreases parts.len(),
{
    if parts.len() > 0 {
        let rest = parts.skip(1);
        let done = exchanged(parts, which, by);
        assert(done.skip(1) == exchanged(rest, which, by));
        opening_stays(rest, which, by);
        if mark(done[0]).len() > 0 {
            assert(written(done)[0] == mark(done[0])[0]);
        }
        if mark(parts[0]).len() > 0 {
            assert(written(parts)[0] == mark(parts[0])[0]);
        }
        if parts[0] != which && mark(parts[0]).len() == 0 {
            assert(written(done) == written(done.skip(1)));
            assert(written(parts) == written(rest));
        }
    }
}

proof fn still_taken_apart(parts: Seq<Part>, which: Part, by: Seq<char>)
    requires
        taken_apart(parts),
        harmless(by),
        !(which is Plain),
    ensures
        taken_apart(exchanged(parts, which, by)),
    decreases parts.len(),
{
    if parts.len() > 0 {
        let rest = parts.skip(1);
        let done = exchanged(parts, which, by);
        let after = exchanged(rest, which, by);
        assert(done.skip(1) == after);
        still_taken_apart(rest, which, by);
        opening_stays(rest, which, by);
        if let Part::Plain(s) = done[0] {
            assert forall|i: int| 0 <= i < s.len() && #[trigger] s[i] == '$' implies unknown_at(
                s,
                i,
            ) || !(i + 1 < (s + written(after)).len() && (s + written(after))[i + 1] == '{') by {
                if parts[0] != which {
                    assert(parts[0] == Part::Plain(s));
                    assert(opens_nothing(s, written(rest)));
                    let was = s + written(rest);
                    let now = s + written(after);
                    if i + 1 < s.len() {
                        assert(was[i + 1] == now[i + 1]);
                    } else if now.len() > i + 1 && now[i + 1] == '{' {
                        assert(now[i + 1] == written(after)[0]);
                        assert(was[i + 1] == written(rest)[0]);
                    }
                }
            }
        }
    }
}

/// No part is that placeholder.
pub open spec fn free_of(parts: Seq<Part>, which: Part) -> bool {
    forall|i: int| 0 <= i < parts.len() ==> #[trigger] parts[i] != which
}

proof fn other_parts_hold_no_mark(parts: Seq<Part>, which: Part)
    requires
        taken_apart(parts),
        free_of(parts, which),
        !(which is Plain),
    ensures
        !occurs(written(parts), mark(which)),
    decreases parts.len(),
{
    let text = written(parts);
    let m = mark(which);
    if parts.len() > 0 {
        let rest = parts.skip(1);
        let first = mark(parts[0]);
        assert forall|i: int| 0 <= i < rest.len() implies #[trigger] rest[i] != which by {
            assert(rest[i] == parts[i + 1]);
        }
        assert(parts[0] != which);
        other_parts_hold_no_mark(rest, which);
        assert forall|i: int| !#[trigger] occurs_at(text, m, i) by {
            if occurs_at(text, m, i) {
                if i < first.len() {
                    if let Part::Plain(s) = parts[0] {
                        no_mark_begins(s, written(rest), which, i);
                    } else {
                        no_mark_within(parts[0], written(rest), which, i);
                    }
                } else {
                    let k = i - first.len();
                    assert(written(rest).subrange(k, k + m.len()) == text.subrange(
                        i,
                        i + m.len(),
                    ));
                    assert(occurs_at(written(rest), m, k));
                }
            }
        }
    }
}

proof fn exchanged_is_spoken(parts: Seq<Part>, done: Seq<Part>, guest: GuestView)
    requires
        done.len() == parts.len(),
        forall|i: int| 0 <= i < parts.len() ==> mark(#[trigger] done[i]) == worth(parts[i], guest),
    ensures
        written(done) == spoken(parts, guest),
    decreases parts.len(),
{
    if parts.len() > 0 {
        let rest = parts.skip(1);
        let after = done.skip(1);
        assert forall|i: int| 0 <= i < rest.len() implies mark(#[trigger] after[i]) == worth(
            rest[i],
            guest,
        ) by {
            assert(after[i] == done[i + 1]);
        }
        exchanged_is_spoken(rest, after, guest);
        assert(mark(done[0]) == worth(parts[0], guest));
    }
}

/// A text is filled in by exchanging each of its placeholders for its own value
/// and keeping what stands between them, and no placeholder is left but that for
/// an address which the guest does not have. The values hold neither a dollar
/// sign nor an opening brace.
#[verifier::rlimit(40)]
pub proof fn placeholders_are_exchanged(parts: Seq<Part>, guest: GuestView)
    requires
        taken_apart(parts),
        harmless(guest.name),
        guest.ip matches Some(ip) ==> harmless(notation(ip)),
    ensures
        filled_text(written(parts), guest) == spoken(parts, guest),
        guest.ip is Some || free_of(parts, Part::Ip) ==> !occurs(
            filled_text(written(parts), guest),
            mark(Part::Ip),
        ),
        !occurs(filled_text(written(parts), guest), mark(Part::Name)),
        !occurs(filled_text(written(parts), guest), mark(Part::Vmid)),
{
    reveal_strlit("${ip}");
    reveal_strlit("${name}");
    reveal_strlit("${vmid}");
    assert("${ip}"@ =~= mark(Part::Ip));
    assert("${name}"@ =~= mark(Part::Name));
    assert("${vmid}"@ =~= mark(Part::Vmid));
    let one = match guest.ip {
        Some(ip) => exchanged(parts, Part::Ip, notation(ip)),
        None => parts,
    };
    if let Some(ip) = guest.ip {
        one_kind_exchanged(parts, Part::Ip, notation(ip));
        still_taken_apart(parts, Part::Ip, notation(ip));
    }
    let two = exchanged(one, Part::Name, guest.name);
    one_kind_exchanged(one, Part::Name, guest.name);
    still_taken_apart(one, Part::Name, guest.name);
    let numeral = decimal(guest.vmid as nat);
    let three = exchanged(two, Part::Vmid, numeral);
    numeral_is_harmless(guest.vmid as nat);
    one_kind_exchanged(two, Part::Vmid, numeral);
    still_taken_apart(two, Part::Vmid, numeral);
    assert forall|i: int| 0 <= i < parts.len() implies mark(#[trigger] three[i]) == worth(
        parts[i],
        guest,
    ) by {
        assert(parts[i] is Ip || parts[i] is Name || parts[i] is Vmid || parts[i] is Plain);
    }
    exchanged_is_spoken(parts, three, guest);
    if guest.ip is Some || free_of(parts, Part::Ip) {
        assert(free_of(three, Part::Ip));
        other_parts_hold_no_mark(three, Part::Ip);
    }
    assert(free_of(three, Part::Name));
    other_parts_hold_no_mark(three, Part::Name);
    assert(free_of(three, Part::Vmid));
    other_parts_hold_no_mark(three, Part::Vmid);
}

/// Whichever placeholders stand together in a text, in whichever order and with
/// whatever between them, each is exchanged for its own value.
#[verifier::rlimit(40)]
pub proof fn placeholders_together_are_exchanged(
    guest: GuestView,
    ip: IpAddr,
    first: (Seq<char>, Seq<char>),
    second: (Seq<char>, Seq<char>),
    third: (Seq<char>, Seq<char>),
    a: Seq<char>,
    b: Seq<char>,
    c: Seq<char>,
    d: Seq<char>,
)
    requires
        guest.ip == Some(ip),
        harmless(guest.name),
        harmless(notation(ip)),
        !a.contains('$') && !b.contains('$') && !c.contains('$') && !d.contains('$'),
        first == ("${ip}"@, notation(ip)) || first == ("${name}"@, guest.name) || first == (
            "${vmid}"@,
            decimal(guest.vmid as nat),
        ),
        second == ("${ip}"@, notation(ip)) || second == ("${name}"@, guest.name) || second == (
            "${vmid}"@,
            decimal(guest.vmid as nat),
        ),
        third == ("${ip}"@, notation(ip)) || third == ("${name}"@, guest.name) || third == (
            "${vmid}"@,
            decimal(guest.vmid as nat),
        ),
    ensures
        filled_text(a + first.0 + b + second.0 + c + third.0 + d, guest) == a + first.1 + b
            + second.1 + c + third.1 + d,
{
    let x = placeholder(first, guest, ip);
    let y = placeholder(second, guest, ip);
    let z = placeholder(third, guest, ip);
    let none = put_before(Part::Plain(d), Seq::empty(), guest);
    assert(written(none) =~= d);
    assert(spoken(none, guest) =~= d);
    let one = put_both(c, z, none, guest);
    let two = put_both(b, y, one, guest);
    let three = put_both(a, x, two, guest);
    placeholders_are_exchanged(three, guest);
    regrouped(a + first.0, b, second.0, c + third.0 + d);
    regrouped(a + first.0 + b + second.0, c, third.0, d);
    regrouped(a + first.1, b, second.1, c + third.1 + d);
    regrouped(a + first.1 + b + second.1, c, third.1, d);
}

proof fn regrouped(s: Seq<char>, t: Seq<char>, u: Seq<char>, v: Seq<char>)
    ensures
        s + (t + u + v) == s + t + u + v,
{
    assert(s + (t + u + v) =~= s + t + u + v);
}

/// The same of two placeholders, of one and of none.
#[verifier::rlimit(40)]
pub proof fn few_placeholders_are_exchanged(
    guest: GuestView,
    ip: IpAddr,
    first: (Seq<char>, Seq<char>),
    second: (Seq<char>, Seq<char>),
    a: Seq<char>,
    b: Seq<char>,
    c: Seq<char>,
)
    requires
        guest.ip == Some(ip),
        harmless(guest.name),
        harmless(notation(ip)),
        !a.contains('$') && !b.contains('$') && !c.contains('$'),
        first == ("${ip}"@, notation(ip)) || first == ("${name}"@, guest.name) || first == (
            "${vmid}"@,
            decimal(guest.vmid as nat),
        ),
        second == ("${ip}"@, notation(ip)) || second == ("${name}"@, guest.name) || second == (
            "${vmid}"@,
            decimal(guest.vmid as nat),
        ),
    ensures
        filled_text(a + first.0 + b + second.0 + c, guest) == a + first.1 + b + second.1 + c,
        filled_text(a + first.0 + c, guest) == a + first.1 + c,
        filled_text(c, guest) == c,
{
    let x = placeholder(first, guest, ip);
    let y = placeholder(second, guest, ip);
    let none = put_before(Part::Plain(c), Seq::empty(), guest);
    assert(written(none) =~= c);
    assert(spoken(none, guest) =~= c);
    let one = put_both(b, y, none, guest);
    let two = put_both(a, x, one, guest);
    placeholders_are_exchanged(two, guest);
    regrouped(a + first.0, b, second.0, c);
    regrouped(a + first.1, b, second.1, c);
    let single = put_both(a, x, none, guest);
    placeholders_are_exchanged(single, guest);
    placeholders_are_exchanged(none, guest);
}

proof fn placeholder(m: (Seq<char>, Seq<char>), guest: GuestView, ip: IpAddr) -> (part: Part)
    requires
        guest.ip == Some(ip),
        m == ("${ip}"@, notation(ip)) || m == ("${name}"@, guest.name) || m == (
            "${vmid}"@,
            decimal(guest.vmid as nat),
        ),
    ensures
        !(part is Plain),
        mark(part) == m.0,
        worth(part, guest) == m.1,
{
    reveal_strlit("${ip}");
    reveal_strlit("${name}");
    reveal_strlit("${vmid}");
    assert("${ip}"@ =~= mark(Part::Ip));
    assert("${name}"@ =~= mark(Part::Name));
    assert("${vmid}"@ =~= mark(Part::Vmid));
    if m == ("${ip}"@, notation(ip)) {
        Part::Ip
    } else if m == ("${name}"@, guest.name) {
        Part::Name
    } else {
        Part::Vmid
    }
}

proof fn put_both(s: Seq<char>, part: Part, parts: Seq<Part>, guest: GuestView) -> (longer: Seq<Part>)
    requires
        taken_apart(parts),
        !(part is Plain),
        !s.contains('$'),
    ensures
        taken_apart(longer),
        written(longer) == s + mark(part) + written(parts),
        spoken(longer, guest) == s + worth(part, guest) + spoken(parts, guest),
{
    let one = put_before(part, parts, guest);
    let two = put_before(Part::Plain(s), one, guest);
    assert(written(two) =~= s + mark(part) + written(parts));
    assert(spoken(two, guest) =~= s + worth(part, guest) + spoken(parts, guest));
    two
}

proof fn put_before(part: Part, parts: Seq<Part>, guest: GuestView) -> (longer: Seq<Part>)
    requires
        taken_apart(parts),
        part matches Part::Plain(s) ==> !s.contains('$'),
    ensures
        longer == seq![part] + parts,
        taken_apart(longer),
        written(longer) == mark(part) + written(parts),
        spoken(longer, guest) == worth(part, guest) + spoken(parts, guest),
{
    let longer = seq![part] + parts;
    assert(longer.skip(1) =~= parts);
    assert(longer[0] == part);
    if let Part::Plain(s) = part {
        assert forall|i: int| 0 <= i < s.len() implies #[trigger] s[i] != '$' by {
            assert(s.contains(s[i]));
        }
        assert(opens_nothing(s, written(parts)));
    }
    longer
}

/// A numeral makes no placeholder.
pub proof fn numeral_is_harmless(n: nat)
    ensures
        harmless(decimal(n)),
{
    numeral_stands_for_its_number(n);
    assert forall|i: int| 0 <= i < decimal(n).len() implies #[trigger] decimal(n)[i] != '$'
        && decimal(n)[i] != '{' by {
        assert(decimal_digit(decimal(n)[i]));
    }
}

/// An address of IPv4 makes no placeholder.
pub proof fn v4_is_harmless(bits: u32)
    ensures
        harmless(v4_notation(bits)),
{
    numeral_is_harmless((bits / 0x100_0000) as nat);
    numeral_is_harmless((bits / 0x1_0000 % 0x100) as nat);
    numeral_is_harmless((bits / 0x100 % 0x100) as nat);
    numeral_is_harmless((bits % 0x100) as nat);
    reveal_strlit(".");
}

/// What stands at the end of a path through lists and tables, each step the
/// index of an item or an entry.
pub open spec fn leaf(tree: Tree, path: Seq<int>) -> Option<Tree>
    decreases path.len(),
{
    if path.len() == 0 {
        Some(tree)
    } else {
        match tree {
            Tree::List(items) => if 0 <= path[0] < items.len() {
                leaf(items[path[0]], path.skip(1))
            } else {
                None
            },
            Tree::Table(entries) => if 0 <= path[0] < entries.len() {
                leaf(entries[path[0]].1, path.skip(1))
            } else {
                None
            },
            _ => None,
        }
    }
}

/// At any depth: a text is filled in where it stands, a number, a truth value or
/// nothing stays, and no list and no table gains or loses an item or a key.
pub proof fn filling_reaches_every_depth(tree: Tree, path: Seq<int>, guest: GuestView)
    ensures
        match leaf(tree, path) {
            None => leaf(filled(tree, guest), path) is None,
            Some(Tree::Text(s)) => leaf(filled(tree, guest), path) == Some(
                Tree::Text(filled_text(s, guest)),
            ),
            Some(Tree::List(items)) => leaf(filled(tree, guest), path) matches Some(
                Tree::List(done),
            ) && done.len() == items.len(),
            Some(Tree::Table(entries)) => {
                &&& leaf(filled(tree, guest), path) matches Some(Tree::Table(done))
                &&& done.len() == entries.len()
                &&& forall|i: int|
                    0 <= i < entries.len() ==> (#[trigger] done[i]).0 == entries[i].0
            },
            other => leaf(filled(tree, guest), path) == other,
        },
    decreases path.len(),
{
    if path.len() > 0 {
        match tree {
            Tree::List(items) => {
                if 0 <= path[0] < items.len() {
                    filling_reaches_every_depth(items[path[0]], path.skip(1), guest);
                }
            },
            Tree::Table(entries) => {
                if 0 <= path[0] < entries.len() {
                    filling_reaches_every_depth(entries[path[0]].1, path.skip(1), guest);
                    assert(filled_entries(entries, guest)[path[0]].1 == filled(
                        entries[path[0]].1,
                        guest,
                    ));
                }
            },
            _ => {},
        }
    }
}

/// Wherever a text asks for the address, the value does.
pub proof fn asking_is_seen_at_every_depth(tree: Tree, path: Seq<int>, s: Seq<char>)
    requires
        leaf(tree, path) == Some(Tree::Text(s)),
        occurs(s, mark(Part::Ip)),
    ensures
        mentions_ip(tree),
    decreases path.len(),
{
    reveal_strlit("${ip}");
    assert("${ip}"@ =~= mark(Part::Ip));
    if path.len() > 0 {
        match tree {
            Tree::List(items) => {
                asking_is_seen_at_every_depth(items[path[0]], path.skip(1), s);
                assert(mentions_ip(items[path[0]]));
            },
            Tree::Table(entries) => {
                asking_is_seen_at_every_depth(entries[path[0]].1, path.skip(1), s);
                assert(mentions_ip(entries[path[0]].1));
            },
            _ => {},
        }
    }
}

/// A value asks for the address only where one of its texts does.
pub proof fn asking_comes_from_a_text(tree: Tree) -> (path: Seq<int>)
    requires
        mentions_ip(tree),
    ensures
        leaf(tree, path) matches Some(Tree::Text(s)) && occurs(s, mark(Part::Ip)),
    decreases tree,
{
    reveal_strlit("${ip}");
    assert("${ip}"@ =~= mark(Part::Ip));
    match tree {
        Tree::List(items) => {
            let i = choose|i: int| 0 <= i < items.len() && mentions_ip(#[trigger] items[i]);
            assert(decreases_to!(tree => items[i]));
            let rest = asking_comes_from_a_text(items[i]);
            let path = seq![i] + rest;
            assert(path.skip(1) == rest);
            path
        },
        Tree::Table(entries) => {
            let i = choose|i: int|
                0 <= i < entries.len() && mentions_ip((#[trigger] entries[i]).1);
            assert(decreases_to!(tree => entries[i].1));
            let rest = asking_comes_from_a_text(entries[i].1);
            let path = seq![i] + rest;
            assert(path.skip(1) == rest);
            path
        },
        _ => Seq::empty(),
    }
}

/// A guest without an address is refused as soon as any text asks for it, at any
/// depth.
pub proof fn asking_without_an_address_is_refused(
    subtree: Entries,
    path: Seq<int>,
    s: Seq<char>,
    guest: GuestView,
)
    requires
        guest.ip is None,
        leaf(Tree::Table(subtree), path) == Some(Tree::Text(s)),
        occurs(s, mark(Part::Ip)),
    ensures
        rendered(subtree, guest) matches Err(Problem::NoAddress),
{
    asking_is_seen_at_every_depth(Tree::Table(subtree), path, s);
}

/// Otherwise the document is finished from the subtree as it is filled in.
pub proof fn subtree_is_filled_and_finished(subtree: Entries, guest: GuestView)
    requires
        guest.ip is Some || forall|path: Seq<int>|
            (#[trigger] leaf(Tree::Table(subtree), path)) matches Some(Tree::Text(s)) ==> !occurs(
                s,
                mark(Part::Ip),
            ),
    ensures
        rendered(subtree, guest) == finished(filled_entries(subtree, guest), guest),
{
    if guest.ip is None && entries_mention_ip(subtree) {
        assert(mentions_ip(Tree::Table(subtree)));
        let path = asking_comes_from_a_text(Tree::Table(subtree));
        assert(leaf(Tree::Table(subtree), path) is Some);
    }
}

} // verus!
