//! What is read out of the cluster's replies, piece by piece.
use vstd::prelude::*;

use crate::laws::texts::{joined, pieces_join_to_the_text};
use crate::pve::{agent_texts_in, asks, before_slash, field, is_success, items_of, lxc_texts_in};
use crate::pve::{pieces_not_empty, qemu_texts_in, reply_read, tags_in, text_under, vmids_in};
use crate::pve::{Reply, Request};
use crate::text::{decimal, pieces, trimmed};
use crate::value::{lookup, Entries, Numeral, Tree};

verus! {

/// A list of rows is read row by row.
pub proof fn vmids_are_read_row_by_row(rows: Seq<Tree>, more: Seq<Tree>)
    ensures
        vmids_in(rows + more) == vmids_in(rows) + vmids_in(more),
    decreases more.len(),
{
    if more.len() == 0 {
        assert(rows + more =~= rows);
        assert(vmids_in(rows) + vmids_in(more) =~= vmids_in(rows));
    } else {
        vmids_are_read_row_by_row(rows, more.drop_last());
        assert((rows + more).drop_last() =~= rows + more.drop_last());
        assert((rows + more).last() == more.last());
        assert(vmids_in(rows + more) =~= vmids_in(rows) + vmids_in(more));
    }
}

/// A row names a guest by the whole number that stands under `vmid`, whichever
/// number it is; any other row names none.
pub proof fn row_names_its_vmid(row: Tree, n: u64)
    ensures
        (row matches Tree::Table(entries) && lookup(entries, "vmid"@) == Some(
            Tree::Number(Numeral::Unsigned(n)),
        )) ==> vmids_in(seq![row]) == seq![n],
        vmids_in(seq![row]).contains(n) ==> (row matches Tree::Table(entries) && lookup(
            entries,
            "vmid"@,
        ) == Some(Tree::Number(Numeral::Unsigned(n)))),
        vmids_in(seq![row]).len() <= 1,
{
    let rows = seq![row];
    assert(rows.drop_last() =~= Seq::empty());
    assert(vmids_in(rows.drop_last()) =~= Seq::<u64>::empty());
    assert(rows.last() == row);
    if row matches Tree::Table(entries) && lookup(entries, "vmid"@) == Some(
        Tree::Number(Numeral::Unsigned(n)),
    ) {
        assert(vmids_in(rows) =~= seq![n]);
    }
}

/// A container's interfaces are read one by one.
pub proof fn container_interfaces_are_read_one_by_one(interfaces: Seq<Tree>, more: Seq<Tree>)
    ensures
        lxc_texts_in(interfaces + more) == lxc_texts_in(interfaces) + lxc_texts_in(more),
    decreases more.len(),
{
    if more.len() == 0 {
        assert(interfaces + more =~= interfaces);
        assert(lxc_texts_in(interfaces) + lxc_texts_in(more) =~= lxc_texts_in(interfaces));
    } else {
        container_interfaces_are_read_one_by_one(interfaces, more.drop_last());
        assert((interfaces + more).drop_last() =~= interfaces + more.drop_last());
        assert((interfaces + more).last() == more.last());
        assert(lxc_texts_in(interfaces + more) =~= lxc_texts_in(interfaces) + lxc_texts_in(more));
    }
}

/// An address with the length of its prefix.
pub open spec fn slashed(address: Seq<char>, length: Seq<char>) -> Seq<char> {
    address + seq!['/'] + length
}

/// What a container's interface says under a key: an address with the length of
/// its prefix behind a slash, an address alone, or nothing.
pub open spec fn says_address(interface: Tree, key: Seq<char>, address: Option<Seq<char>>) -> bool {
    match address {
        Some(address) => {
            &&& interface matches Tree::Table(entries)
            &&& lookup(entries, key) matches Some(Tree::Text(s))
            &&& !address.contains('/')
            &&& s == address || exists|length: Seq<char>| s == #[trigger] slashed(address, length)
        },
        None => !(interface matches Tree::Table(entries) && lookup(entries, key) matches Some(
            Tree::Text(_),
        )),
    }
}

#[verifier::rlimit(40)]
proof fn first_piece(s: Seq<char>, address: Seq<char>)
    requires
        !address.contains('/'),
        s == address || exists|length: Seq<char>| s == #[trigger] slashed(address, length),
    ensures
        pieces(s, '/')[0] == address,
{
    pieces_join_to_the_text(s, '/');
    let parts = pieces(s, '/');
    joined_starts_with_the_first(parts, '/');
    let first = parts[0];
    assert(!first.contains('/'));
    if s == address {
        if parts.len() > 1 {
            assert(address[first.len() as int] == '/');
        }
        assert(parts.len() == 1);
    } else {
        let n = address.len() as int;
        let length = choose|length: Seq<char>| s == #[trigger] slashed(address, length);
        assert(s[n] == '/');
        assert(forall|i: int| 0 <= i < n ==> #[trigger] s[i] == address[i]);
        assert(forall|i: int| 0 <= i < first.len() ==> #[trigger] s[i] == first[i]);
        if first.len() > n {
            assert(first[n] == '/');
        } else if first.len() < n {
            assert(s.len() > first.len());
            assert(parts.len() > 1);
            assert(address[first.len() as int] == '/');
        }
        assert(first.len() == n);
        assert forall|i: int| 0 <= i < n implies first[i] == address[i] by {
            assert(s[i] == first[i]);
            assert(s[i] == address[i]);
        }
        assert(first =~= address);
    }
}

proof fn joined_starts_with_the_first(parts: Seq<Seq<char>>, separator: char)
    requires
        parts.len() > 0,
    ensures
        ({
            let s = joined(parts, separator);
            let n = parts[0].len() as int;
            &&& s.len() >= n
            &&& forall|i: int| 0 <= i < n ==> #[trigger] s[i] == parts[0][i]
            &&& parts.len() == 1 ==> s == parts[0]
            &&& parts.len() > 1 ==> s.len() > n && s[n] == separator
        }),
    decreases parts.len(),
{
    if parts.len() > 1 {
        joined_starts_with_the_first(parts.drop_last(), separator);
        assert(parts.drop_last()[0] == parts[0]);
    }
}

/// Of a container's interface the address of IPv4 counts, and then the one of
/// IPv6, each without the length of its prefix.
pub proof fn container_interface_says_its_addresses(
    interface: Tree,
    v4: Option<Seq<char>>,
    v6: Option<Seq<char>>,
)
    requires
        says_address(interface, "inet"@, v4),
        says_address(interface, "inet6"@, v6),
    ensures
        lxc_texts_in(seq![interface]) == (match v4 {
            Some(address) => seq![address],
            None => Seq::empty(),
        }) + (match v6 {
            Some(address) => seq![address],
            None => Seq::empty(),
        }),
{
    let interfaces = seq![interface];
    assert(interfaces.drop_last() =~= Seq::empty());
    assert(lxc_texts_in(interfaces.drop_last()) =~= Seq::<Seq<char>>::empty());
    assert(interfaces.last() == interface);
    if let Some(address) = v4 {
        let s = lookup(interface->Table_0, "inet"@)->0->Text_0;
        first_piece(s, address);
        assert(before_slash(text_under(interface, "inet"@)) =~= seq![address]);
    } else {
        assert(before_slash(text_under(interface, "inet"@)) =~= Seq::<Seq<char>>::empty());
    }
    if let Some(address) = v6 {
        let s = lookup(interface->Table_0, "inet6"@)->0->Text_0;
        first_piece(s, address);
        assert(before_slash(text_under(interface, "inet6"@)) =~= seq![address]);
    } else {
        assert(before_slash(text_under(interface, "inet6"@)) =~= Seq::<Seq<char>>::empty());
    }
    assert(lxc_texts_in(interfaces) =~= before_slash(text_under(interface, "inet"@))
        + before_slash(text_under(interface, "inet6"@)));
}

/// A guest agent's interfaces are read one by one.
pub proof fn agent_interfaces_are_read_one_by_one(interfaces: Seq<Tree>, more: Seq<Tree>)
    ensures
        qemu_texts_in(interfaces + more) == qemu_texts_in(interfaces) + qemu_texts_in(more),
    decreases more.len(),
{
    if more.len() == 0 {
        assert(interfaces + more =~= interfaces);
        assert(qemu_texts_in(interfaces) + qemu_texts_in(more) =~= qemu_texts_in(interfaces));
    } else {
        agent_interfaces_are_read_one_by_one(interfaces, more.drop_last());
        assert((interfaces + more).drop_last() =~= interfaces + more.drop_last());
        assert((interfaces + more).last() == more.last());
        assert(qemu_texts_in(interfaces + more) =~= qemu_texts_in(interfaces) + qemu_texts_in(
            more,
        ));
    }
}

/// The text that an address of a guest agent's interface is.
pub open spec fn agent_address(address: Tree, text: Seq<char>) -> bool {
    address matches Tree::Table(entries) && lookup(entries, "ip-address"@) == Some(
        Tree::Text(text),
    )
}

/// Of a guest agent's interface each address counts as it is written, in the
/// order of the list.
pub proof fn agent_interface_says_its_addresses(
    interface: Tree,
    entries: Entries,
    addresses: Seq<Tree>,
    found: Seq<Seq<char>>,
)
    requires
        interface == Tree::Table(entries),
        lookup(entries, "ip-addresses"@) == Some(Tree::List(addresses)),
        addresses.len() == found.len(),
        forall|i: int| 0 <= i < found.len() ==> agent_address(#[trigger] addresses[i], found[i]),
    ensures
        qemu_texts_in(seq![interface]) == found,
{
    let interfaces = seq![interface];
    assert(interfaces.drop_last() =~= Seq::empty());
    assert(qemu_texts_in(interfaces.drop_last()) =~= Seq::<Seq<char>>::empty());
    assert(interfaces.last() == interface);
    agent_addresses_found(addresses, found);
    assert(qemu_texts_in(interfaces) =~= found);
}

proof fn agent_addresses_found(addresses: Seq<Tree>, found: Seq<Seq<char>>)
    requires
        addresses.len() == found.len(),
        forall|i: int| 0 <= i < found.len() ==> agent_address(#[trigger] addresses[i], found[i]),
    ensures
        agent_texts_in(addresses) == found,
    decreases addresses.len(),
{
    if addresses.len() > 0 {
        let front = addresses.drop_last();
        let before = found.drop_last();
        assert forall|i: int| 0 <= i < before.len() implies agent_address(
            #[trigger] front[i],
            before[i],
        ) by {
            assert(front[i] == addresses[i]);
        }
        agent_addresses_found(front, before);
        assert(agent_address(addresses[addresses.len() - 1], found[found.len() - 1]));
        assert(agent_texts_in(addresses) =~= before.push(found.last()));
        assert(before.push(found.last()) =~= found);
    }
}

/// What is no address, and an interface that lists none, says nothing.
pub proof fn agent_says_nothing_without_addresses(interface: Tree, address: Tree, text: Seq<char>)
    ensures
        !(interface matches Tree::Table(entries) && lookup(entries, "ip-addresses"@) matches Some(
            Tree::List(_),
        )) ==> qemu_texts_in(seq![interface]).len() == 0,
        agent_texts_in(seq![address]).len() <= 1,
        agent_texts_in(seq![address]).contains(text) ==> agent_address(address, text),
{
    let interfaces = seq![interface];
    assert(interfaces.drop_last() =~= Seq::empty());
    assert(interfaces.last() == interface);
    let addresses = seq![address];
    assert(addresses.drop_last() =~= Seq::empty());
    assert(addresses.last() == address);
    assert(agent_texts_in(addresses.drop_last()) =~= Seq::<Seq<char>>::empty());
    assert(qemu_texts_in(interfaces.drop_last()) =~= Seq::<Seq<char>>::empty());
    assert(agent_texts_in(Seq::empty()) =~= Seq::<Seq<char>>::empty());
    assert(qemu_texts_in(interfaces) =~= agent_texts_in(
        items_of(field(interface, "ip-addresses"@)),
    ));
    assert(agent_texts_in(addresses) =~= text_under(address, "ip-address"@));
}

/// The tags are read off a list one by one: what stands before the first
/// semicolon is a tag unless it is empty, and the rest is a list again.
pub proof fn tags_are_read_one_by_one(tag: Seq<char>, rest: Seq<char>)
    requires
        !tag.contains(';'),
    ensures
        tags_in(tag) == (if tag.len() > 0 {
            seq![tag]
        } else {
            Seq::empty()
        }),
        tags_in(tag + seq![';'] + rest) == (if tag.len() > 0 {
            seq![tag]
        } else {
            Seq::empty()
        }) + tags_in(rest),
{
    let kept = |t: Seq<char>| t.len() > 0;
    pieces_without_separator(tag, ';');
    pieces_split(tag, rest, ';');
    filter_one(tag);
    filter_parts(seq![tag], pieces(rest, ';'));
}

proof fn filter_one(tag: Seq<char>)
    ensures
        seq![tag].filter(|t: Seq<char>| t.len() > 0) == (if tag.len() > 0 {
            seq![tag]
        } else {
            Seq::empty()
        }),
{
    reveal(Seq::filter);
    let kept = |t: Seq<char>| t.len() > 0;
    let one = seq![tag];
    assert(one.drop_last() =~= Seq::<Seq<char>>::empty());
    assert(one.drop_last().filter(kept) =~= Seq::<Seq<char>>::empty());
    assert(one.last() == tag);
    if tag.len() > 0 {
        assert(one.filter(kept) =~= one);
    }
}

proof fn filter_parts(a: Seq<Seq<char>>, b: Seq<Seq<char>>)
    ensures
        (a + b).filter(|t: Seq<char>| t.len() > 0) == a.filter(|t: Seq<char>| t.len() > 0)
            + b.filter(|t: Seq<char>| t.len() > 0),
    decreases b.len(),
{
    reveal(Seq::filter);
    let kept = |t: Seq<char>| t.len() > 0;
    if b.len() == 0 {
        assert(a + b =~= a);
        assert(a.filter(kept) + b.filter(kept) =~= a.filter(kept));
    } else {
        filter_parts(a, b.drop_last());
        assert((a + b).drop_last() =~= a + b.drop_last());
        assert((a + b).last() == b.last());
        assert((a + b).filter(kept) =~= a.filter(kept) + b.filter(kept));
    }
}

proof fn pieces_without_separator(s: Seq<char>, separator: char)
    requires
        !s.contains(separator),
    ensures
        pieces(s, separator) == seq![s],
    decreases s.len(),
{
    if s.len() > 0 {
        let front = s.drop_last();
        assert forall|i: int| 0 <= i < front.len() implies front[i] != separator by {
            assert(s.contains(s[i]));
        }
        assert(s.contains(s[s.len() - 1]));
        pieces_without_separator(front, separator);
        assert(front.push(s.last()) =~= s);
        assert(pieces(s, separator) =~= seq![s]);
    } else {
        assert(s =~= Seq::empty());
        assert(pieces(s, separator) =~= seq![s]);
    }
}

proof fn pieces_split(before: Seq<char>, rest: Seq<char>, separator: char)
    requires
        !before.contains(separator),
    ensures
        pieces(before + seq![separator] + rest, separator) == seq![before] + pieces(
            rest,
            separator,
        ),
    decreases rest.len(),
{
    let s = before + seq![separator] + rest;
    if rest.len() == 0 {
        assert(s =~= before.push(separator));
        assert(s.drop_last() =~= before);
        pieces_without_separator(before, separator);
        assert(rest =~= Seq::empty());
        assert(pieces(s, separator) =~= seq![before] + pieces(rest, separator));
    } else {
        let front = rest.drop_last();
        pieces_split(before, front, separator);
        assert(s.drop_last() =~= before + seq![separator] + front);
        assert(s.last() == rest.last());
        pieces_not_empty(front, separator);
        assert(pieces(s, separator) =~= seq![before] + pieces(rest, separator));
    }
}

/// A reply is read by its status first: only one from 200 to 299 has data, and of
/// that the `data` of the envelope, or null. Every error names the path.
#[verifier::rlimit(40)]
pub proof fn only_success_has_data(path: Seq<char>, reply: Result<Reply, String>)
    ensures
        reply_read(path, reply) is Ok <==> (reply matches Ok(r) && 200 <= r.status <= 299
            && r.envelope is Ok),
        reply_read(path, reply) matches Ok(data) ==> data == match reply->Ok_0.envelope->Ok_0 {
            Some(data) => data@,
            None => Tree::Null,
        },
        reply_read(path, reply) matches Err(text) ==> {
            let start = seq!['G', 'E', 'T', ' '] + path + seq![':', ' '];
            let said = text.skip(start.len() as int);
            &&& text.len() >= start.len()
            &&& text.take(start.len() as int) == start
            &&& reply matches Err(error) ==> said == error@
            &&& reply matches Ok(r) ==> {
                &&& 200 <= r.status <= 299 ==> said == "decoding: "@ + r.envelope->Err_0@
                &&& !(200 <= r.status <= 299) ==> said == decimal(r.status as nat) + seq![' '] + (
                match r.reason {
                    Some(reason) => reason@,
                    None => Seq::empty(),
                }) + seq![' '] + trimmed(r.body@)
            }
        },
{
    reveal_strlit("GET ");
    reveal_strlit(": ");
    reveal_strlit(" ");
    reveal_strlit("");
    reveal_strlit(": decoding: ");
    reveal_strlit("decoding: ");
    assert("GET "@ =~= seq!['G', 'E', 'T', ' ']);
    assert(": "@ =~= seq![':', ' ']);
    assert(" "@ =~= seq![' ']);
    assert(""@ =~= Seq::empty());
    assert(": decoding: "@ =~= ": "@ + "decoding: "@);
    let start = seq!['G', 'E', 'T', ' '] + path + seq![':', ' '];
    if let Err(text) = reply_read(path, reply) {
        match reply {
            Err(error) => {
                assert(text =~= start + error@);
                assert(text.take(start.len() as int) =~= start);
                assert(text.skip(start.len() as int) =~= error@);
            },
            Ok(r) => {
                let said = if 200 <= r.status <= 299 {
                    "decoding: "@ + r.envelope->Err_0@
                } else {
                    decimal(r.status as nat) + seq![' '] + (match r.reason {
                        Some(reason) => reason@,
                        None => Seq::empty(),
                    }) + seq![' '] + trimmed(r.body@)
                };
                assert(text =~= start + said);
                assert(text.take(start.len() as int) =~= start);
                assert(text.skip(start.len() as int) =~= said);
            },
        }
    }
}

/// A field is looked up in a table, and only there; only a list has items.
pub proof fn fields_and_items(entries: Entries, items: Seq<Tree>, key: Seq<char>, other: Tree)
    ensures
        field(Tree::Table(entries), key) == lookup(entries, key),
        !(other is Table) ==> field(other, key) is None,
        items_of(Some(Tree::List(items))) == items,
        !(other is List) ==> items_of(Some(other)).len() == 0,
        items_of(None).len() == 0,
{
}

/// A request that asks something asks exactly that: the path, and the pairs of the
/// query one by one.
pub proof fn requests_ask_exactly(
    request: Request,
    path: Seq<char>,
    query: Seq<(Seq<char>, Seq<char>)>,
    i: int,
)
    requires
        asks(request, path, query),
    ensures
        request.path@ == path,
        request.query@.len() == query.len(),
        0 <= i < query.len() ==> request.query@[i].0@ == query[i].0 && request.query@[i].1@
            == query[i].1,
{
    let said = request.query@.map_values(|q: (String, String)| (q.0@, q.1@));
    assert(said.len() == request.query@.len());
    if 0 <= i < query.len() {
        assert(said[i] == (request.query@[i].0@, request.query@[i].1@));
    }
}

/// A request succeeds with a status from 200 to 299.
pub proof fn statuses_from_200_to_299_succeed(status: u16)
    ensures
        is_success(status) <==> 200 <= status <= 299,
{
}

} // verus!
