//! Which address of a guest is used.
use vstd::arithmetic::div_mod::lemma_fundamental_div_mod;
use vstd::arithmetic::power2::{lemma_pow2_pos, pow2};
use vstd::prelude::*;

use crate::address::{address_in, agree, holds, holds_none, is_first_global, is_first_within};
use crate::address::{is_global, pick_follows_the_networks};
use crate::address::{pick_without_networks_takes_a_global_address, picked, IpAddr, IpNet};
use crate::guest::tagged_addresses;
use crate::pve::{addresses_in, known_in, tags_in, Resource};

verus! {

/// An address that can be used without being asked for: of IPv4 any outside
/// 127.0.0.0/8 and 169.254.0.0/16 that is not 0.0.0.0; of IPv6 any outside
/// fe80::/10 that is neither ::1 nor ::.
pub open spec fn usable(ip: IpAddr) -> bool {
    match ip {
        IpAddr::V4(a) => {
            &&& !(0x7F00_0000 <= a <= 0x7FFF_FFFF)
            &&& !(0xA9FE_0000 <= a <= 0xA9FE_FFFF)
            &&& a != 0
        },
        IpAddr::V6(a) => {
            &&& !(0xFE80_0000_0000_0000_0000_0000_0000_0000 <= a
                <= 0xFEBF_FFFF_FFFF_FFFF_FFFF_FFFF_FFFF_FFFF)
            &&& a != 1
            &&& a != 0
        },
    }
}

/// Every address counts but the loopback, link-local and unspecified ones.
pub proof fn only_few_addresses_do_not_count(a: u32, b: u128)
    ensures
        is_global(IpAddr::V4(a)) <==> {
            &&& !(0x7F00_0000 <= a <= 0x7FFF_FFFF)
            &&& !(0xA9FE_0000 <= a <= 0xA9FE_FFFF)
            &&& a != 0
        },
        is_global(IpAddr::V6(b)) <==> {
            &&& !(0xFE80_0000_0000_0000_0000_0000_0000_0000 <= b
                <= 0xFEBF_FFFF_FFFF_FFFF_FFFF_FFFF_FFFF_FFFF)
            &&& b != 1
            &&& b != 0
        },
{
    assert(a / 0x100_0000 == 127 <==> 0x7F00_0000 <= a <= 0x7FFF_FFFF);
    assert(a / 0x1_0000 == 0xA9FE <==> 0xA9FE_0000 <= a <= 0xA9FE_FFFF);
    assert(b / 0x40_0000_0000_0000_0000_0000_0000_0000 == 0x3FA <==>
        0xFE80_0000_0000_0000_0000_0000_0000_0000 <= b
        <= 0xFEBF_FFFF_FFFF_FFFF_FFFF_FFFF_FFFF_FFFF);
}

proof fn global_is_usable(ip: IpAddr)
    ensures
        is_global(ip) <==> usable(ip),
{
    match ip {
        IpAddr::V4(a) => only_few_addresses_do_not_count(a, 0),
        IpAddr::V6(b) => only_few_addresses_do_not_count(0, b),
    }
}

/// The address of IPv4 with these four bytes.
pub open spec fn of_bytes(a: u8, b: u8, c: u8, d: u8) -> u32 {
    (a * 0x100_0000 + b * 0x1_0000 + c * 0x100 + d) as u32
}

/// An address of IPv4 falls into its four bytes again.
pub proof fn bytes_of_an_address(a: u8, b: u8, c: u8, d: u8)
    ensures
        ({
            let bits = of_bytes(a, b, c, d);
            &&& bits == a * 0x100_0000 + b * 0x1_0000 + c * 0x100 + d
            &&& bits / 0x100_0000 == a
            &&& bits / 0x1_0000 == a * 0x100 + b
            &&& bits / 0x1_0000 % 0x100 == b
            &&& bits / 0x100 % 0x100 == c
            &&& bits % 0x100 == d
        }),
{
    let bits = of_bytes(a, b, c, d);
    assert(bits == a * 0x100_0000 + b * 0x1_0000 + c * 0x100 + d);
    let low = b * 0x1_0000 + c * 0x100 + d;
    assert(bits / 0x100_0000 == a) by {
        assert(0 <= low < 0x100_0000);
        assert(bits == a * 0x100_0000 + low);
    }
    let high = a * 0x100 + b;
    assert(bits / 0x1_0000 == high) by {
        assert(0 <= c * 0x100 + d < 0x1_0000);
        assert(bits == high * 0x1_0000 + (c * 0x100 + d));
    }
    assert(high % 0x100 == b);
    let top = a * 0x1_0000 + b * 0x100 + c;
    assert(bits / 0x100 == top) by {
        assert(bits == top * 0x100 + d);
    }
    assert(top % 0x100 == c) by {
        assert(top == high * 0x100 + c);
    }
    assert(bits % 0x100 == d) by {
        assert(bits == top * 0x100 + d);
    }
}

/// Which addresses of IPv4 count, by their four bytes.
pub proof fn bytes_tell_whether_an_address_counts(a: u8, b: u8, c: u8, d: u8)
    ensures
        is_global(IpAddr::V4(of_bytes(a, b, c, d))) <==> a != 127 && !(a == 169 && b == 254) && !(a
            == 0 && b == 0 && c == 0 && d == 0),
{
    bytes_of_an_address(a, b, c, d);
}

/// Without networks the only candidate is picked exactly where it counts.
pub proof fn only_candidate_is_picked(ip: IpAddr)
    ensures
        picked(seq![ip], Seq::empty()) == match ip {
            IpAddr::V4(a) => if 0x7F00_0000 <= a <= 0x7FFF_FFFF || 0xA9FE_0000 <= a <= 0xA9FE_FFFF
                || a == 0 {
                None
            } else {
                Some(ip)
            },
            IpAddr::V6(a) => if 0xFE80_0000_0000_0000_0000_0000_0000_0000 <= a
                <= 0xFEBF_FFFF_FFFF_FFFF_FFFF_FFFF_FFFF_FFFF || a <= 1 {
                None
            } else {
                Some(ip)
            },
        },
{
    let candidates = seq![ip];
    global_is_usable(ip);
    pick_without_networks_takes_a_global_address(candidates);
    assert(candidates[0] == ip);
    if let Some(other) = picked(candidates, Seq::empty()) {
        if exists|k: int| #[trigger]
            is_first_global(candidates, true, k) && candidates[k] == other {
            let k = choose|k: int| #[trigger]
                is_first_global(candidates, true, k) && candidates[k] == other;
            assert(candidates[k] == ip);
        } else {
            let k = choose|k: int| #[trigger]
                is_first_global(candidates, false, k) && candidates[k] == other;
            assert(candidates[k] == ip);
        }
    }
}

/// The candidate at `i` counts, none of its family before it does, and, where it is
/// one of IPv6, none of IPv4 does.
pub open spec fn comes_first(candidates: Seq<IpAddr>, i: int) -> bool {
    &&& 0 <= i < candidates.len()
    &&& usable(candidates[i])
    &&& forall|j: int|
        0 <= j < candidates.len() && usable(#[trigger] candidates[j]) ==> {
            ||| candidates[i] is V4 && candidates[j] is V6
            ||| i <= j && (candidates[i] is V4 <==> candidates[j] is V4)
        }
}

/// Without networks the first candidate that counts is picked, IPv4 before IPv6,
/// and none only where none counts.
pub proof fn first_usable_candidate_is_picked(candidates: Seq<IpAddr>)
    ensures
        match picked(candidates, Seq::empty()) {
            Some(ip) => exists|i: int|
                #[trigger] comes_first(candidates, i) && candidates[i] == ip,
            None => forall|i: int| 0 <= i < candidates.len() ==> !usable(#[trigger] candidates[i]),
        },
{
    assert forall|i: int| 0 <= i < candidates.len() implies is_global(#[trigger] candidates[i])
        == usable(candidates[i]) by {
        global_is_usable(candidates[i]);
    }
    pick_without_networks_takes_a_global_address(candidates);
    if let Some(ip) = picked(candidates, Seq::empty()) {
        if exists|k: int| #[trigger] is_first_global(candidates, true, k) && candidates[k] == ip {
            let k = choose|k: int| #[trigger]
                is_first_global(candidates, true, k) && candidates[k] == ip;
            assert(comes_first(candidates, k));
        } else {
            let k = choose|k: int| #[trigger]
                is_first_global(candidates, false, k) && candidates[k] == ip;
            assert(candidates[k] is V6);
            assert(comes_first(candidates, k));
        }
    }
}

/// Where a network starts: an address with its last `free` bits all zero.
pub open spec fn start_of(addr: nat, free: nat) -> int {
    addr - addr % pow2(free)
}

/// The network is the stretch of addresses from its start that the free bits can
/// tell apart.
pub open spec fn inside(net: IpNet, ip: IpAddr) -> bool {
    match (net, ip) {
        (IpNet::V4(net), IpAddr::V4(a)) => {
            let free = (32 - net.prefix_len()) as nat;
            start_of(net.addr() as nat, free) <= a < start_of(net.addr() as nat, free) + pow2(free)
        },
        (IpNet::V6(net), IpAddr::V6(a)) => {
            let free = (128 - net.prefix_len()) as nat;
            start_of(net.addr() as nat, free) <= a < start_of(net.addr() as nat, free) + pow2(free)
        },
        _ => false,
    }
}

proof fn same_stretch(a: nat, b: nat, free: nat)
    ensures
        agree(a, b, free as int) <==> start_of(a, free) <= b < start_of(a, free) + pow2(free),
{
    let d = pow2(free) as int;
    lemma_pow2_pos(free);
    lemma_fundamental_div_mod(a as int, d);
    lemma_fundamental_div_mod(b as int, d);
    let x = a as int / d;
    let y = b as int / d;
    if x == y {
        assert(b as int % d < d);
    } else if x < y {
        assert(d * (x + 1) <= d * y) by (nonlinear_arith)
            requires
                x + 1 <= y,
                d > 0,
        ;
        assert(d * (x + 1) == d * x + d) by (nonlinear_arith);
    } else {
        assert(d * (y + 1) <= d * x) by (nonlinear_arith)
            requires
                y + 1 <= x,
                d > 0,
        ;
        assert(d * (y + 1) == d * y + d) by (nonlinear_arith);
    }
}

/// A network holds the addresses of its family inside its stretch, and no others.
pub proof fn networks_are_stretches(net: IpNet, ip: IpAddr)
    requires
        net matches IpNet::V4(v4) ==> v4.prefix_len() <= 32,
        net matches IpNet::V6(v6) ==> v6.prefix_len() <= 128,
    ensures
        holds(net, ip) <==> inside(net, ip),
{
    match (net, ip) {
        (IpNet::V4(n), IpAddr::V4(a)) => {
            same_stretch(n.addr() as nat, a as nat, (32 - n.prefix_len()) as nat);
        },
        (IpNet::V6(n), IpAddr::V6(a)) => {
            same_stretch(n.addr() as nat, a as nat, (128 - n.prefix_len()) as nat);
        },
        _ => {},
    }
}

/// With networks the candidate `k` is picked by the network `n`: it is the first
/// inside, and no candidate is inside a network that goes before.
pub open spec fn goes_first(candidates: Seq<IpAddr>, cidrs: Seq<IpNet>, n: int, k: int) -> bool {
    &&& 0 <= n < cidrs.len()
    &&& 0 <= k < candidates.len()
    &&& inside(cidrs[n], candidates[k])
    &&& forall|j: int| 0 <= j < k ==> !inside(cidrs[n], #[trigger] candidates[j])
    &&& forall|m: int, j: int|
        0 <= m < n && 0 <= j < candidates.len() ==> !inside(
            #[trigger] cidrs[m],
            #[trigger] candidates[j],
        )
}

/// With networks the first candidate inside the first network that has one is
/// picked, whatever else it is, and none only where none is inside any.
pub proof fn first_candidate_inside_is_picked(candidates: Seq<IpAddr>, cidrs: Seq<IpNet>)
    requires
        cidrs.len() > 0,
        forall|n: int|
            0 <= n < cidrs.len() ==> match #[trigger] cidrs[n] {
                IpNet::V4(v4) => v4.prefix_len() <= 32,
                IpNet::V6(v6) => v6.prefix_len() <= 128,
            },
    ensures
        match picked(candidates, cidrs) {
            Some(ip) => exists|n: int, k: int|
                #[trigger] goes_first(candidates, cidrs, n, k) && candidates[k] == ip,
            None => forall|n: int, k: int|
                0 <= n < cidrs.len() && 0 <= k < candidates.len() ==> !inside(
                    #[trigger] cidrs[n],
                    #[trigger] candidates[k],
                ),
        },
{
    pick_follows_the_networks(candidates, cidrs);
    assert forall|n: int, k: int| 0 <= n < cidrs.len() && 0 <= k < candidates.len() implies inside(
        #[trigger] cidrs[n],
        #[trigger] candidates[k],
    ) == holds(cidrs[n], candidates[k]) by {
        networks_are_stretches(cidrs[n], candidates[k]);
    }
    match picked(candidates, cidrs) {
        Some(ip) => {
            let (n, k) = choose|n: int, k: int|
                #![trigger is_first_within(candidates, cidrs[n], k)]
                {
                    &&& 0 <= n < cidrs.len()
                    &&& is_first_within(candidates, cidrs[n], k)
                    &&& candidates[k] == ip
                    &&& forall|m: int| 0 <= m < n ==> holds_none(#[trigger] cidrs[m], candidates)
                };
            assert forall|m: int, j: int| 0 <= m < n && 0 <= j < candidates.len() implies !inside(
                #[trigger] cidrs[m],
                #[trigger] candidates[j],
            ) by {
                assert(holds_none(cidrs[m], candidates));
            }
            assert(goes_first(candidates, cidrs, n, k));
        },
        None => {
            assert forall|n: int, k: int|
                0 <= n < cidrs.len() && 0 <= k < candidates.len() implies !inside(
                #[trigger] cidrs[n],
                #[trigger] candidates[k],
            ) by {
                assert(holds_none(cidrs[n], candidates));
            }
        },
    }
}

/// The results follow the texts one by one, an address for each that denotes one.
pub open spec fn read_off(found: Seq<Seq<char>>, addresses: Seq<IpAddr>) -> bool
    decreases found.len(),
{
    if found.len() == 0 {
        addresses.len() == 0
    } else {
        match address_in(found[0]) {
            Some(ip) => addresses.len() > 0 && addresses[0] == ip && read_off(
                found.skip(1),
                addresses.skip(1),
            ),
            None => read_off(found.skip(1), addresses),
        }
    }
}

proof fn known_from_the_front(parsed: Seq<Option<IpAddr>>)
    requires
        parsed.len() > 0,
    ensures
        known_in(parsed) == (match parsed[0] {
            Some(ip) => seq![ip],
            None => Seq::empty(),
        }) + known_in(parsed.skip(1)),
    decreases parsed.len(),
{
    let front = parsed.drop_last();
    if front.len() > 0 {
        known_from_the_front(front);
        assert(front.skip(1) == parsed.skip(1).drop_last());
        assert(parsed.skip(1).last() == parsed.last());
        assert(front[0] == parsed[0]);
    } else {
        assert(parsed.skip(1).len() == 0);
        assert(known_in(front) =~= Seq::empty());
        assert(known_in(parsed.skip(1)) =~= Seq::empty());
    }
}

/// Of texts that were found those that denote an address count, each as the
/// address that it denotes, in their order.
pub proof fn addresses_are_read_off(found: Seq<Seq<char>>)
    ensures
        read_off(found, addresses_in(found)),
    decreases found.len(),
{
    let parse = |s: Seq<char>| address_in(s);
    let parsed = found.map_values(parse);
    if found.len() > 0 {
        known_from_the_front(parsed);
        assert(parsed.skip(1) =~= found.skip(1).map_values(parse));
        addresses_are_read_off(found.skip(1));
        assert(parsed[0] == address_in(found[0]));
        if address_in(found[0]) is Some {
            assert(addresses_in(found).skip(1) =~= addresses_in(found.skip(1)));
        } else {
            assert(addresses_in(found) =~= addresses_in(found.skip(1)));
        }
    }
}

/// The tags of a guest are read for addresses, all of them and nothing else.
pub proof fn tags_are_read_for_addresses(resource: Resource)
    ensures
        match resource.tags {
            Some(list) => read_off(tags_in(list@), tagged_addresses(resource)),
            None => tagged_addresses(resource).len() == 0,
        },
{
    if let Some(list) = resource.tags {
        addresses_are_read_off(tags_in(list@));
    } else {
        addresses_are_read_off(Seq::empty());
    }
}

} // verus!
