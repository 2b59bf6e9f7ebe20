//! Addresses of guests, the networks they may come from, and the choice
//! between several.
use vstd::arithmetic::power2::pow2;
use vstd::prelude::*;

use crate::text::decimal_text;
use crate::text::decimal;

verus! {

/// An address, by its bits in network order.
#[derive(Clone, Copy, Debug, PartialEq, Eq, Structural)]
pub enum IpAddr {
    V4(u32),
    V6(u128),
}

/// An IPv4 network: an address and how many of its leading bits count.
pub struct Ipv4Net {
    addr: u32,
    prefix_len: u8,
}

/// An IPv6 network: an address and how many of its leading bits count.
pub struct Ipv6Net {
    addr: u128,
    prefix_len: u8,
}

/// A network.
pub enum IpNet {
    V4(Ipv4Net),
    V6(Ipv6Net),
}

impl Ipv4Net {
    #[verifier::type_invariant]
    spec fn fits(self) -> bool {
        self.prefix_len <= 32
    }

    pub closed spec fn addr(self) -> u32 {
        self.addr
    }

    pub closed spec fn prefix_len(self) -> u8 {
        self.prefix_len
    }

    /// The network of `addr` whose first `prefix_len` bits count; none where an
    /// address has fewer bits.
    pub fn new(addr: u32, prefix_len: u8) -> (r: Option<Ipv4Net>)
        ensures
            match r {
                Some(net) => prefix_len <= 32 && net.addr() == addr && net.prefix_len()
                    == prefix_len,
                None => prefix_len > 32,
            },
    {
        if prefix_len <= 32 {
            Some(Ipv4Net { addr, prefix_len })
        } else {
            None
        }
    }

    /// Whether the network holds `ip`.
    pub fn contains(&self, ip: u32) -> (r: bool)
        ensures
            r == agree(self.addr() as nat, ip as nat, 32 - self.prefix_len()),
    {
        proof {
            use_type_invariant(self);
        }
        v4_net_contains(self.addr, self.prefix_len, ip)
    }
}

impl Ipv6Net {
    #[verifier::type_invariant]
    spec fn fits(self) -> bool {
        self.prefix_len <= 128
    }

    pub closed spec fn addr(self) -> u128 {
        self.addr
    }

    pub closed spec fn prefix_len(self) -> u8 {
        self.prefix_len
    }

    /// The network of `addr` whose first `prefix_len` bits count; none where an
    /// address has fewer bits.
    pub fn new(addr: u128, prefix_len: u8) -> (r: Option<Ipv6Net>)
        ensures
            match r {
                Some(net) => prefix_len <= 128 && net.addr() == addr && net.prefix_len()
                    == prefix_len,
                None => prefix_len > 128,
            },
    {
        if prefix_len <= 128 {
            Some(Ipv6Net { addr, prefix_len })
        } else {
            None
        }
    }

    /// Whether the network holds `ip`.
    pub fn contains(&self, ip: u128) -> (r: bool)
        ensures
            r == agree(self.addr() as nat, ip as nat, 128 - self.prefix_len()),
    {
        proof {
            use_type_invariant(self);
        }
        v6_net_contains(self.addr, self.prefix_len, ip)
    }
}

/// Two addresses agree in all bits but the last `free`.
pub open spec fn agree(a: nat, b: nat, free: int) -> bool {
    a / pow2(free as nat) == b / pow2(free as nat)
}

/// Whether the network holds the address. One of another family it never holds.
pub open spec fn holds(net: IpNet, ip: IpAddr) -> bool {
    match (net, ip) {
        (IpNet::V4(net), IpAddr::V4(a)) => agree(net.addr() as nat, a as nat, 32 - net.prefix_len()),
        (IpNet::V6(net), IpAddr::V6(a)) => agree(
            net.addr() as nat,
            a as nat,
            128 - net.prefix_len(),
        ),
        _ => false,
    }
}

/// `Ipv4Net::contains` of the crate ipnet, on the network of `addr` with
/// `prefix_len` leading bits: the address lies between the network's first and
/// last, which is to say that it agrees with `addr` in those bits.
#[verifier::external_body]
fn v4_net_contains(addr: u32, prefix_len: u8, ip: u32) -> (r: bool)
    requires
        prefix_len <= 32,
    ensures
        r == agree(addr as nat, ip as nat, 32 - prefix_len),
{
    ipnet::Ipv4Net::new_assert(core::net::Ipv4Addr::from(addr), prefix_len).contains(
        &core::net::Ipv4Addr::from(ip),
    )
}

/// `Ipv6Net::contains` of the crate ipnet, on the network of `addr` with
/// `prefix_len` leading bits: the address lies between the network's first and
/// last, which is to say that it agrees with `addr` in those bits.
#[verifier::external_body]
fn v6_net_contains(addr: u128, prefix_len: u8, ip: u128) -> (r: bool)
    requires
        prefix_len <= 128,
    ensures
        r == agree(addr as nat, ip as nat, 128 - prefix_len),
{
    ipnet::Ipv6Net::new_assert(core::net::Ipv6Addr::from(addr), prefix_len).contains(
        &core::net::Ipv6Addr::from(ip),
    )
}

impl IpNet {
    /// Whether the network holds the address.
    pub fn contains(&self, ip: &IpAddr) -> (r: bool)
        ensures
            r == holds(*self, *ip),
    {
        match (self, ip) {
            (IpNet::V4(net), IpAddr::V4(a)) => net.contains(*a),
            (IpNet::V6(net), IpAddr::V6(a)) => net.contains(*a),
            _ => false,
        }
    }
}

/// The address that a text denotes, if it denotes one.
pub uninterp spec fn address_in(text: Seq<char>) -> Option<IpAddr>;

/// `str::parse` into an `IpAddr` of std: the address that the text denotes in
/// either of the notations of IPv4 and IPv6, or none.
#[verifier::external_body]
pub(crate) fn parse_address(text: &str) -> (r: Option<IpAddr>)
    ensures
        r == address_in(text@),
{
    match text.parse::<core::net::IpAddr>() {
        Ok(core::net::IpAddr::V4(v4)) => Some(IpAddr::V4(u32::from(v4))),
        Ok(core::net::IpAddr::V6(v6)) => Some(IpAddr::V6(u128::from(v6))),
        Err(_) => None,
    }
}

/// The notation of an IPv6 address.
pub uninterp spec fn v6_notation(bits: u128) -> Seq<char>;

/// `to_string` of an `Ipv6Addr` of std, the one with the given bits: its
/// notation, which depends on the bits alone.
#[verifier::external_body]
fn v6_text(bits: u128) -> (r: String)
    ensures
        r@ == v6_notation(bits),
{
    core::net::Ipv6Addr::from(bits).to_string()
}

/// The notation of an IPv4 address: its four octets in decimal, between dots.
pub open spec fn v4_notation(bits: u32) -> Seq<char> {
    decimal((bits / 0x100_0000) as nat) + "."@ + decimal((bits / 0x1_0000 % 0x100) as nat) + "."@
        + decimal((bits / 0x100 % 0x100) as nat) + "."@ + decimal((bits % 0x100) as nat)
}

/// The notation of an address.
pub open spec fn notation(ip: IpAddr) -> Seq<char> {
    match ip {
        IpAddr::V4(bits) => v4_notation(bits),
        IpAddr::V6(bits) => v6_notation(bits),
    }
}

/// An address as the host of a URL: one of IPv6 stands in brackets.
pub open spec fn host_notation(ip: IpAddr) -> Seq<char> {
    match ip {
        IpAddr::V4(bits) => v4_notation(bits),
        IpAddr::V6(bits) => "["@ + v6_notation(bits) + "]"@,
    }
}

/// The host of a URL whose address is written `text`, one of IPv6.
pub fn bracketed(text: &str) -> (r: String)
    ensures
        r@ == "["@ + text@ + "]"@,
{
    "[".to_string().concat(text).concat("]")
}

impl IpAddr {
    /// The notation of the address.
    pub fn text(&self) -> (r: String)
        ensures
            r@ == notation(*self),
    {
        match self {
            IpAddr::V4(bits) => {
                let bits: u32 = *bits;
                let first = decimal_text((bits / 0x100_0000) as u64);
                let second = decimal_text((bits / 0x1_0000 % 0x100) as u64);
                let third = decimal_text((bits / 0x100 % 0x100) as u64);
                let fourth = decimal_text((bits % 0x100) as u64);
                let out = first.concat(".").concat(second.as_str()).concat(".");
                out.concat(third.as_str()).concat(".").concat(fourth.as_str())
            },
            IpAddr::V6(bits) => v6_text(*bits),
        }
    }

    /// The address as the host of a URL.
    pub fn host(&self) -> (r: String)
        ensures
            r@ == host_notation(*self),
    {
        match self {
            IpAddr::V4(_) => self.text(),
            IpAddr::V6(bits) => bracketed(v6_text(*bits).as_str()),
        }
    }
}

/// Neither a loopback address nor a link-local one nor the unspecified one.
pub open spec fn is_global(ip: IpAddr) -> bool {
    match ip {
        // 127.0.0.0/8, 169.254.0.0/16, 0.0.0.0
        IpAddr::V4(a) => a / 0x100_0000 != 127 && a / 0x1_0000 != 0xA9FE && a != 0,
        // ::1, fe80::/10, ::
        IpAddr::V6(a) => a != 1 && a / 0x40_0000_0000_0000_0000_0000_0000_0000 != 0x3FA && a != 0,
    }
}

fn global(ip: &IpAddr) -> (r: bool)
    ensures
        r == is_global(*ip),
{
    match *ip {
        IpAddr::V4(a) => a / 0x100_0000 != 127 && a / 0x1_0000 != 0xA9FE && a != 0,
        IpAddr::V6(a) => a != 1 && a / 0x40_0000_0000_0000_0000_0000_0000_0000 != 0x3FA && a != 0,
    }
}

/// The first of the candidates that the network holds.
pub open spec fn first_within(candidates: Seq<IpAddr>, net: IpNet) -> Option<IpAddr>
    decreases candidates.len(),
{
    if candidates.len() == 0 {
        None
    } else {
        match first_within(candidates.drop_last(), net) {
            Some(ip) => Some(ip),
            None => if holds(net, candidates.last()) {
                Some(candidates.last())
            } else {
                None
            },
        }
    }
}

/// The first of the candidates that is global, of IPv4 only where `v4_only`.
pub open spec fn first_global(candidates: Seq<IpAddr>, v4_only: bool) -> Option<IpAddr>
    decreases candidates.len(),
{
    if candidates.len() == 0 {
        None
    } else {
        match first_global(candidates.drop_last(), v4_only) {
            Some(ip) => Some(ip),
            None => if is_global(candidates.last()) && (v4_only ==> candidates.last() is V4) {
                Some(candidates.last())
            } else {
                None
            },
        }
    }
}

/// The first candidate within the first network that holds any.
pub open spec fn first_preferred(candidates: Seq<IpAddr>, nets: Seq<IpNet>) -> Option<IpAddr>
    decreases nets.len(),
{
    if nets.len() == 0 {
        None
    } else {
        match first_preferred(candidates, nets.drop_last()) {
            Some(ip) => Some(ip),
            None => first_within(candidates, nets.last()),
        }
    }
}

/// The address to use: by the networks in their order where there are any,
/// else the first global one, IPv4 before IPv6.
pub open spec fn picked(candidates: Seq<IpAddr>, cidrs: Seq<IpNet>) -> Option<IpAddr> {
    if cidrs.len() == 0 {
        match first_global(candidates, true) {
            Some(ip) => Some(ip),
            None => first_global(candidates, false),
        }
    } else {
        first_preferred(candidates, cidrs)
    }
}

fn find_within(candidates: &[IpAddr], net: &IpNet) -> (r: Option<IpAddr>)
    ensures
        r == first_within(candidates@, *net),
{
    let mut i: usize = 0;
    while i < candidates.len()
        invariant
            i <= candidates@.len(),
            first_within(candidates@.take(i as int), *net) is None,
        decreases candidates@.len() - i,
    {
        assert(candidates@.take(i + 1).drop_last() == candidates@.take(i as int));
        if net.contains(&candidates[i]) {
            proof {
                first_within_stays(candidates@, *net, i + 1);
            }
            return Some(candidates[i]);
        }
        i = i + 1;
    }
    assert(candidates@.take(i as int) == candidates@);
    None
}

fn find_global(candidates: &[IpAddr], v4_only: bool) -> (r: Option<IpAddr>)
    ensures
        r == first_global(candidates@, v4_only),
{
    let mut i: usize = 0;
    while i < candidates.len()
        invariant
            i <= candidates@.len(),
            first_global(candidates@.take(i as int), v4_only) is None,
        decreases candidates@.len() - i,
    {
        assert(candidates@.take(i + 1).drop_last() == candidates@.take(i as int));
        let fits = match candidates[i] {
            IpAddr::V4(_) => true,
            IpAddr::V6(_) => !v4_only,
        };
        if fits && global(&candidates[i]) {
            proof {
                first_global_stays(candidates@, v4_only, i + 1);
            }
            return Some(candidates[i]);
        }
        i = i + 1;
    }
    assert(candidates@.take(i as int) == candidates@);
    None
}

proof fn first_within_stays(candidates: Seq<IpAddr>, net: IpNet, n: int)
    requires
        0 <= n <= candidates.len(),
        first_within(candidates.take(n), net) is Some,
    ensures
        first_within(candidates, net) == first_within(candidates.take(n), net),
    decreases candidates.len() - n,
{
    if n == candidates.len() {
        assert(candidates.take(n) == candidates);
    } else {
        assert(candidates.take(n + 1).drop_last() == candidates.take(n));
        first_within_stays(candidates, net, n + 1);
    }
}

proof fn first_global_stays(candidates: Seq<IpAddr>, v4_only: bool, n: int)
    requires
        0 <= n <= candidates.len(),
        first_global(candidates.take(n), v4_only) is Some,
    ensures
        first_global(candidates, v4_only) == first_global(candidates.take(n), v4_only),
    decreases candidates.len() - n,
{
    if n == candidates.len() {
        assert(candidates.take(n) == candidates);
    } else {
        assert(candidates.take(n + 1).drop_last() == candidates.take(n));
        first_global_stays(candidates, v4_only, n + 1);
    }
}

proof fn first_preferred_stays(candidates: Seq<IpAddr>, nets: Seq<IpNet>, n: int)
    requires
        0 <= n <= nets.len(),
        first_preferred(candidates, nets.take(n)) is Some,
    ensures
        first_preferred(candidates, nets) == first_preferred(candidates, nets.take(n)),
    decreases nets.len() - n,
{
    if n == nets.len() {
        assert(nets.take(n) == nets);
    } else {
        assert(nets.take(n + 1).drop_last() == nets.take(n));
        first_preferred_stays(candidates, nets, n + 1);
    }
}

/// The first candidate inside the first matching `cidrs` entry, so the list's
/// order is a preference. With no `cidrs`, the first global address, IPv4
/// before IPv6.
pub fn pick(candidates: &[IpAddr], cidrs: &[IpNet]) -> (r: Option<IpAddr>)
    ensures
        r == picked(candidates@, cidrs@),
{
    if cidrs.len() == 0 {
        return match find_global(candidates, true) {
            Some(ip) => Some(ip),
            None => find_global(candidates, false),
        };
    }
    let mut i: usize = 0;
    while i < cidrs.len()
        invariant
            i <= cidrs@.len(),
            cidrs@.len() > 0,
            first_preferred(candidates@, cidrs@.take(i as int)) is None,
        decreases cidrs@.len() - i,
    {
        assert(cidrs@.take(i + 1).drop_last() == cidrs@.take(i as int));
        let found = find_within(candidates, &cidrs[i]);
        if found.is_some() {
            proof {
                first_preferred_stays(candidates@, cidrs@, i + 1);
            }
            return found;
        }
        i = i + 1;
    }
    assert(cidrs@.take(i as int) == cidrs@);
    None
}

/// The candidate `k` is the first that the network holds.
pub open spec fn is_first_within(candidates: Seq<IpAddr>, net: IpNet, k: int) -> bool {
    &&& 0 <= k < candidates.len()
    &&& holds(net, candidates[k])
    &&& forall|j: int| 0 <= j < k ==> !holds(net, #[trigger] candidates[j])
}

/// The candidate `k` is the first that is global, of IPv4 only where `v4_only`.
pub open spec fn is_first_global(candidates: Seq<IpAddr>, v4_only: bool, k: int) -> bool {
    &&& 0 <= k < candidates.len()
    &&& is_global(candidates[k]) && (v4_only ==> candidates[k] is V4)
    &&& forall|j: int|
        0 <= j < k ==> !(is_global(#[trigger] candidates[j]) && (v4_only ==> candidates[j] is V4))
}

/// The network holds none of the candidates.
pub open spec fn holds_none(net: IpNet, candidates: Seq<IpAddr>) -> bool {
    forall|j: int| 0 <= j < candidates.len() ==> !holds(net, #[trigger] candidates[j])
}

proof fn first_within_meaning(candidates: Seq<IpAddr>, net: IpNet)
    ensures
        match first_within(candidates, net) {
            Some(ip) => exists|k: int|
                #[trigger] is_first_within(candidates, net, k) && candidates[k] == ip,
            None => holds_none(net, candidates),
        },
    decreases candidates.len(),
{
    if candidates.len() > 0 {
        let front = candidates.drop_last();
        first_within_meaning(front, net);
        assert(forall|j: int| 0 <= j < front.len() ==> front[j] == #[trigger] candidates[j]);
        match first_within(front, net) {
            Some(ip) => {
                let k = choose|k: int| #[trigger]
                    is_first_within(front, net, k) && front[k] == ip;
                assert(is_first_within(candidates, net, k));
            },
            None => {
                if holds(net, candidates.last()) {
                    assert(is_first_within(candidates, net, candidates.len() - 1));
                }
            },
        }
    }
}

proof fn first_global_meaning(candidates: Seq<IpAddr>, v4_only: bool)
    ensures
        match first_global(candidates, v4_only) {
            Some(ip) => exists|k: int|
                #[trigger] is_first_global(candidates, v4_only, k) && candidates[k] == ip,
            None => forall|j: int|
                0 <= j < candidates.len() ==> !(is_global(#[trigger] candidates[j]) && (v4_only
                    ==> candidates[j] is V4)),
        },
    decreases candidates.len(),
{
    if candidates.len() > 0 {
        let front = candidates.drop_last();
        first_global_meaning(front, v4_only);
        assert(forall|j: int| 0 <= j < front.len() ==> front[j] == #[trigger] candidates[j]);
        match first_global(front, v4_only) {
            Some(ip) => {
                let k = choose|k: int| #[trigger]
                    is_first_global(front, v4_only, k) && front[k] == ip;
                assert(is_first_global(candidates, v4_only, k));
            },
            None => {
                if is_global(candidates.last()) && (v4_only ==> candidates.last() is V4) {
                    assert(is_first_global(candidates, v4_only, candidates.len() - 1));
                }
            },
        }
    }
}

/// The order of `cidrs` is a preference: what is picked is the first candidate
/// within some network, and no network before that one holds any candidate. An
/// address outside all of them is never picked, and nothing is picked only where
/// there is none inside.
pub proof fn pick_follows_the_networks(candidates: Seq<IpAddr>, cidrs: Seq<IpNet>)
    requires
        cidrs.len() > 0,
    ensures
        match picked(candidates, cidrs) {
            Some(ip) => exists|n: int, k: int|
                #![trigger is_first_within(candidates, cidrs[n], k)]
                {
                    &&& 0 <= n < cidrs.len()
                    &&& is_first_within(candidates, cidrs[n], k)
                    &&& candidates[k] == ip
                    &&& forall|m: int| 0 <= m < n ==> holds_none(#[trigger] cidrs[m], candidates)
                },
            None => forall|m: int|
                0 <= m < cidrs.len() ==> holds_none(#[trigger] cidrs[m], candidates),
        },
{
    first_preferred_meaning(candidates, cidrs);
}

proof fn first_preferred_meaning(candidates: Seq<IpAddr>, cidrs: Seq<IpNet>)
    ensures
        match first_preferred(candidates, cidrs) {
            Some(ip) => exists|n: int, k: int|
                #![trigger is_first_within(candidates, cidrs[n], k)]
                {
                    &&& 0 <= n < cidrs.len()
                    &&& is_first_within(candidates, cidrs[n], k)
                    &&& candidates[k] == ip
                    &&& forall|m: int| 0 <= m < n ==> holds_none(#[trigger] cidrs[m], candidates)
                },
            None => forall|m: int|
                0 <= m < cidrs.len() ==> holds_none(#[trigger] cidrs[m], candidates),
        },
    decreases cidrs.len(),
{
    if cidrs.len() > 0 {
        let front = cidrs.drop_last();
        first_preferred_meaning(candidates, front);
        assert(forall|j: int| 0 <= j < front.len() ==> front[j] == #[trigger] cidrs[j]);
        match first_preferred(candidates, front) {
            Some(ip) => {
                let (n, k) = choose|n: int, k: int|
                    #![trigger is_first_within(candidates, front[n], k)]
                    {
                        &&& 0 <= n < front.len()
                        &&& is_first_within(candidates, front[n], k)
                        &&& candidates[k] == ip
                        &&& forall|m: int|
                            0 <= m < n ==> holds_none(#[trigger] front[m], candidates)
                    };
                assert(is_first_within(candidates, cidrs[n], k));
            },
            None => {
                let n = cidrs.len() - 1;
                first_within_meaning(candidates, cidrs[n]);
                if let Some(ip) = first_within(candidates, cidrs[n]) {
                    let k = choose|k: int| #[trigger]
                        is_first_within(candidates, cidrs[n], k) && candidates[k] == ip;
                    assert(is_first_within(candidates, cidrs[n], k));
                }
            },
        }
    }
}

/// With no `cidrs` the first global address of IPv4 is picked; one of IPv6, the
/// first that is global, only where there is none of IPv4; and nothing only
/// where no candidate is global.
pub proof fn pick_without_networks_takes_a_global_address(candidates: Seq<IpAddr>)
    ensures
        match picked(candidates, Seq::empty()) {
            Some(ip) => {
                ||| exists|k: int|
                    #[trigger] is_first_global(candidates, true, k) && candidates[k] == ip
                ||| {
                    &&& exists|k: int|
                        #[trigger] is_first_global(candidates, false, k) && candidates[k] == ip
                    &&& forall|j: int|
                        0 <= j < candidates.len() ==> !(is_global(#[trigger] candidates[j])
                            && candidates[j] is V4)
                }
            },
            None => forall|j: int|
                0 <= j < candidates.len() ==> !is_global(#[trigger] candidates[j]),
        },
{
    first_global_meaning(candidates, true);
    first_global_meaning(candidates, false);
}

} // verus!
