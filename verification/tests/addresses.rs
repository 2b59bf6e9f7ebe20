use pve_meta_traefik::address::{bracketed, pick, IpAddr, IpNet, Ipv4Net, Ipv6Net};
use pve_meta_traefik::guest::resolve;
use pve_meta_traefik::pve::{addresses_of, known_addresses};

fn ips(list: &[&str]) -> Vec<IpAddr> {
    let texts: Vec<String> = list.iter().map(|s| s.to_string()).collect();
    addresses_of(&texts)
}

fn ip(text: &str) -> IpAddr {
    ips(&[text])[0]
}

fn net(text: &str) -> IpNet {
    match text.parse::<ipnet::IpNet>().unwrap() {
        ipnet::IpNet::V4(n) => {
            IpNet::V4(Ipv4Net::new(u32::from(n.addr()), n.prefix_len()).unwrap())
        }
        ipnet::IpNet::V6(n) => {
            IpNet::V6(Ipv6Net::new(u128::from(n.addr()), n.prefix_len()).unwrap())
        }
    }
}

#[test]
fn pick_prefers_the_cidr_order() {
    let cidrs = vec![net("10.10.10.0/23"), net("172.17.0.0/16")];
    assert_eq!(
        pick(&ips(&["172.17.0.2", "10.10.10.5"]), &cidrs),
        Some(ip("10.10.10.5"))
    );
    assert_eq!(
        pick(&ips(&["172.17.0.2"]), &cidrs),
        Some(ip("172.17.0.2"))
    );
    assert_eq!(pick(&ips(&["192.168.1.1"]), &cidrs), None);
}

#[test]
fn pick_without_cidrs_takes_the_first_global_ipv4() {
    assert_eq!(
        pick(&ips(&["127.0.0.1", "fe80::1", "fd00::1", "10.0.0.1"]), &[]),
        Some(ip("10.0.0.1"))
    );
    assert_eq!(
        pick(&ips(&["127.0.0.1", "fd00::1"]), &[]),
        Some(ip("fd00::1"))
    );
    assert_eq!(pick(&ips(&["127.0.0.1"]), &[]), None);
}

#[test]
fn texts_denote_addresses_by_their_bits() {
    assert_eq!(ip("10.0.0.5"), IpAddr::V4(0x0A00_0005));
    assert_eq!(ip("255.255.255.255"), IpAddr::V4(u32::MAX));
    assert_eq!(ip("fd00::5"), IpAddr::V6(0xFD00 << 112 | 5));
    assert_eq!(
        ips(&["10.0.0.256", "10.0.0", "", "x", "10.0.0.1/24", " 10.0.0.1", "010.0.0.1", "::1"]),
        vec![IpAddr::V6(1)]
    );
    let parsed = vec![None, Some(IpAddr::V4(2)), None, Some(IpAddr::V6(1)), None];
    assert_eq!(
        known_addresses(&parsed),
        vec![IpAddr::V4(2), IpAddr::V6(1)]
    );
}

#[test]
fn addresses_have_their_notation() {
    assert_eq!(ip("192.168.0.10").text(), "192.168.0.10");
    assert_eq!(ip("0.0.0.0").text(), "0.0.0.0");
    assert_eq!(ip("FD00:0:0:0:1:0:0:5").text(), "fd00::1:0:0:5");
    assert_eq!(ip("::ffff:1.2.3.4").text(), "::ffff:1.2.3.4");
    assert_eq!(ip("192.168.0.10").host(), "192.168.0.10");
    assert_eq!(ip("fd00::5").host(), "[fd00::5]");
    assert_eq!(bracketed("::1"), "[::1]");
}

#[test]
fn networks_hold_what_agrees_in_their_leading_bits() {
    let n = net("10.10.10.0/23");
    assert!(n.contains(&ip("10.10.10.0")));
    assert!(n.contains(&ip("10.10.11.255")));
    assert!(!n.contains(&ip("10.10.12.0")));
    assert!(!n.contains(&ip("10.10.9.255")));
    assert!(!n.contains(&ip("fd00::1")));
    assert!(net("0.0.0.0/0").contains(&ip("203.0.113.9")));
    assert!(!net("10.0.0.1/32").contains(&ip("10.0.0.2")));
    assert!(net("10.0.0.77/24").contains(&ip("10.0.0.1")));
    let n = net("fd00::/8");
    assert!(n.contains(&ip("fdff::1")));
    assert!(!n.contains(&ip("fe00::1")));
    assert!(!n.contains(&ip("10.0.0.1")));
    assert!(net("::/0").contains(&ip("2001:db8::1")));
    assert!(!net("fd00::1/128").contains(&ip("fd00::2")));
}

#[test]
fn networks_have_no_more_bits_than_an_address() {
    assert!(Ipv4Net::new(0, 32).is_some());
    assert!(Ipv4Net::new(0, 33).is_none());
    assert!(Ipv6Net::new(0, 128).is_some());
    assert!(Ipv6Net::new(0, 129).is_none());
}

#[test]
fn only_global_addresses_count_without_networks() {
    for text in ["127.1.2.3", "169.254.0.1", "0.0.0.0", "::1", "fe80::1", "febf::1", "::"] {
        assert_eq!(pick(&ips(&[text]), &[]), None, "{text}");
    }
    for text in ["128.0.0.1", "169.255.0.1", "0.0.0.1", "::2", "fec0::1", "10.0.0.1"] {
        assert_eq!(pick(&ips(&[text]), &[]), Some(ip(text)), "{text}");
    }
}

#[test]
fn the_first_candidate_in_the_first_network_is_picked() {
    let cidrs = vec![net("10.0.0.0/8"), net("fd00::/8")];
    assert_eq!(
        pick(&ips(&["fd00::1", "10.0.0.2", "10.0.0.1"]), &cidrs),
        Some(ip("10.0.0.2"))
    );
    assert_eq!(
        pick(&ips(&["127.0.0.1"]), &[net("127.0.0.0/8")]),
        Some(ip("127.0.0.1"))
    );
}

#[test]
fn what_the_guest_reports_goes_before_its_tags() {
    let cidrs = vec![net("10.0.0.0/8")];
    let live = ips(&["172.17.0.2", "10.0.0.1"]);
    let tagged = ips(&["10.0.0.9"]);
    assert_eq!(resolve(&live, &tagged, &cidrs), Some(ip("10.0.0.1")));
    let live = ips(&["172.17.0.2"]);
    assert_eq!(resolve(&live, &tagged, &cidrs), Some(ip("10.0.0.9")));
    assert_eq!(resolve(&live, &vec![], &cidrs), None);
    assert_eq!(resolve(&live, &tagged, &vec![]), Some(ip("172.17.0.2")));
}
