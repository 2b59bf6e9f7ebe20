use pve_meta_traefik::address::{IpAddr, IpNet, Ipv4Net};
use pve_meta_traefik::config::{Config, Pve};
use pve_meta_traefik::guest::{after_addresses, after_subtree, begin, finish_guest};
use pve_meta_traefik::guest::{no_address_message, open_given, open_subtree};
use pve_meta_traefik::guest::{Opened, Outcome, Source, Step};
use pve_meta_traefik::problem::bad_port_message;
use pve_meta_traefik::pve::{addresses_of, Resource};
use pve_meta_traefik::value::{Number, Table, Value};

/// The value that a JSON text denotes.
fn json(text: &str) -> Value {
    from_json(&serde_json::from_str(text).unwrap())
}

fn from_json(v: &serde_json::Value) -> Value {
    match v {
        serde_json::Value::Null => Value::Null,
        serde_json::Value::Bool(b) => Value::Bool(*b),
        serde_json::Value::Number(n) => Value::Number(match (n.as_u64(), n.as_i64()) {
            (Some(u), _) => Number::Unsigned(u),
            (None, Some(i)) => Number::Negative(i),
            (None, None) => Number::Real(n.to_string()),
        }),
        serde_json::Value::String(s) => Value::Text(s.clone()),
        serde_json::Value::Array(items) => Value::List(items.iter().map(from_json).collect()),
        serde_json::Value::Object(entries) => {
            let mut table = Table::new();
            for (key, value) in entries {
                table.insert(key.clone(), from_json(value));
            }
            Value::Table(table)
        }
    }
}

/// The same value as serde_json has it, which can be compared and printed.
fn to_json(v: &Value) -> serde_json::Value {
    match v {
        Value::Null => serde_json::Value::Null,
        Value::Bool(b) => serde_json::Value::Bool(*b),
        Value::Number(Number::Unsigned(u)) => serde_json::Value::from(*u),
        Value::Number(Number::Negative(i)) => serde_json::Value::from(*i),
        Value::Number(Number::Real(s)) => serde_json::from_str(s).unwrap(),
        Value::Text(s) => serde_json::Value::String(s.clone()),
        Value::List(items) => serde_json::Value::Array(items.iter().map(to_json).collect()),
        Value::Table(table) => table_to_json(table),
    }
}

fn table_to_json(table: &Table) -> serde_json::Value {
    let mut out = serde_json::Map::new();
    for i in 0..table.len() {
        out.insert(table.key(i).clone(), to_json(table.value(i)));
    }
    serde_json::Value::Object(out)
}

fn parsed(text: &str) -> serde_json::Value {
    serde_json::from_str(text).unwrap()
}

fn map(text: &str) -> Table {
    match json(text) {
        Value::Table(table) => table,
        _ => panic!("not a table: {text}"),
    }
}

fn ips(list: &[&str]) -> Vec<IpAddr> {
    let texts: Vec<String> = list.iter().map(|s| s.to_string()).collect();
    addresses_of(&texts)
}

fn config() -> Config {
    Config {
        pve: Pve {
            url: "https://pve".to_string(),
            token_id: "t".to_string(),
            token_secret: Some("s".to_string()),
            token_secret_file: None,
            insecure: false,
            ca_file: None,
            timeout_seconds: 10,
        },
        prefix: "traefik".to_string(),
        cidrs: vec![IpNet::V4(Ipv4Net::new(0x0A00_0000, 8).unwrap())],
        listen: "127.0.0.1:8087".to_string(),
        cache_ttl_seconds: 0,
    }
}

fn resource(kind: &str, status: &str, tags: Option<&str>) -> Resource {
    Resource {
        vmid: 200,
        node: "n".to_string(),
        kind: kind.to_string(),
        status: status.to_string(),
        name: Some("ct".to_string()),
        tags: tags.map(|t| t.to_string()),
    }
}

/// An outcome as a text.
fn told(outcome: &Outcome) -> String {
    match outcome {
        Outcome::Nothing => "nothing".to_string(),
        Outcome::Share(share) => format!("share {}", table_to_json(share)),
        Outcome::Skip(reason) => format!("skip {reason}"),
        Outcome::Fail(error) => format!("fail {error}"),
    }
}

/// A step as a text.
fn step(step: &Step) -> String {
    match step {
        Step::ReadSubtree => "read".to_string(),
        Step::AskAddresses { source, subtree } => {
            format!("ask {source:?} {}", table_to_json(subtree))
        }
        Step::Done(outcome) => told(outcome),
    }
}

fn subtree(kind: &str, text: &str) -> String {
    step(&after_subtree(
        &resource(kind, "running", None),
        &config(),
        Ok(json(text)),
    ))
}

#[test]
fn only_a_running_guest_is_read() {
    assert_eq!(step(&begin(&resource("lxc", "running", None))), "read");
    assert_eq!(step(&begin(&resource("lxc", "stopped", None))), "nothing");
    assert_eq!(step(&begin(&resource("lxc", "Running", None))), "nothing");
    assert_eq!(step(&begin(&resource("lxc", "", None))), "nothing");
}

#[test]
fn a_subtree_that_cannot_be_read_fails() {
    let next = after_subtree(
        &resource("lxc", "running", None),
        &config(),
        Err("GET /meta/guests/200: 500  ".to_string()),
    );
    assert_eq!(step(&next), "fail GET /meta/guests/200: 500  ");
}

#[test]
fn a_subtree_that_is_no_map_is_skipped() {
    assert_eq!(subtree("lxc", "[]"), "skip 'traefik' is not a map");
    assert_eq!(subtree("lxc", "null"), "skip 'traefik' is not a map");
}

#[test]
fn a_given_address_is_trusted_and_taken_out() {
    assert_eq!(
        subtree("lxc", r#"{"ip": "192.0.2.7", "x": "${ip}"}"#),
        r#"share {"x":"192.0.2.7"}"#
    );
    assert_eq!(
        subtree("lxc", r#"{"ip": "127.0.0.1", "x": "${ip}"}"#),
        r#"share {"x":"127.0.0.1"}"#
    );
    assert_eq!(
        subtree("lxc", r#"{"ip": "a\"b"}"#),
        r#"skip 'ip' "a\"b" is not an address"#
    );
    assert_eq!(subtree("lxc", r#"{"ip": 7}"#), "skip 'ip' must be a string");
}

#[test]
fn an_address_read_by_others_decides() {
    let named = |parsed: Option<IpAddr>| {
        match open_given(map(r#"{"a": 1}"#), "10.0.0.1", parsed) {
            Opened::Skip(reason) => reason,
            Opened::Given { subtree, ip } => format!("{} {}", table_to_json(&subtree), ip.text()),
            Opened::Resolve { .. } => "resolve".to_string(),
        }
    };
    assert_eq!(named(Some(IpAddr::V4(1))), r#"{"a":1} 0.0.0.1"#);
    assert_eq!(named(None), r#"'ip' "10.0.0.1" is not an address"#);
}

#[test]
fn quoted_texts_are_put_into_messages() {
    assert_eq!(no_address_message("\"x\""), "'ip' \"x\" is not an address");
    assert_eq!(bad_port_message("\"x\""), "'port' \"x\" is not a port number");
}

#[test]
fn only_the_key_ip_gives_the_address() {
    match open_subtree(json(r#"{"IP": "10.0.0.1", "ip": null, "jp": 1}"#), "p") {
        Opened::Resolve { subtree } => {
            assert_eq!(table_to_json(&subtree), parsed(r#"{"IP": "10.0.0.1", "jp": 1}"#))
        }
        _ => panic!("not to be resolved"),
    }
}

#[test]
fn who_knows_the_addresses_depends_on_the_kind() {
    assert_eq!(subtree("lxc", r#"{"x": 1}"#), r#"ask Container {"x":1}"#);
    assert_eq!(subtree("qemu", r#"{"ip": null}"#), "ask Agent {}");
    assert_eq!(subtree("other", r#"{"x": 1}"#), r#"share {"x":1}"#);
    assert_eq!(
        subtree("other", r#"{"x": "${ip}"}"#),
        "skip needs an address and none could be resolved"
    );
    assert_eq!(format!("{:?}", Source::Agent), "Agent");
}

#[test]
fn the_reported_address_is_filled_in() {
    let of = |tags: Option<&str>, reply: Result<Vec<IpAddr>, String>| {
        told(&after_addresses(
            &resource("qemu", "running", tags),
            &config(),
            map(r#"{"x": "${ip}"}"#),
            reply,
        ))
    };
    assert_eq!(
        of(Some("10.0.0.9"), Ok(ips(&["127.0.0.1", "172.17.0.1", "10.0.0.5"]))),
        r#"share {"x":"10.0.0.5"}"#
    );
    assert_eq!(
        of(Some("web;10.0.0.9"), Ok(ips(&["172.17.0.1"]))),
        r#"share {"x":"10.0.0.9"}"#
    );
    assert_eq!(
        of(Some("10.0.0.9"), Err("no agent".to_string())),
        r#"share {"x":"10.0.0.9"}"#
    );
    assert_eq!(
        of(None, Err("no agent".to_string())),
        "skip needs an address and none could be resolved"
    );
}

#[test]
fn a_container_that_cannot_be_asked_fails_the_poll() {
    let outcome = after_addresses(
        &resource("lxc", "running", Some("10.0.0.9")),
        &config(),
        map(r#"{"x": 1}"#),
        Err("GET /nodes/n/lxc/200/interfaces: 500  ".to_string()),
    );
    assert_eq!(told(&outcome), "fail GET /nodes/n/lxc/200/interfaces: 500  ");
    let outcome = after_addresses(
        &resource("lxc", "running", Some("10.0.0.9")),
        &config(),
        map(r#"{"x": "${ip}"}"#),
        Ok(vec![]),
    );
    assert_eq!(told(&outcome), r#"share {"x":"10.0.0.9"}"#);
}

#[test]
fn a_guest_without_a_name_goes_by_its_vmid() {
    let mut guest = resource("lxc", "running", None);
    guest.name = None;
    assert_eq!(
        told(&finish_guest(&guest, map(r#"{"x": "${name}"}"#), None)),
        r#"share {"x":"200"}"#
    );
    assert_eq!(
        told(&finish_guest(
            &resource("lxc", "running", None),
            map(r#"{"x": "${name}"}"#),
            None
        )),
        r#"share {"x":"ct"}"#
    );
}
