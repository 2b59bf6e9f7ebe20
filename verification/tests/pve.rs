use pve_meta_traefik::config::Pve;
use pve_meta_traefik::pve::{addresses_of, Client, Reply, Request, Resource};
use pve_meta_traefik::value::{Number, Table, Value};

/// The value that a JSON text denotes.
fn json(text: &str) -> Value {
    from_json(&serde_json::from_str(text).unwrap())
}

fn from_json(v: &serde_json::Value) -> Value {
    match v {
        serde_json::Value::Null => Value::Null,
        serde_json::Value::Bool(b) => Value::Bool(*b),
        serde_json::Value::Number(n) => Value::Number(match (n.as_u64(), n.as_i64()) {
            (Some(u), _) => Number::Unsigned(u),
            (None, Some(i)) => Number::Negative(i),
            (None, None) => Number::Real(n.to_string()),
        }),
        serde_json::Value::String(s) => Value::Text(s.clone()),
        serde_json::Value::Array(items) => Value::List(items.iter().map(from_json).collect()),
        serde_json::Value::Object(entries) => {
            let mut table = Table::new();
            for (key, value) in entries {
                table.insert(key.clone(), from_json(value));
            }
            Value::Table(table)
        }
    }
}

/// The same value as serde_json has it, which can be compared and printed.
fn to_json(v: &Value) -> serde_json::Value {
    match v {
        Value::Null => serde_json::Value::Null,
        Value::Bool(b) => serde_json::Value::Bool(*b),
        Value::Number(Number::Unsigned(u)) => serde_json::Value::from(*u),
        Value::Number(Number::Negative(i)) => serde_json::Value::from(*i),
        Value::Number(Number::Real(s)) => serde_json::from_str(s).unwrap(),
        Value::Text(s) => serde_json::Value::String(s.clone()),
        Value::List(items) => serde_json::Value::Array(items.iter().map(to_json).collect()),
        Value::Table(table) => table_to_json(table),
    }
}

fn table_to_json(table: &Table) -> serde_json::Value {
    let mut out = serde_json::Map::new();
    for i in 0..table.len() {
        out.insert(table.key(i).clone(), to_json(table.value(i)));
    }
    serde_json::Value::Object(out)
}

fn parsed(text: &str) -> serde_json::Value {
    serde_json::from_str(text).unwrap()
}

fn texts(found: Vec<pve_meta_traefik::address::IpAddr>) -> Vec<String> {
    found.iter().map(|ip| ip.text()).collect()
}

fn pve() -> Pve {
    Pve {
        url: "https://pve.example.net:8006".to_string(),
        token_id: "traefik@pve!meta".to_string(),
        token_secret: Some("secret".to_string()),
        token_secret_file: None,
        insecure: false,
        ca_file: None,
        timeout_seconds: 10,
    }
}

fn made(pve: &Pve) -> Client {
    match Client::new(pve) {
        Ok(client) => client,
        Err(error) => panic!("{error}"),
    }
}

fn resource(tags: Option<&str>) -> Resource {
    Resource {
        vmid: 1,
        node: "n".to_string(),
        kind: "lxc".to_string(),
        status: "running".to_string(),
        name: None,
        tags: tags.map(|t| t.to_string()),
    }
}

fn asked(request: Request) -> (String, Vec<(String, String)>) {
    (request.path, request.query)
}

fn pair(key: &str, value: &str) -> (String, String) {
    (key.to_string(), value.to_string())
}

#[test]
fn tags_are_the_pieces_between_semicolons() {
    assert_eq!(resource(Some("a;;b;")).tags(), vec!["a", "b"]);
    assert_eq!(resource(Some(";10.0.0.1; x y")).tags(), vec!["10.0.0.1", " x y"]);
    assert!(resource(Some("")).tags().is_empty());
    assert!(resource(None).tags().is_empty());
}

#[test]
fn a_client_knows_where_to_ask_and_its_token() {
    let client = made(&pve());
    assert_eq!(client.base, "https://pve.example.net:8006/api2/json");
    assert_eq!(client.authorization, "PVEAPIToken=traefik@pve!meta=secret");
    assert_eq!(
        client.url("/meta/guests"),
        "https://pve.example.net:8006/api2/json/meta/guests"
    );
    let mut without = pve();
    without.token_secret = None;
    assert_eq!(made(&without).authorization, "PVEAPIToken=traefik@pve!meta=");
}

#[test]
fn a_token_that_is_no_header_value_is_refused() {
    let refused = |secret: &str| {
        let mut with = pve();
        with.token_secret = Some(secret.to_string());
        match Client::new(&with) {
            Ok(_) => None,
            Err(error) => Some(error),
        }
    };
    let message = Some("token id or secret is not a valid header value".to_string());
    for bad in ["a\nb", "\u{0}", "\u{7f}", "\r", "\u{1f}"] {
        assert_eq!(refused(bad), message, "{bad:?}");
    }
    for good in ["", "a b", "\t", "~", "\u{80}", "\u{e9}\u{1f600}"] {
        assert_eq!(refused(good), None, "{good:?}");
    }
    let mut with = pve();
    with.token_id = "x\n".to_string();
    assert!(Client::new(&with).is_err());
}

#[test]
fn a_status_of_two_hundred_and_some_is_a_success() {
    assert!(!Client::succeeded(199));
    assert!(Client::succeeded(200));
    assert!(Client::succeeded(299));
    assert!(!Client::succeeded(300));
    assert!(!Client::succeeded(0));
}

#[test]
fn a_reply_is_read_by_its_status_and_its_envelope() {
    let read = |status: u16, envelope: Result<Option<Value>, String>| {
        let reply = Reply {
            status,
            reason: Some("Why".to_string()),
            body: " said\n".to_string(),
            envelope,
        };
        match Client::read("/x", Ok(reply)) {
            Ok(data) => Ok(to_json(&data)),
            Err(error) => Err(error),
        }
    };
    assert_eq!(read(200, Ok(Some(json("[1]")))), Ok(parsed("[1]")));
    assert_eq!(read(204, Ok(None)), Ok(parsed("null")));
    assert_eq!(
        read(200, Err("expected value".to_string())),
        Err("GET /x: decoding: expected value".to_string())
    );
    assert_eq!(
        read(401, Ok(Some(json("[1]")))),
        Err("GET /x: 401 Why said".to_string())
    );
    match Client::read("/x", Err("timed out".to_string())) {
        Ok(_) => panic!("read nothing"),
        Err(error) => assert_eq!(error, "GET /x: timed out"),
    }
}

#[test]
fn requests_name_their_path_and_query() {
    assert_eq!(
        asked(Client::ask_cluster_resources()),
        ("/cluster/resources".to_string(), vec![pair("type", "vm")])
    );
    assert_eq!(
        asked(Client::ask_meta_guests_with("traefik")),
        ("/meta/guests".to_string(), vec![pair("has", "traefik")])
    );
    assert_eq!(
        asked(Client::ask_meta_view(200, "a.b")),
        (
            "/meta/guests/200".to_string(),
            vec![pair("view", "a.b"), pair("format", "json")]
        )
    );
    assert_eq!(
        asked(Client::ask_lxc_addresses("node1", 200)),
        ("/nodes/node1/lxc/200/interfaces".to_string(), vec![])
    );
    assert_eq!(
        asked(Client::ask_qemu_addresses("node1", 0)),
        (
            "/nodes/node1/qemu/0/agent/network-get-interfaces".to_string(),
            vec![]
        )
    );
}

#[test]
fn a_refusal_tells_status_reason_and_body() {
    assert_eq!(
        Client::refusal("/x", 401, Some("Unauthorized".to_string()), "\n no ticket\u{a0}\n"),
        "GET /x: 401 Unauthorized no ticket"
    );
    assert_eq!(Client::refusal("/x", 599, None, ""), "GET /x: 599  ");
}

#[test]
fn an_envelope_without_data_holds_null() {
    assert_eq!(to_json(&Client::data(None)), parsed("null"));
    assert_eq!(to_json(&Client::data(Some(json("[1]")))), parsed("[1]"));
}

#[test]
fn guests_with_the_prefix_are_named_by_vmid() {
    let rows = json(r#"[{"vmid": 3, "x": 1}, {"vmid": "4"}, {}, 5, {"vmid": -1}, {"vmid": 1.0}, {"vmid": 3}, {"vmid": 18446744073709551615}]"#);
    assert_eq!(Client::meta_guests_with(&rows), Ok(vec![3, 3, u64::MAX]));
    assert_eq!(
        Client::meta_guests_with(&json(r#"{"vmid": 3}"#)),
        Err("GET /meta/guests: not a list".to_string())
    );
}

#[test]
fn the_subtree_is_the_replys_data() {
    let reply = json(r#"{"data": {"http": {}}, "digest": "x"}"#);
    assert_eq!(to_json(&Client::meta_view(reply)), parsed(r#"{"http": {}}"#));
    assert_eq!(to_json(&Client::meta_view(json("{}"))), parsed("null"));
    assert_eq!(to_json(&Client::meta_view(json("[]"))), parsed("null"));
}

#[test]
fn a_container_reports_its_interfaces() {
    let reply = json(
        r#"[{"name": "lo", "inet": "127.0.0.1/8", "inet6": "::1/128"},
            {"name": "eth0", "inet6": "fe80::1/64", "inet": "10.0.0.5/24"},
            {"inet": 1}, {"inet": "dhcp"}, 7, {"inet": "10.0.0.6"}, {"inet": ""}]"#,
    );
    assert_eq!(
        texts(Client::lxc_addresses(&reply)),
        vec!["127.0.0.1", "::1", "10.0.0.5", "fe80::1", "10.0.0.6"]
    );
    assert!(Client::lxc_addresses(&json("null")).is_empty());
}

#[test]
fn an_agent_reports_its_interfaces() {
    let reply = json(
        r#"{"result": [{"name": "lo", "ip-addresses": [{"ip-address": "127.0.0.1", "prefix": 8}]},
                       {"name": "x"}, 3,
                       {"ip-addresses": [{"ip-address": "10.0.0.5"}, {}, {"ip-address": "10.0.0.6/24"}, {"ip-address": "fd00::5"}]}]}"#,
    );
    assert_eq!(
        texts(Client::qemu_addresses(&reply)),
        vec!["127.0.0.1", "10.0.0.5", "fd00::5"]
    );
    assert!(Client::qemu_addresses(&json(r#"[{"ip-addresses": []}]"#)).is_empty());
    assert!(Client::qemu_addresses(&json(r#"{"result": {}}"#)).is_empty());
}

#[test]
fn tags_that_are_addresses_count() {
    let tagged = addresses_of(&resource(Some("web;10.0.0.5;prod;fd00::5")).tags());
    assert_eq!(texts(tagged), vec!["10.0.0.5", "fd00::5"]);
}
