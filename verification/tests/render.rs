use pve_meta_traefik::address::IpAddr;
use pve_meta_traefik::pve::addresses_of;
use pve_meta_traefik::render::{render, Guest};
use pve_meta_traefik::value::{Number, Table, Value};

/// The value that a JSON text denotes.
fn json(text: &str) -> Value {
    from_json(&serde_json::from_str(text).unwrap())
}

fn from_json(v: &serde_json::Value) -> Value {
    match v {
        serde_json::Value::Null => Value::Null,
        serde_json::Value::Bool(b) => Value::Bool(*b),
        serde_json::Value::Number(n) => Value::Number(match (n.as_u64(), n.as_i64()) {
            (Some(u), _) => Number::Unsigned(u),
            (None, Some(i)) => Number::Negative(i),
            (None, None) => Number::Real(n.to_string()),
        }),
        serde_json::Value::String(s) => Value::Text(s.clone()),
        serde_json::Value::Array(items) => Value::List(items.iter().map(from_json).collect()),
        serde_json::Value::Object(entries) => {
            let mut table = Table::new();
            for (key, value) in entries {
                table.insert(key.clone(), from_json(value));
            }
            Value::Table(table)
        }
    }
}

/// The same value as serde_json has it, which can be compared and printed.
fn to_json(v: &Value) -> serde_json::Value {
    match v {
        Value::Null => serde_json::Value::Null,
        Value::Bool(b) => serde_json::Value::Bool(*b),
        Value::Number(Number::Unsigned(u)) => serde_json::Value::from(*u),
        Value::Number(Number::Negative(i)) => serde_json::Value::from(*i),
        Value::Number(Number::Real(s)) => serde_json::from_str(s).unwrap(),
        Value::Text(s) => serde_json::Value::String(s.clone()),
        Value::List(items) => serde_json::Value::Array(items.iter().map(to_json).collect()),
        Value::Table(table) => table_to_json(table),
    }
}

fn table_to_json(table: &Table) -> serde_json::Value {
    let mut out = serde_json::Map::new();
    for i in 0..table.len() {
        out.insert(table.key(i).clone(), to_json(table.value(i)));
    }
    serde_json::Value::Object(out)
}

fn parsed(text: &str) -> serde_json::Value {
    serde_json::from_str(text).unwrap()
}

fn map(text: &str) -> Table {
    match json(text) {
        Value::Table(table) => table,
        _ => panic!("not a table: {text}"),
    }
}

fn ip(text: &str) -> IpAddr {
    addresses_of(&vec![text.to_string()])[0]
}

fn guest(address: Option<&str>) -> Guest {
    Guest {
        vmid: 200,
        name: "ct".to_string(),
        ip: address.map(ip),
    }
}

/// The rendered document.
fn done(text: &str, guest: &Guest) -> serde_json::Value {
    match render(map(text), guest) {
        Ok(doc) => table_to_json(&doc),
        Err(problem) => panic!("{}", problem.message()),
    }
}

/// What is said of a subtree that cannot be rendered.
fn refused(text: &str, guest: &Guest) -> String {
    match render(map(text), guest) {
        Ok(doc) => panic!("rendered: {}", table_to_json(&doc)),
        Err(problem) => problem.message(),
    }
}

#[test]
fn port_and_scheme_become_a_url() {
    let out = done(
        r#"{"http": {"services": {"a": {"loadBalancer": {"servers": [{"port": 3000}, {"port": "9090", "scheme": "https"}]}}}}}"#,
        &guest(Some("10.0.0.5")),
    );
    assert_eq!(
        out["http"]["services"]["a"]["loadBalancer"]["servers"],
        parsed(r#"[{"url": "http://10.0.0.5:3000"}, {"url": "https://10.0.0.5:9090"}]"#)
    );
}

#[test]
fn tcp_gets_an_address_and_ipv6_is_bracketed() {
    let out = done(
        r#"{"tcp": {"services": {"db": {"loadbalancer": {"servers": [{"port": 5432}]}}}}}"#,
        &guest(Some("fd00::5")),
    );
    assert_eq!(
        out["tcp"]["services"]["db"]["loadbalancer"]["servers"],
        parsed(r#"[{"address": "[fd00::5]:5432"}]"#)
    );
}

#[test]
fn urls_and_other_options_are_untouched() {
    let input = r#"{"http": {"services": {"a": {"loadBalancer": {"passHostHeader": false, "servers": [{"url": "http://x:1"}]}}}}}"#;
    let out = done(input, &guest(None));
    assert_eq!(out, parsed(input));
}

#[test]
fn placeholders() {
    let out = done(
        r#"{"http": {"routers": {"r": {"rule": "Host(`${name}-${vmid}`)", "service": "s"}}, "services": {"s": {"loadBalancer": {"servers": [{"url": "http://${ip}:80"}]}}}}}"#,
        &guest(Some("10.0.0.5")),
    );
    assert_eq!(out["http"]["routers"]["r"]["rule"], "Host(`ct-200`)");
    assert_eq!(
        out["http"]["services"]["s"]["loadBalancer"]["servers"][0]["url"],
        "http://10.0.0.5:80"
    );
}

#[test]
fn needing_an_address_without_one_fails() {
    let err = refused(
        r#"{"http": {"services": {"a": {"loadBalancer": {"servers": [{"port": 1}]}}}}}"#,
        &guest(None),
    );
    assert!(err.contains("http.services.a"), "{err}");
    assert_eq!(
        err,
        "http.services.a: needs an address and none could be resolved"
    );
    let err = refused(r#"{"x": "${ip}"}"#, &guest(None));
    assert!(err.contains("address"), "{err}");
    assert_eq!(err, "needs an address and none could be resolved");
}

#[test]
fn a_server_without_port_fails() {
    let err = refused(
        r#"{"http": {"services": {"a": {"loadBalancer": {"servers": [{}]}}}}}"#,
        &guest(Some("10.0.0.5")),
    );
    assert!(err.contains("neither 'url' nor 'port'"), "{err}");
    let err = refused(
        r#"{"udp": {"services": {"a": {"loadBalancer": {"servers": [{}]}}}}}"#,
        &guest(Some("10.0.0.5")),
    );
    assert_eq!(
        err,
        "udp.services.a: server has neither 'address' nor 'port'"
    );
}

#[test]
fn port_on_a_router_makes_its_service() {
    let out = done(
        r#"{"http": {"routers": {"sonarr": {"rule": "Host(`s`)", "middlewares": ["auth@file"], "port": 8989}}}}"#,
        &guest(Some("10.0.0.5")),
    );
    assert_eq!(
        out["http"]["routers"]["sonarr"],
        parsed(r#"{"rule": "Host(`s`)", "middlewares": ["auth@file"], "service": "sonarr"}"#)
    );
    assert_eq!(
        out["http"]["services"]["sonarr"],
        parsed(r#"{"loadBalancer": {"servers": [{"url": "http://10.0.0.5:8989"}]}}"#)
    );
}

#[test]
fn port_on_a_router_honours_its_service_name_and_scheme() {
    let out = done(
        r#"{"http": {"routers": {"r": {"rule": "x", "service": "backend", "port": "8443", "scheme": "https"}},
                     "services": {"other": {"loadBalancer": {"servers": [{"url": "http://x:1"}]}}}}}"#,
        &guest(Some("10.0.0.5")),
    );
    assert_eq!(out["http"]["routers"]["r"]["service"], "backend");
    assert!(out["http"]["routers"]["r"].get("port").is_none());
    assert_eq!(
        out["http"]["services"]["backend"]["loadBalancer"]["servers"],
        parsed(r#"[{"url": "https://10.0.0.5:8443"}]"#)
    );
    assert_eq!(
        out["http"]["services"]["other"]["loadBalancer"]["servers"][0]["url"],
        "http://x:1"
    );
}

#[test]
fn port_on_a_tcp_router_builds_an_address() {
    let out = done(
        r#"{"tcp": {"routers": {"db": {"rule": "HostSNI(`*`)", "port": 5432}}}}"#,
        &guest(Some("10.0.0.5")),
    );
    assert_eq!(
        out["tcp"]["services"]["db"]["loadBalancer"]["servers"],
        parsed(r#"[{"address": "10.0.0.5:5432"}]"#)
    );
    let err = refused(
        r#"{"tcp": {"routers": {"db": {"rule": "x", "port": 5432, "scheme": "https"}}}}"#,
        &guest(Some("10.0.0.5")),
    );
    assert!(err.contains("tcp.routers.db"), "{err}");
    assert_eq!(
        err,
        "tcp.routers.db: 'scheme' has no meaning for a TCP or UDP router"
    );
}

#[test]
fn port_on_a_router_and_an_explicit_service_conflict() {
    let err = refused(
        r#"{"http": {"routers": {"a": {"rule": "x", "port": 80}},
                     "services": {"a": {"loadBalancer": {"servers": [{"url": "http://x:1"}]}}}}}"#,
        &guest(Some("10.0.0.5")),
    );
    assert!(err.contains("also declared"), "{err}");
    assert_eq!(
        err,
        "http.routers: 'port' would define service 'a', which is also declared under http.services; use one or the other"
    );
    let err = refused(
        r#"{"http": {"routers": {"a": {"rule": "x", "port": "eighty"}}}}"#,
        &guest(Some("10.0.0.5")),
    );
    assert!(err.contains("http.routers.a"), "{err}");
    assert_eq!(err, "http.routers.a: 'port' \"eighty\" is not a port number");
}

#[test]
fn a_port_is_the_same_as_its_service_spelled_out() {
    let short = r#"{"http": {"routers": {"grafana": {"rule": "Host(`grafana.example.net`)", "middlewares": ["auth@file"], "port": 3000}}}}"#;
    let long = r#"{"http": {"routers": {"grafana": {"rule": "Host(`grafana.example.net`)", "middlewares": ["auth@file"], "service": "grafana"}},
                            "services": {"grafana": {"loadBalancer": {"servers": [{"port": 3000}]}}}}}"#;
    let address = guest(Some("10.0.0.5"));
    assert_eq!(done(short, &address), done(long, &address));
    let short = r#"{"tcp": {"routers": {"db": {"rule": "HostSNI(`${name}`)", "service": "pg", "port": "${vmid}"}}, "services": {"x": {}}}}"#;
    let long = r#"{"tcp": {"routers": {"db": {"rule": "HostSNI(`${name}`)", "service": "pg"}},
                           "services": {"pg": {"loadBalancer": {"servers": [{"port": "${vmid}"}]}}, "x": {}}}}"#;
    assert_eq!(done(short, &address), done(long, &address));
    assert_eq!(
        done(short, &address)["tcp"]["services"]["pg"]["loadBalancer"]["servers"][0]["address"],
        "10.0.0.5:200"
    );
}

#[test]
fn the_case_of_keys_does_not_matter() {
    let out = done(
        r#"{"HTTP": {"Routers": {"R": {"Port": 80, "Service": "S"}}, "SERVICES": {"T": {"LoadBalancer": {"Servers": [{"URL": "http://x"}, {"PORT": 1, "Scheme": "h2c"}]}}}}}"#,
        &guest(Some("10.0.0.5")),
    );
    assert_eq!(
        out,
        parsed(
            r#"{"HTTP": {"Routers": {"R": {"Service": "S"}},
                "SERVICES": {"S": {"loadBalancer": {"servers": [{"url": "http://10.0.0.5:80"}]}},
                             "T": {"LoadBalancer": {"Servers": [{"URL": "http://x"}, {"url": "h2c://10.0.0.5:1"}]}}}}}"#
        )
    );
    let err = refused(
        r#"{"http": {"routers": {"web": {"port": 80}}, "services": {"WEB": {}}}}"#,
        &guest(Some("10.0.0.5")),
    );
    assert!(err.contains("service 'web', which is also declared"), "{err}");
}

#[test]
fn two_ports_for_one_service_are_refused() {
    let err = refused(
        r#"{"udp": {"routers": {"a": {"port": 1, "service": "S"}, "b": {"port": 2, "service": "s"}}}}"#,
        &guest(Some("10.0.0.5")),
    );
    assert_eq!(
        err,
        "udp.routers: 'port' would define service 's', which is also declared under udp.services; use one or the other"
    );
}

#[test]
fn a_plain_configuration_renders_to_itself() {
    let input = r#"{"http": {"middlewares": {"m": {"headers": {"n": -1, "f": 1.5, "b": true, "z": null}}},
                             "routers": {"r": {"rule": "PathPrefix(`/`)", "service": "s", "priority": 7}},
                             "services": {"s": {"loadBalancer": {"servers": [{"url": "http://x:1", "weight": 2}]}}, "w": {"weighted": {"services": []}}}},
                    "tcp": {"services": {"d": {"loadBalancer": {"servers": [{"address": "x:1"}]}}}},
                    "udp": "not a map",
                    "tls": {"options": {"default": {"minVersion": "VersionTLS12"}}}}"#;
    assert_eq!(done(input, &guest(None)), parsed(input));
    assert_eq!(done(input, &guest(Some("fd00::5"))), parsed(input));
}

#[test]
fn what_is_beside_routers_and_services_is_only_filled() {
    let out = done(
        r#"{"http": {"routers": {"r": {"port": 80}}, "middlewares": {"m": ["${name}", 1, "${ip}/${vmid}/${nope}"]}}, "${name}": "${name}${name}"}"#,
        &guest(Some("10.0.0.5")),
    );
    assert_eq!(
        out["http"]["middlewares"]["m"],
        parsed(r#"["ct", 1, "10.0.0.5/200/${nope}"]"#)
    );
    assert_eq!(out["${name}"], "ctct");
}

#[test]
fn completed_servers_keep_their_other_options() {
    let out = done(
        r#"{"http": {"services": {"a": {"loadBalancer": {"sticky": {}, "servers": [{"port": 80, "weight": 3, "preservePath": true}]}}}}}"#,
        &guest(Some("10.0.0.5")),
    );
    assert_eq!(
        out["http"]["services"]["a"]["loadBalancer"],
        parsed(
            r#"{"sticky": {}, "servers": [{"url": "http://10.0.0.5:80", "weight": 3, "preservePath": true}]}"#
        )
    );
}

#[test]
fn every_problem_with_a_server_is_told() {
    let address = guest(Some("10.0.0.5"));
    let of = |section: &str, server: &str| {
        let text = format!(
            r#"{{"{section}": {{"services": {{"a": {{"loadBalancer": {{"servers": [{server}]}}}}}}}}}}"#
        );
        refused(&text, &address)
    };
    assert_eq!(of("http", "1"), "http.services.a: server entry is not a map");
    assert_eq!(
        of("http", r#"{"port": [80]}"#),
        "http.services.a: 'port' must be a number"
    );
    assert_eq!(
        of("tcp", r#"{"port": 65536}"#),
        "tcp.services.a: 'port' \"65536\" is not a port number"
    );
    assert_eq!(
        of("tcp", r#"{"port": -1}"#),
        "tcp.services.a: 'port' \"-1\" is not a port number"
    );
    assert_eq!(
        of("tcp", r#"{"port": 80.5}"#),
        "tcp.services.a: 'port' \"80.5\" is not a port number"
    );
    assert_eq!(
        of("tcp", r#"{"port": "a\"\n"}"#),
        "tcp.services.a: 'port' \"a\\\"\\n\" is not a port number"
    );
    assert_eq!(
        of("http", r#"{"port": 80, "scheme": 1}"#),
        "http.services.a: 'scheme' must be a string"
    );
    assert_eq!(
        of("udp", r#"{"port": 80, "scheme": "x"}"#),
        "udp.services.a: 'scheme' has no meaning for a TCP or UDP server"
    );
}

#[test]
fn every_problem_with_a_router_is_told() {
    let address = guest(Some("10.0.0.5"));
    let of = |router: &str| {
        let text = format!(r#"{{"http": {{"routers": {{"a": {router}}}}}}}"#);
        refused(&text, &address)
    };
    assert_eq!(
        of(r#"{"port": null}"#),
        "http.routers.a: 'port' must be a number"
    );
    assert_eq!(
        of(r#"{"port": 70000}"#),
        "http.routers.a: 'port' \"70000\" is not a port number"
    );
    assert_eq!(
        of(r#"{"port": 80, "service": ""}"#),
        "http.routers.a: 'service' must be a name"
    );
    assert_eq!(
        of(r#"{"port": 80, "service": 4}"#),
        "http.routers.a: 'service' must be a name"
    );
    assert_eq!(
        refused(
            r#"{"http": {"routers": {"a": {"port": 80}}, "services": []}}"#,
            &address
        ),
        "http.services is not a map"
    );
}

#[test]
fn the_first_problem_decides() {
    let err = refused(
        r#"{"tcp": {"routers": {"b": {"port": "x"}}}, "http": {"services": {"b": {"loadBalancer": {"servers": [{}]}}, "a": {"loadBalancer": {"servers": [{"url": "u"}, 1, {}]}}}}}"#,
        &guest(Some("10.0.0.5")),
    );
    assert_eq!(err, "http.services.a: server entry is not a map");
}

#[test]
fn ports_may_have_leading_zeros_and_a_plus_sign() {
    let out = done(
        r#"{"http": {"services": {"a": {"loadBalancer": {"servers": [{"port": "+0080"}, {"port": "65535"}, {"port": 0}]}}}}}"#,
        &guest(Some("10.0.0.5")),
    );
    assert_eq!(
        out["http"]["services"]["a"]["loadBalancer"]["servers"],
        parsed(
            r#"[{"url": "http://10.0.0.5:+0080"}, {"url": "http://10.0.0.5:65535"}, {"url": "http://10.0.0.5:0"}]"#
        )
    );
}

#[test]
fn ipv6_stands_without_brackets_in_texts() {
    let out = done(r#"{"x": "${ip}"}"#, &guest(Some("FD00:0:0::5")));
    assert_eq!(out["x"], "fd00::5");
}

#[test]
fn what_was_rendered_renders_to_itself() {
    let once = done(
        r#"{"http": {"routers": {"r": {"port": 80, "scheme": "https"}}, "services": {"s": {"loadBalancer": {"servers": [{"port": 1}]}}}}, "x": "${ip}"}"#,
        &guest(Some("fd00::5")),
    );
    assert_eq!(done(&once.to_string(), &guest(None)), once);
    assert_eq!(
        once["http"]["services"]["r"]["loadBalancer"]["servers"][0],
        parsed(r#"{"url": "https://[fd00::5]:80"}"#)
    );
}

#[test]
fn a_guest_with_an_address_lacks_none() {
    let text = r#"{"tcp": {"services": {"s": {"loadBalancer": {"servers": [{"port": 1}]}}}}, "x": "${ip}"}"#;
    assert_eq!(
        refused(text, &guest(None)),
        "needs an address and none could be resolved"
    );
    assert_eq!(done(text, &guest(Some("0.0.0.0")))["x"], "0.0.0.0");
}

#[test]
fn no_spelling_of_port_or_scheme_is_left() {
    let out = done(
        r#"{"http": {"routers": {"r": {"Port": 81, "port": 82, "SCHEME": "https", "scheme": "http", "rule": "x"}},
                     "services": {"s": {"loadBalancer": {"servers": [{"Port": 80, "port": 80}, {"PORT": 1, "Scheme": "h2c", "scheme": "x", "weight": 1}]}}}}}"#,
        &guest(Some("10.0.0.5")),
    );
    assert_eq!(
        out["http"]["services"]["s"]["loadBalancer"]["servers"],
        parsed(r#"[{"url": "http://10.0.0.5:80"}, {"url": "h2c://10.0.0.5:1", "weight": 1}]"#)
    );
    assert_eq!(
        out["http"]["routers"]["r"],
        parsed(r#"{"rule": "x", "service": "r"}"#)
    );
    assert_eq!(
        out["http"]["services"]["r"]["loadBalancer"]["servers"],
        parsed(r#"[{"url": "https://10.0.0.5:81"}]"#)
    );
}

#[test]
fn a_port_is_refused_where_its_service_spelled_out_is() {
    let address = guest(Some("10.0.0.5"));
    for (section, port, scheme) in [
        ("http", "\"x\"", ""),
        ("http", "70000", ""),
        ("http", "[1]", ""),
        ("http", "80", ", \"scheme\": 1"),
        ("tcp", "80", ", \"scheme\": \"x\""),
    ] {
        let short = format!(
            r#"{{"{section}": {{"routers": {{"r": {{"port": {port}{scheme}}}}}}}}}"#
        );
        let long = format!(
            r#"{{"{section}": {{"routers": {{"r": {{"service": "r"}}}}, "services": {{"r": {{"loadBalancer": {{"servers": [{{"port": {port}{scheme}}}]}}}}}}}}}}"#
        );
        refused(&short, &address);
        refused(&long, &address);
    }
    let short = r#"{"http": {"routers": {"a": {"port": 1}, "b": {"port": 2, "service": "A"}}}}"#;
    let long = r#"{"http": {"routers": {"a": {"service": "a"}, "b": {"port": 2, "service": "A"}},
                            "services": {"a": {"loadBalancer": {"servers": [{"port": 1}]}}}}}"#;
    assert_eq!(refused(short, &address), refused(long, &address));
    let short = r#"{"http": {"routers": {"a": {"port": 1}, "b": {"port": 2}}}}"#;
    let long = r#"{"http": {"routers": {"a": {"port": 1}, "b": {"service": "b"}},
                            "services": {"b": {"loadBalancer": {"servers": [{"port": 2}]}}}}}"#;
    assert_eq!(done(short, &address), done(long, &address));
}
