use pve_meta_traefik::merge::{in_order, merge};
use pve_meta_traefik::value::{Number, Table, Value};

/// The value that a JSON text denotes.
fn json(text: &str) -> Value {
    from_json(&serde_json::from_str(text).unwrap())
}

fn from_json(v: &serde_json::Value) -> Value {
    match v {
        serde_json::Value::Null => Value::Null,
        serde_json::Value::Bool(b) => Value::Bool(*b),
        serde_json::Value::Number(n) => Value::Number(match (n.as_u64(), n.as_i64()) {
            (Some(u), _) => Number::Unsigned(u),
            (None, Some(i)) => Number::Negative(i),
            (None, None) => Number::Real(n.to_string()),
        }),
        serde_json::Value::String(s) => Value::Text(s.clone()),
        serde_json::Value::Array(items) => Value::List(items.iter().map(from_json).collect()),
        serde_json::Value::Object(entries) => {
            let mut table = Table::new();
            for (key, value) in entries {
                table.insert(key.clone(), from_json(value));
            }
            Value::Table(table)
        }
    }
}

/// The same value as serde_json has it, which can be compared and printed.
fn to_json(v: &Value) -> serde_json::Value {
    match v {
        Value::Null => serde_json::Value::Null,
        Value::Bool(b) => serde_json::Value::Bool(*b),
        Value::Number(Number::Unsigned(u)) => serde_json::Value::from(*u),
        Value::Number(Number::Negative(i)) => serde_json::Value::from(*i),
        Value::Number(Number::Real(s)) => serde_json::from_str(s).unwrap(),
        Value::Text(s) => serde_json::Value::String(s.clone()),
        Value::List(items) => serde_json::Value::Array(items.iter().map(to_json).collect()),
        Value::Table(table) => table_to_json(table),
    }
}

fn table_to_json(table: &Table) -> serde_json::Value {
    let mut out = serde_json::Map::new();
    for i in 0..table.len() {
        out.insert(table.key(i).clone(), to_json(table.value(i)));
    }
    serde_json::Value::Object(out)
}

fn parsed(text: &str) -> serde_json::Value {
    serde_json::from_str(text).unwrap()
}

fn map(text: &str) -> Table {
    match json(text) {
        Value::Table(table) => table,
        _ => panic!("not a table: {text}"),
    }
}

fn merged(shares: &[(u64, &str)]) -> (serde_json::Value, Vec<String>) {
    let mut conflicts = Vec::new();
    let shares = shares.iter().map(|(vmid, text)| (*vmid, map(text))).collect();
    let doc = merge(shares, &mut conflicts);
    (table_to_json(&doc), conflicts)
}

#[test]
fn merge_keeps_the_first_and_reports_the_second() {
    let (doc, conflicts) = merged(&[
        (
            100,
            r#"{"http": {"routers": {"web": {"rule": "a"}}}, "tls": {"certificates": [{"certFile": "a"}]}}"#,
        ),
        (
            200,
            r#"{"http": {"routers": {"web": {"rule": "b"}, "api": {"rule": "c"}}}, "tls": {"certificates": [{"certFile": "b"}]}}"#,
        ),
    ]);
    assert_eq!(doc["http"]["routers"]["web"]["rule"], "a");
    assert_eq!(doc["http"]["routers"]["api"]["rule"], "c");
    assert_eq!(doc["tls"]["certificates"].as_array().unwrap().len(), 2);
    assert_eq!(
        conflicts,
        vec!["guest 200: 'http.routers.web' is already declared by guest 100; ignored"]
    );
}

#[test]
fn lists_are_concatenated_in_the_order_of_the_guests() {
    let (doc, conflicts) = merged(&[
        (1, r#"{"tls": {"certificates": [1, 2]}}"#),
        (2, r#"{"tls": {"certificates": []}}"#),
        (3, r#"{"tls": {"certificates": [1]}}"#),
    ]);
    assert_eq!(doc, parsed(r#"{"tls": {"certificates": [1, 2, 1]}}"#));
    assert!(conflicts.is_empty());
}

#[test]
fn what_cannot_be_merged_is_reported() {
    let (doc, conflicts) = merged(&[
        (7, r#"{"http": 1, "tcp": {"routers": [], "services": {}, "x": "y"}}"#),
        (8, r#"{"tcp": {"routers": {"a": {}}, "services": [1]}}"#),
    ]);
    assert_eq!(doc, parsed(r#"{"tcp": {"routers": [], "services": {}}}"#));
    assert_eq!(
        conflicts,
        vec![
            "guest 7: 'http' is not a map; ignored",
            "guest 7: 'tcp.x' is neither a map nor a list; ignored",
            "guest 8: 'tcp.routers' clashes with a list; ignored",
            "guest 8: 'tcp.services' clashes with a map; ignored",
        ]
    );
}

#[test]
fn conflicts_are_added_to_those_there_are() {
    let mut conflicts = vec!["before".to_string()];
    merge(vec![(7, map(r#"{"http": null}"#))], &mut conflicts);
    assert_eq!(conflicts, vec!["before", "guest 7: 'http' is not a map; ignored"]);
}

#[test]
fn the_first_of_three_guests_wins() {
    let (doc, conflicts) = merged(&[
        (1, r#"{"udp": {"services": {"b": 1}}}"#),
        (2, r#"{"udp": {"services": {"a": 2}}}"#),
        (3, r#"{"udp": {"services": {"a": 3, "b": 3, "c": 3}}}"#),
    ]);
    assert_eq!(doc, parsed(r#"{"udp": {"services": {"a": 2, "b": 1, "c": 3}}}"#));
    assert_eq!(
        conflicts,
        vec![
            "guest 3: 'udp.services.a' is already declared by guest 2; ignored",
            "guest 3: 'udp.services.b' is already declared by guest 1; ignored",
        ]
    );
}

#[test]
fn nothing_merges_to_nothing() {
    let (doc, conflicts) = merged(&[]);
    assert_eq!(doc, parsed("{}"));
    assert!(conflicts.is_empty());
    let (doc, conflicts) = merged(&[(1, r#"{"http": {}}"#)]);
    assert_eq!(doc, parsed(r#"{"http": {}}"#));
    assert!(conflicts.is_empty());
}

#[test]
fn names_with_dots_are_told_apart() {
    let text = r#"{"x": {"y": {"z.w": 1}, "y.z": {"w": 2}}}"#;
    let (doc, conflicts) = merged(&[(1, text)]);
    assert_eq!(doc, parsed(text));
    assert!(conflicts.is_empty());
}

#[test]
fn the_lower_vmid_wins_whatever_the_order_of_the_shares() {
    let (doc, conflicts) = merged(&[
        (200, r#"{"http": {"routers": {"web": {"rule": "b"}}}}"#),
        (100, r#"{"http": {"routers": {"web": {"rule": "a"}}}}"#),
    ]);
    assert_eq!(doc["http"]["routers"]["web"]["rule"], "a");
    assert_eq!(
        conflicts,
        vec!["guest 200: 'http.routers.web' is already declared by guest 100; ignored"]
    );
    let (doc, conflicts) = merged(&[
        (300, r#"{"x": {"y": {"n": 3, "o": 3}, "l": [3]}}"#),
        (200, r#"{"x": {"y": {"n": 2}, "l": [2]}}"#),
        (100, r#"{"x": {"y": {"n": 1}, "l": [1]}}"#),
    ]);
    assert_eq!(doc, parsed(r#"{"x": {"y": {"n": 1, "o": 3}, "l": [3, 2, 1]}}"#));
    assert_eq!(
        conflicts,
        vec![
            "guest 300: 'x.y.n' is already declared by guest 100; ignored",
            "guest 200: 'x.y.n' is already declared by guest 100; ignored",
        ]
    );
}

#[test]
fn of_two_shares_of_one_vmid_the_first_wins() {
    let (doc, conflicts) = merged(&[
        (7, r#"{"x": {"y": {"n": 1}}}"#),
        (7, r#"{"x": {"y": {"n": 2}}}"#),
    ]);
    assert_eq!(doc, parsed(r#"{"x": {"y": {"n": 1}}}"#));
    assert_eq!(
        conflicts,
        vec!["guest 7: 'x.y.n' is already declared by guest 7; ignored"]
    );
}

#[test]
fn one_share_merges_to_itself() {
    let text = r#"{"http": {"routers": {"a": {"rule": "x"}, "b": 1}, "empty": {}}, "tls": {"certificates": [1, 2]}}"#;
    let share = map(text);
    in_order(&share);
    let mut conflicts = Vec::new();
    let doc = merge(vec![(9, share)], &mut conflicts);
    assert_eq!(table_to_json(&doc), parsed(text));
    assert!(conflicts.is_empty());
}
