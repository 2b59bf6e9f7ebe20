use pve_meta_traefik::guest::Outcome;
use pve_meta_traefik::poll::{answer, assemble, discover, select_guests, Cache, Round};
use pve_meta_traefik::pve::Resource;
use pve_meta_traefik::value::{Number, Table, Value};
use pve_meta_traefik::warnings::Warnings;

/// The value that a JSON text denotes.
fn json(text: &str) -> Value {
    from_json(&serde_json::from_str(text).unwrap())
}

fn from_json(v: &serde_json::Value) -> Value {
    match v {
        serde_json::Value::Null => Value::Null,
        serde_json::Value::Bool(b) => Value::Bool(*b),
        serde_json::Value::Number(n) => Value::Number(match (n.as_u64(), n.as_i64()) {
            (Some(u), _) => Number::Unsigned(u),
            (None, Some(i)) => Number::Negative(i),
            (None, None) => Number::Real(n.to_string()),
        }),
        serde_json::Value::String(s) => Value::Text(s.clone()),
        serde_json::Value::Array(items) => Value::List(items.iter().map(from_json).collect()),
        serde_json::Value::Object(entries) => {
            let mut table = Table::new();
            for (key, value) in entries {
                table.insert(key.clone(), from_json(value));
            }
            Value::Table(table)
        }
    }
}

/// The same value as serde_json has it, which can be compared and printed.
fn to_json(v: &Value) -> serde_json::Value {
    match v {
        Value::Null => serde_json::Value::Null,
        Value::Bool(b) => serde_json::Value::Bool(*b),
        Value::Number(Number::Unsigned(u)) => serde_json::Value::from(*u),
        Value::Number(Number::Negative(i)) => serde_json::Value::from(*i),
        Value::Number(Number::Real(s)) => serde_json::from_str(s).unwrap(),
        Value::Text(s) => serde_json::Value::String(s.clone()),
        Value::List(items) => serde_json::Value::Array(items.iter().map(to_json).collect()),
        Value::Table(table) => table_to_json(table),
    }
}

fn table_to_json(table: &Table) -> serde_json::Value {
    let mut out = serde_json::Map::new();
    for i in 0..table.len() {
        out.insert(table.key(i).clone(), to_json(table.value(i)));
    }
    serde_json::Value::Object(out)
}

fn map(text: &str) -> Table {
    match json(text) {
        Value::Table(table) => table,
        _ => panic!("not a table: {text}"),
    }
}

fn resource(vmid: u64, node: &str) -> Resource {
    Resource {
        vmid,
        node: node.to_string(),
        kind: "lxc".to_string(),
        status: "running".to_string(),
        name: None,
        tags: None,
    }
}

/// A round as a text, with its warnings.
fn told(results: Vec<(u64, Outcome)>) -> (String, Vec<String>) {
    match assemble(results) {
        Round::Document { doc, warnings } => (table_to_json(&doc).to_string(), warnings),
        Round::Failed(error) => (error, vec![]),
    }
}

fn share(text: &str) -> Outcome {
    Outcome::Share(map(text))
}

#[test]
fn guests_with_the_prefix_take_part_in_the_order_of_their_vmids() {
    let all = vec![
        resource(300, "a"),
        resource(100, "b"),
        resource(200, "c"),
        resource(100, "d"),
    ];
    let picked = select_guests(all, &vec![100, 300, 400, 100]);
    let names: Vec<(u64, String)> = picked.into_iter().map(|r| (r.vmid, r.node)).collect();
    assert_eq!(
        names,
        vec![
            (100, "b".to_string()),
            (100, "d".to_string()),
            (300, "a".to_string())
        ]
    );
    assert!(select_guests(vec![resource(1, "a")], &vec![]).is_empty());
}

#[test]
fn the_order_of_the_rows_makes_no_difference() {
    let names = |rows: Vec<Resource>, vmids: &Vec<u64>| {
        let picked = select_guests(rows, vmids);
        picked.into_iter().map(|r| r.node).collect::<Vec<String>>()
    };
    let one = names(
        vec![resource(3, "c"), resource(1, "a"), resource(2, "b")],
        &vec![1, 3],
    );
    let other = names(
        vec![resource(2, "b"), resource(3, "c"), resource(1, "a")],
        &vec![3, 1, 3],
    );
    assert_eq!(one, other);
    assert_eq!(one, vec!["a", "c"]);
}

#[test]
fn a_round_needs_both_lists() {
    let told = |resources: Result<Vec<Resource>, String>, vmids: Result<Vec<u64>, String>| {
        match discover(resources, vmids) {
            Ok(picked) => Ok(picked.len()),
            Err(error) => Err(error),
        }
    };
    let rows = || Ok(vec![resource(2, "b"), resource(1, "a")]);
    assert_eq!(told(rows(), Ok(vec![1])), Ok(1));
    assert_eq!(told(rows(), Ok(vec![])), Ok(0));
    assert_eq!(told(Err("x".to_string()), Ok(vec![1])), Err("x".to_string()));
    assert_eq!(told(rows(), Err("y".to_string())), Err("y".to_string()));
    assert_eq!(
        told(Err("x".to_string()), Err("y".to_string())),
        Err("x".to_string())
    );
}

#[test]
fn the_lower_vmid_wins_in_a_round() {
    let (doc, warnings) = told(vec![
        (300, share(r#"{"x": {"y": {"n": 3}}}"#)),
        (100, share(r#"{"x": {"y": {"n": 1}}}"#)),
    ]);
    assert_eq!(doc, r#"{"x":{"y":{"n":1}}}"#);
    assert_eq!(
        warnings,
        vec!["guest 300: 'x.y.n' is already declared by guest 100; ignored"]
    );
}

#[test]
fn shares_are_merged_and_skipped_guests_are_told() {
    let (doc, warnings) = told(vec![
        (100, share(r#"{"http": {"routers": {"a": 1}}}"#)),
        (150, Outcome::Nothing),
        (200, Outcome::Skip("why".to_string())),
        (300, share(r#"{"http": {"routers": {"a": 2, "b": 2}}}"#)),
    ]);
    assert_eq!(doc, r#"{"http":{"routers":{"a":1,"b":2}}}"#);
    assert_eq!(
        warnings,
        vec![
            "guest 200: why",
            "guest 300: 'http.routers.a' is already declared by guest 100; ignored",
        ]
    );
}

#[test]
fn one_guest_that_fails_fails_the_round() {
    let (error, _) = told(vec![
        (100, share(r#"{"http": {}}"#)),
        (200, Outcome::Fail("GET /x: timeout".to_string())),
        (300, Outcome::Fail("later".to_string())),
    ]);
    assert_eq!(error, "guest 200: GET /x: timeout");
}

#[test]
fn silent_guests_change_nothing() {
    let without = told(vec![(100, share(r#"{"tcp": {}}"#))]);
    let with = told(vec![
        (50, Outcome::Nothing),
        (100, share(r#"{"tcp": {}}"#)),
        (150, Outcome::Nothing),
    ]);
    assert_eq!(with, without);
    assert_eq!(told(vec![]), ("{}".to_string(), vec![]));
}

#[test]
fn a_skipped_guest_takes_nothing_from_the_others() {
    let (doc, warnings) = told(vec![
        (100, Outcome::Skip("x".to_string())),
        (200, share(r#"{"tcp": {}}"#)),
    ]);
    assert_eq!(doc, r#"{"tcp":{}}"#);
    assert_eq!(warnings, vec!["guest 100: x"]);
}

#[test]
fn a_document_is_served_while_it_is_fresh() {
    let mut cache: Cache<u64> = Cache::new();
    assert_eq!(cache.fresh(0, 10), None);
    cache.settle(5, &Ok("a".to_string()));
    assert_eq!(cache.fresh(9, 10), Some(&"a".to_string()));
    assert_eq!(cache.fresh(10, 10), None);
    assert_eq!(cache.fresh(0, 0), None);
    cache.settle(6, &Err("down".to_string()));
    assert_eq!(cache.rendered, Some((5, "a".to_string())));
    cache.settle(7, &Ok("b".to_string()));
    assert_eq!(cache.rendered, Some((7, "b".to_string())));
}

#[test]
fn an_error_is_answered_with_bad_gateway() {
    let good = answer(Ok("{}".to_string()));
    assert_eq!((good.status, good.json, good.body.as_str()), (200, true, "{}"));
    let bad = answer(Err("guest 1: down".to_string()));
    assert_eq!(
        (bad.status, bad.json, bad.body.as_str()),
        (502, false, "guest 1: down\n")
    );
}

#[test]
fn warnings_are_told_when_they_come_and_go() {
    let round = |warnings: &mut Warnings, list: &[&str]| {
        let changes = warnings.report(list.iter().map(|w| w.to_string()).collect());
        (changes.appeared.join(","), changes.resolved.join(","))
    };
    let mut warnings = Warnings::new();
    let none = (String::new(), String::new());
    assert_eq!(round(&mut warnings, &[]), none);
    assert_eq!(
        round(&mut warnings, &["b", "a", "b"]),
        ("a,b".to_string(), String::new())
    );
    assert_eq!(round(&mut warnings, &["a", "b"]), none);
    assert_eq!(
        round(&mut warnings, &["c", "b"]),
        ("c".to_string(), "a".to_string())
    );
    assert!(warnings.contains("c"));
    assert!(!warnings.contains("a"));
    assert_eq!(
        round(&mut warnings, &[]),
        (String::new(), "b,c".to_string())
    );
}
