use pve_meta_traefik::value::{find_ci, remove_ci, Number, Table, Value};

fn keys(table: &Table) -> Vec<String> {
    (0..table.len()).map(|i| table.key(i).clone()).collect()
}

fn number(n: u64) -> Value {
    Value::Number(Number::Unsigned(n))
}

fn table(names: &[&str]) -> Table {
    let mut out = Table::new();
    for (i, name) in names.iter().enumerate() {
        out.insert(name.to_string(), number(i as u64));
    }
    out
}

#[test]
fn a_table_keeps_its_keys_in_order_and_once() {
    let mut t = table(&["b", "a", "c", "b", "B"]);
    assert_eq!(keys(&t), vec!["B", "a", "b", "c"]);
    assert_eq!(t.get("b").and_then(|v| v.as_u64()), Some(3));
    assert_eq!(t.position("c"), Some(3));
    assert!(t.get("d").is_none());
    assert_eq!(t.remove_at(1).as_u64(), Some(1));
    assert_eq!(keys(&t), vec!["B", "b", "c"]);
    assert_eq!(t.replace(0, number(9)).as_u64(), Some(4));
    assert_eq!(t.value(0).as_u64(), Some(9));
    let rows: Vec<String> = t.into_entries().into_iter().map(|(k, _)| k).collect();
    assert_eq!(rows, vec!["B", "b", "c"]);
}

#[test]
fn the_first_key_of_a_name_is_found() {
    let mut t = table(&["port", "PORT", "Port"]);
    assert_eq!(find_ci(&t, "pORT"), Some(0));
    assert_eq!(remove_ci(&mut t, "port").and_then(|v| v.as_u64()), Some(1));
    assert_eq!(keys(&t), Vec::<String>::new());
    let mut t = table(&["a", "Port", "b", "PORT"]);
    assert!(remove_ci(&mut t, "scheme").is_none());
    assert_eq!(remove_ci(&mut t, "port").and_then(|v| v.as_u64()), Some(3));
    assert_eq!(keys(&t), vec!["a", "b"]);
}

#[test]
fn only_tables_have_fields_and_only_numbers_are_numbers() {
    let v = Value::Table(table(&["a"]));
    assert_eq!(v.get("a").and_then(|v| v.as_u64()), Some(0));
    assert!(v.get("A").is_none());
    assert!(Value::List(vec![number(1)]).get("a").is_none());
    assert_eq!(Value::Text("1".to_string()).as_u64(), None);
    assert_eq!(Value::Number(Number::Negative(-1)).as_u64(), None);
    assert_eq!(Value::Number(Number::Real("1.0".to_string())).as_u64(), None);
}

#[test]
fn numbers_are_written_as_they_are() {
    assert_eq!(Number::Unsigned(80).text(), "80");
    assert_eq!(Number::Negative(-80).text(), "-80");
    assert_eq!(Number::Real("1e3".to_string()).text(), "1e3");
}
