use johnfig::{merge, Config, ConfigFile, Type, Value, ValueMap};

fn table(entries: Vec<(&str, Value)>) -> ValueMap {
    let mut m = ValueMap::new();
    for (k, v) in entries {
        m.insert(k.to_string(), v);
    }
    m
}

fn tv(entries: Vec<(&str, Value)>) -> Value {
    Value::Table(table(entries))
}

fn merged(a: Value, b: Value) -> Value {
    let mut a = a;
    merge(&mut a, b);
    a
}

#[test]
fn merge_disjoint_keys() {
    let r = merged(tv(vec![("a", Value::I64(1))]), tv(vec![("b", Value::I64(2))]));
    assert_eq!(r, tv(vec![("a", Value::I64(1)), ("b", Value::I64(2))]));
}

#[test]
fn merge_lists_concatenate() {
    let a = tv(vec![("a", Value::List(vec![Value::I64(1), Value::I64(2)]))]);
    let b = tv(vec![("a", Value::List(vec![Value::I64(3)]))]);
    let expected = tv(vec![("a", Value::List(vec![Value::I64(1), Value::I64(2), Value::I64(3)]))]);
    assert_eq!(merged(a, b), expected);
}

#[test]
fn merge_table_into_list_appends() {
    let a = tv(vec![("a", Value::List(vec![Value::I64(1)]))]);
    let b = tv(vec![("a", tv(vec![("x", Value::I64(1))]))]);
    let expected = tv(vec![("a", Value::List(vec![Value::I64(1), tv(vec![("x", Value::I64(1))])]))]);
    assert_eq!(merged(a, b), expected);
}

#[test]
fn merge_scalar_replaced() {
    let a = tv(vec![("a", Value::I64(1))]);
    let b = tv(vec![("a", Value::String("s".to_string()))]);
    assert_eq!(merged(a, b), tv(vec![("a", Value::String("s".to_string()))]));
}

#[test]
fn merge_nested_tables_recursively() {
    let a = tv(vec![("db", tv(vec![("host", Value::String("h".to_string())), ("port", Value::U16(1))]))]);
    let b = tv(vec![("db", tv(vec![("port", Value::U16(2)), ("user", Value::String("u".to_string()))]))]);
    let expected = tv(vec![(
        "db",
        tv(vec![
            ("host", Value::String("h".to_string())),
            ("port", Value::U16(2)),
            ("user", Value::String("u".to_string())),
        ]),
    )]);
    assert_eq!(merged(a, b), expected);
}

#[test]
fn merge_list_over_scalar_replaces() {
    let r = merged(Value::Bool(true), Value::List(vec![Value::I8(1)]));
    assert_eq!(r, Value::List(vec![Value::I8(1)]));
    let r = merged(tv(vec![]), Value::U8(3));
    assert_eq!(r, Value::U8(3));
}

#[test]
fn merge_is_deterministic() {
    let build = || {
        vec![
            tv(vec![("a", Value::I64(1)), ("l", Value::List(vec![Value::I64(1)]))]),
            tv(vec![("b", Value::I64(2)), ("l", Value::List(vec![Value::I64(2)]))]),
            tv(vec![("a", Value::I64(3))]),
        ]
    };
    let fold = |maps: Vec<Value>| {
        let mut acc = tv(vec![]);
        for m in maps {
            merge(&mut acc, m);
        }
        acc
    };
    assert_eq!(fold(build()), fold(build()));
}

#[test]
fn merge_order_matters_for_scalars_not_for_disjoint_tables() {
    let one = || tv(vec![("a", Value::I64(1))]);
    let two = || tv(vec![("a", Value::I64(2))]);
    assert_ne!(merged(one(), two()), merged(two(), one()));
    let x = || tv(vec![("x", tv(vec![("p", Value::I64(1))]))]);
    let y = || tv(vec![("y", tv(vec![("q", Value::I64(2))]))]);
    assert_eq!(merged(x(), y()), merged(y(), x()));
}

#[test]
fn map_keeps_keys_sorted_and_unique() {
    let mut m = ValueMap::new();
    assert_eq!(m.insert("b".to_string(), Value::I32(1)), None);
    assert_eq!(m.insert("a".to_string(), Value::I32(2)), None);
    assert_eq!(m.insert("b".to_string(), Value::I32(3)), Some(Value::I32(1)));
    assert_eq!(m.len(), 2);
    let keys: Vec<&str> = m.entries().iter().map(|(k, _)| k.as_str()).collect();
    assert_eq!(keys, vec!["a", "b"]);
    assert_eq!(m.get("b"), Some(&Value::I32(3)));
    assert_eq!(m.get("c"), None);
    assert!(m.contains("a"));
    assert!(!m.contains("c"));
}

#[test]
fn value_kinds() {
    assert_eq!(Value::F64(1.5f64.to_bits()).ty(), Type::F64);
    assert_eq!(tv(vec![]).ty(), Type::Table);
    assert_eq!(Value::none().ty(), Type::Null);
    assert!(Value::none().is_none());
    assert!(!Value::Bool(false).is_none());
    assert_eq!(Value::String("x".to_string()).into_string(), Ok("x".to_string()));
    assert_eq!(Value::U8(1).into_string(), Err(()));
}

#[test]
fn config_accessors() {
    let mut c = Config::new();
    assert!(!c.contains("k"));
    assert_eq!(c.set("k".to_string(), Value::I64(1)), None);
    assert_eq!(c.get("k"), Some(&Value::I64(1)));
    assert_eq!(c.set("k".to_string(), Value::I64(2)), Some(Value::I64(1)));
    assert!(c.contains("k"));
    assert_eq!(c.get("missing"), None);
    assert!(c.files().is_empty());
}

#[test]
fn config_extend_merges() {
    let mut c = Config::from_table(table(vec![("l", Value::List(vec![Value::I64(1)])), ("s", Value::I64(1))]));
    let other = Config::from_table(table(vec![("l", Value::List(vec![Value::I64(2)])), ("t", Value::I64(5))]));
    c.extend(other);
    assert_eq!(c.get("l"), Some(&Value::List(vec![Value::I64(1), Value::I64(2)])));
    assert_eq!(c.get("s"), Some(&Value::I64(1)));
    assert_eq!(c.get("t"), Some(&Value::I64(5)));
}

#[test]
fn end_to_end_merge_in_path_order() {
    let b = ConfigFile { config: table(vec![("x", Value::I64(2)), ("y", Value::I64(3))]), path: "/c/b.json".to_string() };
    let a = ConfigFile { config: table(vec![("x", Value::I64(1))]), path: "/c/a.json".to_string() };
    let c = Config::from_files(ValueMap::new(), vec![b, a]);
    assert_eq!(c.table_ref(), &table(vec![("x", Value::I64(2)), ("y", Value::I64(3))]));
    assert_eq!(c.files(), &vec!["/c/a.json".to_string(), "/c/b.json".to_string()]);
}

#[test]
fn seed_is_merged_first() {
    let seed = table(vec![("db", tv(vec![("user", Value::String("u".to_string()))]))]);
    let f = ConfigFile { config: table(vec![("db", tv(vec![("port", Value::U16(5))]))]), path: "/a.toml".to_string() };
    let c = Config::from_ordered_files(seed, vec![f]);
    assert_eq!(
        c.get("db"),
        Some(&tv(vec![("port", Value::U16(5)), ("user", Value::String("u".to_string()))]))
    );
    assert_eq!(c.files(), &vec!["/a.toml".to_string()]);
}

#[test]
fn test() {
    let v = Value::String("Test".to_string());
    let out = v.get("key").and_then(|x| x.get(""));
    assert!(out.is_none());
}

#[test]
fn value_lookups() {
    let t = tv(vec![("k", Value::List(vec![Value::I64(7), Value::I64(8)]))]);
    assert_eq!(t.get("k").and_then(|l| l.get_index(1)), Some(&Value::I64(8)));
    assert_eq!(t.get("k").and_then(|l| l.get_index(2)), None);
    assert_eq!(t.get("nope"), None);
    assert_eq!(Value::I64(1).get_index(0), None);
}

#[test]
fn index_reads_absent_as_none() {
    let mut c = Config::new();
    assert_eq!(c.index("missing"), &Value::none());
    c.set("k".to_string(), Value::I64(1));
    assert_eq!(c.index("k"), &Value::I64(1));
    assert_eq!(c.remove("k"), Some(Value::I64(1)));
    assert_eq!(c.remove("k"), None);
    assert_eq!(c.index("k"), &Value::none());
}

#[test]
fn set_key_writes_through_none_and_tables() {
    let mut v = Value::none();
    assert_eq!(v.set_key("a".to_string(), Value::I64(1)), Ok(None));
    assert_eq!(v, tv(vec![("a", Value::I64(1))]));
    assert_eq!(v.set_key("a".to_string(), Value::I64(2)), Ok(Some(Value::I64(1))));
    let mut s = Value::String("x".to_string());
    assert_eq!(s.set_key("a".to_string(), Value::I64(1)), Err(()));
    assert_eq!(s, Value::String("x".to_string()));
    let mut m = table(vec![("a", Value::I64(1)), ("b", Value::I64(2))]);
    assert_eq!(m.remove("a"), Some(Value::I64(1)));
    assert_eq!(m, table(vec![("b", Value::I64(2))]));
}

#[test]
fn merge_commutes_when_only_tables_overlap() {
    let a = || tv(vec![("db", tv(vec![("host", Value::String("h".to_string()))])), ("x", Value::I64(1))]);
    let b = || tv(vec![("db", tv(vec![("port", Value::U16(5))])), ("y", Value::List(vec![Value::I64(2)]))]);
    assert_eq!(merged(a(), b()), merged(b(), a()));
}

#[test]
fn file_order_does_not_change_the_config() {
    let files = || {
        vec![
            ConfigFile { config: table(vec![("x", Value::I64(1))]), path: "/c/a.json".to_string() },
            ConfigFile { config: table(vec![("x", Value::I64(2)), ("y", Value::I64(3))]), path: "/c/b.json".to_string() },
            ConfigFile { config: table(vec![("l", Value::List(vec![Value::I64(4)]))]), path: "/c/c.json".to_string() },
        ]
    };
    let mut reversed = files();
    reversed.reverse();
    let c1 = Config::from_files(ValueMap::new(), files());
    let c2 = Config::from_files(ValueMap::new(), reversed);
    assert_eq!(c1.table_ref(), c2.table_ref());
    assert_eq!(c1.files(), c2.files());
}
