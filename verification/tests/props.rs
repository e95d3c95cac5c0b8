use carlinkit_otalib::props::{
    apply_overrides, parse_props_file, persist_failed, props_to_json, serialize_props_file,
    validate_value, Prop, PropStore, PropType,
};

#[test]
fn parse_file_and_normalize() {
    let text = "wifi.enabled\tbool\t-\t1\n";
    let props = parse_props_file(text).unwrap();
    assert_eq!(props.len(), 1);
    assert_eq!(props[0].value, "true");
}

#[test]
fn validate_int_range() {
    let ty = PropType::Int { min: 0, max: 10 };
    assert!(validate_value(&ty, "-1").is_err());
    assert_eq!(validate_value(&ty, "7").unwrap(), "7");
}

#[test]
fn serialize_roundtrip() {
    let text = "wifi.band\tenum\t2.4g,5g,auto\tauto\n";
    let props = parse_props_file(text).unwrap();
    let out = serialize_props_file(&props);
    assert!(out.contains("wifi.band\tenum\t2.4g,5g,auto\tauto"));
}

const DEFS: &str = "# device properties\n\
wifi.enabled\tbool\t-\ttrue\n\
\n\
wifi.band\tenum\t2.4g,5g,auto\tauto\n\
wifi.channel\tint\t0:165\t36\n\
wifi.ssid\tstring\t1:32\tCarPlay\n";

#[test]
fn parse_types_and_values() {
    let props = parse_props_file(DEFS).unwrap();
    assert_eq!(props.len(), 4);
    assert_eq!(props[0].name, "wifi.enabled");
    assert_eq!(props[0].ty, PropType::Bool);
    assert_eq!(
        props[1].ty,
        PropType::Enum { values: vec!["2.4g".to_string(), "5g".to_string(), "auto".to_string()] }
    );
    assert_eq!(props[2].ty, PropType::Int { min: 0, max: 165 });
    assert_eq!(props[3].ty, PropType::String { min_len: 1, max_len: 32 });
    assert_eq!(props[3].value, "CarPlay");
}

#[test]
fn parse_errors() {
    assert_eq!(parse_props_file("a\n").err(), Some("missing type"));
    assert_eq!(parse_props_file("a\tbool\n").err(), Some("missing spec"));
    assert_eq!(parse_props_file("a\tbool\t-\n").err(), Some("missing value"));
    assert_eq!(parse_props_file("a\tbool\tx\ttrue\n").err(), Some("bool spec must be '-'"));
    assert_eq!(parse_props_file("a\tint\t5\t1\n").err(), Some("missing range"));
    assert_eq!(parse_props_file("a\tint\t9:1\t1\n").err(), Some("invalid int range"));
    assert_eq!(parse_props_file("a\tenum\t,\tx\n").err(), Some("enum requires at least one value"));
    assert_eq!(parse_props_file("a\tenum\tx,y\tz\n").err(), Some("enum value is not allowed"));
    assert_eq!(parse_props_file("a\tbool\t-\tyes\n").err(), Some("bool accepts only true/false/1/0"));
    assert_eq!(parse_props_file("a\tint\t0:9\tten\n").err(), Some("invalid int"));
    assert_eq!(parse_props_file("a\tint\t0:9\t10\n").err(), Some("int out of range"));
    assert_eq!(parse_props_file("a\tstring\t2:3\tx\n").err(), Some("string length out of range"));
    assert_eq!(parse_props_file("a\tfloat\t-\t1\n").err(), Some("unknown type"));
}

#[test]
fn validate_value_normalizes() {
    assert_eq!(validate_value(&PropType::Bool, "0").unwrap(), "false");
    assert_eq!(validate_value(&PropType::Bool, "true").unwrap(), "true");
    assert_eq!(validate_value(&PropType::Int { min: -5, max: 5 }, "-5").unwrap(), "-5");
    assert_eq!(validate_value(&PropType::Int { min: -5, max: 5 }, "6"), Err("int out of range"));
    assert_eq!(
        validate_value(&PropType::String { min_len: 0, max_len: 4 }, "a\tb"),
        Err("value contains forbidden control char")
    );
}

#[test]
fn serialized_file_reads_back_the_same() {
    let props = parse_props_file(DEFS).unwrap();
    let text = serialize_props_file(&props);
    assert!(text.starts_with("# name\ttype\tspec\tvalue\n"));
    assert!(text.contains("wifi.channel\tint\t0:165\t36\n"));
    let again = parse_props_file(&text).unwrap();
    assert_eq!(serialize_props_file(&again), text);
    assert_eq!(again.len(), props.len());
    for (a, b) in again.iter().zip(props.iter()) {
        assert_eq!(a.name, b.name);
        assert_eq!(a.ty, b.ty);
        assert_eq!(a.value, b.value);
    }
}

#[test]
fn json_listing() {
    let props = parse_props_file("a\tbool\t-\t1\nb\tint\t-1:2\t0\n").unwrap();
    assert_eq!(
        props_to_json(&props),
        "[{\"name\":\"a\",\"value\":\"true\",\"type\":\"bool\"},{\"name\":\"b\",\"value\":\"0\",\"type\":\"int\",\"min\":-1,\"max\":2}]"
    );
    let props = parse_props_file("s\tstring\t0:9\ta\"b\n").unwrap();
    assert_eq!(
        props_to_json(&props),
        "[{\"name\":\"s\",\"value\":\"a\\\"b\",\"type\":\"string\",\"min_len\":0,\"max_len\":9}]"
    );
    assert_eq!(props_to_json(&[]), "[]");
}

#[test]
fn overrides_apply_when_types_agree() {
    let mut props = parse_props_file(DEFS).unwrap();
    let overrides: Vec<Prop> =
        parse_props_file("wifi.channel\tint\t0:165\t149\nwifi.band\tenum\t5g\t5g\nnope\tbool\t-\t0\n").unwrap();
    apply_overrides(&mut props, &overrides);
    assert_eq!(props[2].value, "149");
    assert_eq!(props[1].value, "auto");
    assert_eq!(props.len(), 4);
}

#[test]
fn store_load_get_set_revert() {
    let mut store = PropStore::load(Some(DEFS), Some("wifi.enabled\tbool\t-\t0\n"), "/tmp/p.tsv");
    assert_eq!(store.persist_path(), "/tmp/p.tsv");
    assert_eq!(store.all().len(), 4);
    assert_eq!(store.get("wifi.enabled"), Some("false"));
    assert_eq!(store.get("missing"), None);
    let prev = store.get("wifi.channel").unwrap().to_string();
    assert_eq!(prev, "36");
    let stored = store.set("wifi.channel", "0044").unwrap();
    assert_eq!(stored, "44");
    assert_eq!(store.get("wifi.channel"), Some(stored.as_str()));
    assert_eq!(store.set("wifi.channel", "999"), Err("int out of range".to_string()));
    assert_eq!(store.get("wifi.channel"), Some("44"));
    assert_eq!(store.set("nope", "1"), Err("unknown prop".to_string()));
    store.revert("wifi.channel", prev);
    assert_eq!(store.get("wifi.channel"), Some("36"));
}

#[test]
fn store_without_files_is_empty() {
    let store = PropStore::load(None, None, "/tmp/p.tsv");
    assert!(store.all().is_empty());
    let broken = PropStore::load(Some("bad line\n"), None, "/tmp/p.tsv");
    assert!(broken.all().is_empty());
    assert_eq!(persist_failed("disk full"), "persist failed: disk full");
}
