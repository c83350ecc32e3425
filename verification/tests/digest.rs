use responses_api_proxy::digest::digest;
use responses_api_proxy::digest::digest_pair;
use responses_api_proxy::digest::digest_triple;
use responses_api_proxy::digest::push_frame;
use responses_api_proxy::json::parse_json;
use responses_api_proxy::json::parse_text;
use responses_api_proxy::json::Json;
use responses_api_proxy::table::Table;
use sha2::Digest;

fn hex(bytes: &[u8]) -> String {
    sha2::Sha256::digest(bytes)
        .iter()
        .map(|byte| format!("{byte:02x}"))
        .collect()
}

#[test]
fn digests_are_of_framed_parts() {
    let mut framed = Vec::new();
    push_frame(&mut framed, b"ab");
    push_frame(&mut framed, b"c");
    assert_eq!(
        framed,
        [&2u64.to_le_bytes()[..], b"ab", &1u64.to_le_bytes()[..], b"c"].concat()
    );
    assert_eq!(digest(&[b"ab", b"c"]), hex(&framed));
    assert_ne!(digest(&[b"ab", b"c"]), digest(&[b"a", b"bc"]));
    assert_eq!(digest_pair("ab", "c"), digest(&[b"ab", b"c"]));
    assert_eq!(digest_triple("a", "b", "c"), digest(&[b"a", b"b", b"c"]));
    assert_eq!(
        digest(&[]),
        "e3b0c44298fc1c149afbf4c8996fb92427ae41e4649b934ca495991b7852b855"
    );
}

#[test]
fn documents_are_read_and_written() {
    let value = parse_text(r#"{"b":[1,-2,2.5,null,true],"a":"é"}"#).unwrap();
    assert_eq!(
        value.to_text(),
        "{\"a\":\"é\",\"b\":[1,-2,2.5,null,true]}"
    );
    assert_eq!(value.to_bytes(), value.to_text().into_bytes());
    let items = value.items_at("b").unwrap();
    assert_eq!(items[0].as_number(), Some(1));
    assert_eq!(items[1].as_signed(), Some(-2));
    assert_eq!(items[2].as_bits(), Some(2.5f64.to_bits()));
    assert!(items[3].is_null());
    assert_eq!(items[4].as_flag(), Some(true));
    assert!(parse_json(b"{} x").is_none());
    assert!(parse_json(b"\xff").is_none());
    let mut object = Json::object();
    object.put("k", Json::unsigned(1));
    object.put("k", Json::unsigned(2));
    assert_eq!(object.to_text(), r#"{"k":2}"#);
}

#[test]
fn tables_hold_one_value_for_each_key() {
    let mut table: Table<String, u64> = Table::new();
    table.insert("a".to_string(), 1);
    table.insert("b".to_string(), 2);
    table.insert("a".to_string(), 3);
    assert_eq!(table.len(), 2);
    assert_eq!(table.get(&"a".to_string()), Some(&3));
    assert_eq!(table.remove(&"a".to_string()), Some(3));
    assert!(!table.has(&"a".to_string()));
    *table.get_mut(&"b".to_string()).unwrap() = 9;
    assert_eq!(table.get(&"b".to_string()), Some(&9));
}
