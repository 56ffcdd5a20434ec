use todo_list::Todo;
use todo_list::TodoError;
use todo_list::codec::decode;
use todo_list::codec::encode;

fn item(text: &[u8], done: bool) -> Todo {
    Todo { item: text.to_vec(), done }
}

fn texts(l: &[Todo]) -> Vec<Vec<u8>> {
    l.iter().map(|t| t.item.clone()).collect()
}

fn flags(l: &[Todo]) -> Vec<bool> {
    l.iter().map(|t| t.done).collect()
}

#[test]
fn encode_empty_list() {
    assert_eq!(encode(&Vec::new()), b"[]".to_vec());
}

#[test]
fn encode_two_items_exact_bytes() {
    let l = vec![item(b"buy milk", false), item(b"write spec", true)];
    let expect = br#"[{"item":"buy milk","done":false},{"item":"write spec","done":true}]"#;
    assert_eq!(encode(&l), expect.to_vec());
}

#[test]
fn encode_escapes_specials() {
    let l = vec![item(b"a\"b\\c\nd\x01e", false)];
    let expect = br#"[{"item":"a\"b\\c\nd\u0001e","done":false}]"#;
    assert_eq!(encode(&l), expect.to_vec());
}

#[test]
fn decode_empty_input_is_empty_list() {
    let l = decode(&Vec::new()).unwrap();
    assert!(l.is_empty());
}

#[test]
fn decode_empty_array() {
    let l = decode(&b"[]".to_vec()).unwrap();
    assert!(l.is_empty());
}

#[test]
fn decode_rejects_whitespace_only() {
    assert_eq!(decode(&b"  \n".to_vec()), Err(TodoError::CorruptStore));
}

#[test]
fn round_trip_bytes_identical() {
    let l = vec![
        item(b"buy milk", false),
        item("caf\u{e9} \"quoted\" \\slash\\".as_bytes(), true),
        item(b"line\nbreak\ttab", false),
    ];
    let bytes = encode(&l);
    let back = decode(&bytes).unwrap();
    assert_eq!(texts(&back), texts(&l));
    assert_eq!(flags(&back), flags(&l));
    assert_eq!(encode(&back), bytes);
}

#[test]
fn decode_accepts_whitespace() {
    let s = b" [ { \"item\" : \"a b\" , \"done\" : false } ] \n".to_vec();
    let l = decode(&s).unwrap();
    assert_eq!(texts(&l), vec![b"a b".to_vec()]);
    assert_eq!(flags(&l), vec![false]);
}

#[test]
fn decode_accepts_swapped_fields() {
    let s = br#"[{"done":true,"item":"x"}]"#.to_vec();
    let l = decode(&s).unwrap();
    assert_eq!(texts(&l), vec![b"x".to_vec()]);
    assert_eq!(flags(&l), vec![true]);
}

#[test]
fn decode_unescapes() {
    let s = br#"[{"item":"q\n\t\"\\\/\u0041\u00e9\u20ac","done":false}]"#.to_vec();
    let l = decode(&s).unwrap();
    let mut expect = b"q\n\t\"\\/A".to_vec();
    expect.extend_from_slice("\u{e9}\u{20ac}".as_bytes());
    assert_eq!(l[0].item, expect);
}

#[test]
fn decode_rejects_trailing_garbage() {
    assert_eq!(decode(&br#"[]x"#.to_vec()), Err(TodoError::CorruptStore));
    assert_eq!(
        decode(&br#"[{"item":"a","done":false}],"#.to_vec()),
        Err(TodoError::CorruptStore)
    );
}

#[test]
fn decode_rejects_missing_field() {
    assert_eq!(decode(&br#"[{"item":"a"}]"#.to_vec()), Err(TodoError::CorruptStore));
    assert_eq!(decode(&br#"[{"done":true}]"#.to_vec()), Err(TodoError::CorruptStore));
}

#[test]
fn decode_rejects_duplicate_field() {
    assert_eq!(
        decode(&br#"[{"item":"a","item":"b"}]"#.to_vec()),
        Err(TodoError::CorruptStore)
    );
    assert_eq!(
        decode(&br#"[{"done":true,"done":false}]"#.to_vec()),
        Err(TodoError::CorruptStore)
    );
}

#[test]
fn decode_rejects_wrong_type() {
    assert_eq!(
        decode(&br#"[{"item":"a","done":"no"}]"#.to_vec()),
        Err(TodoError::CorruptStore)
    );
    assert_eq!(
        decode(&br#"[{"item":1,"done":true}]"#.to_vec()),
        Err(TodoError::CorruptStore)
    );
}

#[test]
fn decode_rejects_unknown_key() {
    assert_eq!(
        decode(&br#"[{"item":"a","extra":true}]"#.to_vec()),
        Err(TodoError::CorruptStore)
    );
}

#[test]
fn decode_rejects_bad_strings() {
    assert_eq!(decode(&br#"[{"item":"a\x","done":true}]"#.to_vec()), Err(TodoError::CorruptStore));
    assert_eq!(decode(&br#"[{"item":"a"#.to_vec()), Err(TodoError::CorruptStore));
    assert_eq!(
        decode(&br#"[{"item":"a\ud800b","done":true}]"#.to_vec()),
        Err(TodoError::CorruptStore)
    );
    assert_eq!(
        decode(&br#"[{"item":"a\u00zz","done":true}]"#.to_vec()),
        Err(TodoError::CorruptStore)
    );
    assert_eq!(decode(&b"[{\"item\":\"a\x02\",\"done\":true}]".to_vec()), Err(TodoError::CorruptStore));
}

#[test]
fn decode_rejects_malformed_json() {
    assert_eq!(decode(&b"{".to_vec()), Err(TodoError::CorruptStore));
    assert_eq!(decode(&b"[,]".to_vec()), Err(TodoError::CorruptStore));
    assert_eq!(decode(&br#"[{"item":"a","done":true},]"#.to_vec()), Err(TodoError::CorruptStore));
    assert_eq!(decode(&b"null".to_vec()), Err(TodoError::CorruptStore));
}

#[test]
fn encoded_form_is_json_for_serde() {
    let l = vec![item(b"buy milk", false), item("caf\u{e9} \"x\"\n".as_bytes(), true)];
    let bytes = encode(&l);
    let v: serde_json::Value = serde_json::from_slice(&bytes).unwrap();
    let arr = v.as_array().unwrap();
    assert_eq!(arr.len(), 2);
    assert_eq!(arr[0].get("item").unwrap().as_str().unwrap(), "buy milk");
    assert_eq!(arr[0].get("done").unwrap().as_bool().unwrap(), false);
    assert_eq!(arr[1].get("item").unwrap().as_str().unwrap(), "caf\u{e9} \"x\"\n");
    assert_eq!(arr[1].get("done").unwrap().as_bool().unwrap(), true);
}

#[test]
fn serde_written_form_decodes() {
    let mut obj = serde_json::Map::new();
    obj.insert("item".to_string(), serde_json::Value::String("buy milk".to_string()));
    obj.insert("done".to_string(), serde_json::Value::Bool(false));
    let v = serde_json::Value::Array(vec![serde_json::Value::Object(obj)]);
    let bytes = serde_json::to_string(&v).unwrap().into_bytes();
    let l = decode(&bytes).unwrap();
    assert_eq!(texts(&l), vec![b"buy milk".to_vec()]);
    assert_eq!(flags(&l), vec![false]);
}
