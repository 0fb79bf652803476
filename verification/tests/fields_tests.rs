use dofus_decoder::{Fields, Value};

#[test]
fn insert_keeps_first_position_on_overwrite() {
    let mut f = Fields::new();
    f.insert("a".to_string(), Value::U8(1));
    f.insert("b".to_string(), Value::U8(2));
    f.insert("a".to_string(), Value::U8(9));
    assert_eq!(f.len(), 2);
    assert_eq!(f.key_at(0).as_str(), "a");
    assert_eq!(f.key_at(1).as_str(), "b");
    assert!(matches!(f.value_at(0), Value::U8(9)));
}

#[test]
fn fresh_keys_append_in_order() {
    let mut f = Fields::new();
    f.insert("x".to_string(), Value::Bool(true));
    f.insert("y".to_string(), Value::Null);
    f.insert("z".to_string(), Value::I32(-5));
    assert_eq!(f.len(), 3);
    assert_eq!(f.key_at(0).as_str(), "x");
    assert_eq!(f.key_at(1).as_str(), "y");
    assert_eq!(f.key_at(2).as_str(), "z");
}

#[test]
fn get_finds_first_match_or_nothing() {
    let mut f = Fields::new();
    f.insert("k".to_string(), Value::U16(7));
    assert!(matches!(f.get(&"k".to_string()), Some(Value::U16(7))));
    assert!(f.get(&"missing".to_string()).is_none());
}

#[test]
fn merge_moves_entries_in_order() {
    let mut a = Fields::new();
    a.insert("one".to_string(), Value::U8(1));
    let mut b = Fields::new();
    b.insert("two".to_string(), Value::U8(2));
    b.insert("one".to_string(), Value::U8(11));
    a.merge(b);
    assert_eq!(a.len(), 2);
    assert_eq!(a.key_at(0).as_str(), "one");
    assert_eq!(a.key_at(1).as_str(), "two");
    assert!(matches!(a.value_at(0), Value::U8(11)));
    assert!(matches!(a.value_at(1), Value::U8(2)));
}

#[test]
fn capture_handle_constructs() {
    let _c = dofus_decoder::PacketCapture::new();
}
