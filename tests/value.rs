use netidx_sub::value::{copy_bytes, Value};

#[test]
fn duplicate_keeps_content() {
    let v = Value::Bytes(vec![1, 2, 3]);
    assert_eq!(v.duplicate(), v);
    assert_eq!(copy_bytes(&vec![4, 5]), vec![4, 5]);
    let s = Value::Error("boom".to_string());
    assert_eq!(s.duplicate(), s);
}

#[test]
fn text_of_values() {
    assert_eq!(Value::Z32(-3).to_text(), "z32:-3");
    assert_eq!(Value::V64(10).to_text(), "v64:10");
    assert_eq!(Value::F32(1065353216).to_text(), "f32bits:1065353216");
    assert_eq!(Value::DateTime(-1, 0).to_text(), "datetime:-1s0ns");
    assert_eq!(Value::Null.to_text(), "null");
    assert_eq!(Value::False.to_text(), "false");
}

#[test]
fn same_compares_content() {
    assert!(Value::Bytes(vec![1, 2]).same(&Value::Bytes(vec![1, 2])));
    assert!(!Value::Bytes(vec![1, 2]).same(&Value::Bytes(vec![1])));
    assert!(!Value::U32(1).same(&Value::V32(1)));
    assert!(Value::String("a".to_string()).same(&Value::String("a".to_string())));
    assert!(!Value::Error("a".to_string()).same(&Value::String("a".to_string())));
    assert!(Value::Duration(1, 2).same(&Value::Duration(1, 2)));
}

use netidx_sub::value::{ChanId, IdGen, SubId};

#[test]
fn ids_are_never_reused() {
    let mut g = IdGen::new();
    assert_eq!(SubId::new(&mut g), Some(SubId(0)));
    assert_eq!(SubId::new(&mut g), Some(SubId(1)));
    assert_eq!(g.issue(), Some(2));
    let mut h = IdGen::new();
    assert_eq!(ChanId::new(&mut h), Some(ChanId(0)));
    assert_eq!(ChanId::new(&mut h), Some(ChanId(1)));
}
