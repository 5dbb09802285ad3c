use pktflow::flows::key::flow_key;
use pktflow::identity::{
    Canonicalize, FlowKey, KeyError, KeyField, KeyRule, PacketDirection, StreamIdentity,
};
use pktflow::value::{FieldMap, Value};

const SINGLE: &[KeyField] = &[KeyField {
    a: "a0",
    b: Some("b0"),
}];

fn identity(key: &'static [KeyField]) -> StreamIdentity {
    StreamIdentity {
        key,
        canonicalize: Canonicalize::EndpointSort,
        lifecycle: None,
        rollups: &[],
    }
}

fn map_of(entries: &[(&'static str, &Value)]) -> FieldMap {
    let mut m = FieldMap::new();
    for (name, v) in entries {
        m.insert(name, (*v).clone());
    }
    m
}

#[test]
fn common_keys_stay_inline() {
    // MAC pair, IPv6 pair, port pair: all within 40
    // bytes.
    let cases: [(Value, Value); 3] = [
        (
            Value::from(&[0x00u8, 0x1B, 0x44, 0x11, 0x3A, 0xB7][..]),
            Value::from(&[0x00u8, 0x1B, 0x44, 0x11, 0x3A, 0xB8][..]),
        ),
        (
            Value::from(&[0x20u8; 16][..]),
            Value::from(&[0xFEu8; 16][..]),
        ),
        (Value::U64(443), Value::U64(49152)),
    ];
    for (va, vb) in &cases {
        let (key, _) =
            flow_key(&identity(SINGLE), &map_of(&[("a0", va), ("b0", vb)])).expect("present");
        assert!(
            key.as_bytes().len() <= 40,
            "key of {} bytes would spill",
            key.as_bytes().len()
        );
    }
}

#[test]
fn missing_field_is_reported_by_name() {
    let m = map_of(&[("a0", &Value::U64(1))]); // b0 absent
    assert_eq!(
        flow_key(&identity(SINGLE), &m),
        Err(KeyError::MissingField("b0"))
    );
}

#[test]
fn nested_list_boundaries_do_not_alias() {
    // ["ab","c"] vs ["a","bc"]: same concatenated content, different
    // keys — the length prefixes do their job.
    let l1 = Value::List(vec![Value::from("ab"), Value::from("c")]);
    let l2 = Value::List(vec![Value::from("a"), Value::from("bc")]);
    let shared = Value::U64(0);
    let ident = identity(SINGLE);
    let (k1, _) = flow_key(&ident, &map_of(&[("a0", &l1), ("b0", &shared)])).expect("ok");
    let (k2, _) = flow_key(&ident, &map_of(&[("a0", &l2), ("b0", &shared)])).expect("ok");
    assert_ne!(k1, k2);
}

/// A rule that pays no heed to the fields.
struct Fixed;

impl KeyRule for Fixed {
    fn key(&self, _: &FieldMap) -> Result<(FlowKey, PacketDirection), KeyError> {
        Ok((FlowKey::from_bytes(b"custom"), PacketDirection::BtoA))
    }
}

#[test]
fn custom_rule_is_called_verbatim() {
    let ident = StreamIdentity {
        key: SINGLE,
        canonicalize: Canonicalize::Custom(&Fixed),
        lifecycle: None,
        rollups: &[],
    };
    let (key, dir) = flow_key(&ident, &FieldMap::new()).expect("custom");
    assert_eq!(key.as_bytes(), b"custom");
    assert_eq!(dir, PacketDirection::BtoA);
}
