use osc_ir::ir::{IrBundle, IrTimestamp, IrTimetag, IrValue};
use osc_ir::msgpack::{from_msgpack, to_msgpack, try_from_msgpack, try_to_msgpack, DecodeError};
use rmpv::decode::read_value;
use rmpv::Value;
use std::io::Cursor;

#[test]
fn roundtrip_timestamp() {
    let value = IrValue::from(IrTimestamp {
        seconds: 123,
        nanos: 456,
    });
    let bytes = try_to_msgpack(&value).expect("encode");
    let decoded = try_from_msgpack(&bytes).expect("decode");
    assert_eq!(value, decoded);
}

#[test]
fn roundtrip_complex_structure() {
    let value = IrValue::Mapping(vec![
        ("msg".into(), IrValue::from("hello")),
        ("bin".into(), IrValue::from(vec![1_u8, 2, 3])),
        (
            "ext".into(),
            IrValue::Ext {
                type_id: -4,
                data: vec![0x10, 0x20, 0x30],
            },
        ),
    ]);

    let bytes = to_msgpack(&value);
    let decoded = from_msgpack(&bytes);
    assert_eq!(decoded, value);
}

#[test]
fn roundtrip_bundle() {
    let mut bundle = IrBundle::new(IrTimetag::from_ntp(12345));
    bundle.add_message(IrValue::from("hello"));
    bundle.add_message(IrValue::from(42));

    let mut nested_bundle = IrBundle::immediate();
    nested_bundle.add_message(IrValue::from(true));

    bundle.add_bundle(nested_bundle);

    let value = IrValue::Bundle(bundle);
    let bytes = to_msgpack(&value);
    let decoded = from_msgpack(&bytes);
    assert_eq!(decoded, value);
}

#[test]
fn roundtrip_deeply_nested_bundle() {
    // Create a deeply nested bundle structure
    let mut root = IrBundle::immediate();
    root.add_message(IrValue::from("root"));

    let mut level1 = IrBundle::new(IrTimetag::from_ntp(1000));
    level1.add_message(IrValue::from("level1"));

    let mut level2 = IrBundle::new(IrTimetag::from_ntp(2000));
    level2.add_message(IrValue::from("level2"));

    level1.add_bundle(level2);
    root.add_bundle(level1);

    let value = IrValue::Bundle(root);

    // Test roundtrip
    let bytes = to_msgpack(&value);
    let decoded = from_msgpack(&bytes);
    assert_eq!(value, decoded);
}

#[test]
fn roundtrip_osc_message_like() {
    // Construct an IrValue that matches the adapter's message representation
    let value = IrValue::Mapping(vec![
        ("$type".into(), IrValue::from("osc.message")),
        ("address".into(), IrValue::from("/test")),
        (
            "args".into(),
            IrValue::Array(vec![
                IrValue::Integer(7),
                IrValue::Float(1.5_f64.to_bits()),
                IrValue::from("text"),
                IrValue::Binary(vec![1_u8, 2, 3]),
            ]),
        ),
    ]);

    let bytes = to_msgpack(&value);
    let decoded = from_msgpack(&bytes);

    // Structure-preserving roundtrip
    assert_eq!(decoded, value);

    // Extract and validate fields similar to message extraction
    let map = decoded.as_map().expect("expected map");
    let address = map
        .iter()
        .find(|(k, _)| k == "address")
        .unwrap()
        .1
        .as_str();
    assert_eq!(address, Some("/test"));

    let args = map
        .iter()
        .find(|(k, _)| k == "args")
        .unwrap()
        .1
        .as_array()
        .expect("expected args array");

    assert_eq!(args.len(), 4);
    assert_eq!(args[0].as_integer(), Some(7));
    assert!((f64::from_bits(args[1].as_float().unwrap()) - 1.5).abs() < f64::EPSILON);
    assert_eq!(args[2].as_str(), Some("text"));
    assert_eq!(args[3].as_binary().unwrap().as_slice(), &[1_u8, 2, 3][..]);
}

/// Unwraps serde's externally tagged enum representation.
fn unwrap_enum(v: &rmpv::Value) -> (&str, &rmpv::Value) {
    match v {
        // Map form: { "Variant": payload }
        rmpv::Value::Map(kv) if kv.len() == 1 => {
            let (k, v) = &kv[0];
            let name = match k {
                rmpv::Value::String(s) => s.as_str().expect("variant name"),
                _ => panic!("invalid enum key"),
            };
            (name, v)
        }
        // Array form: ["Variant", payload]
        rmpv::Value::Array(items) if items.len() == 2 => {
            let name = match &items[0] {
                rmpv::Value::String(s) => s.as_str().expect("invalid enum tag array"),
                _ => panic!("invalid enum tag array"),
            };
            (name, &items[1])
        }
        other => panic!("unexpected enum encoding: {:?}", other),
    }
}

#[test]
fn msgpack_bytes_are_valid_and_match_contents() {
    // Prepare an OSC-like message map as IrValue
    let value = IrValue::Mapping(vec![
        ("$type".into(), IrValue::from("osc.message")),
        ("address".into(), IrValue::from("/validate")),
        (
            "args".into(),
            IrValue::Array(vec![
                IrValue::Integer(123),
                IrValue::Float((-2.5_f64).to_bits()),
                IrValue::from("ok"),
                IrValue::Binary(vec![0xAA, 0xBB]),
            ]),
        ),
    ]);

    // Encode to MessagePack
    let bytes = to_msgpack(&value);

    // Ensure bytes are valid MessagePack by decoding with rmpv
    let mut cursor = Cursor::new(&bytes);
    let root = read_value(&mut cursor).expect("must decode as msgpack Value");

    // Root must be the Mapping variant, named "Map" on the wire
    let (root_variant, root_payload) = unwrap_enum(&root);
    assert_eq!(root_variant, "Map");

    // Payload is the entry list serialized as array of 2-element arrays
    let entries = match root_payload {
        Value::Array(a) => a,
        other => panic!("expected entries array, got {:?}", other),
    };

    // Collect into hashmap-like view: key -> encoded value
    let get = |key: &str| -> &Value {
        entries
            .iter()
            .find_map(|entry| match entry {
                Value::Array(items) if items.len() == 2 => match (&items[0], &items[1]) {
                    (Value::String(s), v) if s.as_str() == Some(key) => Some(v),
                    _ => None,
                },
                _ => None,
            })
            .expect("entry not found")
    };

    // $type: a string value with payload "osc.message"
    let (ty_variant, ty_payload) = unwrap_enum(get("$type"));
    assert_eq!(ty_variant, "String");
    assert!(matches!(ty_payload, Value::String(s) if s.as_str() == Some("osc.message")));

    // address: a string value with payload "/validate"
    let (addr_variant, addr_payload) = unwrap_enum(get("address"));
    assert_eq!(addr_variant, "String");
    assert!(matches!(addr_payload, Value::String(s) if s.as_str() == Some("/validate")));

    // args: an array value holding the encoded arguments
    let (args_variant, args_payload) = unwrap_enum(get("args"));
    assert_eq!(args_variant, "Array");
    let args = match args_payload {
        Value::Array(a) => a,
        other => panic!("expected args payload array, got {:?}", other),
    };
    assert_eq!(args.len(), 4);

    // 0: Integer(123)
    let (v0_variant, v0_payload) = unwrap_enum(&args[0]);
    assert_eq!(v0_variant, "Integer");
    assert!(matches!(v0_payload, Value::Integer(i) if i.as_i64() == Some(123)));

    // 1: Float(-2.5)
    let (v1_variant, v1_payload) = unwrap_enum(&args[1]);
    assert_eq!(v1_variant, "Float");
    assert!(matches!(v1_payload, Value::F64(x) if (*x + 2.5).abs() < f64::EPSILON));

    // 2: String("ok")
    let (v2_variant, v2_payload) = unwrap_enum(&args[2]);
    assert_eq!(v2_variant, "String");
    assert!(matches!(v2_payload, Value::String(s) if s.as_str() == Some("ok")));

    // 3: Binary([0xAA, 0xBB])
    let (v3_variant, v3_payload) = unwrap_enum(&args[3]);
    assert_eq!(v3_variant, "Binary");
    assert!(matches!(v3_payload, Value::Binary(b) if b.as_slice() == [0xAA, 0xBB]));
}

#[test]
fn exact_bytes_of_small_values() {
    // A unit variant is the bare name string.
    assert_eq!(to_msgpack(&IrValue::Null), b"\xa4Null".to_vec());
    // A one-entry map from the variant name to its payload.
    assert_eq!(to_msgpack(&IrValue::Bool(true)), b"\x81\xa4Bool\xc3".to_vec());
    assert_eq!(
        to_msgpack(&IrValue::Integer(7)),
        b"\x81\xa7Integer\x07".to_vec()
    );
    assert_eq!(
        to_msgpack(&IrValue::Integer(-1)),
        b"\x81\xa7Integer\xff".to_vec()
    );
    assert_eq!(
        to_msgpack(&IrValue::Binary(vec![0xAA, 0xBB])),
        b"\x81\xa6Binary\xc4\x02\xaa\xbb".to_vec()
    );
}

#[test]
fn integer_extremes_round_trip() {
    for v in [
        0_i64,
        127,
        128,
        255,
        256,
        65535,
        65536,
        -1,
        -32,
        -33,
        -128,
        -129,
        -32768,
        -32769,
        i64::MAX,
        i64::MIN,
    ] {
        let value = IrValue::Integer(v);
        let decoded = from_msgpack(&to_msgpack(&value));
        assert_eq!(decoded, value);
    }
    for t in [0_u64, 1, 2, 12345, u64::MAX] {
        let value = IrValue::Bundle(IrBundle::new(IrTimetag::from_ntp(t)));
        let decoded = from_msgpack(&to_msgpack(&value));
        assert_eq!(decoded, value);
    }
}

#[test]
fn ext_type_id_preserved_exactly() {
    let value = IrValue::Ext {
        type_id: -4,
        data: vec![0x10, 0x20, 0x30],
    };
    let bytes = to_msgpack(&value);
    let decoded = from_msgpack(&bytes);
    match decoded {
        IrValue::Ext { type_id, data } => {
            assert_eq!(type_id, -4);
            assert_eq!(data, vec![0x10, 0x20, 0x30]);
        }
        other => panic!("expected ext payload, got {:?}", other),
    }
}

#[test]
fn decode_errors_are_distinguished() {
    // Cut short in the middle of a value.
    assert_eq!(
        try_from_msgpack(b"\x81\xa7Integer"),
        Err(DecodeError::Truncated)
    );
    assert_eq!(try_from_msgpack(b""), Err(DecodeError::Truncated));

    // A well-formed map naming a variant the model does not know.
    assert_eq!(
        try_from_msgpack(b"\x81\xa4Nope\x07"),
        Err(DecodeError::UnknownTag)
    );
    assert_eq!(try_from_msgpack(b"\xa4Nope"), Err(DecodeError::UnknownTag));

    // Bytes outside the grammar: a stray marker, or trailing garbage.
    assert_eq!(try_from_msgpack(b"\xc1"), Err(DecodeError::Malformed));
    assert_eq!(
        try_from_msgpack(b"\xa4Null\x00"),
        Err(DecodeError::Malformed)
    );
}
