use osc_ir::ir::{IrBundle, IrTimetag, IrValue};

#[test]
fn json_roundtrip() {
    let v = IrValue::Array(vec![IrValue::Integer(1), IrValue::Bool(true)]);
    let j = osc_ir::json::to_json(&v);
    let v2 = osc_ir::json::from_json(&j);
    assert_eq!(v, v2);
}

#[test]
fn msgpack_roundtrip() {
    let v = IrValue::from("ping");
    let mp = osc_ir::msgpack::to_msgpack(&v);
    let v2 = osc_ir::msgpack::from_msgpack(&mp);
    assert_eq!(v, v2);
}

#[test]
fn bundle_json_roundtrip() {
    let mut bundle = IrBundle::new(IrTimetag::from_ntp(12345));
    bundle.add_message(IrValue::from("hello world"));
    bundle.add_message(IrValue::from(42));

    let mut nested = IrBundle::immediate();
    nested.add_message(IrValue::from(true));
    nested.add_message(IrValue::Float(3.14_f64.to_bits()));
    bundle.add_bundle(nested);

    let v = IrValue::Bundle(bundle);
    let j = osc_ir::json::to_json(&v);
    let v2 = osc_ir::json::from_json(&j);
    assert_eq!(v, v2);
}

#[test]
fn bundle_msgpack_roundtrip() {
    let mut bundle = IrBundle::new(IrTimetag::from_ntp(54321));
    bundle.add_message(IrValue::from("msgpack test"));
    bundle.add_message(IrValue::from(-123));

    let mut nested = IrBundle::immediate();
    nested.add_message(IrValue::from(false));
    nested.add_message(IrValue::from(vec![1_u8, 2, 3, 4]));
    bundle.add_bundle(nested);

    let v = IrValue::Bundle(bundle);
    let mp = osc_ir::msgpack::to_msgpack(&v);
    let v2 = osc_ir::msgpack::from_msgpack(&mp);
    assert_eq!(v, v2);
}

#[test]
fn cross_codec_bundle_compatibility() {
    // Create a complex nested bundle
    let mut root = IrBundle::immediate();
    root.add_message(IrValue::from("cross-codec test"));

    let mut level1 = IrBundle::new(IrTimetag::from_ntp(1000));
    level1.add_message(IrValue::from(42));

    let mut level2 = IrBundle::new(IrTimetag::from_ntp(2000));
    level2.add_message(IrValue::from(true));
    level2.add_message(IrValue::from(vec![0xAA_u8, 0xBB, 0xCC]));

    level1.add_bundle(level2);
    root.add_bundle(level1);

    let original = IrValue::Bundle(root);

    // Test the text-tree roundtrip
    let json = osc_ir::json::to_json(&original);
    let from_json = osc_ir::json::from_json(&json);
    assert_eq!(original, from_json);

    // Test the MessagePack roundtrip
    let msgpack = osc_ir::msgpack::to_msgpack(&original);
    let from_msgpack = osc_ir::msgpack::from_msgpack(&msgpack);
    assert_eq!(original, from_msgpack);

    // Cross-codec compatibility: both should produce the same result
    assert_eq!(from_json, from_msgpack);
}

#[test]
fn bundle_with_binary_round_trips_both_codecs() {
    let mut nested = IrBundle::immediate();
    nested.add_message(IrValue::Bool(true));
    nested.add_message(IrValue::Binary(vec![0xAA, 0xBB, 0xCC, 0xDD]));

    let mut bundle = IrBundle::new(IrTimetag::from_ntp(12345));
    bundle.add_message(IrValue::from("first"));
    bundle.add_message(IrValue::from("second"));
    bundle.add_bundle(nested);

    let v = IrValue::Bundle(bundle);

    let from_tree = osc_ir::json::from_json(&osc_ir::json::to_json(&v));
    assert_eq!(from_tree, v);

    let from_bytes = osc_ir::msgpack::from_msgpack(&osc_ir::msgpack::to_msgpack(&v));
    assert_eq!(from_bytes, v);

    // Element order and kinds survive both codecs.
    let bundle = from_bytes.as_bundle().unwrap();
    assert!(bundle.elements[0].is_message());
    assert!(bundle.elements[1].is_message());
    assert!(bundle.elements[2].is_bundle());
    let nested = bundle.elements[2].as_bundle().unwrap();
    assert_eq!(nested.timetag.value, 1);
    assert_eq!(
        nested.elements[1]
            .as_message()
            .unwrap()
            .as_binary()
            .unwrap()
            .as_slice(),
        &[0xAA, 0xBB, 0xCC, 0xDD][..]
    );
}
