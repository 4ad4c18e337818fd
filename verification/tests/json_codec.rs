use base64::Engine;
use osc_ir::ir::{IrBundle, IrTimetag, IrValue};
use osc_ir::json::{from_json, to_json, JsonValue};

/// Looks a key up among an object's entries, first match.
fn get<'a>(entries: &'a [(String, JsonValue)], key: &str) -> Option<&'a JsonValue> {
    entries.iter().find(|(k, _)| k == key).map(|(_, v)| v)
}

#[test]
fn test_bundle_json_roundtrip() {
    // Create a bundle with messages and nested bundle
    let mut bundle = IrBundle::new(IrTimetag::from_ntp(12345));
    bundle.add_message(IrValue::from("hello"));
    bundle.add_message(IrValue::from(42));

    let mut nested_bundle = IrBundle::immediate();
    nested_bundle.add_message(IrValue::from(true));
    nested_bundle.add_message(IrValue::Float(3.14_f64.to_bits()));

    bundle.add_bundle(nested_bundle);

    let value = IrValue::Bundle(bundle.clone());

    // Convert to the tree and back
    let json = to_json(&value);
    let decoded = from_json(&json);

    assert_eq!(value, decoded);

    // Verify the structure is preserved
    if let IrValue::Bundle(decoded_bundle) = decoded {
        assert_eq!(decoded_bundle.timetag.value, 12345);
        assert_eq!(decoded_bundle.elements.len(), 3);

        // Check first message
        assert!(decoded_bundle.elements[0].is_message());
        assert_eq!(
            decoded_bundle.elements[0].as_message().unwrap().as_str(),
            Some("hello")
        );

        // Check second message
        assert!(decoded_bundle.elements[1].is_message());
        assert_eq!(
            decoded_bundle.elements[1].as_message().unwrap().as_integer(),
            Some(42)
        );

        // Check nested bundle
        assert!(decoded_bundle.elements[2].is_bundle());
        let nested = decoded_bundle.elements[2].as_bundle().unwrap();
        assert!(nested.is_immediate());
        assert_eq!(nested.elements.len(), 2);
    } else {
        panic!("Expected Bundle variant");
    }
}

#[test]
fn test_deeply_nested_bundle_json() {
    // Create a deeply nested bundle structure
    let mut root = IrBundle::immediate();
    root.add_message(IrValue::from("root"));

    let mut level1 = IrBundle::new(IrTimetag::from_ntp(1000));
    level1.add_message(IrValue::from("level1"));

    let mut level2 = IrBundle::new(IrTimetag::from_ntp(2000));
    level2.add_message(IrValue::from("level2"));

    level1.add_bundle(level2);
    root.add_bundle(level1);

    let value = IrValue::Bundle(root);

    // Test roundtrip
    let json = to_json(&value);
    let decoded = from_json(&json);
    assert_eq!(value, decoded);
}

#[test]
fn array_of_integer_and_string_roundtrips() {
    let value = IrValue::Array(vec![IrValue::Integer(42), IrValue::from("ok")]);
    let json = to_json(&value);
    let decoded = from_json(&json);
    assert_eq!(value, decoded);

    let bytes = osc_ir::msgpack::to_msgpack(&value);
    let from_bytes = osc_ir::msgpack::from_msgpack(&bytes);
    assert_eq!(value, from_bytes);
}

#[test]
fn binary_encodes_as_tagged_base64_object() {
    let value = IrValue::Binary(vec![0xAA, 0xBB, 0xCC, 0xDD]);
    let json = to_json(&value);
    let entries = match &json {
        JsonValue::Object(entries) => entries,
        other => panic!("expected object, got {:?}", other),
    };
    assert_eq!(
        get(entries, "$type"),
        Some(&JsonValue::Str(String::from("binary")))
    );
    assert_eq!(
        get(entries, "data"),
        Some(&JsonValue::Str(String::from("qrvM3Q==")))
    );
    let decoded = from_json(&json);
    assert_eq!(decoded, value);
}

#[test]
fn base64_matches_the_reference_encoder() {
    let samples: Vec<Vec<u8>> = vec![
        vec![],
        vec![0],
        vec![0xFF],
        vec![1, 2],
        vec![0xAA, 0xBB, 0xCC, 0xDD],
        (0u8..=255).collect(),
    ];
    for bytes in samples {
        let json = to_json(&IrValue::Binary(bytes.clone()));
        let entries = match &json {
            JsonValue::Object(entries) => entries,
            other => panic!("expected object, got {:?}", other),
        };
        let data = match get(entries, "data") {
            Some(JsonValue::Str(s)) => s.clone(),
            other => panic!("expected data string, got {:?}", other),
        };
        let expected = base64::engine::general_purpose::STANDARD.encode(&bytes);
        assert_eq!(data, expected);
        let back = base64::engine::general_purpose::STANDARD
            .decode(&data)
            .expect("reference decoder accepts the codec's base64");
        assert_eq!(back, bytes);
    }
}

#[test]
fn timestamp_and_ext_round_trip_exactly() {
    let ts = IrValue::Timestamp(osc_ir::ir::IrTimestamp {
        seconds: -7,
        nanos: 123_456_789,
    });
    assert_eq!(from_json(&to_json(&ts)), ts);

    let ext = IrValue::Ext {
        type_id: -4,
        data: vec![0x10, 0x20, 0x30],
    };
    assert_eq!(from_json(&to_json(&ext)), ext);
}

#[test]
fn big_integers_survive_the_tree() {
    // The tree keeps 64-bit integers whole; precision is only at risk in
    // consumers whose native number form is a 64-bit float.
    let big = IrValue::Integer((1_i64 << 53) + 1);
    assert_eq!(from_json(&to_json(&big)), big);
    let min = IrValue::Integer(i64::MIN);
    assert_eq!(from_json(&to_json(&min)), min);
}

#[test]
fn non_finite_float_becomes_null_in_the_tree() {
    let nan = IrValue::Float(f64::NAN.to_bits());
    assert_eq!(to_json(&nan), JsonValue::Null);
    let inf = IrValue::Float(f64::INFINITY.to_bits());
    assert_eq!(to_json(&inf), JsonValue::Null);
    let finite = IrValue::Float(1.5_f64.to_bits());
    assert_eq!(from_json(&to_json(&finite)), finite);
}

#[test]
fn reserved_tag_collision_decodes_as_tagged_value() {
    // A map whose own "$type" entry holds a reserved tag is read back as
    // the tagged special value, not as the original map: the documented
    // ambiguity of the text format.
    let tricky = IrValue::Mapping(vec![
        (String::from("$type"), IrValue::from("binary")),
        (String::from("data"), IrValue::from("qrvM3Q==")),
    ]);
    let decoded = from_json(&to_json(&tricky));
    assert_eq!(decoded, IrValue::Binary(vec![0xAA, 0xBB, 0xCC, 0xDD]));

    // An unrecognized "$type" string stays an ordinary map.
    let plain = IrValue::Mapping(vec![
        (String::from("$type"), IrValue::from("osc.message")),
        (String::from("address"), IrValue::from("/ok")),
    ]);
    assert_eq!(from_json(&to_json(&plain)), plain);
}

#[test]
fn malformed_tagged_objects_fall_back_to_defaults() {
    // A recognized tag with missing fields decodes with defaults rather
    // than failing.
    let bare_ts = JsonValue::Object(vec![(
        String::from("$type"),
        JsonValue::Str(String::from("timestamp")),
    )]);
    assert_eq!(
        from_json(&bare_ts),
        IrValue::Timestamp(osc_ir::ir::IrTimestamp {
            seconds: 0,
            nanos: 0
        })
    );

    let bare_bundle = JsonValue::Object(vec![(
        String::from("$type"),
        JsonValue::Str(String::from("bundle")),
    )]);
    let decoded = from_json(&bare_bundle);
    let bundle = decoded.as_bundle().expect("bundle with defaults");
    assert!(bundle.is_immediate());
    assert!(bundle.is_empty());

    // Undecodable base64 data decodes as an empty byte payload.
    let bad_data = JsonValue::Object(vec![
        (
            String::from("$type"),
            JsonValue::Str(String::from("binary")),
        ),
        (String::from("data"), JsonValue::Str(String::from("!!!"))),
    ]);
    assert_eq!(from_json(&bad_data), IrValue::Binary(vec![]));
}

#[test]
fn unsigned_numbers_above_the_signed_range_fall_back_to_float() {
    // A number node holding an unsigned value the signed form cannot hold
    // decodes as the nearest double, ties to even.
    let samples: Vec<u64> = vec![
        (i64::MAX as u64) + 1,
        u64::MAX,
        u64::MAX - 1023,
        (1_u64 << 63) + 1024,
        (1_u64 << 63) + 1025,
        (1_u64 << 63) + 3072,
        0xDEAD_BEEF_DEAD_BEEF,
    ];
    for u in samples {
        let decoded = from_json(&JsonValue::UInt(u));
        assert_eq!(decoded, IrValue::Float((u as f64).to_bits()));
    }
    // Within the signed range the integer stays an integer.
    assert_eq!(
        from_json(&JsonValue::UInt(i64::MAX as u64)),
        IrValue::Integer(i64::MAX)
    );
}
