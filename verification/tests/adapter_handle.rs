use osc_ir::adapter::{message_to_ir_map, try_extract_message};
use osc_ir::handle::{OscFfiError, OscMessageHandle};
use osc_ir::ir::IrValue;
use osc_ir::msgpack::{try_from_msgpack, try_to_msgpack};

#[test]
fn mismatched_type_tag_is_rejected() {
    let value = IrValue::Mapping(vec![
        ("$type".into(), IrValue::from("osc.bundle")),
        ("address".into(), IrValue::from("/bad")),
        ("args".into(), IrValue::Array(vec![])),
    ]);

    assert!(try_extract_message(&value).is_none());
}

#[test]
fn missing_type_tag_defaults_to_message() {
    let value = IrValue::Mapping(vec![
        ("address".into(), IrValue::from("/no-tag")),
        ("args".into(), IrValue::Array(vec![])),
    ]);

    let extracted = try_extract_message(&value).expect("expected message extraction");
    assert_eq!(extracted.0, "/no-tag");
    assert!(extracted.1.is_empty());
}

#[test]
fn message_map_extracts_back() {
    let args = vec![
        IrValue::Integer(42),
        IrValue::Float(0.5_f64.to_bits()),
        IrValue::from("text"),
        IrValue::Binary(vec![1, 2, 3]),
    ];
    let ir = message_to_ir_map("/basic", args.clone());

    let entries = match &ir {
        IrValue::Mapping(entries) => entries,
        _ => panic!("expected map"),
    };
    assert_eq!(entries.len(), 3);
    let ty = entries.iter().find(|(key, _)| key == "$type").unwrap();
    assert_eq!(ty.1, IrValue::from("osc.message"));
    let address = entries.iter().find(|(key, _)| key == "address").unwrap();
    assert_eq!(address.1, IrValue::from("/basic"));

    let (addr, extracted_args) = try_extract_message(&ir).expect("expected successful conversion");
    assert_eq!(addr, "/basic");
    assert_eq!(extracted_args, args);
}

#[test]
fn non_string_address_is_rejected() {
    let value = IrValue::Mapping(vec![
        ("address".into(), IrValue::Integer(1)),
        ("args".into(), IrValue::Array(vec![])),
    ]);
    assert!(try_extract_message(&value).is_none());

    let no_address = IrValue::Mapping(vec![("args".into(), IrValue::Array(vec![]))]);
    assert!(try_extract_message(&no_address).is_none());

    assert!(try_extract_message(&IrValue::from("not a map")).is_none());
}

#[test]
fn later_entries_shadow_earlier_ones() {
    let value = IrValue::Mapping(vec![
        ("address".into(), IrValue::from("/first")),
        ("address".into(), IrValue::from("/second")),
        ("args".into(), IrValue::Array(vec![IrValue::Bool(true)])),
    ]);
    let (addr, args) = try_extract_message(&value).expect("expected message");
    assert_eq!(addr, "/second");
    assert_eq!(args, vec![IrValue::Bool(true)]);
}

#[test]
fn handle_builds_a_message_and_serializes() {
    let mut handle = OscMessageHandle::new(String::from("/ffi/test"));
    assert_eq!(handle.push_arg(IrValue::Integer(42)), OscFfiError::Success);
    assert_eq!(
        handle.push_arg(IrValue::Float((1.5_f32 as f64).to_bits())),
        OscFfiError::Success
    );
    assert_eq!(
        handle.push_arg(IrValue::from("hello")),
        OscFfiError::Success
    );
    assert_eq!(
        handle.push_arg(IrValue::Binary(vec![1, 2, 3, 4])),
        OscFfiError::Success
    );

    let ir = handle.to_ir_value();
    let bytes = try_to_msgpack(&ir).expect("serialize");
    let value = try_from_msgpack(&bytes).expect("decode");
    let map = value.as_map().expect("map");
    assert_eq!(map.len(), 3);

    let args_value = map
        .iter()
        .find(|(k, _)| k == "args")
        .map(|(_, v)| v)
        .expect("args");
    let args = args_value.as_array().expect("array");
    assert_eq!(args.len(), 4);
    assert_eq!(args[0].as_integer(), Some(42));
    assert!((f64::from_bits(args[1].as_float().unwrap()) - 1.5).abs() < f64::EPSILON);
    assert_eq!(args[2].as_str(), Some("hello"));
    assert_eq!(args[3].as_binary().unwrap().as_slice(), &[1_u8, 2, 3, 4][..]);
}
