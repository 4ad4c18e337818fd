use osc_ir::ir::{IrBundle, IrBundleElement, IrTimestamp, IrTimetag, IrValue};

#[test]
fn conversions_work() {
    assert_eq!(IrValue::from(true).as_bool(), Some(true));
    assert_eq!(IrValue::from(42_i32).as_integer(), Some(42));
    assert_eq!(
        IrValue::Float((3.5_f32 as f64).to_bits()).as_float(),
        Some(3.5_f64.to_bits())
    );
    assert_eq!(IrValue::from("hi").as_str(), Some("hi"));
    assert_eq!(
        IrValue::from(vec![1_u8, 2]).as_binary().unwrap().as_slice(),
        &[1, 2][..]
    );
    let arr = IrValue::from(vec![IrValue::from(1_i32), IrValue::from(2_i32)]);
    assert_eq!(arr.as_array().unwrap().len(), 2);
    let ts = IrTimestamp {
        seconds: 1,
        nanos: 2,
    };
    assert_eq!(IrValue::from(ts).as_timestamp(), Some(&ts));
}

#[test]
fn ext_and_default_helpers() {
    let ext = IrValue::Ext {
        type_id: 9,
        data: vec![0xAA, 0xBB],
    };
    let (id, data) = ext.as_ext().unwrap();
    assert_eq!(id, 9);
    assert_eq!(data.as_slice(), &[0xAA, 0xBB][..]);

    let default = IrValue::default();
    assert!(default.is_null());
    assert!(default.as_array().is_none());
}

#[test]
fn bundle_creation_and_nesting() {
    // Create an immediate bundle
    let mut bundle = IrBundle::immediate();
    assert!(bundle.is_immediate());
    assert!(bundle.is_empty());
    assert_eq!(bundle.len(), 0);

    // Add a message
    bundle.add_message(IrValue::from("hello"));
    assert!(!bundle.is_empty());
    assert_eq!(bundle.len(), 1);

    // Create a nested bundle
    let mut nested_bundle = IrBundle::new(IrTimetag::from_ntp(1000));
    assert!(!nested_bundle.is_immediate());
    nested_bundle.add_message(IrValue::from(42));
    nested_bundle.add_message(IrValue::from(true));

    // Add the nested bundle to the main bundle
    bundle.add_bundle(nested_bundle);
    assert_eq!(bundle.len(), 2);

    // Test element access
    assert!(bundle.elements[0].is_message());
    assert!(!bundle.elements[0].is_bundle());
    assert_eq!(
        bundle.elements[0].as_message().unwrap().as_str(),
        Some("hello")
    );

    assert!(!bundle.elements[1].is_message());
    assert!(bundle.elements[1].is_bundle());
    let nested = bundle.elements[1].as_bundle().unwrap();
    assert_eq!(nested.len(), 2);
    assert_eq!(nested.timetag.value, 1000);
}

#[test]
fn bundle_conversions() {
    // Test IrBundle -> IrValue conversion
    let bundle = IrBundle::immediate();
    let value = IrValue::from(bundle.clone());
    assert_eq!(value.as_bundle(), Some(&bundle));

    // Test IrValue -> IrBundleElement conversion
    let message = IrValue::from("test");
    let element = IrBundleElement::from(message.clone());
    assert!(element.is_message());
    assert_eq!(element.as_message(), Some(&message));

    // Test IrBundle -> IrBundleElement conversion
    let element = IrBundleElement::from(bundle.clone());
    assert!(element.is_bundle());
    assert_eq!(element.as_bundle(), Some(&bundle));
}

#[test]
fn timetag_functionality() {
    let immediate = IrTimetag::immediate();
    assert!(immediate.is_immediate());
    assert_eq!(immediate.value, 1);

    let ntp_time = IrTimetag::from_ntp(12345678);
    assert!(!ntp_time.is_immediate());
    assert_eq!(ntp_time.value, 12345678);
}

#[test]
fn complex_nested_bundle_structure() {
    // Create a complex nested structure
    let mut root_bundle = IrBundle::immediate();

    // Add some messages
    root_bundle.add_message(IrValue::from("root message 1"));
    root_bundle.add_message(IrValue::from(100));

    // Create first nested bundle
    let mut nested1 = IrBundle::new(IrTimetag::from_ntp(2000));
    nested1.add_message(IrValue::from("nested1 message"));

    // Create second nested bundle with its own nested bundle
    let mut nested2 = IrBundle::new(IrTimetag::from_ntp(3000));
    nested2.add_message(IrValue::from("nested2 message"));

    let mut deeply_nested = IrBundle::new(IrTimetag::from_ntp(4000));
    deeply_nested.add_message(IrValue::from("deeply nested message"));
    deeply_nested.add_message(IrValue::Float(3.14_f64.to_bits()));

    nested2.add_bundle(deeply_nested);

    // Add nested bundles to root
    root_bundle.add_bundle(nested1);
    root_bundle.add_bundle(nested2);

    // Verify structure
    assert_eq!(root_bundle.len(), 4); // 2 messages + 2 bundles
    assert!(root_bundle.elements[0].is_message());
    assert!(root_bundle.elements[1].is_message());
    assert!(root_bundle.elements[2].is_bundle());
    assert!(root_bundle.elements[3].is_bundle());

    // Check the second nested bundle contains a bundle
    let nested2_ref = root_bundle.elements[3].as_bundle().unwrap();
    assert_eq!(nested2_ref.len(), 2); // 1 message + 1 bundle
    assert!(nested2_ref.elements[1].is_bundle());

    // Check deeply nested bundle
    let deeply_nested_ref = nested2_ref.elements[1].as_bundle().unwrap();
    assert_eq!(deeply_nested_ref.len(), 2);
    assert_eq!(deeply_nested_ref.timetag.value, 4000);
}
