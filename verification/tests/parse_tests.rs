use pin_tracker::pin::{ErrorKind, PinOperation, PinValue, Temperature};

const NOW: i64 = 1_700_000_000_000;

#[test]
fn test_parse_current_analog() {
    let op = PinOperation::from_message("node1/current/analog/3", "2342", NOW).unwrap();
    assert_eq!(op.node, "node1".to_string());
    assert_eq!(op.pin_state.pin, 3);
    assert_eq!(op.pin_state.value, PinValue::Analog(2342));
    assert_eq!(op.pin_state.dt, NOW);
    assert_eq!(op.pin_state.until, None);
}

#[test]
fn test_parse_timeout_analog() {
    let op = PinOperation::from_message("node1/timeout/3600/analog/8", "2332", NOW).unwrap();
    assert_eq!(op.node, "node1".to_string());
    assert_eq!(op.pin_state.pin, 8);
    assert_eq!(op.pin_state.value, PinValue::Analog(2332));
    assert_eq!(op.pin_state.dt, NOW);
    assert_eq!(op.pin_state.until, Some(NOW + 3_600_000));
}

#[test]
fn test_parse_current_digital_and_temperature() {
    let op = PinOperation::from_message("cellar/node2/current/digital/5", "1", NOW).unwrap();
    // The node name is the whole remaining leading path.
    assert_eq!(op.node, "cellar/node2".to_string());
    assert_eq!(op.pin_state.value, PinValue::Digital(true));

    let op = PinOperation::from_message("node1/current/temperature/5", "32.23", NOW).unwrap();
    assert_eq!(op.pin_state.value, PinValue::Temperature(Temperature::new(32_230)));
}

#[test]
fn test_parse_multisegment_node() {
    let op = PinOperation::from_message("a/b/current/analog/3", "17", NOW).unwrap();
    assert_eq!(op.node, "a/b".to_string());
    assert_eq!(op.pin_state.until, None);

    let op = PinOperation::from_message("x/y/timeout/10/analog/3", "17", NOW).unwrap();
    assert_eq!(op.node, "x/y".to_string());
    assert_eq!(op.pin_state.until, Some(NOW + 10_000));
}

#[test]
fn test_parse_pin_bounds() {
    let op = PinOperation::from_message("n/current/digital/255", "1", NOW).unwrap();
    assert_eq!(op.pin_state.pin, 255);
    let r = PinOperation::from_message("n/current/digital/256", "1", NOW);
    assert_eq!(r.unwrap_err(), ErrorKind::InvalidPin);
}

#[test]
fn test_parse_expiry_saturates() {
    let near_end = i64::MAX - 1_000;
    let op = PinOperation::from_message("n/timeout/3600/analog/1", "5", near_end).unwrap();
    assert_eq!(op.pin_state.until, Some(i64::MAX));
}

#[test]
fn test_parse_bad_topic_fails() {
    let r = PinOperation::from_message("bad/topic", "2342", NOW);
    assert_eq!(r.unwrap_err(), ErrorKind::InvalidPin);
}

#[test]
fn test_parse_error_taxonomy() {
    let e = |topic: &str, payload: &str| PinOperation::from_message(topic, payload, NOW).unwrap_err();
    assert_eq!(e("node1/current/analog/300", "5"), ErrorKind::InvalidPin);
    assert_eq!(e("3", "5"), ErrorKind::MissingKind);
    assert_eq!(e("analog/3", "5"), ErrorKind::MalformedTopic);
    assert_eq!(e("current/analog/3", "5"), ErrorKind::MissingNode);
    assert_eq!(e("/current/analog/3", "5"), ErrorKind::MissingNode);
    assert_eq!(e("timeout/10/analog/3", "5"), ErrorKind::MissingNode);
    assert_eq!(e("node1/xx/10/analog/3", "5"), ErrorKind::MissingTimeoutMarker);
    assert_eq!(e("node1/timeout/abc/analog/3", "5"), ErrorKind::InvalidTimeout);
    assert_eq!(e("node1/current/foo/3", "5"), ErrorKind::UnknownValueKind);
    assert_eq!(e("node1/current/digital/3", "256"), ErrorKind::InvalidDigitalPayload);
    assert_eq!(e("node1/current/analog/3", "70000"), ErrorKind::InvalidAnalogPayload);
    assert_eq!(e("node1/current/temperature/3", "abc"), ErrorKind::InvalidTemperaturePayload);
}

#[test]
fn test_decode_digital() {
    assert_eq!(PinValue::from_string("digital", "1"), Ok(PinValue::Digital(true)));
    assert_eq!(PinValue::from_string("digital", "0"), Ok(PinValue::Digital(false)));
    assert_eq!(PinValue::from_string("digital", "255"), Ok(PinValue::Digital(true)));
    assert_eq!(
        PinValue::from_string("digital", "x"),
        Err(ErrorKind::InvalidDigitalPayload)
    );
}

#[test]
fn test_decode_analog() {
    assert_eq!(PinValue::from_string("analog", "1023"), Ok(PinValue::Analog(1023)));
    assert_eq!(PinValue::from_string("analog", "0"), Ok(PinValue::Analog(0)));
    assert_eq!(PinValue::from_string("analog", "65535"), Ok(PinValue::Analog(65535)));
    assert_eq!(
        PinValue::from_string("analog", "-1"),
        Err(ErrorKind::InvalidAnalogPayload)
    );
}

#[test]
fn test_decode_temperature() {
    let t = |s: &str| PinValue::from_string("temperature", s);
    assert_eq!(t("32.23"), Ok(PinValue::Temperature(Temperature::new(32_230))));
    assert_eq!(t("20"), Ok(PinValue::Temperature(Temperature::new(20_000))));
    assert_eq!(t("-3.5"), Ok(PinValue::Temperature(Temperature::new(-3_500))));
    assert_eq!(t("0.0625"), Ok(PinValue::Temperature(Temperature::new(62))));
    assert_eq!(t("1.2.3"), Err(ErrorKind::InvalidTemperaturePayload));
    assert_eq!(t(""), Err(ErrorKind::InvalidTemperaturePayload));
    assert_eq!(t("-"), Err(ErrorKind::InvalidTemperaturePayload));
}

#[test]
fn test_decode_unknown_kind() {
    assert_eq!(
        PinValue::from_string("voltage", "5"),
        Err(ErrorKind::UnknownValueKind)
    );
}
