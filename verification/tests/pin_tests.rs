use pin_tracker::collection::PinCollection;
use pin_tracker::pin::{PinState, PinValue, Temperature};

fn millis_now() -> i64 {
    chrono::Local::now().timestamp_millis()
}

#[test]
fn test_pin_collection_is_on_off() {
    let mut col = PinCollection::default();
    assert_eq!(col.is_on(), false);

    // 20.5 degrees in fixed-point thousandths.
    col.push(&PinState {
        pin: 3_u8,
        value: PinValue::Temperature(Temperature::new(20_500)),
        dt: millis_now(),
        until: None,
    });
    assert_eq!(col.is_on(), false);
    assert_eq!(col.is_off(), false);

    col.push(&PinState {
        pin: 1_u8,
        value: PinValue::Analog(123_u16),
        dt: millis_now(),
        until: None,
    });
    assert_eq!(col.is_on(), true);
    assert_eq!(col.is_off(), false);

    col.push(&PinState {
        pin: 1_u8,
        value: PinValue::Analog(0_u16),
        dt: millis_now(),
        until: None,
    });
    assert_eq!(col.is_on(), false);
    assert_eq!(col.is_off(), true);

    col.push(&PinState {
        pin: 1_u8,
        value: PinValue::Analog(123_u16),
        dt: millis_now(),
        until: Some(millis_now() + 3_000),
    });
    assert_eq!(col.is_on(), true);
    assert_eq!(col.is_off(), false);

    // turn off first
    col.push(&PinState {
        pin: 1_u8,
        value: PinValue::Analog(0_u16),
        dt: millis_now(),
        until: None,
    });
    col.push(&PinState {
        pin: 1_u8,
        value: PinValue::Analog(123_u16),
        dt: millis_now(),
        until: Some(millis_now() - 3_000),
    });
    assert_eq!(col.is_on(), false);
    assert_eq!(col.is_off(), false);
}

#[test]
fn test_pin_collection_get_average_temperature() {
    let mut col = PinCollection::default();
    let since = millis_now() - 100_000;
    assert_eq!(col.get_average_temperature(since), None);

    col.push(&PinState {
        pin: 3_u8,
        value: PinValue::Temperature(Temperature::new(20_000)),
        dt: millis_now(),
        until: None,
    });
    assert_eq!(col.get_average_temperature(since).unwrap(), Temperature::new(20_000));

    col.push(&PinState {
        pin: 3_u8,
        value: PinValue::Temperature(Temperature::new(10_000)),
        dt: millis_now(),
        until: None,
    });
    assert_eq!(col.get_average_temperature(since).unwrap(), Temperature::new(15_000));

    col.push(&PinState {
        pin: 3_u8,
        value: PinValue::Temperature(Temperature::new(18_000)),
        dt: millis_now(),
        until: None,
    });
    assert_eq!(col.get_average_temperature(since).unwrap(), Temperature::new(16_000));

    assert_eq!(col.get_average_temperature(since + 200_000), None);
}

#[test]
fn test_repeated_digital_recorded_once() {
    let mut col = PinCollection::default();
    col.push(&PinState { pin: 5, value: PinValue::Digital(true), dt: 1, until: None });
    col.push(&PinState { pin: 5, value: PinValue::Digital(true), dt: 2, until: None });
    // Only the first push was a transition: the front of `changed` still
    // carries its timestamp.
    assert_eq!(col.get_last_changed_dt(), Some(1));
    let last = col.get_last_changed().unwrap();
    assert_eq!(last.value, PinValue::Digital(true));
    assert_eq!(last.dt, 1);

    col.push(&PinState { pin: 5, value: PinValue::Digital(false), dt: 3, until: None });
    assert_eq!(col.get_last_changed_dt(), Some(3));
}

#[test]
fn test_analog_zero_boundary_recorded_once() {
    let mut col = PinCollection::default();
    col.push(&PinState { pin: 5, value: PinValue::Analog(0), dt: 1, until: None });
    col.push(&PinState { pin: 5, value: PinValue::Analog(50), dt: 2, until: None });
    col.push(&PinState { pin: 5, value: PinValue::Analog(80), dt: 3, until: None });
    // The 0 -> 50 crossing is the only transition after the seed entry;
    // 50 -> 80 does not cross the zero boundary and is not recorded.
    assert_eq!(col.get_last_changed_dt(), Some(2));
    assert_eq!(col.get_last_changed_value(), Some(PinValue::Analog(50)));
}

#[test]
fn test_capacity_evicts_oldest() {
    let mut col = PinCollection::default();
    for k in 1..=25_i64 {
        col.push(&PinState {
            pin: 2,
            value: PinValue::Temperature(Temperature::new(k * 1_000)),
            dt: k,
            until: None,
        });
    }
    // Only the newest 20 readings (6..=25) remain after eviction:
    // their mean is 15.5 degrees.
    assert_eq!(col.get_average_temperature(0).unwrap(), Temperature::new(15_500));
}

#[test]
fn test_expired_entry_neither_on_nor_off() {
    let mut col = PinCollection::default();
    col.push(&PinState {
        pin: 1,
        value: PinValue::Analog(123),
        dt: millis_now(),
        until: Some(millis_now() - 3_000),
    });
    assert_eq!(col.is_on(), false);
    assert_eq!(col.is_off(), false);
}

#[test]
fn test_last_changed_empty() {
    let col = PinCollection::default();
    assert_eq!(col.get_last_changed_dt(), None);
    assert_eq!(col.get_last_changed_value(), None);
    assert!(col.get_last_changed().is_none());
}

#[test]
fn test_from_states_replays_pushes() {
    let states = vec![
        PinState { pin: 1, value: PinValue::Analog(123), dt: 1, until: None },
        PinState { pin: 1, value: PinValue::Analog(90), dt: 2, until: None },
        PinState { pin: 1, value: PinValue::Analog(0), dt: 3, until: None },
    ];
    let col = PinCollection::from_states(&states);
    assert_eq!(col.get_last_changed_value(), Some(PinValue::Analog(0)));
    assert_eq!(col.get_last_changed_dt(), Some(3));
    assert_eq!(col.is_off(), true);
    assert_eq!(col.is_on(), false);
}

#[test]
fn test_pin_value_queries() {
    let t = PinValue::Temperature(Temperature::new(20_000));
    let a = PinValue::Analog(5);
    let d = PinValue::Digital(true);
    assert!(t.is_temperature() && !t.is_analog() && !t.is_digital());
    assert!(a.is_analog() && !a.is_temperature() && !a.is_digital());
    assert!(d.is_digital() && !d.is_analog() && !d.is_temperature());
    assert!(!t.is_on());
    assert!(a.is_on());
    assert!(d.is_on());
    assert!(!PinValue::Analog(0).is_on());
    assert!(!PinValue::Digital(false).is_on());
    assert_eq!(a.as_u16(), 5);
    assert_eq!(d.as_u16(), 1);
    assert_eq!(PinValue::Digital(false).as_u16(), 0);
    assert_eq!(t.as_u16(), 0);
    let st = PinState { pin: 9, value: PinValue::Digital(true), dt: 0, until: None };
    assert!(st.is_on());
}

#[test]
fn test_temperature_sub_abs() {
    let a = Temperature::new(20_500);
    let b = Temperature::new(500);
    assert_eq!(a.sub(b), Temperature::new(20_000));
    assert_eq!(Temperature::new(-5_000).abs(), Temperature::new(5_000));
    assert_eq!(Temperature::new(5_000).abs(), Temperature::new(5_000));
}
