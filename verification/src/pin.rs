//! The pin data model: temperature readings as fixed-point thousandths,
//! the three-variant `PinValue`, timestamped `PinState` observations, the
//! parse error taxonomy, the value decoder, and the topic parser that turns
//! a topic/payload pair into a routable `PinOperation`.
//!
//! Timestamps are milliseconds since the Unix epoch, as signed 64-bit
//! integers.

use vstd::prelude::*;

use crate::text::{
    decimal_fits, decimal_thousandths, digits_val, join_path, join_segments,
    parse_decimal_thousandths, parse_u16, parse_u32, parse_u8, split_char, split_str, valid_uint,
};
use crate::text::lemma_split_char_len;

verus! {

/// A temperature reading or threshold, held in fixed point as thousandths
/// of a degree (`value == 20500` reads as 20.5 degrees).
#[derive(Clone, Copy, PartialEq, Eq, Structural, Debug)]
pub struct Temperature {
    pub value: i64,
}

impl Temperature {
    /// Wraps a fixed-point thousandths value as a `Temperature`.
    pub fn new(value: i64) -> (r: Temperature)
        ensures
            r.value == value,
    {
        Temperature { value }
    }

    /// The difference of two temperatures.
    pub fn sub(self, other: Temperature) -> (r: Temperature)
        requires
            i64::MIN <= self.value - other.value <= i64::MAX,
        ensures
            r.value == self.value - other.value,
    {
        Temperature { value: self.value - other.value }
    }

    /// The magnitude of the temperature.
    pub fn abs(&self) -> (r: Temperature)
        requires
            self.value != i64::MIN,
        ensures
            r.value == if self.value < 0 {
                -self.value as int
            } else {
                self.value as int
            },
    {
        if self.value < 0 {
            Temperature { value: -self.value }
        } else {
            Temperature { value: self.value }
        }
    }
}

/// A single observation delivered for a pin: exactly three kinds exist.
#[derive(Clone, Copy, PartialEq, Eq, Structural, Debug)]
pub enum PinValue {
    Temperature(Temperature),
    Analog(u16),
    Digital(bool),
}

/// Why a topic or payload was rejected; parsing is the only fallible stage.
#[derive(Clone, Copy, PartialEq, Eq, Structural, Debug)]
pub enum ErrorKind {
    MalformedTopic,
    MissingNode,
    MissingKind,
    MissingTimeoutMarker,
    InvalidPin,
    InvalidTimeout,
    UnknownValueKind,
    InvalidDigitalPayload,
    InvalidAnalogPayload,
    InvalidTemperaturePayload,
}

/// An "on" classification: `Digital(true)` or a non-zero `Analog`;
/// `Temperature` is never on.
pub open spec fn value_on(v: PinValue) -> bool {
    match v {
        PinValue::Digital(b) => b,
        PinValue::Analog(a) => a > 0,
        PinValue::Temperature(_) => false,
    }
}

/// An "off" classification: `Digital(false)` or `Analog(0)`; `Temperature`
/// is neither on nor off.
pub open spec fn value_off(v: PinValue) -> bool {
    match v {
        PinValue::Digital(b) => !b,
        PinValue::Analog(a) => a == 0,
        PinValue::Temperature(_) => false,
    }
}

/// The single unsigned scale a value coerces to: `Digital(true)` is 1,
/// `Digital(false)` is 0, `Temperature` is 0.
pub open spec fn value_as_u16(v: PinValue) -> u16 {
    match v {
        PinValue::Analog(a) => a,
        PinValue::Digital(b) => if b {
            1u16
        } else {
            0u16
        },
        PinValue::Temperature(_) => 0u16,
    }
}

/// What the value decoder returns for a kind tag and a payload.
pub open spec fn decode_spec(kind: Seq<char>, payload: Seq<char>) -> Result<PinValue, ErrorKind> {
    if kind == "digital"@ {
        if valid_uint(payload, 255) {
            Ok(PinValue::Digital(digits_val(payload) > 0))
        } else {
            Err(ErrorKind::InvalidDigitalPayload)
        }
    } else if kind == "analog"@ {
        if valid_uint(payload, 65535) {
            Ok(PinValue::Analog(digits_val(payload) as u16))
        } else {
            Err(ErrorKind::InvalidAnalogPayload)
        }
    } else if kind == "temperature"@ {
        if decimal_fits(payload) {
            Ok(
                PinValue::Temperature(
                    Temperature {
                        value: (match decimal_thousandths(payload) {
                            Some(m) => m,
                            None => 0,
                        }) as i64,
                    },
                ),
            )
        } else {
            Err(ErrorKind::InvalidTemperaturePayload)
        }
    } else {
        Err(ErrorKind::UnknownValueKind)
    }
}

/// String equality by view.
fn str_eq(a: &str, b: &str) -> (r: bool)
    ensures
        r == (a@ == b@),
{
    let sa = a.to_owned();
    let sb = b.to_owned();
    sa == sb
}

impl PinValue {
    /// Decodes a kind tag and payload: `digital` takes a small unsigned
    /// integer (non-zero is on), `analog` an unsigned 16-bit integer,
    /// `temperature` a decimal number; anything else is unknown. The
    /// accepted numeric grammar is the fixed one of `crate::text`: bare
    /// digit runs for the integers, and `-?digits(.digits)?` for
    /// temperatures — no sign prefix on integers, no exponent or infinity
    /// forms.
    pub fn from_string(kind: &str, message: &str) -> (r: Result<PinValue, ErrorKind>)
        ensures
            r == decode_spec(kind@, message@),
    {
        if str_eq(kind, "digital") {
            match parse_u8(message) {
                Some(v) => Ok(PinValue::Digital(v > 0)),
                None => Err(ErrorKind::InvalidDigitalPayload),
            }
        } else if str_eq(kind, "analog") {
            match parse_u16(message) {
                Some(v) => Ok(PinValue::Analog(v)),
                None => Err(ErrorKind::InvalidAnalogPayload),
            }
        } else if str_eq(kind, "temperature") {
            match parse_decimal_thousandths(message) {
                Some(v) => Ok(PinValue::Temperature(Temperature { value: v })),
                None => Err(ErrorKind::InvalidTemperaturePayload),
            }
        } else {
            Err(ErrorKind::UnknownValueKind)
        }
    }

    /// Whether the value is the `Digital` variant.
    pub fn is_digital(&self) -> (r: bool)
        ensures
            r == (self is Digital),
    {
        match self {
            PinValue::Digital(_) => true,
            _ => false,
        }
    }

    /// Whether the value is the `Analog` variant.
    pub fn is_analog(&self) -> (r: bool)
        ensures
            r == (self is Analog),
    {
        match self {
            PinValue::Analog(_) => true,
            _ => false,
        }
    }

    /// Whether the value is the `Temperature` variant.
    pub fn is_temperature(&self) -> (r: bool)
        ensures
            r == (self is Temperature),
    {
        match self {
            PinValue::Temperature(_) => true,
            _ => false,
        }
    }

    /// Whether the value classifies as "on".
    pub fn is_on(&self) -> (r: bool)
        ensures
            r == value_on(*self),
    {
        match self {
            PinValue::Analog(v) => *v > 0u16,
            PinValue::Digital(v) => *v,
            _ => false,
        }
    }

    /// Coerces `Analog`/`Digital` to the unsigned 16-bit scale.
    pub fn as_u16(&self) -> (r: u16)
        ensures
            r == value_as_u16(*self),
    {
        match self {
            PinValue::Analog(v) => *v,
            PinValue::Digital(v) => if *v {
                1u16
            } else {
                0u16
            },
            _ => 0u16,
        }
    }
}

/// One observation of one pin: immutable once constructed. `dt` is when it
/// was observed; `until` is the optional expiry of its classification.
#[derive(Clone, Copy, Debug)]
pub struct PinState {
    pub pin: u8,
    pub value: PinValue,
    pub dt: i64,
    pub until: Option<i64>,
}

impl PinState {
    /// Builds an observation from its parts.
    pub fn new(pin: u8, value: PinValue, dt: i64, until: Option<i64>) -> (r: PinState)
        ensures
            r.pin == pin,
            r.value == value,
            r.dt == dt,
            r.until == until,
    {
        PinState { pin, value, dt, until }
    }

    /// Whether the observed value classifies as "on".
    pub fn is_on(&self) -> (r: bool)
        ensures
            r == value_on(self.value),
    {
        self.value.is_on()
    }
}

/// A parsed, routable unit of work: which node, and what was observed.
#[derive(Clone, Debug)]
pub struct PinOperation {
    pub pin_state: PinState,
    pub node: String,
}

/// The expiry timestamp `now + secs` seconds, saturating at the latest
/// representable time.
pub open spec fn expiry_at(now: i64, secs: int) -> i64 {
    if now + secs * 1000 > i64::MAX {
        i64::MAX
    } else {
        (now + secs * 1000) as i64
    }
}

/// What the topic parser returns: on success the pin id, the decoded value,
/// the optional expiry, and the node name; on failure which error. The topic
/// is read from the end: `<node>/current/<kind>/<pin>` or
/// `<node>/timeout/<seconds>/<kind>/<pin>`, where `<node>` is the whole
/// remaining leading path (it may itself contain `/`), and must be
/// non-empty.
pub open spec fn parse_spec(topic: Seq<char>, payload: Seq<char>, now: i64) -> Result<
    (u8, PinValue, Option<i64>, Seq<char>),
    ErrorKind,
> {
    let segs = split_char(topic, '/');
    let n = segs.len() as int;
    if !valid_uint(segs[n - 1], 255) {
        Err(ErrorKind::InvalidPin)
    } else if n < 2 {
        Err(ErrorKind::MissingKind)
    } else {
        match decode_spec(segs[n - 2], payload) {
            Err(e) => Err(e),
            Ok(value) => {
                if n < 3 {
                    Err(ErrorKind::MalformedTopic)
                } else if segs[n - 3] == "current"@ {
                    let node = join_path(segs.take(n - 3));
                    if node.len() == 0 {
                        Err(ErrorKind::MissingNode)
                    } else {
                        Ok((digits_val(segs[n - 1]) as u8, value, None, node))
                    }
                } else if valid_uint(segs[n - 3], u32::MAX as int) {
                    if n < 4 || segs[n - 4] != "timeout"@ {
                        Err(ErrorKind::MissingTimeoutMarker)
                    } else {
                        let node = join_path(segs.take(n - 4));
                        if node.len() == 0 {
                            Err(ErrorKind::MissingNode)
                        } else {
                            Ok(
                                (
                                    digits_val(segs[n - 1]) as u8,
                                    value,
                                    Some(expiry_at(now, digits_val(segs[n - 3]))),
                                    node,
                                ),
                            )
                        }
                    }
                } else {
                    Err(ErrorKind::InvalidTimeout)
                }
            },
        }
    }
}

impl PinOperation {
    /// Parses a `/`-delimited topic and a payload, observed at
    /// `received_at`, into an operation; errors exactly as `parse_spec`
    /// classifies the input, and never panics.
    pub fn from_message(topic: &str, payload: &str, received_at: i64) -> (r: Result<
        PinOperation,
        ErrorKind,
    >)
        ensures
            match (r, parse_spec(topic@, payload@, received_at)) {
                (Ok(op), Ok(m)) => op.pin_state.pin == m.0 && op.pin_state.value == m.1
                    && op.pin_state.dt == received_at && op.pin_state.until == m.2 && op.node@
                    == m.3,
                (Err(e), Err(me)) => e == me,
                _ => false,
            },
    {
        let mut segs = split_str(topic, '/');
        let ghost ssegs = split_char(topic@, '/');
        let ghost orig = segs@;
        proof {
            lemma_split_char_len(topic@, '/');
            assert(orig.len() == ssegs.len());
            assert(forall|k: int| 0 <= k < ssegs.len() ==> #[trigger] orig[k]@ == ssegs[k]);
        }
        let ghost n = ssegs.len() as int;
        let pin_seg = segs.pop().unwrap();
        proof {
            assert(pin_seg@ == ssegs[n - 1]);
            assert(segs.deep_view() =~= ssegs.take(n - 1));
        }
        let pin = match parse_u8(pin_seg.as_str()) {
            Some(p) => p,
            None => {
                return Err(ErrorKind::InvalidPin);
            },
        };
        let kind_seg = match segs.pop() {
            Some(k) => k,
            None => {
                return Err(ErrorKind::MissingKind);
            },
        };
        proof {
            assert(kind_seg@ == ssegs[n - 2]);
            assert(segs.deep_view() =~= ssegs.take(n - 2));
        }
        let value = match PinValue::from_string(kind_seg.as_str(), payload) {
            Ok(v) => v,
            Err(e) => {
                return Err(e);
            },
        };
        let third = match segs.pop() {
            Some(t) => t,
            None => {
                return Err(ErrorKind::MalformedTopic);
            },
        };
        proof {
            assert(third@ == ssegs[n - 3]);
            assert(segs.deep_view() =~= ssegs.take(n - 3));
        }
        if str_eq(third.as_str(), "current") {
            let node = join_segments(&segs);
            if node.as_str().is_empty() {
                return Err(ErrorKind::MissingNode);
            }
            Ok(
                PinOperation {
                    pin_state: PinState { pin, value, dt: received_at, until: None },
                    node,
                },
            )
        } else {
            let secs = match parse_u32(third.as_str()) {
                Some(sv) => sv,
                None => {
                    return Err(ErrorKind::InvalidTimeout);
                },
            };
            let marker = match segs.pop() {
                Some(m) => m,
                None => {
                    return Err(ErrorKind::MissingTimeoutMarker);
                },
            };
            proof {
                assert(marker@ == ssegs[n - 4]);
                assert(segs.deep_view() =~= ssegs.take(n - 4));
            }
            if !str_eq(marker.as_str(), "timeout") {
                return Err(ErrorKind::MissingTimeoutMarker);
            }
            let node = join_segments(&segs);
            if node.as_str().is_empty() {
                return Err(ErrorKind::MissingNode);
            }
            let e: i128 = received_at as i128 + (secs as i128) * 1000;
            let until: i64 = if e > i64::MAX as i128 {
                i64::MAX
            } else {
                e as i64
            };
            Ok(
                PinOperation {
                    pin_state: PinState { pin, value, dt: received_at, until: Some(until) },
                    node,
                },
            )
        }
    }
}

} // verus!
