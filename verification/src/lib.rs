//! Tracks timestamped sensor/actuator readings per pin: a bounded history of
//! raw observations, a derived history of on/off transitions, and queries for
//! current activity and windowed temperature averages.

mod clock;
pub mod collection;
pub mod helper;
pub mod pin;
pub mod text;
