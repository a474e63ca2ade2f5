//! The per-pin history tracker: two bounded newest-first buffers (all raw
//! observations, and detected transitions only), change detection on push,
//! expiry-aware activity queries, and the windowed temperature average.

use vstd::prelude::*;

use crate::clock::now_millis;
use crate::helper::{average, average_spec};
use crate::pin::{value_off, value_on, PinState, PinValue, Temperature};

verus! {

/// Fixed capacity of each history buffer: pushing into a full buffer evicts
/// the oldest entry.
pub const CAPACITY: usize = 20;

/// A newest-first bounded push: the new element goes to index 0, and the
/// oldest element is dropped when the buffer is full.
pub open spec fn bounded_push_front(s: Seq<PinState>, x: PinState) -> Seq<PinState> {
    if s.len() < CAPACITY {
        seq![x] + s
    } else {
        seq![x] + s.take(CAPACITY - 1)
    }
}

/// The most recent (lowest index) entry holding a `Digital` value.
pub open spec fn first_digital(s: Seq<PinState>) -> Option<PinState>
    decreases s.len(),
{
    if s.len() == 0 {
        None
    } else if s[0].value is Digital {
        Some(s[0])
    } else {
        first_digital(s.skip(1))
    }
}

/// The most recent (lowest index) entry holding an `Analog` value.
pub open spec fn first_analog(s: Seq<PinState>) -> Option<PinState>
    decreases s.len(),
{
    if s.len() == 0 {
        None
    } else if s[0].value is Analog {
        Some(s[0])
    } else {
        first_analog(s.skip(1))
    }
}

/// Change detection: whether pushing `st` against the transition history
/// `changed` records a new transition. A digital value is a transition when
/// no digital transition exists yet or the boolean differs; an analog value
/// only when it crosses the zero boundary; a temperature never is.
pub open spec fn records_transition(changed: Seq<PinState>, st: PinState) -> bool {
    match st.value {
        PinValue::Digital(v) => match first_digital(changed) {
            None => true,
            Some(prev) => match prev.value {
                PinValue::Digital(c) => c != v,
                _ => false,
            },
        },
        PinValue::Analog(v) => match first_analog(changed) {
            None => true,
            Some(prev) => match prev.value {
                PinValue::Analog(c) => (c == 0 && v > 0) || (c > 0 && v == 0),
                _ => false,
            },
        },
        PinValue::Temperature(_) => false,
    }
}

/// What one push does to the transition buffer.
pub open spec fn push_changed(changed: Seq<PinState>, st: PinState) -> Seq<PinState> {
    if records_transition(changed, st) {
        bounded_push_front(changed, st)
    } else {
        changed
    }
}

/// Whether the classification of `st` is still live at `now`: no expiry, or
/// an expiry strictly in the future.
pub open spec fn live_at(st: PinState, now: i64) -> bool {
    match st.until {
        None => true,
        Some(u) => u > now,
    }
}

/// The fixed-point values of the temperature readings in `s` observed
/// strictly after `since`, oldest last, in the order `s` holds them.
pub open spec fn temps_since(s: Seq<PinState>, since: i64) -> Seq<i64>
    decreases s.len(),
{
    if s.len() == 0 {
        Seq::empty()
    } else {
        let rest = temps_since(s.drop_last(), since);
        if s.last().dt > since && s.last().value is Temperature {
            rest.push(
                match s.last().value {
                    PinValue::Temperature(t) => t.value,
                    _ => 0,
                },
            )
        } else {
            rest
        }
    }
}

/// The raw-state buffer after replaying `states` (oldest to newest) through
/// `push` into an empty collection.
pub open spec fn seeded_states(states: Seq<PinState>) -> Seq<PinState>
    decreases states.len(),
{
    if states.len() == 0 {
        Seq::empty()
    } else {
        bounded_push_front(seeded_states(states.drop_last()), states.last())
    }
}

/// The transition buffer after replaying `states` (oldest to newest) through
/// `push` into an empty collection.
pub open spec fn seeded_changed(states: Seq<PinState>) -> Seq<PinState>
    decreases states.len(),
{
    if states.len() == 0 {
        Seq::empty()
    } else {
        push_changed(seeded_changed(states.drop_last()), states.last())
    }
}

proof fn lemma_first_digital_skip(s: Seq<PinState>, i: int)
    requires
        0 <= i <= s.len(),
        forall|j: int| 0 <= j < i ==> !((#[trigger] s[j]).value is Digital),
    ensures
        first_digital(s) == first_digital(s.skip(i)),
    decreases i,
{
    if i > 0 {
        assert(s.skip(1).skip(i - 1) =~= s.skip(i));
        assert forall|j: int| 0 <= j < i - 1 implies !((#[trigger] s.skip(1)[j]).value
            is Digital) by {
            assert(s.skip(1)[j] == s[j + 1]);
        };
        lemma_first_digital_skip(s.skip(1), i - 1);
    } else {
        assert(s.skip(0) =~= s);
    }
}

proof fn lemma_first_analog_skip(s: Seq<PinState>, i: int)
    requires
        0 <= i <= s.len(),
        forall|j: int| 0 <= j < i ==> !((#[trigger] s[j]).value is Analog),
    ensures
        first_analog(s) == first_analog(s.skip(i)),
    decreases i,
{
    if i > 0 {
        assert(s.skip(1).skip(i - 1) =~= s.skip(i));
        assert forall|j: int| 0 <= j < i - 1 implies !((#[trigger] s.skip(1)[j]).value
            is Analog) by {
            assert(s.skip(1)[j] == s[j + 1]);
        };
        lemma_first_analog_skip(s.skip(1), i - 1);
    } else {
        assert(s.skip(0) =~= s);
    }
}

/// Law: a digital observation equal to the most recent digital transition
/// is not recorded again; repeat-equal pushes leave the transition history
/// unchanged.
pub proof fn lemma_repeated_digital_not_recorded(
    changed: Seq<PinState>,
    st: PinState,
    prev: PinState,
    v: bool,
)
    requires
        first_digital(changed) == Some(prev),
        prev.value == PinValue::Digital(v),
        st.value == PinValue::Digital(v),
    ensures
        push_changed(changed, st) == changed,
{
}

/// Law: an analog change that does not cross the zero boundary (both the
/// previous transition and the new value on, or both off) is not recorded
/// as a transition.
pub proof fn lemma_analog_nonboundary_not_recorded(
    changed: Seq<PinState>,
    st: PinState,
    prev: PinState,
    c: u16,
    v: u16,
)
    requires
        first_analog(changed) == Some(prev),
        prev.value == PinValue::Analog(c),
        st.value == PinValue::Analog(v),
        (c == 0) == (v == 0),
    ensures
        push_changed(changed, st) == changed,
{
}

/// Law: a temperature reading is never written to the transition buffer.
pub proof fn lemma_temperature_not_recorded(changed: Seq<PinState>, st: PinState)
    requires
        st.value is Temperature,
    ensures
        push_changed(changed, st) == changed,
{
}

/// Law: the buffers stay bounded. A bounded push holds at most `CAPACITY`
/// entries, places the new state at index 0, keeps everything when there is
/// room, and evicts exactly the oldest entry when full.
pub proof fn lemma_bounded_push(s: Seq<PinState>, x: PinState)
    requires
        s.len() <= CAPACITY,
    ensures
        bounded_push_front(s, x).len() <= CAPACITY,
        bounded_push_front(s, x)[0] == x,
        s.len() < CAPACITY ==> bounded_push_front(s, x) == seq![x] + s,
        s.len() == CAPACITY ==> bounded_push_front(s, x) == seq![x] + s.drop_last(),
{
    if s.len() == CAPACITY {
        assert(s.take(CAPACITY - 1) =~= s.drop_last());
    }
}

/// Law: the transition history holds nothing invented. After seeding a
/// collection from an ordered sequence of observations, every entry of the
/// transition buffer is one of the pushed observations.
pub proof fn lemma_changed_drawn_from_pushes(states: Seq<PinState>)
    ensures
        forall|i: int|
            0 <= i < seeded_changed(states).len() ==> states.contains(
                #[trigger] seeded_changed(states)[i],
            ),
    decreases states.len(),
{
    if states.len() > 0 {
        lemma_changed_drawn_from_pushes(states.drop_last());
        let prev = seeded_changed(states.drop_last());
        let cur = seeded_changed(states);
        assert forall|i: int| 0 <= i < cur.len() implies states.contains(cur[i]) by {
            if records_transition(prev, states.last()) && i == 0 {
                assert(cur[0] == states.last());
                assert(states[states.len() - 1] == states.last());
            } else {
                let e = cur[i];
                assert(states.drop_last().contains(e)) by {
                    if records_transition(prev, states.last()) {
                        assert(cur[i] == prev[i - 1]);
                    } else {
                        assert(cur[i] == prev[i]);
                    }
                };
                let j = choose|j: int|
                    0 <= j < states.drop_last().len() && states.drop_last()[j] == e;
                assert(states[j] == e);
            }
        };
    }
}

/// Per-pin aggregate: `states` holds every observation, `changed` only the
/// detected transitions, both newest-first and bounded by `CAPACITY`.
pub struct PinCollection {
    states: Vec<PinState>,
    changed: Vec<PinState>,
}

impl PinCollection {
    /// The raw-observation history, newest first.
    pub closed spec fn states_seq(&self) -> Seq<PinState> {
        self.states@
    }

    /// The transition history, newest first.
    pub closed spec fn changed_seq(&self) -> Seq<PinState> {
        self.changed@
    }

    /// Both buffers respect the fixed capacity.
    pub open spec fn wf(&self) -> bool {
        self.states_seq().len() <= CAPACITY && self.changed_seq().len() <= CAPACITY
    }

    /// Whether the most recent transition is live and "on" at `now`.
    pub open spec fn on_at(&self, now: i64) -> bool {
        self.changed_seq().len() > 0 && live_at(self.changed_seq()[0], now) && value_on(
            self.changed_seq()[0].value,
        )
    }

    /// Whether the most recent transition is live and "off" at `now`.
    pub open spec fn off_at(&self, now: i64) -> bool {
        self.changed_seq().len() > 0 && live_at(self.changed_seq()[0], now) && value_off(
            self.changed_seq()[0].value,
        )
    }

    /// An empty collection.
    pub fn default() -> (r: PinCollection)
        ensures
            r.wf(),
            r.states_seq() == Seq::<PinState>::empty(),
            r.changed_seq() == Seq::<PinState>::empty(),
    {
        PinCollection { states: Vec::new(), changed: Vec::new() }
    }

    /// Seeds a collection by replaying an ordered sequence of observations
    /// (oldest to newest) through `push`, so the invariants hold exactly as
    /// under incremental construction.
    pub fn from_states(states: &Vec<PinState>) -> (r: PinCollection)
        ensures
            r.wf(),
            r.states_seq() == seeded_states(states@),
            r.changed_seq() == seeded_changed(states@),
    {
        let mut col = PinCollection::default();
        let mut i: usize = 0;
        while i < states.len()
            invariant
                i <= states@.len(),
                col.wf(),
                col.states_seq() == seeded_states(states@.take(i as int)),
                col.changed_seq() == seeded_changed(states@.take(i as int)),
            decreases states@.len() - i,
        {
            let st = states[i];
            col.push(&st);
            proof {
                assert(states@.take(i + 1).drop_last() =~= states@.take(i as int));
                assert(states@.take(i + 1).last() == states@[i as int]);
            }
            i = i + 1;
        }
        proof {
            assert(states@.take(states@.len() as int) =~= states@);
        }
        col
    }

    fn find_first_digital(v: &Vec<PinState>) -> (r: Option<PinState>)
        ensures
            r == first_digital(v@),
    {
        let mut i: usize = 0;
        while i < v.len()
            invariant
                i <= v@.len(),
                forall|j: int| 0 <= j < i ==> !((#[trigger] v@[j]).value is Digital),
            decreases v@.len() - i,
        {
            if v[i].value.is_digital() {
                proof {
                    lemma_first_digital_skip(v@, i as int);
                    assert(v@.skip(i as int)[0] == v@[i as int]);
                }
                return Some(v[i]);
            }
            i = i + 1;
        }
        proof {
            lemma_first_digital_skip(v@, v@.len() as int);
        }
        None
    }

    fn find_first_analog(v: &Vec<PinState>) -> (r: Option<PinState>)
        ensures
            r == first_analog(v@),
    {
        let mut i: usize = 0;
        while i < v.len()
            invariant
                i <= v@.len(),
                forall|j: int| 0 <= j < i ==> !((#[trigger] v@[j]).value is Analog),
            decreases v@.len() - i,
        {
            if v[i].value.is_analog() {
                proof {
                    lemma_first_analog_skip(v@, i as int);
                    assert(v@.skip(i as int)[0] == v@[i as int]);
                }
                return Some(v[i]);
            }
            i = i + 1;
        }
        proof {
            lemma_first_analog_skip(v@, v@.len() as int);
        }
        None
    }

    /// Appends an observation to the raw history and, when change detection
    /// classifies it as a transition, to the transition history; both pushes
    /// are newest-first and evict the oldest entry at capacity.
    pub fn push(&mut self, state: &PinState)
        requires
            old(self).wf(),
        ensures
            final(self).wf(),
            final(self).states_seq() == bounded_push_front(old(self).states_seq(), *state),
            final(self).changed_seq() == push_changed(old(self).changed_seq(), *state),
    {
        let record = match state.value {
            PinValue::Digital(v) => match Self::find_first_digital(&self.changed) {
                None => true,
                Some(prev) => match prev.value {
                    PinValue::Digital(c) => c != v,
                    _ => false,
                },
            },
            PinValue::Analog(v) => match Self::find_first_analog(&self.changed) {
                None => true,
                Some(prev) => match prev.value {
                    PinValue::Analog(c) => (c == 0 && v > 0) || (c > 0 && v == 0),
                    _ => false,
                },
            },
            PinValue::Temperature(_) => false,
        };
        if record {
            if self.changed.len() == CAPACITY {
                self.changed.pop();
            }
            self.changed.insert(0, *state);
            proof {
                assert(self.changed@ =~= bounded_push_front(old(self).changed_seq(), *state));
            }
        }
        if self.states.len() == CAPACITY {
            self.states.pop();
        }
        self.states.insert(0, *state);
        proof {
            assert(self.states@ =~= bounded_push_front(old(self).states_seq(), *state));
        }
    }

    /// The arithmetic mean of the temperature readings observed strictly
    /// after `since`, or `None` when no reading satisfies the filter — never
    /// a zero average standing in for "no data".
    pub fn get_average_temperature(&self, since: i64) -> (r: Option<Temperature>)
        ensures
            match r {
                Some(t) => temps_since(self.states_seq(), since).len() > 0 && t.value as int
                    == average_spec(temps_since(self.states_seq(), since)),
                None => temps_since(self.states_seq(), since).len() == 0,
            },
    {
        let mut vals: Vec<i64> = Vec::new();
        let mut i: usize = 0;
        while i < self.states.len()
            invariant
                i <= self.states@.len(),
                vals@ == temps_since(self.states@.take(i as int), since),
            decreases self.states@.len() - i,
        {
            let st = self.states[i];
            proof {
                assert(self.states@.take(i + 1).drop_last() =~= self.states@.take(i as int));
                assert(self.states@.take(i + 1).last() == self.states@[i as int]);
            }
            if st.dt > since {
                match st.value {
                    PinValue::Temperature(t) => vals.push(t.value),
                    _ => {},
                }
            }
            i = i + 1;
        }
        proof {
            assert(self.states@.take(self.states@.len() as int) =~= self.states@);
        }
        if vals.len() > 0 {
            Some(Temperature::new(average(&vals)))
        } else {
            None
        }
    }

    /// Whether the most recent transition is live and "on" at `now`.
    pub fn is_on_at(&self, now: i64) -> (r: bool)
        ensures
            r == self.on_at(now),
    {
        if self.changed.len() == 0 {
            return false;
        }
        let front = self.changed[0];
        let live = match front.until {
            None => true,
            Some(u) => u > now,
        };
        live && front.is_on()
    }

    /// Whether the most recent transition is live and "off" at `now`.
    pub fn is_off_at(&self, now: i64) -> (r: bool)
        ensures
            r == self.off_at(now),
    {
        if self.changed.len() == 0 {
            return false;
        }
        let front = self.changed[0];
        let live = match front.until {
            None => true,
            Some(u) => u > now,
        };
        live && match front.value {
            PinValue::Digital(v) => !v,
            PinValue::Analog(v) => v == 0,
            PinValue::Temperature(_) => false,
        }
    }

    /// `is_on_at` evaluated at the wall clock's current time. When the most
    /// recent transition carries no expiry the clock cannot matter, and the
    /// answer is exactly its "on" classification.
    pub fn is_on(&self) -> (r: bool)
        ensures
            exists|now: i64| r == self.on_at(now),
            self.changed_seq().len() == 0 ==> !r,
            self.changed_seq().len() > 0 && self.changed_seq()[0].until is None ==> r == value_on(
                self.changed_seq()[0].value,
            ),
    {
        let now = now_millis();
        let r = self.is_on_at(now);
        proof {
            assert(r == self.on_at(now));
        }
        r
    }

    /// `is_off_at` evaluated at the wall clock's current time. When the most
    /// recent transition carries no expiry the clock cannot matter, and the
    /// answer is exactly its "off" classification.
    pub fn is_off(&self) -> (r: bool)
        ensures
            exists|now: i64| r == self.off_at(now),
            self.changed_seq().len() == 0 ==> !r,
            self.changed_seq().len() > 0 && self.changed_seq()[0].until is None ==> r == value_off(
                self.changed_seq()[0].value,
            ),
    {
        let now = now_millis();
        let r = self.is_off_at(now);
        proof {
            assert(r == self.off_at(now));
        }
        r
    }

    /// The timestamp of the most recent transition, `None` when none exists.
    pub fn get_last_changed_dt(&self) -> (r: Option<i64>)
        ensures
            match r {
                Some(d) => self.changed_seq().len() > 0 && d == self.changed_seq()[0].dt,
                None => self.changed_seq().len() == 0,
            },
    {
        if self.changed.len() > 0 {
            Some(self.changed[0].dt)
        } else {
            None
        }
    }

    /// The value of the most recent transition, `None` when none exists.
    pub fn get_last_changed_value(&self) -> (r: Option<PinValue>)
        ensures
            match r {
                Some(v) => self.changed_seq().len() > 0 && v == self.changed_seq()[0].value,
                None => self.changed_seq().len() == 0,
            },
    {
        if self.changed.len() > 0 {
            Some(self.changed[0].value)
        } else {
            None
        }
    }

    /// The most recent transition in full, `None` when none exists.
    pub fn get_last_changed(&self) -> (r: Option<PinState>)
        ensures
            match r {
                Some(st) => self.changed_seq().len() > 0 && st == self.changed_seq()[0],
                None => self.changed_seq().len() == 0,
            },
    {
        if self.changed.len() > 0 {
            Some(self.changed[0])
        } else {
            None
        }
    }
}

} // verus!
