//! The deterministic core of time-bounded peer discovery: the role
//! filter, the announcement record, and the state machine that decides,
//! event by event, when the collection stops and what it returns. The
//! surrounding application drives it from a live stream and a timer;
//! every property of the aggregation is proved here over event traces.

use vstd::prelude::*;

verus! {

/// A set of peer roles, combinable by union: what a discovery call looks
/// for, and what a peer declares itself to be.
#[derive(Clone, Copy, Debug, PartialEq, Eq, Structural)]
pub struct WhatAmI {
    pub bits: u8,
}

impl WhatAmI {
    /// The router role.
    pub fn router() -> (r: WhatAmI)
        ensures
            r.bits == 1,
    {
        WhatAmI { bits: 1 }
    }

    /// The peer role.
    pub fn peer() -> (r: WhatAmI)
        ensures
            r.bits == 2,
    {
        WhatAmI { bits: 2 }
    }

    /// The client role.
    pub fn client() -> (r: WhatAmI)
        ensures
            r.bits == 4,
    {
        WhatAmI { bits: 4 }
    }

    /// The union of two role sets.
    pub fn union(self, other: WhatAmI) -> (r: WhatAmI)
        ensures
            r.bits == self.bits | other.bits,
    {
        WhatAmI { bits: self.bits | other.bits }
    }

    /// Whether the two role sets share a role.
    pub fn matches(self, other: WhatAmI) -> (r: bool)
        ensures
            r == ((self.bits & other.bits) != 0),
    {
        (self.bits & other.bits) != 0
    }
}

/// One discovery response: a peer's identity, its declared role, and the
/// locators it advertises.
#[derive(Debug)]
pub struct Hello {
    pub pid: String,
    pub whatami: WhatAmI,
    pub locators: Vec<String>,
}

/// The mathematical model of an announcement.
pub struct HelloModel {
    pub pid: Seq<char>,
    pub whatami: WhatAmI,
    pub locators: Seq<Seq<char>>,
}

impl View for Hello {
    type V = HelloModel;

    open spec fn view(&self) -> HelloModel {
        HelloModel {
            pid: self.pid@,
            whatami: self.whatami,
            locators: self.locators@.map_values(|l: String| l@),
        }
    }
}

/// One observation made while scouting: an announcement arrived, the
/// stream closed on its own, or the deadline fired.
pub enum ScoutEvent {
    Received(Hello),
    Closed,
    Deadline,
}

/// The model of an observation.
pub enum ScoutEventModel {
    Received(HelloModel),
    Closed,
    Deadline,
}

impl View for ScoutEvent {
    type V = ScoutEventModel;

    open spec fn view(&self) -> ScoutEventModel {
        match self {
            ScoutEvent::Received(h) => ScoutEventModel::Received(h@),
            ScoutEvent::Closed => ScoutEventModel::Closed,
            ScoutEvent::Deadline => ScoutEventModel::Deadline,
        }
    }
}

pub open spec fn events_view(s: Seq<ScoutEvent>) -> Seq<ScoutEventModel> {
    s.map_values(|e: ScoutEvent| e@)
}

pub open spec fn hellos_view(s: Seq<Hello>) -> Seq<HelloModel> {
    s.map_values(|h: Hello| h@)
}

/// What a scouting run returns on a trace: every announcement up to the
/// first terminating event (stream closure or deadline), in arrival
/// order; nothing after it counts.
pub open spec fn collected_hellos(evs: Seq<ScoutEventModel>) -> Seq<HelloModel>
    decreases evs.len(),
{
    if evs.len() == 0 {
        Seq::empty()
    } else {
        match evs[0] {
            ScoutEventModel::Received(h) => seq![h] + collected_hellos(evs.drop_first()),
            _ => Seq::empty(),
        }
    }
}

/// One step of the aggregation on the model: announcements are appended
/// until a terminating event sets `done`; afterwards nothing changes.
pub open spec fn spec_step(
    st: (Seq<HelloModel>, bool),
    ev: ScoutEventModel,
) -> (Seq<HelloModel>, bool) {
    if st.1 {
        st
    } else {
        match ev {
            ScoutEventModel::Received(h) => (st.0.push(h), false),
            _ => (st.0, true),
        }
    }
}

/// The aggregation folded over a trace.
pub open spec fn spec_run(
    st: (Seq<HelloModel>, bool),
    evs: Seq<ScoutEventModel>,
) -> (Seq<HelloModel>, bool)
    decreases evs.len(),
{
    if evs.len() == 0 {
        st
    } else {
        spec_run(spec_step(st, evs[0]), evs.drop_first())
    }
}

/// The running state of one scouting operation.
pub struct ScoutState {
    pub hellos: Vec<Hello>,
    pub done: bool,
}

impl ScoutState {
    pub open spec fn model(self) -> (Seq<HelloModel>, bool) {
        (hellos_view(self.hellos@), self.done)
    }

    /// A fresh run: nothing collected, not finished.
    pub fn new() -> (r: ScoutState)
        ensures
            r.model() == (Seq::<HelloModel>::empty(), false),
    {
        let r = ScoutState { hellos: Vec::new(), done: false };
        proof {
            assert(hellos_view(r.hellos@) =~= Seq::<HelloModel>::empty());
        }
        r
    }

    /// Feeds one observation to the run.
    pub fn step(&mut self, ev: ScoutEvent)
        ensures
            final(self).model() == spec_step(old(self).model(), ev@),
    {
        if self.done {
            return;
        }
        match ev {
            ScoutEvent::Received(h) => {
                let ghost pre = self.hellos@;
                self.hellos.push(h);
                proof {
                    assert(hellos_view(self.hellos@) =~= hellos_view(pre).push(self.hellos@.last()@));
                }
            }
            _ => {
                self.done = true;
            }
        }
    }
}

/// Folding steps from the empty state over a trace collects exactly the
/// announcements before the first terminating event.
pub proof fn lemma_run_collects(st: (Seq<HelloModel>, bool), evs: Seq<ScoutEventModel>)
    ensures
        st.1 ==> spec_run(st, evs) == st,
        !st.1 ==> spec_run(st, evs).0 == st.0 + collected_hellos(evs),
    decreases evs.len(),
{
    if evs.len() == 0 {
        assert(st.0 + collected_hellos(evs) =~= st.0);
    } else {
        lemma_run_collects(spec_step(st, evs[0]), evs.drop_first());
        if !st.1 {
            match evs[0] {
                ScoutEventModel::Received(h) => {
                    assert(st.0.push(h) + collected_hellos(evs.drop_first())
                        =~= st.0 + (seq![h] + collected_hellos(evs.drop_first())));
                }
                _ => {
                    assert(st.0 + collected_hellos(evs) =~= st.0);
                }
            }
        }
    }
}

/// Replays a full trace of observations and returns what the scouting
/// call would have returned: the announcements before the first
/// terminating event, in arrival order.
pub fn scout_collect(events: Vec<ScoutEvent>) -> (r: Vec<Hello>)
    ensures
        hellos_view(r@) == collected_hellos(events_view(events@)),
{
    let ghost full = events_view(events@);
    let mut st = ScoutState::new();
    let mut evs = events;
    let ghost processed: int = 0;
    while evs.len() > 0
        invariant
            0 <= processed <= full.len(),
            events_view(evs@) =~= full.skip(processed),
            st.model() == spec_run((Seq::<HelloModel>::empty(), false), full.take(processed)),
        decreases full.len() - processed,
    {
        let ghost pre = evs@;
        let ev = evs.remove(0);
        proof {
            assert(events_view(pre).len() == pre.len());
            assert(pre.len() > 0);
            assert(full.skip(processed).len() == full.len() - processed);
            assert(processed < full.len());
            assert(events_view(pre)[0] == ev@);
            assert(full.skip(processed)[0] == full[processed]);
            assert(full[processed] == ev@);
            assert(evs@ =~= pre.drop_first());
            assert(events_view(evs@) =~= events_view(pre).drop_first());
            assert(events_view(evs@) =~= full.skip(processed + 1));
            lemma_run_snoc((Seq::<HelloModel>::empty(), false), full, processed);
        }
        st.step(ev);
        proof {
            processed = processed + 1;
        }
    }
    proof {
        assert(events_view(evs@).len() == evs@.len());
        assert(processed == full.len());
        assert(full.take(full.len() as int) =~= full);
        lemma_run_collects((Seq::<HelloModel>::empty(), false), full);
        assert(Seq::<HelloModel>::empty() + collected_hellos(full) =~= collected_hellos(full));
    }
    st.hellos
}

/// Extending a folded trace by one event is one more step.
pub proof fn lemma_run_snoc(st: (Seq<HelloModel>, bool), evs: Seq<ScoutEventModel>, i: int)
    requires
        0 <= i < evs.len(),
    ensures
        spec_run(st, evs.take(i + 1)) == spec_step(spec_run(st, evs.take(i)), evs[i]),
    decreases i,
{
    if i == 0 {
        assert(evs.take(1) =~= seq![evs[0]]);
        assert(evs.take(0) =~= Seq::<ScoutEventModel>::empty());
        assert(evs.take(1).drop_first() =~= Seq::<ScoutEventModel>::empty());
        assert(spec_run(st, evs.take(0)) == st);
        assert(evs.take(1)[0] == evs[0]);
        assert(spec_run(st, evs.take(1))
            == spec_run(spec_step(st, evs[0]), evs.take(1).drop_first()));
        assert(spec_run(spec_step(st, evs[0]), evs.take(1).drop_first()) == spec_step(st, evs[0]));
    } else {
        let d = evs.drop_first();
        lemma_run_snoc(spec_step(st, evs[0]), d, i - 1);
        assert(evs.take(i + 1).len() != 0);
        assert(evs.take(i + 1)[0] == evs[0]);
        assert(evs.take(i + 1).drop_first() =~= d.take(i));
        assert(spec_run(st, evs.take(i + 1)) == spec_run(spec_step(st, evs[0]), d.take(i)));
        assert(evs.take(i).len() != 0);
        assert(evs.take(i)[0] == evs[0]);
        assert(evs.take(i).drop_first() =~= d.take(i - 1));
        assert(spec_run(st, evs.take(i)) == spec_run(spec_step(st, evs[0]), d.take(i - 1)));
        assert(d[i - 1] == evs[i]);
    }
}

/// The announcements of a trace of arrivals alone.
pub open spec fn hellos_of(evs: Seq<ScoutEventModel>) -> Seq<HelloModel>
    decreases evs.len(),
{
    if evs.len() == 0 {
        Seq::empty()
    } else {
        match evs[0] {
            ScoutEventModel::Received(h) => seq![h] + hellos_of(evs.drop_first()),
            _ => hellos_of(evs.drop_first()),
        }
    }
}

/// Deadline dominance: when every event before position `i` is an
/// arrival and the event at `i` is the firing deadline, the run returns
/// exactly the `i` announcements that arrived before the deadline —
/// whatever the stream would still have produced afterwards.
pub proof fn lemma_deadline_dominance(evs: Seq<ScoutEventModel>, i: int)
    requires
        0 <= i < evs.len(),
        evs[i] == ScoutEventModel::Deadline,
        forall|j: int| 0 <= j < i ==> (#[trigger] evs[j]) is Received,
    ensures
        collected_hellos(evs) == hellos_of(evs.take(i)),
        collected_hellos(evs).len() == i,
{
    lemma_collect_stops(evs, i);
}

/// Early stream closure: when the stream closes at position `i` after
/// `i` arrivals, the run returns exactly those announcements and is
/// unaffected by anything later in the trace — it does not wait out a
/// remaining deadline.
pub proof fn lemma_early_closure(evs: Seq<ScoutEventModel>, i: int)
    requires
        0 <= i < evs.len(),
        evs[i] == ScoutEventModel::Closed,
        forall|j: int| 0 <= j < i ==> (#[trigger] evs[j]) is Received,
    ensures
        collected_hellos(evs) == hellos_of(evs.take(i)),
        collected_hellos(evs).len() == i,
        collected_hellos(evs) == collected_hellos(evs.take(i + 1)),
{
    lemma_collect_stops(evs, i);
    lemma_collect_stops(evs.take(i + 1), i);
    assert(evs.take(i + 1).take(i) =~= evs.take(i));
}

/// A zero scouting duration: the deadline is the first event, and the
/// run returns empty without consuming the stream.
pub proof fn lemma_zero_duration(evs: Seq<ScoutEventModel>)
    requires
        evs.len() >= 1,
        evs[0] == ScoutEventModel::Deadline,
    ensures
        collected_hellos(evs) == Seq::<HelloModel>::empty(),
{
}

/// Shared argument: a first terminating event at `i` cuts the collection
/// at exactly the `i` preceding arrivals.
proof fn lemma_collect_stops(evs: Seq<ScoutEventModel>, i: int)
    requires
        0 <= i < evs.len(),
        !((evs[i]) is Received),
        forall|j: int| 0 <= j < i ==> (#[trigger] evs[j]) is Received,
    ensures
        collected_hellos(evs) == hellos_of(evs.take(i)),
        collected_hellos(evs).len() == i,
    decreases i,
{
    if i == 0 {
        assert(evs.take(0) =~= Seq::<ScoutEventModel>::empty());
    } else {
        lemma_collect_stops(evs.drop_first(), i - 1);
        assert(evs.take(i).drop_first() =~= evs.drop_first().take(i - 1));
        assert(evs.take(i)[0] == evs[0]);
        match evs[0] {
            ScoutEventModel::Received(h) => {
                assert(collected_hellos(evs) == seq![h] + collected_hellos(evs.drop_first()));
                assert(hellos_of(evs.take(i)) == seq![h] + hellos_of(evs.drop_first().take(i - 1)));
            }
            _ => {
                assert(false);
            }
        }
    }
}

} // verus!
