use zenoh_facade::scout::{scout_collect, Hello, ScoutEvent, ScoutState, WhatAmI};

fn hello(pid: &str) -> Hello {
    Hello {
        pid: pid.to_string(),
        whatami: WhatAmI::peer(),
        locators: vec![format!("tcp/{}:7447", pid)],
    }
}

#[test]
fn whatami_union_and_matches() {
    let rp = WhatAmI::router().union(WhatAmI::peer());
    assert_eq!(rp.bits, 3);
    assert!(rp.matches(WhatAmI::peer()));
    assert!(rp.matches(WhatAmI::router()));
    assert!(!rp.matches(WhatAmI::client()));
    assert_eq!(WhatAmI::client().bits, 4);
}

#[test]
fn deadline_cuts_collection() {
    let events = vec![
        ScoutEvent::Received(hello("a")),
        ScoutEvent::Received(hello("b")),
        ScoutEvent::Received(hello("c")),
        ScoutEvent::Deadline,
        ScoutEvent::Received(hello("d")),
    ];
    let got = scout_collect(events);
    assert_eq!(got.len(), 3);
    assert_eq!(got[0].pid, "a");
    assert_eq!(got[1].pid, "b");
    assert_eq!(got[2].pid, "c");
}

#[test]
fn early_closure_returns_what_arrived() {
    let events = vec![
        ScoutEvent::Received(hello("a")),
        ScoutEvent::Received(hello("b")),
        ScoutEvent::Closed,
    ];
    let got = scout_collect(events);
    assert_eq!(got.len(), 2);
    assert_eq!(got[0].pid, "a");
    assert_eq!(got[1].pid, "b");
}

#[test]
fn zero_duration_returns_empty() {
    let got = scout_collect(vec![ScoutEvent::Deadline]);
    assert!(got.is_empty());
    let got2 = scout_collect(vec![ScoutEvent::Deadline, ScoutEvent::Received(hello("x"))]);
    assert!(got2.is_empty());
}

#[test]
fn step_ignores_events_after_done() {
    let mut st = ScoutState::new();
    st.step(ScoutEvent::Received(hello("a")));
    assert!(!st.done);
    st.step(ScoutEvent::Deadline);
    assert!(st.done);
    st.step(ScoutEvent::Received(hello("b")));
    st.step(ScoutEvent::Closed);
    assert!(st.done);
    assert_eq!(st.hellos.len(), 1);
    assert_eq!(st.hellos[0].pid, "a");
    assert_eq!(st.hellos[0].locators, vec!["tcp/a:7447".to_string()]);
}
