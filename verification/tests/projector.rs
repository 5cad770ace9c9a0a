use projection::latest::{latest_applier, LatestState, StampedEvent};
use projection::projector::Projector;

fn ev(id: &str, ts: &str) -> StampedEvent {
    StampedEvent { id: String::from(id), timestamp: String::from(ts) }
}

#[test]
fn latest_state() {
    let events = vec![
        ev("id-1", "ts-1"),
        ev("id-1", "ts-2"),
        ev("id-1", "ts-8"),
        ev("id-1", "ts-3"),
    ];
    let result = Projector::from_applier(latest_applier()).project_last_state(events);
    assert_eq!(
        result,
        LatestState {
            id: Some(String::from("id-1")),
            timestamp: Some(String::from("ts-8")),
        }
    );
}

#[test]
fn find_state() {
    let events = vec![ev("id-1", "ts-3"), ev("id-1", "ts-8"), ev("id-1", "ts-1")];
    let result = Projector::from_applier(latest_applier()).match_from_stream(events, |state: &LatestState| {
        if let Some(ts) = &state.timestamp {
            ts.contains("8")
        } else {
            false
        }
    });
    assert_eq!(
        result,
        Some(LatestState {
            id: Some(String::from("id-1")),
            timestamp: Some(String::from("ts-8")),
        })
    );
}

#[test]
fn stream() {
    let events = vec![ev("id-1", "ts-3"), ev("id-1", "ts-8"), ev("id-1", "ts-1")];
    let projector = Projector::from_applier(latest_applier());
    let mut stream = projector.stream_entities(events);
    let mut result: Vec<LatestState> = Vec::new();
    while let Some(state) = stream.next_state() {
        result.push(state);
    }
    assert_eq!(
        result,
        vec![
            LatestState {
                id: Some(String::from("id-1")),
                timestamp: Some(String::from("ts-3")),
            },
            LatestState {
                id: Some(String::from("id-1")),
                timestamp: Some(String::from("ts-8")),
            },
            LatestState {
                id: Some(String::from("id-1")),
                timestamp: Some(String::from("ts-8")),
            },
        ],
    );
}

#[test]
fn stream_with_map() {
    let events = vec![ev("id-1", "ts-3"), ev("id-1", "ts-8"), ev("id-1", "ts-1")];
    let projector = Projector::from_applier(latest_applier());
    let mut stream = projector.stream_entities(events);
    let mut collected: Vec<LatestState> = Vec::new();
    while let Some(state) = stream.next_state() {
        collected.push(state);
    }
    let result: Vec<LatestState> = collected
        .into_iter()
        .map(|entity| LatestState {
            id: entity.id,
            timestamp: Some(format!("mapped-{}", entity.timestamp.unwrap())),
        })
        .collect();
    assert_eq!(
        result,
        vec![
            LatestState {
                id: Some(String::from("id-1")),
                timestamp: Some(String::from("mapped-ts-3")),
            },
            LatestState {
                id: Some(String::from("id-1")),
                timestamp: Some(String::from("mapped-ts-8")),
            },
            LatestState {
                id: Some(String::from("id-1")),
                timestamp: Some(String::from("mapped-ts-8")),
            },
        ],
    );
}

#[test]
fn last_state_of_empty_run_is_zero() {
    let result = Projector::from_applier(latest_applier()).project_last_state(Vec::new());
    assert_eq!(result, LatestState { id: None, timestamp: None });
}

#[test]
fn stream_of_empty_run_yields_nothing() {
    let projector = Projector::from_applier(latest_applier());
    let mut stream = projector.stream_entities(Vec::new());
    assert_eq!(stream.next_state(), None);
}

#[test]
fn repeated_projection_is_deterministic() {
    let first = Projector::from_applier(latest_applier()).project_last_state(vec![
        ev("id-1", "ts-2"),
        ev("id-1", "ts-7"),
    ]);
    let second = Projector::from_applier(latest_applier()).project_last_state(vec![
        ev("id-1", "ts-2"),
        ev("id-1", "ts-7"),
    ]);
    assert_eq!(first, second);
}

#[test]
fn last_state_is_nested_application() {
    let f = latest_applier();
    let z = LatestState { id: None, timestamp: None };
    let e1 = ev("id-1", "ts-4");
    let e2 = ev("id-2", "ts-9");
    let e3 = ev("id-3", "ts-5");
    let by_hand = f(&f(&f(&z, &e1), &e2), &e3);
    let result = Projector::from_applier(latest_applier()).project_last_state(vec![
        ev("id-1", "ts-4"),
        ev("id-2", "ts-9"),
        ev("id-3", "ts-5"),
    ]);
    assert_eq!(result, by_hand);
}

#[test]
fn last_streamed_state_matches_last_state() {
    let events = vec![ev("id-1", "ts-3"), ev("id-1", "ts-8"), ev("id-1", "ts-1")];
    let projector = Projector::from_applier(latest_applier());
    let mut stream = projector.stream_entities(vec![
        ev("id-1", "ts-3"),
        ev("id-1", "ts-8"),
        ev("id-1", "ts-1"),
    ]);
    let mut last = None;
    while let Some(state) = stream.next_state() {
        last = Some(state);
    }
    let final_state = projector.project_last_state(events);
    assert_eq!(last, Some(final_state));
}

#[test]
fn find_state_stops_at_first_match() {
    let projector = Projector::from_applier(latest_applier());
    let mut stream = projector.stream_entities(vec![
        ev("id-1", "ts-3"),
        ev("id-1", "ts-8"),
        ev("id-1", "ts-1"),
    ]);
    let found = stream.find_state(|state: &LatestState| {
        if let Some(ts) = &state.timestamp {
            ts.contains("8")
        } else {
            false
        }
    });
    assert_eq!(
        found,
        Some(LatestState {
            id: Some(String::from("id-1")),
            timestamp: Some(String::from("ts-8")),
        })
    );
    // the third event was never pulled: the run stands right after the match
    assert_eq!(stream.position(), 2);
}

#[test]
fn match_without_any_hit_drains_and_returns_none() {
    let events = vec![ev("id-1", "ts-3"), ev("id-1", "ts-8")];
    let result = Projector::from_applier(latest_applier())
        .match_from_stream(events, |_state: &LatestState| false);
    assert_eq!(result, None);
}

#[test]
fn versions_keep_first_occurrences_only() {
    // an applier that mirrors each event, so states revisit earlier values:
    // A, A, B, B, A collapses to A, B under global distinctness
    let mirror = |_state: &LatestState, event: &StampedEvent| LatestState {
        id: Some(event.id.clone()),
        timestamp: Some(event.timestamp.clone()),
    };
    let events = vec![
        ev("id-1", "ts-a"),
        ev("id-1", "ts-a"),
        ev("id-1", "ts-b"),
        ev("id-1", "ts-b"),
        ev("id-1", "ts-a"),
    ];
    let result = Projector::from_applier(mirror).versions_from_stream(events);
    assert_eq!(
        result,
        vec![
            LatestState {
                id: Some(String::from("id-1")),
                timestamp: Some(String::from("ts-a")),
            },
            LatestState {
                id: Some(String::from("id-1")),
                timestamp: Some(String::from("ts-b")),
            },
        ],
    );
}

#[test]
fn versions_of_monotone_run_drop_plateaus() {
    let events = vec![ev("id-1", "ts-3"), ev("id-1", "ts-8"), ev("id-1", "ts-1")];
    let result = Projector::from_applier(latest_applier()).versions_from_stream(events);
    assert_eq!(
        result,
        vec![
            LatestState {
                id: Some(String::from("id-1")),
                timestamp: Some(String::from("ts-3")),
            },
            LatestState {
                id: Some(String::from("id-1")),
                timestamp: Some(String::from("ts-8")),
            },
        ],
    );
}
