use sendme::progress::{
    compose_summary, follow, summary_line, throughput, trace, Elapsed, ItemGauge, Outcome, Overall, Summary,
    TransferEvent, TransferPhase, TransferState,
};

fn secs(secs: u64) -> Elapsed {
    Elapsed { secs, subsec_nanos: 0 }
}

#[test]
fn single_blob_scenario() {
    let events = vec![
        TransferEvent::Connected,
        TransferEvent::ItemStarted { index: 0, declared_size: 1000 },
        TransferEvent::ItemProgress { index: 0, bytes_so_far: 500 },
        TransferEvent::ItemProgress { index: 0, bytes_so_far: 1000 },
        TransferEvent::ItemDone { index: 0 },
        TransferEvent::TransferDone { total_bytes: 1000, elapsed: secs(1) },
    ];
    let states = trace(&events);
    assert_eq!(states[0], TransferState::new());
    let phases: Vec<TransferPhase> = states.iter().map(|s| s.phase).collect();
    assert_eq!(
        phases,
        vec![
            TransferPhase::Connecting,
            TransferPhase::Requesting,
            TransferPhase::ReceivingSingleItem,
            TransferPhase::ReceivingSingleItem,
            TransferPhase::ReceivingSingleItem,
            TransferPhase::ReceivingSingleItem,
            TransferPhase::Finished,
        ]
    );
    assert_eq!(states[2].current, Some(ItemGauge { index: 0, position: 0, target: 1000 }));
    assert_eq!(states[3].current, Some(ItemGauge { index: 0, position: 500, target: 1000 }));
    assert_eq!(states[4].current, Some(ItemGauge { index: 0, position: 1000, target: 1000 }));
    assert_eq!(states[5].current, None);
    assert_eq!(states[6].overall, None);
    let summary = states[6].summary.unwrap();
    assert_eq!(summary.total_bytes, 1000);
    assert_eq!(summary.elapsed, secs(1));
    assert_eq!(summary.bytes_per_second, 1000);
    let end = follow(&events).unwrap();
    assert_eq!(end, states[6]);
}

#[test]
fn collection_scenario() {
    let events = vec![
        TransferEvent::Connected,
        TransferEvent::CollectionDiscovered { item_count: 3 },
        TransferEvent::ItemStarted { index: 0, declared_size: 10 },
        TransferEvent::ItemDone { index: 0 },
        TransferEvent::ItemStarted { index: 1, declared_size: 20 },
        TransferEvent::ItemDone { index: 1 },
        TransferEvent::ItemStarted { index: 2, declared_size: 30 },
        TransferEvent::ItemDone { index: 2 },
        TransferEvent::TransferDone { total_bytes: 60, elapsed: secs(2) },
    ];
    let states = trace(&events);
    assert_eq!(states.len(), 10);
    assert_eq!(states[0].overall_position(), None);
    assert_eq!(states[1].overall_position(), None);
    assert_eq!(states[2].phase, TransferPhase::ReceivingCollection { index: 0, of: 3 });
    assert_eq!(states[2].overall, Some(Overall { position: 0, length: 3 }));
    let positions: Vec<u64> =
        states[3..].iter().map(|s| s.overall_position().unwrap()).collect();
    assert_eq!(positions, vec![0, 0, 1, 1, 2, 2, 3]);
    assert_eq!(states[5].phase, TransferPhase::ReceivingCollection { index: 1, of: 3 });
    assert_eq!(states[9].phase, TransferPhase::Finished);
    assert_eq!(states[9].overall, Some(Overall { position: 3, length: 3 }));
    assert_eq!(states[9].summary.unwrap().bytes_per_second, 30);
}

#[test]
fn abort_is_terminal() {
    let events = vec![
        TransferEvent::Connected,
        TransferEvent::ItemStarted { index: 0, declared_size: 10 },
        TransferEvent::Aborted { cause: "peer went away".to_string() },
        TransferEvent::ItemProgress { index: 0, bytes_so_far: 5 },
        TransferEvent::TransferDone { total_bytes: 10, elapsed: secs(1) },
        TransferEvent::Aborted { cause: "again".to_string() },
    ];
    let states = trace(&events);
    assert_eq!(states[3].phase, TransferPhase::Aborted);
    assert_eq!(states[3].current, None);
    assert_eq!(states[4], states[3]);
    assert_eq!(states[5], states[3]);
    assert_eq!(states[6], states[3]);
    let failure = follow(&events).unwrap_err();
    assert_eq!(failure.cause, "peer went away");
}

#[test]
fn abort_before_anything_else() {
    let events = vec![TransferEvent::Aborted { cause: "refused".to_string() }];
    assert_eq!(follow(&events).unwrap_err().cause, "refused");
}

#[test]
fn events_after_the_end_are_violations() {
    let state = TransferState::new();
    let (state, outcome) =
        state.advance(&TransferEvent::TransferDone { total_bytes: 0, elapsed: secs(0) });
    assert_eq!(
        outcome,
        Outcome::Finished(Summary { total_bytes: 0, elapsed: secs(0), bytes_per_second: 0 })
    );
    assert!(state.is_terminal());
    let (after, outcome) = state.advance(&TransferEvent::Connected);
    assert_eq!(outcome, Outcome::ProtocolViolation);
    assert_eq!(after, state);
    let (after, outcome) = state.advance(&TransferEvent::Aborted { cause: "late".to_string() });
    assert_eq!(outcome, Outcome::ProtocolViolation);
    assert_eq!(after.phase, TransferPhase::Finished);
    let events = vec![
        TransferEvent::TransferDone { total_bytes: 0, elapsed: secs(0) },
        TransferEvent::Aborted { cause: "late".to_string() },
    ];
    assert_eq!(follow(&events).unwrap().phase, TransferPhase::Finished);
}

#[test]
fn events_that_do_not_fit_are_violations() {
    let state = TransferState::new();
    let (s1, o1) = state.advance(&TransferEvent::ItemProgress { index: 0, bytes_so_far: 1 });
    assert_eq!(o1, Outcome::ProtocolViolation);
    assert_eq!(s1, state);
    let (s2, o2) = state.advance(&TransferEvent::ItemStarted { index: 4, declared_size: 9 });
    assert_eq!(o2, Outcome::Updated);
    let (s3, o3) = s2.advance(&TransferEvent::ItemProgress { index: 5, bytes_so_far: 1 });
    assert_eq!(o3, Outcome::ProtocolViolation);
    assert_eq!(s3, s2);
    let (s4, o4) = s2.advance(&TransferEvent::ItemDone { index: 5 });
    assert_eq!(o4, Outcome::ProtocolViolation);
    assert_eq!(s4, s2);
    let (s5, o5) = s2.advance(&TransferEvent::Connected);
    assert_eq!(o5, Outcome::ProtocolViolation);
    assert_eq!(s5, s2);
    let (s6, o6) = s2.advance(&TransferEvent::Unknown);
    assert_eq!(o6, Outcome::Ignored);
    assert_eq!(s6, s2);
    let (s7, o7) = s2.advance(&TransferEvent::Aborted { cause: String::new() });
    assert_eq!(o7, Outcome::Aborted);
    assert_eq!(s7.phase, TransferPhase::Aborted);
}

#[test]
fn collection_discovered_after_first_item() {
    let events = vec![
        TransferEvent::Connected,
        TransferEvent::ItemStarted { index: 0, declared_size: 64 },
        TransferEvent::CollectionDiscovered { item_count: 2 },
        TransferEvent::ItemStarted { index: 1, declared_size: 7 },
    ];
    let states = trace(&events);
    assert_eq!(states[2].phase, TransferPhase::ReceivingSingleItem);
    assert_eq!(states[3].phase, TransferPhase::ReceivingCollection { index: 0, of: 2 });
    assert_eq!(states[3].current, Some(ItemGauge { index: 0, position: 0, target: 64 }));
    assert_eq!(states[4].phase, TransferPhase::ReceivingCollection { index: 1, of: 2 });
    assert_eq!(states[4].current, Some(ItemGauge { index: 1, position: 0, target: 7 }));
}

#[test]
fn no_events_leave_the_transfer_connecting() {
    let states = trace(&Vec::new());
    assert_eq!(states, vec![TransferState::new()]);
    assert_eq!(follow(&Vec::new()).unwrap().phase, TransferPhase::Connecting);
}

#[test]
fn throughput_values() {
    assert_eq!(throughput(1000, secs(1)), 1000);
    assert_eq!(throughput(1000, secs(3)), 333);
    assert_eq!(throughput(1000, Elapsed { secs: 0, subsec_nanos: 500_000_000 }), 2000);
    assert_eq!(throughput(1, Elapsed { secs: 0, subsec_nanos: 1 }), 1_000_000_000);
    assert_eq!(throughput(0, secs(0)), 0);
    assert_eq!(throughput(5, secs(0)), u64::MAX);
    assert_eq!(throughput(u64::MAX, Elapsed { secs: 0, subsec_nanos: 1 }), u64::MAX);
    assert_eq!(throughput(u64::MAX, secs(1)), u64::MAX);
    assert_eq!(throughput(7, Elapsed { secs: u64::MAX, subsec_nanos: u32::MAX }), 0);
}

#[test]
fn summary_line_text() {
    let summary = Summary { total_bytes: 1000, elapsed: secs(1), bytes_per_second: 1000 };
    assert_eq!(summary_line(&summary), "Transferred 1000 B in 1 second, 1000 B/s");
    let summary = Summary {
        total_bytes: 1_500_000,
        elapsed: Elapsed { secs: 9, subsec_nanos: 3_000_000_000 },
        bytes_per_second: 1_500,
    };
    assert_eq!(summary_line(&summary), "Transferred 1.43 MiB in 12 seconds, 1.46 KiB/s");
}

#[test]
fn summary_is_composed_from_its_texts() {
    assert_eq!(compose_summary("1 B", "2 seconds", "0 B"), "Transferred 1 B in 2 seconds, 0 B/s");
    assert_eq!(compose_summary("", "", ""), "Transferred  in , /s");
}

#[test]
fn spans_are_normalized() {
    assert_eq!(secs(5).normalized(), secs(5));
    assert_eq!(
        Elapsed { secs: 9, subsec_nanos: 3_000_000_001 }.normalized(),
        Elapsed { secs: 12, subsec_nanos: 1 }
    );
    assert_eq!(
        Elapsed { secs: u64::MAX, subsec_nanos: 1_999_999_999 }.normalized(),
        Elapsed { secs: u64::MAX, subsec_nanos: 999_999_999 }
    );
}
