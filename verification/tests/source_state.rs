use demotracer_converter::source_state::{
    changes_between, is_playback_field, source_field, SourceState, SourceStateChange,
};

#[test]
fn conversion_keeps_one_clock_run_and_omits_runtime_owned_fields() {
    let mut previous = SourceState::default();
    let mut changes = Vec::new();
    let mut last_clock = None;
    for tick in 0..600u32 {
        let mut next = SourceState::default();
        for id in [0, 1, 52, 53, 54, 65, 66] {
            next.set(id, tick + 100);
        }
        next.set(6, (tick as f32).to_bits());
        changes_between(&previous, &next, tick, &mut changes, &mut last_clock);
        previous = next;
    }
    assert_eq!(changes.len(), 601);
    assert_eq!(changes[0].field_id, 1);
    assert_eq!(changes[0].run_length(), 600);
    assert!(changes[0].valid(600));
    assert_eq!(last_clock, Some(0));
    assert!(changes[1..].iter().all(|c| c.field_id == 6 && c.valid(600)));
}

#[test]
fn absent_zero_and_disappearing_state_are_distinct() {
    let absent = SourceState::default();
    let mut zero = absent.clone();
    zero.set(2, 0);
    let mut changes = Vec::new();
    let mut last_clock = None;
    changes_between(&absent, &zero, 0, &mut changes, &mut last_clock);
    changes_between(&zero, &zero, 1, &mut changes, &mut last_clock);
    changes_between(&zero, &absent, 2, &mut changes, &mut last_clock);
    assert_eq!(changes.len(), 2);
    assert_eq!(changes[0].present, 1);
    assert_eq!(changes[1].present, 0);
    assert!(changes.iter().all(|c| c.valid(3)));
}

#[test]
fn set_then_get_reads_back_and_leaves_other_fields() {
    let mut state = SourceState::default();
    assert_eq!(state.get(5), None);
    state.set(5, 42);
    assert_eq!(state.get(5), Some(42));
    assert_eq!(state.get(6), None);
    state.set(5, 7);
    assert_eq!(state.get(5), Some(7));
}

#[test]
fn unchanged_state_records_nothing() {
    let mut state = SourceState::default();
    state.set(3, 9);
    let mut changes: Vec<SourceStateChange> = Vec::new();
    let mut last_clock = None;
    changes_between(&state, &state, 4, &mut changes, &mut last_clock);
    assert!(changes.is_empty());
    assert_eq!(last_clock, None);
}

#[test]
fn registry_marks_runtime_owned_fields() {
    assert!(source_field(0).is_some());
    assert!(source_field(67).is_none());
    assert!(is_playback_field(6));
    assert!(!is_playback_field(0));
}

#[test]
fn equal_states_record_nothing_and_changes_come_in_field_order() {
    let mut state = SourceState::default();
    state.set(5, 7);
    let mut changes = Vec::new();
    let mut last_clock = None;
    changes_between(&state, &state, 3, &mut changes, &mut last_clock);
    assert!(changes.is_empty());
    assert_eq!(last_clock, None);

    let mut next = state.clone();
    next.set(40, 1);
    next.set(2, 9);
    next.set(53, 4);
    changes_between(&state, &next, 4, &mut changes, &mut last_clock);
    let ids: Vec<u32> = changes.iter().map(|c| c.field_id).collect();
    assert_eq!(ids, vec![2, 40]);
    assert!(changes.iter().all(|c| c.tick_index == 4 && c.present == 1));
}
