use md2_collisions::engine::{advance, Event, Stage};

#[test]
fn a_run_goes_through_its_stages_in_order() {
    let stage = Stage::Idle;
    let stage = advance(stage, Event::TablePrefilled).unwrap();
    assert_eq!(stage, Stage::Prefilled);
    let stage = advance(stage, Event::DispatchBegun).unwrap();
    assert_eq!(stage, Stage::Searching);
    let stage = advance(stage, Event::AllMerged).unwrap();
    assert_eq!(stage, Stage::Complete);
}

#[test]
fn an_event_that_is_not_due_moves_nothing() {
    let stages = [Stage::Idle, Stage::Prefilled, Stage::Searching, Stage::Complete];
    let events = [Event::TablePrefilled, Event::DispatchBegun, Event::AllMerged];
    for (s, stage) in stages.iter().enumerate() {
        for (e, event) in events.iter().enumerate() {
            let next = advance(*stage, *event);
            if s == e {
                assert_eq!(next, Some(stages[s + 1]));
            } else {
                assert_eq!(next, None);
            }
        }
    }
}

#[test]
fn a_complete_run_stays_complete() {
    assert_eq!(advance(Stage::Complete, Event::TablePrefilled), None);
    assert_eq!(advance(Stage::Complete, Event::DispatchBegun), None);
    assert_eq!(advance(Stage::Complete, Event::AllMerged), None);
}
