use projection::encounter::{
    encounter_projector, Encounter, EventData, Participant, Period, VisitEvent, VisitReport,
};

fn event_data(caregiver_id: &str, event_type: &str, timestamp: &str) -> EventData {
    EventData {
        event_type: event_type.to_owned(),
        id: "0".to_owned(),
        care_recipient_id: "0".to_owned(),
        caregiver_id: caregiver_id.to_owned(),
        timestamp: timestamp.to_owned(),
    }
}

#[test]
fn basic() {
    let report_0 = VisitReport {
        id: "1".to_owned(),
        visit_events: vec![
            VisitEvent::CheckIn(event_data("0", "check_in", "2021-01-01T00:00:00.000Z")),
            VisitEvent::CheckOut(event_data("0", "check_out", "2021-01-01T10:00:00.000Z")),
        ],
    };
    let report_1 = VisitReport {
        id: "1".to_owned(),
        visit_events: vec![
            VisitEvent::CheckIn(event_data("1", "check_in", "2020-12-31T00:00:00.001Z")),
        ],
    };
    let stream = vec![report_0, report_1];
    let result = encounter_projector().project_last_state(stream);
    assert_eq!(
        result.period,
        Period {
            start: Some("2020-12-31T00:00:00.001Z".to_owned()),
            end: Some("2021-01-01T10:00:00.000Z".to_owned()),
        },
    );
    assert_eq!(
        result.participant,
        vec![
            Participant {
                id: "0".to_owned(),
                start: Some("2021-01-01T00:00:00.000Z".to_owned()),
                end: Some("2021-01-01T10:00:00.000Z".to_owned()),
            },
            Participant {
                id: "1".to_owned(),
                start: Some("2020-12-31T00:00:00.001Z".to_owned()),
                end: None,
            },
        ],
    );
}

#[test]
fn empty_report_leaves_encounter_untouched() {
    let report = VisitReport { id: "1".to_owned(), visit_events: Vec::new() };
    let result = encounter_projector().project_last_state(vec![report]);
    assert_eq!(
        result,
        Encounter { period: Period { start: None, end: None }, participant: Vec::new() },
    );
}

#[test]
fn check_out_of_unseen_caregiver_opens_an_entry() {
    let report = VisitReport {
        id: "1".to_owned(),
        visit_events: vec![
            VisitEvent::CheckOut(event_data("7", "check_out", "2021-03-01T09:00:00.000Z")),
        ],
    };
    let result = encounter_projector().project_last_state(vec![report]);
    assert_eq!(
        result.participant,
        vec![Participant {
            id: "7".to_owned(),
            start: Some("2021-03-01T09:00:00.000Z".to_owned()),
            end: None,
        }],
    );
    assert_eq!(
        result.period,
        Period { start: None, end: Some("2021-03-01T09:00:00.000Z".to_owned()) },
    );
}
