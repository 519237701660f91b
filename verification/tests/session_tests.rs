use riverflow::data::{FlowReading, Station};
use riverflow::present::{farewell_line, present_reading};
use riverflow::session::{
    continue_step, display_step, search_step, select_step, SelectionOutcome, SessionState,
};

fn station(name: &str, id: &str) -> Station {
    Station {
        province: "AB".to_string(),
        operations: "Real-Time".to_string(),
        name: name.to_string(),
        latlng: vec!["51.05".to_string()],
        six_hrs_data: "yes".to_string(),
        id: id.to_string(),
    }
}

fn reading(date: &str, value: &str) -> FlowReading {
    FlowReading { date: date.to_string(), value: value.to_string() }
}

#[test]
fn selection_rejects_non_number_and_stays_selecting() {
    let (outcome, state) = select_step(2, "abc");
    assert_eq!(outcome, SelectionOutcome::NotANumber);
    assert_eq!(state, SessionState::Selecting);
}

#[test]
fn selection_rejects_zero_and_stays_selecting() {
    let (outcome, state) = select_step(2, "0");
    assert_eq!(outcome, SelectionOutcome::OutOfRange);
    assert_eq!(state, SessionState::Selecting);
}

#[test]
fn selection_rejects_too_large_and_stays_selecting() {
    let (outcome, state) = select_step(2, "3");
    assert_eq!(outcome, SelectionOutcome::OutOfRange);
    assert_eq!(state, SessionState::Selecting);
}

#[test]
fn selection_accepts_number_in_range() {
    let (outcome, state) = select_step(2, " 2 \n");
    assert_eq!(outcome, SelectionOutcome::Chosen(1));
    assert_eq!(state, SessionState::Displaying);
}

#[test]
fn selection_accepts_leading_plus() {
    let (outcome, state) = select_step(3, "+1");
    assert_eq!(outcome, SelectionOutcome::Chosen(0));
    assert_eq!(state, SessionState::Displaying);
}

#[test]
fn selection_rejects_overflowing_number() {
    let (outcome, state) = select_step(2, "99999999999999999999999999");
    assert_eq!(outcome, SelectionOutcome::NotANumber);
    assert_eq!(state, SessionState::Selecting);
}

#[test]
fn unmatched_search_offers_search_again() {
    let stations = vec![station("BOW RIVER", "05BB001")];
    let (ms, state) = search_step(&stations, "zzz");
    assert_eq!(ms.len(), 0);
    assert_eq!(state, SessionState::ContinuePrompt);
    assert_eq!(continue_step("n"), SessionState::Terminated);
}

#[test]
fn matched_search_moves_to_selecting() {
    let stations = vec![station("BOW RIVER", "05BB001")];
    let (ms, state) = search_step(&stations, "bow");
    assert_eq!(ms.len(), 1);
    assert_eq!(state, SessionState::Selecting);
}

#[test]
fn continue_prompt_answers() {
    assert_eq!(continue_step("n"), SessionState::Terminated);
    assert_eq!(continue_step(" N \n"), SessionState::Terminated);
    assert_eq!(continue_step("y"), SessionState::Searching);
    assert_eq!(continue_step("no"), SessionState::Searching);
    assert_eq!(continue_step(""), SessionState::Searching);
}

#[test]
fn display_shows_last_reading_of_ascending_history() {
    let history = vec![reading("2024-01-01", "12.3"), reading("2024-01-02", "14.0")];
    let (latest, state) = display_step(&history);
    assert_eq!(state, SessionState::ContinuePrompt);
    let latest = latest.expect("history is non-empty");
    assert_eq!(latest.date, "2024-01-02");
    assert_eq!(latest.value, "14.0");
}

#[test]
fn display_handles_empty_history() {
    let history: Vec<FlowReading> = Vec::new();
    let (latest, state) = display_step(&history);
    assert!(latest.is_none());
    assert_eq!(state, SessionState::ContinuePrompt);
}

#[test]
fn presenter_formats_latest_reading() {
    let r = reading("2024-01-02", "14.0");
    let out = present_reading("BOW RIVER", &r);
    assert_eq!(
        out,
        "Displaying Data:\n\nStation Name: BOW RIVER \u{1f6a7}\nDate: 2024-01-02 \u{1f4c5}\nRiver Flow: 14.0 cubic metres per second \u{1f30a}\n"
    );
}

#[test]
fn farewell_text() {
    assert_eq!(farewell_line(), "Have fun on the river! \u{1f919}");
}
