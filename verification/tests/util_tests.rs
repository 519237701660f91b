use riverflow::dates::{current_date_range, date_text, previous_day};
use riverflow::flow::latest_reading;
use riverflow::data::FlowReading;
use riverflow::present::match_line;
use riverflow::url::{flow_history_url, station_list_url};

#[test]
fn station_list_url_embeds_key() {
    let u = station_list_url("SECRET-REDACTED");
    assert_eq!(
        u,
        "https://vps267042.vps.ovh.ca/scrapi/stations?page=1,2,3,4,5,6,7,8,9,10,11counter&key=SECRET-REDACTED"
    );
}

#[test]
fn flow_history_url_embeds_all_parameters() {
    let u = flow_history_url("05BB001", "2024-01-01", "2024-01-02", "SECRET-REDACTED");
    assert_eq!(
        u,
        "https://vps267042.vps.ovh.ca/scrapi/station/05BB001/flow/?startDate=2024-01-01&endDate=2024-01-02&resultType=history&key=SECRET-REDACTED"
    );
}

#[test]
fn date_range_is_yesterday_through_today() {
    let (start, end) = current_date_range().expect("the clock reports a usable date");
    assert_eq!(start.len(), 10);
    assert_eq!(end.len(), 10);
    assert_eq!(start.as_bytes()[4], b'-');
    assert_eq!(start.as_bytes()[7], b'-');
    assert_eq!(end.as_bytes()[4], b'-');
    assert_eq!(end.as_bytes()[7], b'-');
    assert!(start < end);
}

#[test]
fn date_text_is_zero_padded() {
    assert_eq!(date_text(2026, 1, 5), "2026-01-05");
    assert_eq!(date_text(987, 12, 31), "0987-12-31");
}

#[test]
fn previous_day_steps_the_gregorian_calendar() {
    assert_eq!(previous_day(2024, 1, 15), (2024, 1, 14));
    assert_eq!(previous_day(2024, 1, 1), (2023, 12, 31));
    assert_eq!(previous_day(2024, 3, 1), (2024, 2, 29));
    assert_eq!(previous_day(2023, 3, 1), (2023, 2, 28));
    assert_eq!(previous_day(2000, 3, 1), (2000, 2, 29));
    assert_eq!(previous_day(1900, 3, 1), (1900, 2, 28));
    assert_eq!(previous_day(2024, 5, 1), (2024, 4, 30));
}

#[test]
fn latest_reading_is_last_entry() {
    let history = vec![
        FlowReading { date: "2024-01-01".to_string(), value: "1.0".to_string() },
        FlowReading { date: "2024-01-02".to_string(), value: "2.0".to_string() },
        FlowReading { date: "2024-01-03".to_string(), value: "3.0".to_string() },
    ];
    let latest = latest_reading(&history).expect("non-empty");
    assert_eq!(latest.date, "2024-01-03");
    assert_eq!(latest.value, "3.0");
    assert!(latest_reading(&Vec::new()).is_none());
}

#[test]
fn match_lines_number_from_one() {
    assert_eq!(match_line(1, "BOW RIVER"), "[1] BOW RIVER");
    assert_eq!(match_line(12, "ELBOW RIVER"), "[12] ELBOW RIVER");
    assert_eq!(match_line(205, "X"), "[205] X");
}
