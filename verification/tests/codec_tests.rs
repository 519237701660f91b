use riverflow::codec::{flow_history_to_json, parse_flow_history, parse_station_list, station_list_to_json, ParseError};
use riverflow::data::{FlowData, FlowHistoryEnvelope, FlowReading, Station, StationListEnvelope};

fn station(name: &str, id: &str) -> Station {
    Station {
        province: "AB".to_string(),
        operations: "Real-Time".to_string(),
        name: name.to_string(),
        latlng: vec!["51.05".to_string(), "-114.07".to_string()],
        six_hrs_data: "yes".to_string(),
        id: id.to_string(),
    }
}

#[test]
fn station_list_renders_canonical_text() {
    let env = StationListEnvelope {
        code: 0,
        details: "ok".to_string(),
        stations: vec![station("BOW RIVER", "05BB001")],
    };
    let text = station_list_to_json(&env);
    assert_eq!(
        text,
        "{\"code\":0,\"details\":\"ok\",\"message\":[{\"province\":\"AB\",\"operations\":\"Real-Time\",\"name\":\"BOW RIVER\",\"latlng\":[51.05,-114.07],\"6hrs_data\":\"yes\",\"id\":\"05BB001\"}]}"
    );
}

#[test]
fn station_list_round_trips_two_records() {
    let env = StationListEnvelope {
        code: 1,
        details: "returned 2 stations".to_string(),
        stations: vec![station("BOW RIVER", "05BB001"), station("ELBOW RIVER", "05BJ001")],
    };
    let text = station_list_to_json(&env);
    let parsed = parse_station_list(&text).expect("canonical text parses");
    assert_eq!(parsed.len(), 2);
    for (got, want) in parsed.iter().zip(env.stations.iter()) {
        assert_eq!(got.province, want.province);
        assert_eq!(got.operations, want.operations);
        assert_eq!(got.name, want.name);
        assert_eq!(got.latlng, want.latlng);
        assert_eq!(got.six_hrs_data, want.six_hrs_data);
        assert_eq!(got.id, want.id);
    }
}

#[test]
fn station_list_round_trips_empty_list_and_negative_code() {
    let env = StationListEnvelope { code: -7, details: String::new(), stations: Vec::new() };
    let text = station_list_to_json(&env);
    assert_eq!(text, "{\"code\":-7,\"details\":\"\",\"message\":[]}");
    let parsed = parse_station_list(&text).expect("canonical text parses");
    assert_eq!(parsed.len(), 0);
}

#[test]
fn station_list_parses_handwritten_text() {
    let text = "{\"code\":0,\"details\":\"d\",\"message\":[{\"province\":\"BC\",\"operations\":\"Seasonal\",\"name\":\"FRASER RIVER\",\"latlng\":[49.1,-122.5],\"6hrs_data\":\"no\",\"id\":\"08MF005\"},{\"province\":\"AB\",\"operations\":\"Real-Time\",\"name\":\"BOW RIVER\",\"latlng\":[51.05,-114.07],\"6hrs_data\":\"yes\",\"id\":\"05BB001\"}]}";
    let parsed = parse_station_list(text).expect("canonical text parses");
    assert_eq!(parsed.len(), 2);
    assert_eq!(parsed[0].name, "FRASER RIVER");
    assert_eq!(parsed[0].latlng, vec!["49.1".to_string(), "-122.5".to_string()]);
    assert_eq!(parsed[1].id, "05BB001");
}

#[test]
fn station_list_rejects_malformed_text() {
    assert!(matches!(parse_station_list(""), Err(ParseError::Malformed)));
    assert!(matches!(parse_station_list("{"), Err(ParseError::Malformed)));
    assert!(matches!(
        parse_station_list("{\"code\":,\"details\":\"\",\"message\":[]}"),
        Err(ParseError::Malformed)
    ));
    assert!(matches!(
        parse_station_list("{\"code\":0,\"details\":\"d\",\"message\":[]"),
        Err(ParseError::Malformed)
    ));
    assert!(matches!(
        parse_station_list("{\"code\":0,\"details\":\"d\",\"message\":[]}trailing"),
        Err(ParseError::Malformed)
    ));
}

#[test]
fn flow_history_round_trips() {
    let env = FlowHistoryEnvelope {
        code: 0,
        details: "ok".to_string(),
        data: FlowData {
            start_date: "2024-01-01".to_string(),
            end_date: "2024-01-02".to_string(),
            unit: "m3/s".to_string(),
            history: vec![
                FlowReading { date: "2024-01-01".to_string(), value: "12.3".to_string() },
                FlowReading { date: "2024-01-02".to_string(), value: "14.0".to_string() },
            ],
        },
    };
    let text = flow_history_to_json(&env);
    assert_eq!(
        text,
        "{\"code\":0,\"details\":\"ok\",\"message\":{\"startDate\":\"2024-01-01\",\"endDate\":\"2024-01-02\",\"unit\":\"m3/s\",\"history\":[{\"date\":\"2024-01-01\",\"value\":\"12.3\"},{\"date\":\"2024-01-02\",\"value\":\"14.0\"}]}}"
    );
    let parsed = parse_flow_history(&text).expect("canonical text parses");
    assert_eq!(parsed.len(), 2);
    assert_eq!(parsed[0].date, "2024-01-01");
    assert_eq!(parsed[0].value, "12.3");
    assert_eq!(parsed[1].date, "2024-01-02");
    assert_eq!(parsed[1].value, "14.0");
}

#[test]
fn flow_history_round_trips_empty_history() {
    let env = FlowHistoryEnvelope {
        code: 3,
        details: "no data".to_string(),
        data: FlowData {
            start_date: "2024-01-01".to_string(),
            end_date: "2024-01-02".to_string(),
            unit: "m3/s".to_string(),
            history: Vec::new(),
        },
    };
    let text = flow_history_to_json(&env);
    let parsed = parse_flow_history(&text).expect("canonical text parses");
    assert_eq!(parsed.len(), 0);
}

#[test]
fn flow_history_rejects_malformed_text() {
    assert!(matches!(parse_flow_history(""), Err(ParseError::Malformed)));
    assert!(matches!(
        parse_flow_history("{\"code\":0,\"details\":\"ok\",\"message\":{}}"),
        Err(ParseError::Malformed)
    ));
}

#[test]
fn parse_error_describes_itself() {
    assert_eq!(ParseError::Malformed.describe(), "response is not a well-formed envelope");
}
