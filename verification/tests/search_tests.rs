use riverflow::data::Station;
use riverflow::present::match_line;
use riverflow::search::search;

fn station(name: &str, id: &str) -> Station {
    Station {
        province: "AB".to_string(),
        operations: "Real-Time".to_string(),
        name: name.to_string(),
        latlng: vec!["51.05".to_string(), "-114.07".to_string()],
        six_hrs_data: "yes".to_string(),
        id: id.to_string(),
    }
}

fn sample_list() -> Vec<Station> {
    vec![station("BOW RIVER", "05BB001"), station("ELBOW RIVER", "05BJ001")]
}

#[test]
fn substring_query_matches_both_rivers() {
    let stations = sample_list();
    let ms = search(&stations, "bow");
    assert_eq!(ms.len(), 2);
    assert_eq!(ms[0].name, "BOW RIVER");
    assert_eq!(ms[0].id, "05BB001");
    assert_eq!(ms[1].name, "ELBOW RIVER");
    assert_eq!(ms[1].id, "05BJ001");
    assert_eq!(match_line(1, &ms[0].name), "[1] BOW RIVER");
    assert_eq!(match_line(2, &ms[1].name), "[2] ELBOW RIVER");
}

#[test]
fn empty_query_returns_all_stations() {
    let stations = sample_list();
    let ms = search(&stations, "");
    assert_eq!(ms.len(), 2);
    assert_eq!(ms[0].name, "BOW RIVER");
    assert_eq!(ms[1].name, "ELBOW RIVER");
}

#[test]
fn query_is_trimmed_and_upper_cased() {
    let stations = sample_list();
    let ms = search(&stations, "  Elbow \n");
    assert_eq!(ms.len(), 1);
    assert_eq!(ms[0].name, "ELBOW RIVER");
}

#[test]
fn unmatched_query_returns_nothing() {
    let stations = sample_list();
    let ms = search(&stations, "zzz");
    assert_eq!(ms.len(), 0);
}

#[test]
fn latin1_letters_fold_to_upper_case() {
    let stations = vec![station("RIVI\u{c8}RE AUX SABLES", "02RH001")];
    let ms = search(&stations, "rivi\u{e8}re");
    assert_eq!(ms.len(), 1);
    assert_eq!(ms[0].id, "02RH001");
}

#[test]
fn matches_keep_list_order() {
    let stations = vec![
        station("RED DEER RIVER", "05CC002"),
        station("BOW RIVER", "05BB001"),
        station("OLDMAN RIVER", "05AA024"),
    ];
    let ms = search(&stations, "river");
    assert_eq!(ms.len(), 3);
    assert_eq!(ms[0].name, "RED DEER RIVER");
    assert_eq!(ms[1].name, "BOW RIVER");
    assert_eq!(ms[2].name, "OLDMAN RIVER");
}
