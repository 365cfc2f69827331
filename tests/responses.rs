use clamav_tcp::{ClamAVClientError, ScanResult};

#[test]
fn parses_clean_reply() {
    let r = ScanResult::parse("stream: OK\0").unwrap();
    assert!(!r.is_infected);
    assert!(r.detected_infections.is_empty());
}

#[test]
fn parses_infected_reply() {
    let r = ScanResult::parse("stream: Win.Test.EICAR_HDB-1 FOUND\0").unwrap();
    assert!(r.is_infected);
    assert_eq!(r.detected_infections, vec!["Win.Test.EICAR_HDB-1".to_string()]);
}

#[test]
fn refuses_reply_without_marker() {
    match ScanResult::parse("PONG\0") {
        Err(ClamAVClientError::UnableToParseResponse(text)) => assert_eq!(text, "PONG\0"),
        other => panic!("unexpected: {:?}", other),
    }
}

#[test]
fn refuses_empty_reply() {
    assert!(matches!(
        ScanResult::parse(""),
        Err(ClamAVClientError::UnableToParseResponse(_))
    ));
}

#[test]
fn parsing_twice_gives_equal_results() {
    for text in ["stream: OK\0", "stream: Eicar-Signature FOUND\0", "nothing here"] {
        let a = ScanResult::parse(text);
        let b = ScanResult::parse(text);
        match (a, b) {
            (Ok(a), Ok(b)) => {
                assert_eq!(a.is_infected, b.is_infected);
                assert_eq!(a.detected_infections, b.detected_infections);
            }
            (Err(_), Err(_)) => {}
            _ => panic!("the two parses differ"),
        }
    }
}

#[test]
fn clean_scan_reply_for_plain_text() {
    // What the daemon answers for "This is not a virus.".
    let r = ScanResult::parse("stream: OK\0").unwrap();
    assert_eq!(r.is_infected, false);
}

#[test]
fn eicar_scan_reply_names_one_infection() {
    let r = ScanResult::parse("stream: Eicar-Test-Signature FOUND\0").unwrap();
    assert!(r.is_infected);
    assert_eq!(1, r.detected_infections.len());
    assert_eq!(r.detected_infections[0], "Eicar-Test-Signature");
}

#[test]
fn ok_segment_wins_over_found_segments() {
    let r = ScanResult::parse("stream: Bad FOUND\0stream: OK\0").unwrap();
    assert!(!r.is_infected);
    assert!(r.detected_infections.is_empty());
}

#[test]
fn every_segment_names_an_infection_in_order() {
    let r = ScanResult::parse("stream: A FOUND\0stream: B FOUND\0").unwrap();
    assert!(r.is_infected);
    assert_eq!(r.detected_infections, vec!["A".to_string(), "B".to_string()]);
}

#[test]
fn text_before_first_marker_is_dropped() {
    let r = ScanResult::parse("1: stream: X FOUND\0").unwrap();
    assert_eq!(r.detected_infections, vec!["X".to_string()]);
}

#[test]
fn segment_without_suffix_is_kept_whole() {
    let r = ScanResult::parse("stream: Something odd").unwrap();
    assert!(r.is_infected);
    assert_eq!(r.detected_infections, vec!["Something odd".to_string()]);
}

#[test]
fn only_a_trailing_suffix_is_taken_off() {
    let r = ScanResult::parse("stream: A FOUND\0B FOUND\0").unwrap();
    assert_eq!(r.detected_infections, vec!["A FOUND\0B".to_string()]);
}

#[test]
fn segment_must_start_with_ok() {
    let r = ScanResult::parse("stream: NOT OK\0").unwrap();
    assert!(r.is_infected);
    assert_eq!(r.detected_infections, vec!["NOT OK\0".to_string()]);
}

#[test]
fn non_ascii_names_survive() {
    let r = ScanResult::parse("stream: Wörm.Ä FOUND\0").unwrap();
    assert_eq!(r.detected_infections, vec!["Wörm.Ä".to_string()]);
}

#[test]
fn from_str_matches_parse() {
    let r: ScanResult = "stream: Win.Test.EICAR_HDB-1 FOUND\0".parse().unwrap();
    assert!(r.is_infected);
    assert_eq!(r.detected_infections, vec!["Win.Test.EICAR_HDB-1".to_string()]);
    assert!("no marker".parse::<ScanResult>().is_err());
}

#[test]
fn from_str_eicar_reply_names_one_infection() {
    let r: ScanResult = "stream: Win.Test.EICAR_HDB-1 FOUND\0".parse().unwrap();
    assert!(r.is_infected);
    assert_eq!(1, r.detected_infections.len());
    assert_eq!(r.detected_infections[0], "Win.Test.EICAR_HDB-1");
}

#[test]
fn from_str_clean_and_refused_replies() {
    let r: ScanResult = "stream: OK\0".parse().unwrap();
    assert!(!r.is_infected);
    assert!(r.detected_infections.is_empty());
    let r: ScanResult = "stream: Eicar-Test-Signature FOUND\0stream: OK\0".parse().unwrap();
    assert!(!r.is_infected);
    assert!(r.detected_infections.is_empty());
    let r: ScanResult = "1: stream: A FOUND\0stream: B FOUND\0".parse().unwrap();
    assert_eq!(r.detected_infections, vec!["A".to_string(), "B".to_string()]);
    match "PONG\0".parse::<ScanResult>() {
        Err(ClamAVClientError::UnableToParseResponse(text)) => assert_eq!(text, "PONG\0"),
        other => panic!("unexpected: {:?}", other),
    }
}
