use socks_broker::vetting::{
    location_allowed, parse_speed, version_allowed, vet_response, Candidate, VetState, VetVerdict,
};

fn allow(list: &[&str]) -> Vec<Vec<u8>> {
    list.iter().map(|s| s.as_bytes().to_vec()).collect()
}

#[test]
fn accepted_version_passes() {
    assert!(version_allowed(b"1.0.9"));
}

#[test]
fn old_version_is_rejected() {
    assert!(!version_allowed(b"0.9.0"));
    assert!(!version_allowed(b""));
    assert!(!version_allowed(b"1.0.9 "));
}

#[test]
fn empty_allow_list_admits_all_countries() {
    assert!(location_allowed(b"KP", &allow(&[])));
}

#[test]
fn country_match_ignores_ascii_case() {
    let list = allow(&["US", "CA"]);
    assert!(location_allowed(b"us", &list));
    assert!(location_allowed(b"Ca", &list));
    assert!(!location_allowed(b"DE", &list));
}

#[test]
fn speed_literal_parses_to_tenths() {
    assert_eq!(parse_speed(b"125.4"), Some(1254));
    assert_eq!(parse_speed(b"125.45"), Some(1254));
    assert_eq!(parse_speed(b"0"), Some(0));
    assert_eq!(parse_speed(b"7"), Some(70));
    assert_eq!(parse_speed(b"0.9"), Some(9));
}

#[test]
fn malformed_speed_literals_are_rejected() {
    assert_eq!(parse_speed(b""), None);
    assert_eq!(parse_speed(b"."), None);
    assert_eq!(parse_speed(b".5"), None);
    assert_eq!(parse_speed(b"5."), None);
    assert_eq!(parse_speed(b"12a.4"), None);
    assert_eq!(parse_speed(b"1.2.3"), None);
    assert_eq!(parse_speed(b"-1.0"), None);
    assert_eq!(parse_speed(b"1234567890123456789"), None);
}

#[test]
fn vetting_pipeline_admits_a_good_slave() {
    let list = allow(&["US", "CA"]);
    let mut cand = Candidate::new();
    let v = vet_response(&VetState::AwaitVersion, b"1.0.9", &list, &mut cand);
    assert_eq!(v, VetVerdict::Proceed(VetState::AwaitLocation));
    assert_eq!(cand.version, b"1.0.9".to_vec());

    let body = br#"{"data":{"country":"US","city":"X"}}"#;
    let v = vet_response(&VetState::AwaitLocation, body, &list, &mut cand);
    assert_eq!(v, VetVerdict::Proceed(VetState::AwaitSpeed));
    assert_eq!(cand.country, b"US".to_vec());

    let v = vet_response(&VetState::AwaitSpeed, b"125.4", &list, &mut cand);
    assert_eq!(v, VetVerdict::Admit);
    assert_eq!(cand.speed_tenths, 1254);
}

#[test]
fn vetting_rejects_an_old_version() {
    let list = allow(&["US"]);
    let mut cand = Candidate::new();
    let v = vet_response(&VetState::AwaitVersion, b"0.9.0", &list, &mut cand);
    assert_eq!(v, VetVerdict::Reject);
    assert!(cand.version.is_empty());
}

#[test]
fn vetting_rejects_a_disallowed_country() {
    let list = allow(&["US"]);
    let mut cand = Candidate::new();
    let body = br#"{"data":{"country":"DE"}}"#;
    let v = vet_response(&VetState::AwaitLocation, body, &list, &mut cand);
    assert_eq!(v, VetVerdict::Reject);
    // the country is still recorded, as the endpoint metadata keeps it
    assert_eq!(cand.country, b"DE".to_vec());
}

#[test]
fn vetting_rejects_malformed_location_bodies() {
    let list = allow(&[]);
    let mut cand = Candidate::new();
    assert_eq!(
        vet_response(&VetState::AwaitLocation, b"not json", &list, &mut cand),
        VetVerdict::Reject
    );
    assert_eq!(
        vet_response(&VetState::AwaitLocation, br#"{"data":{}}"#, &list, &mut cand),
        VetVerdict::Reject
    );
    assert_eq!(
        vet_response(&VetState::AwaitLocation, br#"{"country":"US"}"#, &list, &mut cand),
        VetVerdict::Reject
    );
    assert!(cand.country.is_empty());
}

#[test]
fn vetting_rejects_a_malformed_speed() {
    let list = allow(&[]);
    let mut cand = Candidate::new();
    assert_eq!(
        vet_response(&VetState::AwaitSpeed, b"fast", &list, &mut cand),
        VetVerdict::Reject
    );
    assert_eq!(cand.speed_tenths, 0);
}
