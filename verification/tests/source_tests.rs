use namegraph::source::{process_records, title_case, NameRecord, Sex};
use namegraph::DIST_SCALE;

fn record(sex_code: u8, name: &str, year: u16, count: u64) -> NameRecord {
    NameRecord { sex_code, name: name.to_string(), year, count }
}

#[test]
fn test_title_case() {
    assert_eq!(title_case("BOB"), "Bob");
    assert_eq!(title_case("bob"), "Bob");
    assert_eq!(title_case("BOB-JOHN"), "Bob John");
}

#[test]
fn test_process_records_names_and_weights() {
    let records = vec![
        record(1, "JOHN", 1980, 30),
        record(1, "JOHN", 1990, 70),
        record(1, "JOHNNY", 1985, 50),
        record(1, "BOB", 2000, 25),
    ];
    let (names, weights) = process_records(&records, &Sex::MALE).unwrap();
    assert_eq!(names, vec!["John".to_string(), "Johnny".to_string(), "Bob".to_string()]);
    // Totals 100, 50, 25; the most frequent name weighs the full scale.
    assert_eq!(weights, vec![DIST_SCALE, DIST_SCALE / 2, DIST_SCALE / 4]);
}

#[test]
fn test_process_records_filters() {
    let records = vec![
        record(2, "JOHN", 1980, 10),    // wrong sex
        record(1, "A", 1980, 10),       // single letter
        record(1, "_PRENOMS_RARES", 1980, 10), // rare-names marker
        record(1, "OLDNAME", 1950, 10), // before the year floor
        record(1, "BOB", 1980, 10),
    ];
    let (names, weights) = process_records(&records, &Sex::MALE).unwrap();
    assert_eq!(names, vec!["Bob".to_string()]);
    assert_eq!(weights, vec![DIST_SCALE]);
}

#[test]
fn test_process_records_accents_transliterated() {
    let records = vec![record(2, "L\u{c9}A", 1995, 8)];
    let (names, weights) = process_records(&records, &Sex::FEMALE).unwrap();
    assert_eq!(names, vec!["Lea".to_string()]);
    assert_eq!(weights, vec![DIST_SCALE]);
}

#[test]
fn test_process_records_empty() {
    let records = vec![record(1, "JOHN", 1980, 10)];
    assert!(process_records(&records, &Sex::FEMALE).is_none());
    assert!(process_records(&Vec::new(), &Sex::MALE).is_none());
}

#[test]
fn test_process_records_zero_counts() {
    // Rows whose counts never parsed: every weight collapses to zero.
    let records = vec![record(1, "JOHN", 1980, 0), record(1, "BOB", 1980, 0)];
    let (names, weights) = process_records(&records, &Sex::MALE).unwrap();
    assert_eq!(names.len(), 2);
    assert_eq!(weights, vec![0, 0]);
}

#[test]
fn test_sex_codes() {
    assert_eq!(Sex::MALE.code(), 1);
    assert_eq!(Sex::FEMALE.code(), 2);
}
