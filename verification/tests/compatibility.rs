use wt_csv::wtcsv::error::WTCSVError;
use wt_csv::wtcsv::table::WTCSV;

/// A table of `records` records under the given header line.
fn table(header: &str, records: usize, name: &str) -> WTCSV {
    let mut text = format!("{}\r\n", header);
    for n in 0..records {
        text.push_str(&format!("\"id_{}\";\"one {}\";\"two {}\"\r\n", n, n, n));
    }
    WTCSV::new_from_file(&text, name).unwrap()
}

const UNITS: &str = "\"<ID|readonly|noverify>\";\"<English>\";\"<French>\"";

#[test]
fn compatibility_test_equal() {
    let wtcsv = table(UNITS, 10432, "");

    wtcsv.is_same(&wtcsv).unwrap()
}

#[test]
fn error_test_equal() {
    let wtcsv = table(UNITS, 10432, "units");

    wtcsv.is_same(&wtcsv).unwrap()
}

#[test]
fn compatibility_test_not_equal() {
    let wtcsv_units = table(UNITS, 10432, "");
    let wtcsv_lang = table(UNITS, 35, "");

    match wtcsv_units.is_same(&wtcsv_lang) {
        Err(WTCSVError::RecordLength(10432, 35)) => {}
        _ => {
            panic!("See test for more details")
        }
    }
}

#[test]
fn error_test_not_equal() {
    let wtcsv_units = table(UNITS, 10432, "units");
    let wtcsv_lang = table(UNITS, 35, "_common_languages");

    match wtcsv_units.is_same(&wtcsv_lang) {
        Err(WTCSVError::RecordLength(10432, 35)) => {}
        _ => {
            panic!("See test for more details")
        }
    }
}

#[test]
fn record_counts_are_compared_before_column_names() {
    let small = table("\"<ID>\";\"<English>\";\"<French>\"", 35, "_common_languages");
    let large = table("\"<Key>\";\"<German>\";\"<Polish>\"", 10432, "units");
    match small.is_same(&large) {
        Err(WTCSVError::RecordLength(35, 10432)) => {}
        other => panic!("{:?}", other),
    }
    match large.is_same(&small) {
        Err(WTCSVError::RecordLength(10432, 35)) => {}
        other => panic!("{:?}", other),
    }
}

#[test]
fn column_counts_are_compared_first() {
    let narrow = WTCSV::new_from_file("a;b\n\"x\";\"1\"\n", "narrow").unwrap();
    let wide = WTCSV::new_from_file("c;d;e\n\"x\";\"1\";\"2\"\n\"y\";\"3\";\"4\"\n", "wide").unwrap();
    match narrow.is_same(&wide) {
        Err(WTCSVError::HeaderLen(2, 3)) => {}
        other => panic!("{:?}", other),
    }
    match wide.is_same(&narrow) {
        Err(WTCSVError::HeaderLen(3, 2)) => {}
        other => panic!("{:?}", other),
    }
}

#[test]
fn the_first_column_named_otherwise_is_reported() {
    let left = table("\"<ID>\";\"<English>\";\"<French>\"", 3, "left");
    let right = table("\"<ID>\";\"<German>\";\"<Polish>\"", 3, "right");
    match left.is_same(&right) {
        Err(WTCSVError::HeaderContent(expected, found)) => {
            assert_eq!(expected, "English");
            assert_eq!(found, "German");
        }
        other => panic!("{:?}", other),
    }
    match right.is_same(&left) {
        Err(WTCSVError::HeaderContent(expected, found)) => {
            assert_eq!(expected, "German");
            assert_eq!(found, "English");
        }
        other => panic!("{:?}", other),
    }
}

#[test]
fn columns_are_compared_by_their_names_without_markup() {
    let left = table("\"<ID|readonly>\";\"<English>\";\"<French>\"", 2, "left");
    let right = table("ID;<English|text>;\"French\"", 2, "right");
    left.is_same(&right).unwrap();
}

#[test]
fn tables_of_one_shape_with_other_fields_are_the_same() {
    let left = WTCSV::new_from_file("a;b\n\"x\";\"1\"\n", "left").unwrap();
    let right = WTCSV::new_from_file("a;b\r\n\"y\";\"2\"\r\n", "right").unwrap();
    left.is_same(&right).unwrap();
}
