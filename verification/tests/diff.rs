use wt_csv::diff::Diff;
use wt_csv::wtcsv::error::WTCSVError;
use wt_csv::wtcsv::table::WTCSV;

const LANGUAGES: &str = "\"<ID|readonly|noverify>\";\"<English>\";\"<French>\";\"<Comments>\"\r\n\"country_usa\";\"USA\";\"États-Unis\";\r\n\"country_britain\";\"Great Britain\";\"Grande-Bretagne\";\r\n\"country_japan\";\"Japan\";\"Japon\";\r\n";

#[test]
fn expect_diff() {
    let init = WTCSV::new_from_file(LANGUAGES, "").unwrap();

    let mut diff = init.clone();
    diff.edit_record_by_id("country_britain", "tea").unwrap();

    let diff_res = Diff::diff_from_ref(&init, &diff).unwrap();
    println!("diff_res = {:?}", diff_res);
    assert_eq!(diff_res.len(), 1);
    assert_eq!(diff_res[0].id, "country_britain");
    assert_eq!(diff_res[0].old, "Great Britain");
    assert_eq!(diff_res[0].new, "tea");
}

#[test]
fn a_record_that_differs_in_two_fields_is_reported_once() {
    let left = WTCSV::new_from_file("id;a;b;c\n\"x\";\"1\";\"2\";\"3\"\n\"y\";\"4\";\"5\";\"6\"\n", "l").unwrap();
    let right = WTCSV::new_from_file("id;a;b;c\n\"x\";\"1\";\"2\";\"3\"\n\"y\";\"4\";\"five\";\"six\"\n", "r").unwrap();
    let diffs = Diff::diff_from_ref(&left, &right).unwrap();
    assert_eq!(diffs.len(), 1);
    assert_eq!(diffs[0].id, "y");
    assert_eq!(diffs[0].old, "5");
    assert_eq!(diffs[0].new, "six".replace("six", "five"));
}

#[test]
fn tables_with_the_same_records_have_no_differences() {
    let left = WTCSV::new_from_file(LANGUAGES, "l").unwrap();
    let right = WTCSV::new_from_file(&LANGUAGES.replace("\r\n", "\n"), "r").unwrap();
    assert!(Diff::diff_from_ref(&left, &right).unwrap().is_empty());
    assert!(Diff::diff_from_ref(&left, &left).unwrap().is_empty());
}

#[test]
fn differences_come_in_the_order_of_the_records() {
    let left = WTCSV::new_from_file("id;a;b\n\"x\";\"1\";\"2\"\n\"y\";\"3\";\"4\"\n\"z\";\"5\";\"6\"\n", "l").unwrap();
    let right = WTCSV::new_from_file("id;a;b\n\"x\";\"1\";\"two\"\n\"y\";\"3\";\"4\"\n\"z\";;\"six\"\n", "r").unwrap();
    let diffs = Diff::diff_from_ref(&left, &right).unwrap();
    assert_eq!(diffs.len(), 2);
    assert_eq!((diffs[0].id.as_str(), diffs[0].old.as_str(), diffs[0].new.as_str()), ("x", "2", "two"));
    assert_eq!((diffs[1].id.as_str(), diffs[1].old.as_str(), diffs[1].new.as_str()), ("z", "5", ""));
}

#[test]
fn a_difference_in_the_identifier_is_reported_with_the_left_one() {
    let left = WTCSV::new_from_file("id;a\n\"x\";\"1\"\n", "l").unwrap();
    let right = WTCSV::new_from_file("id;a\n\"y\";\"2\"\n", "r").unwrap();
    let diffs = Diff::diff_from_ref(&left, &right).unwrap();
    assert_eq!(diffs.len(), 1);
    assert_eq!((diffs[0].id.as_str(), diffs[0].old.as_str(), diffs[0].new.as_str()), ("x", "x", "y"));
}

#[test]
fn tables_of_other_shapes_are_not_compared() {
    let left = WTCSV::new_from_file("id;a\n\"x\";\"1\"\n", "l").unwrap();
    let wide = WTCSV::new_from_file("id;a;b\n\"x\";\"1\";\"2\"\n", "w").unwrap();
    let long = WTCSV::new_from_file("id;a\n\"x\";\"1\"\n\"y\";\"2\"\n", "g").unwrap();
    let named = WTCSV::new_from_file("id;b\n\"x\";\"1\"\n", "n").unwrap();
    match Diff::diff_from_ref(&left, &wide) {
        Err(WTCSVError::HeaderLen(2, 3)) => {}
        other => panic!("{:?}", other),
    }
    match Diff::diff_from_ref(&left, &long) {
        Err(WTCSVError::RecordLength(1, 2)) => {}
        other => panic!("{:?}", other),
    }
    match Diff::diff_from_ref(&left, &named) {
        Err(WTCSVError::HeaderContent(expected, found)) => {
            assert_eq!(expected, "a");
            assert_eq!(found, "b");
        }
        other => panic!("{:?}", other),
    }
    assert_eq!(left.export_to_file(), "id;a\n\"x\";\"1\"\n");
    assert_eq!(named.export_to_file(), "id;b\n\"x\";\"1\"\n");
}
