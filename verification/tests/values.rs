use wt_csv::wtcsv::table::WTCSV;
use wt_csv::wtcsv::values::ValueIndex;

const HEADER: &str = "\"<ID|readonly|noverify>\";\"<English>\";\"<French>\";\"<German>\";\"<Comments>\";\"<max_chars>\"";

/// A table of 10432 records with two-character line ends.
fn units() -> String {
    let mut text = format!("{}\r\n", HEADER);
    let named = [
        ("germ_rdm242_0", "RDM 242", "RDM 242", "RDM 242"),
        ("germ_rdm242_shop", "Flusi 1", "Flusi 1", "Flusi 1"),
        ("us_m8a1_shop", "M8A1", "M8A1", "M8A1"),
        ("germ_rdm242_1", "Flusi 1", "Flusi 1", "Flusi 1"),
        ("us_m8a1_1", "M8A1", "M8A1", "M8A1"),
        ("ussr_mpk_201k_2", "MPK Pr.201K", "MPK Pr.201K", "MPK Pr.201K"),
    ];
    for (id, english, french, german) in named {
        text.push_str(&format!("\"{}\";\"{}\";\"{}\";\"{}\";;\r\n", id, english, french, german));
    }
    for n in named.len()..10432 {
        text.push_str(&format!("\"unit_{}\";\"Unit {}\";\"Unité {}\";\"Einheit {}\";;\r\n", n, n, n, n));
    }
    text
}

const SMALL: &str = "id;a;b\n\"r3\";\"x\";\"y\"\n\"r1\";\"y\";\"x\"\n\"r2\";\"z\";\n\"r1\";\"x\";\"x\"\n\"x\";\"q\";\"r2\"\n";

#[test]
fn get_id_by_parameter() {
    let file = units();
    let wtcsv = WTCSV::new_from_file(&file.clone(), "units").unwrap();

    let mut result = wtcsv.get_ids_by_parameter("Flusi 1");

    result.sort();
    assert_eq!(["germ_rdm242_1", "germ_rdm242_shop"], result.as_slice());
}

#[test]
fn get_buffered_id_by_parameter() {
    let file = units();
    let wtcsv = WTCSV::new_from_file(&file.clone(), "units").unwrap();

    let mut buffer = ValueIndex::new();
    let mut result = wtcsv.get_buffered_ids_by_parameter("Flusi 1", &mut buffer);
    let mut other_result = wtcsv.get_buffered_ids_by_parameter("M8A1", &mut buffer);

    result.sort();
    other_result.sort();
    assert_eq!(["germ_rdm242_1", "germ_rdm242_shop"], result.as_slice());
    assert_eq!(["us_m8a1_1", "us_m8a1_shop"], other_result.as_slice());
}

#[test]
fn ids_come_in_ascending_order_whatever_the_order_of_records() {
    let wtcsv = WTCSV::new_from_file(&units(), "units").unwrap();
    assert_eq!(wtcsv.get_ids_by_parameter("Flusi 1"), vec!["germ_rdm242_1", "germ_rdm242_shop"]);
    assert_eq!(wtcsv.get_ids_by_parameter("M8A1"), vec!["us_m8a1_1", "us_m8a1_shop"]);
}

#[test]
fn ids_are_found_by_any_field_and_given_once() {
    let table = WTCSV::new_from_file(SMALL, "small").unwrap();
    assert_eq!(table.get_ids_by_parameter("x"), vec!["r1", "r3", "x"]);
    assert_eq!(table.get_ids_by_parameter("y"), vec!["r1", "r3"]);
    assert_eq!(table.get_ids_by_parameter("z"), vec!["r2"]);
    assert_eq!(table.get_ids_by_parameter("q"), vec!["x"]);
    assert_eq!(table.get_ids_by_parameter("r2"), vec!["r2", "x"]);
    assert_eq!(table.get_ids_by_parameter("r3"), vec!["r3"]);
    assert_eq!(table.get_ids_by_parameter(""), vec!["r2"]);
}

#[test]
fn ids_of_a_value_that_stands_nowhere_are_none() {
    let table = WTCSV::new_from_file(SMALL, "small").unwrap();
    assert!(table.get_ids_by_parameter("nowhere").is_empty());
    assert!(table.get_ids_by_parameter("X").is_empty());
    let empty = WTCSV::new_from_file("id;a\n", "empty").unwrap();
    assert!(empty.get_ids_by_parameter("a").is_empty());
}

#[test]
fn ids_are_ordered_as_strings_are() {
    let text = "id;v\n\"b\";\"1\"\n\"B\";\"1\"\n\"ab\";\"1\"\n\"a\";\"1\"\n\"é\";\"1\"\n\"z\";\"1\"\n\"10\";\"1\"\n\"9\";\"1\"\n;\"1\"\n";
    let table = WTCSV::new_from_file(text, "order").unwrap();
    let ids = table.get_ids_by_parameter("1");
    assert_eq!(ids, vec!["", "10", "9", "B", "a", "ab", "b", "z", "é"]);
    let mut sorted = ids.clone();
    sorted.sort();
    assert_eq!(ids, sorted);
}

#[test]
fn buffered_queries_answer_as_queries_without_buffer() {
    let table = WTCSV::new_from_file(SMALL, "small").unwrap();
    let mut buffer = ValueIndex::new();
    assert!(buffer.is_empty());
    for value in ["x", "y", "nowhere", "z", "q", "r2", "x", "", "r1", "r3", "y"] {
        assert_eq!(
            table.get_buffered_ids_by_parameter(value, &mut buffer),
            table.get_ids_by_parameter(value)
        );
        assert!(!buffer.is_empty());
    }
}

#[test]
fn buffered_queries_on_the_large_table_answer_alike() {
    let table = WTCSV::new_from_file(&units(), "units").unwrap();
    let mut buffer = ValueIndex::new();
    for value in ["Flusi 1", "M8A1", "", "unit_77", "Unit 77", "Einheit 10431", "none"] {
        assert_eq!(
            table.get_buffered_ids_by_parameter(value, &mut buffer),
            table.get_ids_by_parameter(value)
        );
    }
    assert_eq!(table.get_buffered_ids_by_parameter("", &mut buffer).len(), 10432);
}

#[test]
fn a_buffer_is_taken_as_it_is_until_it_is_cleared() {
    let mut table = WTCSV::new_from_file(SMALL, "small").unwrap();
    let mut buffer = ValueIndex::new();
    assert_eq!(table.get_buffered_ids_by_parameter("z", &mut buffer), vec!["r2"]);
    table.edit_record_by_id("r2", "x").unwrap();
    assert_eq!(table.get_buffered_ids_by_parameter("z", &mut buffer), vec!["r2"]);
    assert_eq!(table.get_buffered_ids_by_parameter("x", &mut buffer), vec!["r1", "r3", "x"]);
    buffer.clear();
    assert!(buffer.is_empty());
    assert!(table.get_buffered_ids_by_parameter("z", &mut buffer).is_empty());
    assert_eq!(table.get_buffered_ids_by_parameter("x", &mut buffer), vec!["r1", "r2", "r3", "x"]);
    assert_eq!(table.get_ids_by_parameter("x"), vec!["r1", "r2", "r3", "x"]);
}

#[test]
fn a_table_without_records_builds_an_empty_buffer() {
    let table = WTCSV::new_from_file("id;a\n", "empty").unwrap();
    let mut buffer = ValueIndex::new();
    assert!(table.get_buffered_ids_by_parameter("a", &mut buffer).is_empty());
    assert!(buffer.is_empty());
}
