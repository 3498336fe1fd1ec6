use wt_csv::wtcsv::error::WTCSVError;
use wt_csv::wtcsv::lookup::RecordIndex;
use wt_csv::wtcsv::table::WTCSV;

const SMALL: &str = "id;a;b\n\"r3\";\"x\";\"y\"\n\"r1\";\"y\";\"x\"\n\"r2\";\"z\";\n\"r1\";\"x\";\"x\"\n;\"q\";\"r2\"\n";

#[test]
fn buffered_lookups_answer_as_lookups_without_buffer() {
    let table = WTCSV::new_from_file(SMALL, "small").unwrap();
    let mut buffer = RecordIndex::new();
    assert!(buffer.is_empty());
    for id in ["r1", "r2", "r3", "", "r1", "r3"] {
        let buffered = table.get_buffered_record_by_id(id, &mut buffer).unwrap();
        let plain = table.get_record_by_id_vec(id).unwrap();
        assert_eq!(buffered.items, plain.items);
        assert!(!buffer.is_empty());
    }
    assert_eq!(
        table.get_buffered_record_by_id("r1", &mut buffer).unwrap().items,
        vec!["r1", "y", "x"]
    );
}

#[test]
fn buffered_lookup_of_an_unknown_identifier_names_it_and_the_table() {
    let table = WTCSV::new_from_file(SMALL, "small").unwrap();
    let mut buffer = RecordIndex::new();
    for id in ["country_fake", "x", "id", "R1"] {
        match table.get_buffered_record_by_id(id, &mut buffer) {
            Err(WTCSVError::RecordIdNotFound(found, name)) => {
                assert_eq!(found, id);
                assert_eq!(name, "small");
            }
            other => panic!("{:?}", other),
        }
        assert!(table.get_record_by_id_vec(id).is_err());
    }
}

#[test]
fn a_record_buffer_is_taken_as_it_is_until_it_is_cleared() {
    let mut table = WTCSV::new_from_file(SMALL, "small").unwrap();
    let mut buffer = RecordIndex::new();
    assert_eq!(
        table.get_buffered_record_by_id("r2", &mut buffer).unwrap().items,
        vec!["r2", "z", ""]
    );
    table.edit_record_by_id("r2", "new").unwrap();
    table.insert_record("\"r4\";\"1\";\"2\"").unwrap();
    assert_eq!(
        table.get_buffered_record_by_id("r2", &mut buffer).unwrap().items,
        vec!["r2", "z", ""]
    );
    assert!(table.get_buffered_record_by_id("r4", &mut buffer).is_err());
    buffer.clear();
    assert!(buffer.is_empty());
    assert_eq!(
        table.get_buffered_record_by_id("r2", &mut buffer).unwrap().items,
        vec!["r2", "new", "new"]
    );
    assert_eq!(
        table.get_buffered_record_by_id("r4", &mut buffer).unwrap().items,
        vec!["r4", "1", "2"]
    );
}

#[test]
fn a_table_without_records_builds_an_empty_record_buffer() {
    let table = WTCSV::new_from_file("id;a\n", "empty").unwrap();
    let mut buffer = RecordIndex::new();
    assert!(table.get_buffered_record_by_id("id", &mut buffer).is_err());
    assert!(buffer.is_empty());
}

#[test]
fn buffered_lookups_on_a_large_table_answer_alike() {
    let mut text = String::from("id;a\r\n");
    for n in 0..10432 {
        text.push_str(&format!("\"unit_{}\";\"Unit {}\"\r\n", n % 7000, n));
    }
    let table = WTCSV::new_from_file(&text, "units").unwrap();
    let mut buffer = RecordIndex::new();
    for id in ["unit_0", "unit_3431", "unit_3432", "unit_6999", "unit_7000"] {
        let buffered = table.get_buffered_record_by_id(id, &mut buffer).map(|r| r.items);
        let plain = table.get_record_by_id_vec(id).map(|r| r.items);
        assert_eq!(buffered.ok(), plain.ok());
    }
    assert_eq!(
        table.get_buffered_record_by_id("unit_3431", &mut buffer).unwrap().items,
        vec!["unit_3431", "Unit 3431"]
    );
}
