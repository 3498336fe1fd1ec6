use wt_csv::wtcsv::record::Record;

const GERMANY: &str = r#""country_germany";"Germany";"Allemagne";"Germania";"Deutschland";"Alemania";"Германия";"Niemcy";"Německo";"Almanya";"德\t国";"ドイツ";"Alemanha";"Німеччина";"Nemačka";"Németország";"독일";"Германія";"Germania";"德\t國";"D\t系";;"#;

#[test]
fn test_wt_string() {
    let _ = Record::from_wt_string(GERMANY);
}

#[test]
fn record_test_wt_string() {
    let record = Record::from_wt_string(GERMANY);
    assert_eq!(record.items.len(), 23);
    assert_eq!(record.items[0], "country_germany");
    assert_eq!(record.items[4], "Deutschland");
    assert_eq!(record.items[6], "Германия");
    assert_eq!(record.items[10], "德\\t国");
    assert_eq!(record.items[20], "D\\t系");
    assert_eq!(record.items[21], "");
    assert_eq!(record.items[22], "");
}

#[test]
fn record_of_the_empty_line_has_one_empty_field() {
    let record = Record::from_wt_string("");
    assert_eq!(record.items, vec![String::new()]);
}

#[test]
fn record_keeps_empty_fields_between_delimiters() {
    let record = Record::from_wt_string(";\"a\";;\"b\";");
    assert_eq!(record.items, vec!["", "a", "", "b", ""]);
}

#[test]
fn record_strips_one_character_at_each_end_unseen() {
    let record = Record::from_wt_string("abc;\"\";x;'q'");
    assert_eq!(record.items, vec!["b", "", "", "q"]);
}

#[test]
fn record_keeps_quotes_inside_a_field() {
    let record = Record::from_wt_string("\"say \"hi\"\";\"\"\"\"");
    assert_eq!(record.items, vec!["say \"hi\"", "\"\""]);
}

#[test]
fn record_clone_has_the_same_fields() {
    let record = Record::from_wt_string("\"id\";\"v\";");
    let copy = record.clone();
    assert_eq!(copy.items, record.items);
}
