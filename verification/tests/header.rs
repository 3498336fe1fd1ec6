use wt_csv::wtcsv::error::WTCSVError;
use wt_csv::wtcsv::header::{sanitize_header, Header};

const LANGUAGES: &str = "\"<ID|readonly|noverify>\";\"<English>\";\"<French>\";\"<Comments>\";\"<max_chars>\"\r\n\"country_usa\";\"USA\";\"États-Unis\";;\r\n\"country_germany\";\"Germany\";\"Allemagne\";;\r\n";

#[test]
fn header_test_header_to_file() {
    let header = Header::from_file(LANGUAGES).unwrap();
    assert_eq!(header.len, 5);
    assert_eq!(header.params, vec!["ID", "English", "French", "Comments", "max_chars"]);
    assert_eq!(
        header.raw_params,
        vec![
            "\"<ID|readonly|noverify>\"",
            "\"<English>\"",
            "\"<French>\"",
            "\"<Comments>\"",
            "\"<max_chars>\"\r"
        ]
    );
    assert_eq!(
        header.raw_header,
        "\"<ID|readonly|noverify>\";\"<English>\";\"<French>\";\"<Comments>\";\"<max_chars>\"\r\n"
    );
}

#[test]
fn header_of_a_text_without_line_end_is_the_whole_text() {
    let header = Header::from_file("a;b;c").unwrap();
    assert_eq!(header.len, 3);
    assert_eq!(header.params, vec!["a", "b", "c"]);
    assert_eq!(header.raw_header, "a;b;c\n");
}

#[test]
fn header_reads_the_first_line_only() {
    let header = Header::from_file("\"x\";\"y\"\n\"1\";\"2\";\"3\"\n").unwrap();
    assert_eq!(header.len, 2);
    assert_eq!(header.raw_params, vec!["\"x\"", "\"y\""]);
    assert_eq!(header.raw_header, "\"x\";\"y\"\n");
}

#[test]
fn header_with_one_field_is_too_short() {
    for text in ["", "\n", "\"<ID>\"\n\"a\";\"b\"\n", "no delimiter here"] {
        match Header::from_file(text) {
            Err(WTCSVError::HeaderTooShort(1)) => {}
            other => panic!("{:?}", other),
        }
    }
}

#[test]
fn header_may_name_two_columns_alike() {
    let header = Header::from_file("\"<a|x>\";\"a\";<a>\n").unwrap();
    assert_eq!(header.params, vec!["a", "a", "a"]);
}

#[test]
fn sanitize_drops_markup_and_cuts_at_the_bar() {
    assert_eq!(sanitize_header("\"<ID|readonly|noverify>\""), "ID");
    assert_eq!(sanitize_header("\"<English>\"\r"), "English");
    assert_eq!(sanitize_header("plain"), "plain");
    assert_eq!(sanitize_header("|all gone"), "");
    assert_eq!(sanitize_header("a<b>c\"d\re|f"), "abcde");
    assert_eq!(sanitize_header(""), "");
    assert_eq!(sanitize_header("<Русский|тип>"), "Русский");
}

#[test]
fn header_clone_is_the_same() {
    let header = Header::from_file(LANGUAGES).unwrap();
    let copy = header.clone();
    assert_eq!(copy.len, header.len);
    assert_eq!(copy.params, header.params);
    assert_eq!(copy.raw_params, header.raw_params);
    assert_eq!(copy.raw_header, header.raw_header);
}
