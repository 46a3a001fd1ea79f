use tankseek::query::{Month, QueryCmp, QueryModifiersTracking, Weekday};

#[test]
fn comparison_operators_parse() {
    assert_eq!(QueryCmp::from("="), QueryCmp::Eq);
    assert_eq!(QueryCmp::from(">"), QueryCmp::Gt);
    assert_eq!(QueryCmp::from(">="), QueryCmp::Ge);
    assert_eq!(QueryCmp::from("<"), QueryCmp::Lt);
    assert_eq!(QueryCmp::from("<="), QueryCmp::Le);
    assert_eq!(QueryCmp::from(".."), QueryCmp::Range);
    assert_eq!(QueryCmp::from("=>"), QueryCmp::Eq);
    assert_eq!(QueryCmp::from(""), QueryCmp::Eq);
}

#[test]
fn modifiers_default_to_off() {
    let m = QueryModifiersTracking::default();
    assert!(!m.case_sensitive && !m.diacritics_sensitive && !m.file_only && !m.folder_only);
    assert!(!m.match_path && !m.regex && !m.whole_filename && !m.whole_word && !m.wildcards);
}

#[test]
fn weekday_and_month_numbers() {
    assert_eq!(Weekday::Sunday.number(), 0);
    assert_eq!(Weekday::Wednesday.number(), 3);
    assert_eq!(Weekday::Saturday.number(), 6);
    assert_eq!(Month::January.number(), 1);
    assert_eq!(Month::July.number(), 7);
    assert_eq!(Month::December.number(), 12);
}
