use csv_peg::csv_parser;
use csv_peg::in_range;
use csv_peg::is_textdata;
use csv_peg::text_data;

#[test]
fn it_works_one_row() {
    let parsed = csv_parser("item1,item2\u{003}");
    assert_eq!(parsed.unwrap().1, vec![vec!["item1", "item2"]]);
}

#[test]
fn it_wors_two_row() {
    let parsed = csv_parser("item1,item2\u{0D}\u{0A}row2item1,row2item2\u{003}");
    assert_eq!(
        parsed.unwrap().1,
        vec![vec!["item1", "item2"], vec!["row2item1", "row2item2"]]
    );
}

#[test]
fn it_wors_three_row() {
    let parsed = csv_parser(
        "item1,item2\u{0D}\u{0A}row2item1,row2item2\u{0D}\u{0A}row3item1,row3item2\u{003}",
    );
    assert_eq!(
        parsed.unwrap().1,
        vec![
            vec!["item1", "item2"],
            vec!["row2item1", "row2item2"],
            vec!["row3item1", "row3item2"]
        ]
    );
}

#[test]
fn single_row_two_fields() {
    let parsed = csv_parser("a,b\u{3}").unwrap();
    assert_eq!(parsed.0, "");
    assert_eq!(parsed.1, vec![vec!["a", "b"]]);
}

#[test]
fn escaped_field_keeps_quotes_verbatim() {
    let parsed = csv_parser("\"he said \"\"hi\"\"\"\u{3}").unwrap();
    assert_eq!(parsed.1, vec![vec!["\"he said \"\"hi\"\"\""]]);
}

#[test]
fn escaped_field_may_hold_comma_crlf_and_quotes() {
    let parsed = csv_parser("\"x\r\ny,\",b\r\nc\u{3}").unwrap();
    assert_eq!(parsed.1, vec![vec!["\"x\r\ny,\"", "b"], vec!["c"]]);
}

#[test]
fn parsing_twice_yields_equal_results() {
    let input = "a,\"q\"\"q\"\r\nb,c\u{3}rest";
    let first = csv_parser(input).unwrap();
    let second = csv_parser(input).unwrap();
    assert_eq!(first, second);
}

#[test]
fn empty_field_between_commas() {
    let parsed = csv_parser("a,,b\u{3}").unwrap();
    assert_eq!(parsed.1, vec![vec!["a", "", "b"]]);
}

#[test]
fn missing_sentinel_fails() {
    match csv_parser("a,b") {
        Ok(_) => panic!("well-formed CSV without the sentinel must be rejected"),
        Err(e) => assert_eq!(e.remainder, ""),
    }
}

#[test]
fn lone_cr_stops_matching() {
    match csv_parser("a,b\rx\u{3}") {
        Ok(_) => panic!("a CR not followed by LF must not separate records"),
        Err(e) => assert_eq!(e.remainder, "\rx\u{3}"),
    }
}

#[test]
fn quote_in_unquoted_context_stops_matching() {
    match csv_parser("a\"b\u{3}") {
        Ok(_) => panic!("a bare quote cannot appear in a non-escaped field"),
        Err(e) => assert_eq!(e.remainder, "\"b\u{3}"),
    }
}

#[test]
fn comma_needs_escaped_form_to_stay_in_a_field() {
    let parsed = csv_parser("\"a,b\"\u{3}").unwrap();
    assert_eq!(parsed.1, vec![vec!["\"a,b\""]]);
    let split = csv_parser("a,b\u{3}").unwrap();
    assert_eq!(split.1, vec![vec!["a", "b"]]);
}

#[test]
fn unterminated_quote_fails() {
    match csv_parser("\"abc\u{3}") {
        Ok(_) => panic!("an unterminated escaped field must not parse"),
        Err(e) => assert_eq!(e.remainder, "\"abc\u{3}"),
    }
}

#[test]
fn trailing_crlf_yields_an_empty_trailing_record() {
    let parsed = csv_parser("a,b\r\n\u{3}").unwrap();
    assert_eq!(parsed.1, vec![vec!["a".to_string(), "b".to_string()], vec![String::new()]]);
}

#[test]
fn remainder_after_sentinel_is_returned() {
    let parsed = csv_parser("a\u{3}xyz").unwrap();
    assert_eq!(parsed.0, "xyz");
    assert_eq!(parsed.1, vec![vec!["a"]]);
}

#[test]
fn sentinel_alone_is_one_empty_field() {
    let parsed = csv_parser("\u{3}").unwrap();
    assert_eq!(parsed.0, "");
    assert_eq!(parsed.1, vec![vec![""]]);
}

#[test]
fn text_data_takes_the_maximal_run() {
    let parsed = text_data("abc,def").unwrap();
    assert_eq!(parsed.0, ",def");
    assert_eq!(parsed.1, "abc");
}

#[test]
fn text_data_needs_one_character() {
    match text_data(",abc") {
        Ok(_) => panic!("a comma is not TEXTDATA"),
        Err(e) => assert_eq!(e.remainder, ",abc"),
    }
    assert!(text_data("").is_err());
}

#[test]
fn in_range_takes_the_inclusive_run() {
    let parsed = in_range('a', 'z', "abz123");
    assert_eq!(parsed.0, "123");
    assert_eq!(parsed.1, "abz");
    let none = in_range('0', '9', "abc");
    assert_eq!(none.0, "abc");
    assert_eq!(none.1, "");
    let empty = in_range('a', 'z', "");
    assert_eq!(empty.0, "");
    assert_eq!(empty.1, "");
}

#[test]
fn is_textdata_matches_the_three_ranges() {
    assert!(is_textdata(' '));
    assert!(is_textdata('!'));
    assert!(!is_textdata('"'));
    assert!(is_textdata('#'));
    assert!(is_textdata('+'));
    assert!(!is_textdata(','));
    assert!(is_textdata('-'));
    assert!(is_textdata('~'));
    assert!(!is_textdata('\u{7F}'));
    assert!(!is_textdata('\r'));
    assert!(!is_textdata('\n'));
    assert!(!is_textdata('\u{3}'));
}

#[test]
fn literal_matches_one_character_or_nothing() {
    let ok = csv_peg::literal(',', ",x").unwrap();
    assert_eq!(ok.0, "x");
    assert_eq!(ok.1, ",");
    match csv_peg::literal(',', "x,") {
        Ok(_) => panic!("a literal must match only at the front"),
        Err(e) => assert_eq!(e.remainder, "x,"),
    }
    assert!(csv_peg::literal(',', "").is_err());
}

#[test]
fn ws_takes_space_then_tab() {
    let sp = csv_peg::ws(" x").unwrap();
    assert_eq!((sp.0, sp.1), ("x", " "));
    let tab = csv_peg::ws("\tx").unwrap();
    assert_eq!((tab.0, tab.1), ("x", "\t"));
    assert!(csv_peg::ws("x").is_err());
}

#[test]
fn crlf_needs_both_characters() {
    let ok = csv_peg::crlf("\r\nx").unwrap();
    assert_eq!((ok.0, ok.1), ("x", "\r\n"));
    match csv_peg::crlf("\rx") {
        Ok(_) => panic!("a lone CR is not a CRLF"),
        Err(e) => assert_eq!(e.remainder, "\rx"),
    }
    assert!(csv_peg::crlf("\n\r").is_err());
}

#[test]
fn dquote2_needs_both_quotes() {
    let ok = csv_peg::dquote2("\"\"x").unwrap();
    assert_eq!((ok.0, ok.1), ("x", "\"\""));
    match csv_peg::dquote2("\"x") {
        Ok(_) => panic!("a lone quote is not an escaped quote"),
        Err(e) => assert_eq!(e.remainder, "\"x"),
    }
}
