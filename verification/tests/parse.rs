use cutr::ParseError;
use cutr::PosRange;
use cutr::parse_index;
use cutr::parse_pos;

fn pr(start: usize, end: usize) -> PosRange {
    PosRange { start, end }
}

#[test]
fn test_parse_pos() {
    // The empty string is an error
    assert!(parse_pos("").is_err());

    // Zero is an error
    let res = parse_pos("0");
    assert!(res.is_err());
    assert_eq!(res.unwrap_err().message(), "illegal list value: \"0\"");

    let res = parse_pos("0-1");
    assert!(res.is_err());
    assert_eq!(res.unwrap_err().message(), "illegal list value: \"0\"");

    // A leading "+" is an error
    let res = parse_pos("+1");
    assert!(res.is_err());
    assert_eq!(res.unwrap_err().message(), "illegal list value: \"+1\"");

    let res = parse_pos("+1-2");
    assert!(res.is_err());
    assert_eq!(res.unwrap_err().message(), "illegal list value: \"+1-2\"");

    let res = parse_pos("1-+2");
    assert!(res.is_err());
    assert_eq!(res.unwrap_err().message(), "illegal list value: \"1-+2\"");

    // Any non-number is an error
    let res = parse_pos("a");
    assert!(res.is_err());
    assert_eq!(res.unwrap_err().message(), "illegal list value: \"a\"");

    let res = parse_pos("1,a");
    assert!(res.is_err());
    assert_eq!(res.unwrap_err().message(), "illegal list value: \"a\"");

    let res = parse_pos("1-a");
    assert!(res.is_err());
    assert_eq!(res.unwrap_err().message(), "illegal list value: \"1-a\"");

    let res = parse_pos("a-1");
    assert!(res.is_err());
    assert_eq!(res.unwrap_err().message(), "illegal list value: \"a-1\"");

    // Wonky ranges
    let res = parse_pos("-");
    assert!(res.is_err());

    let res = parse_pos(",");
    assert!(res.is_err());

    let res = parse_pos("1,");
    assert!(res.is_err());

    let res = parse_pos("1-");
    assert!(res.is_err());

    let res = parse_pos("1-1-1");
    assert!(res.is_err());

    let res = parse_pos("1-1-a");
    assert!(res.is_err());

    // First number must be less than second
    let res = parse_pos("1-1");
    assert!(res.is_err());
    assert_eq!(
        res.unwrap_err().message(),
        "First number in range (1) must be lower than second number (1)"
    );

    let res = parse_pos("2-1");
    assert!(res.is_err());
    assert_eq!(
        res.unwrap_err().message(),
        "First number in range (2) must be lower than second number (1)"
    );

    // All the following are acceptable
    let res = parse_pos("1");
    assert!(res.is_ok());
    assert_eq!(res.unwrap(), vec![pr(0, 1)]);

    let res = parse_pos("01");
    assert!(res.is_ok());
    assert_eq!(res.unwrap(), vec![pr(0, 1)]);

    let res = parse_pos("1,3");
    assert!(res.is_ok());
    assert_eq!(res.unwrap(), vec![pr(0, 1), pr(2, 3)]);

    let res = parse_pos("001,0003");
    assert!(res.is_ok());
    assert_eq!(res.unwrap(), vec![pr(0, 1), pr(2, 3)]);

    let res = parse_pos("1-3");
    assert!(res.is_ok());
    assert_eq!(res.unwrap(), vec![pr(0, 3)]);

    let res = parse_pos("0001-03");
    assert!(res.is_ok());
    assert_eq!(res.unwrap(), vec![pr(0, 3)]);

    let res = parse_pos("1,7,3-5");
    assert!(res.is_ok());
    assert_eq!(res.unwrap(), vec![pr(0, 1), pr(6, 7), pr(2, 5)]);

    let res = parse_pos("15,19-20");
    assert!(res.is_ok());
    assert_eq!(res.unwrap(), vec![pr(14, 15), pr(18, 20)]);
}

#[test]
fn parse_error_variants() {
    assert_eq!(parse_pos("").unwrap_err(), ParseError::EmptySelector);
    assert_eq!(
        parse_pos("0").unwrap_err(),
        ParseError::IllegalListValue("0".to_string())
    );
    assert_eq!(
        parse_pos("0-1").unwrap_err(),
        ParseError::IllegalListValue("0".to_string())
    );
    assert_eq!(
        parse_pos("+1").unwrap_err(),
        ParseError::IllegalListValue("+1".to_string())
    );
    assert_eq!(
        parse_pos("1-a").unwrap_err(),
        ParseError::IllegalListValue("1-a".to_string())
    );
    assert_eq!(
        parse_pos("1,a").unwrap_err(),
        ParseError::IllegalListValue("a".to_string())
    );
    assert_eq!(parse_pos("1-1").unwrap_err(), ParseError::InvalidRange(1, 1));
    assert_eq!(parse_pos("2-1").unwrap_err(), ParseError::InvalidRange(2, 1));
}

#[test]
fn empty_selector_message() {
    assert_eq!(parse_pos("").unwrap_err().message(), "empty selector");
}

#[test]
fn parse_index_values() {
    assert_eq!(parse_index("1").unwrap(), 0);
    assert_eq!(parse_index("5").unwrap(), 4);
    assert_eq!(parse_index("007").unwrap(), 6);
    assert!(parse_index("").is_err());
    assert!(parse_index("0").is_err());
    assert!(parse_index("+1").is_err());
    assert!(parse_index("4294967295000000000000000000").is_err());
    assert_eq!(
        parse_index("x").unwrap_err(),
        ParseError::IllegalListValue("x".to_string())
    );
}

#[test]
fn parse_pos_order_is_kept() {
    // order follows the selector, never sorted or merged
    let res = parse_pos("19-20,15").unwrap();
    assert_eq!(res, vec![pr(18, 20), pr(14, 15)]);
    let res = parse_pos("2,2,2").unwrap();
    assert_eq!(res, vec![pr(1, 2), pr(1, 2), pr(1, 2)]);
}
