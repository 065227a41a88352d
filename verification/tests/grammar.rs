use mcutils::{parse_coordinate, Coordinate, Error};

fn parse(text: &str) -> Result<Coordinate, Error> {
    parse_coordinate(text.as_bytes())
}

#[test]
fn three_integers_name_a_coordinate() {
    assert_eq!(parse("1,2,3"), Ok(Coordinate::new(1, 2, 3)));
    assert_eq!(parse("-10,64,+7"), Ok(Coordinate::new(-10, 64, 7)));
    assert_eq!(parse("0,-0,+0"), Ok(Coordinate::new(0, 0, 0)));
    assert_eq!(parse("007,000,0000000000000000000012"), Ok(Coordinate::new(7, 0, 12)));
}

#[test]
fn the_whole_range_of_a_coordinate_can_be_named() {
    assert_eq!(
        parse("2147483647,-2147483648,+2147483647"),
        Ok(Coordinate::new(i32::MAX, i32::MIN, i32::MAX))
    );
    assert_eq!(parse("2147483648,0,0"), Err(Error::CoordinateGrammar));
    assert_eq!(parse("0,-2147483649,0"), Err(Error::CoordinateGrammar));
    assert_eq!(parse("0,0,99999999999999999999999999"), Err(Error::CoordinateGrammar));
    assert_eq!(parse("0,0,-99999999999999999999999999"), Err(Error::CoordinateGrammar));
}

#[test]
fn fewer_or_more_fields_name_none() {
    assert_eq!(parse(""), Err(Error::CoordinateGrammar));
    assert_eq!(parse("1"), Err(Error::CoordinateGrammar));
    assert_eq!(parse("1,2"), Err(Error::CoordinateGrammar));
    assert_eq!(parse("1,2,"), Err(Error::CoordinateGrammar));
    assert_eq!(parse(",2,3"), Err(Error::CoordinateGrammar));
    assert_eq!(parse("1,,3"), Err(Error::CoordinateGrammar));
    assert_eq!(parse(",,"), Err(Error::CoordinateGrammar));
    assert_eq!(parse("1,2,3,4"), Err(Error::CoordinateGrammar));
    assert_eq!(parse("1,2,3,"), Err(Error::CoordinateGrammar));
}

#[test]
fn blanks_and_other_signs_are_refused() {
    assert_eq!(parse("1, 2,3"), Err(Error::CoordinateGrammar));
    assert_eq!(parse(" 1,2,3"), Err(Error::CoordinateGrammar));
    assert_eq!(parse("1,2,3 "), Err(Error::CoordinateGrammar));
    assert_eq!(parse("1,2,3\n"), Err(Error::CoordinateGrammar));
    assert_eq!(parse("1,--2,3"), Err(Error::CoordinateGrammar));
    assert_eq!(parse("1,+-2,3"), Err(Error::CoordinateGrammar));
    assert_eq!(parse("1,-,3"), Err(Error::CoordinateGrammar));
    assert_eq!(parse("+,2,3"), Err(Error::CoordinateGrammar));
    assert_eq!(parse("1,2-,3"), Err(Error::CoordinateGrammar));
    assert_eq!(parse("x,y,z"), Err(Error::CoordinateGrammar));
    assert_eq!(parse("1.0,2,3"), Err(Error::CoordinateGrammar));
    assert_eq!(parse("1;2;3"), Err(Error::CoordinateGrammar));
    assert_eq!(parse("0x10,2,3"), Err(Error::CoordinateGrammar));
}

#[test]
fn fields_agree_with_the_standard_integer_parser() {
    for field in ["5", "+5", "-5", "05", "", "+", "-", "5 ", "2147483647", "2147483648", "-2147483648", "-2147483649", "1_000", "\u{0967}"] {
        let text = format!("{},0,0", field);
        let expected = field.parse::<i32>().ok().map(|x| Coordinate::new(x, 0, 0));
        assert_eq!(parse(&text).ok(), expected);
    }
}

#[test]
fn grammar_error_message() {
    assert_eq!(Error::CoordinateGrammar.message(), "Must be of the form `x,y,z`");
}
