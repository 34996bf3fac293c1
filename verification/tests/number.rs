use sudolver::Number;
use sudolver::ParseNumberError;

#[test]
fn new_and_number_round_trip() {
    for n in 1..=9u8 {
        assert_eq!(Number::new(n).number(), n);
    }
}

#[test]
fn try_new_accepts_only_digits() {
    assert_eq!(Number::try_new(0), None);
    assert_eq!(Number::try_new(10), None);
    assert_eq!(Number::try_new(255), None);
    for n in 1..=9u8 {
        assert_eq!(Number::try_new(n), Some(Number::new(n)));
    }
}

#[test]
fn parse_accepts_digits() {
    for n in 1..=9u8 {
        let text = format!("{}", n);
        assert_eq!(Number::parse(&text), Ok(Number::new(n)));
    }
}

#[test]
fn parse_accepts_leading_plus_and_zeros() {
    assert_eq!(Number::parse("+7"), Ok(Number::new(7)));
    assert_eq!(Number::parse("007"), Ok(Number::new(7)));
}

#[test]
fn parse_rejects_out_of_range_integers() {
    assert_eq!(Number::parse("0"), Err(ParseNumberError::OutOfRange(0)));
    assert_eq!(Number::parse("10"), Err(ParseNumberError::OutOfRange(10)));
    assert_eq!(Number::parse("255"), Err(ParseNumberError::OutOfRange(255)));
}

#[test]
fn parse_rejects_non_integers() {
    assert_eq!(Number::parse(""), Err(ParseNumberError::InvalidNumber));
    assert_eq!(Number::parse("x"), Err(ParseNumberError::InvalidNumber));
    assert_eq!(Number::parse("1a"), Err(ParseNumberError::InvalidNumber));
    assert_eq!(Number::parse("-3"), Err(ParseNumberError::InvalidNumber));
    assert_eq!(Number::parse("+"), Err(ParseNumberError::InvalidNumber));
    assert_eq!(Number::parse(" 5"), Err(ParseNumberError::InvalidNumber));
}

#[test]
fn parse_rejects_integers_beyond_one_byte() {
    assert_eq!(Number::parse("256"), Err(ParseNumberError::InvalidNumber));
    assert_eq!(Number::parse("999999"), Err(ParseNumberError::InvalidNumber));
}

#[test]
fn from_str_delegates_to_parse() {
    assert_eq!("5".parse::<Number>(), Ok(Number::new(5)));
    assert_eq!("0".parse::<Number>(), Err(ParseNumberError::OutOfRange(0)));
    assert_eq!("q".parse::<Number>(), Err(ParseNumberError::InvalidNumber));
}
