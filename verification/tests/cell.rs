use sudolver::NumCell;
use sudolver::Number;
use sudolver::ParseNumberError;
use sudolver::UncertainCell;

#[test]
fn fresh_cell_has_full_entropy() {
    let c = UncertainCell::new();
    assert_eq!(c.entropy(), 9);
    assert_eq!(c.try_collapse(), None);
}

#[test]
fn exclude_shrinks_entropy() {
    let mut c = UncertainCell::new();
    c.exclude(Number::new(4));
    assert_eq!(c.entropy(), 8);
    c.exclude(Number::new(9));
    assert_eq!(c.entropy(), 7);
}

#[test]
fn exclude_is_idempotent() {
    // Excluding a digit already absent from the domain changes nothing.
    let mut c = UncertainCell::new();
    c.exclude(Number::new(4));
    assert_eq!(c.entropy(), 8);
    c.exclude(Number::new(4));
    assert_eq!(c.entropy(), 8);
    assert_eq!(c.some_element(), Some(Number::new(1)));
}

#[test]
fn try_collapse_on_singleton_domain() {
    let mut c = UncertainCell::new();
    for n in 1..=8u8 {
        c.exclude(Number::new(n));
    }
    assert_eq!(c.entropy(), 1);
    assert_eq!(c.try_collapse(), Some(Number::new(9)));
    assert_eq!(c.collapse(), Number::new(9));
}

#[test]
fn some_element_returns_smallest() {
    let mut c = UncertainCell::new();
    assert_eq!(c.some_element(), Some(Number::new(1)));
    c.exclude(Number::new(1));
    c.exclude(Number::new(2));
    assert_eq!(c.some_element(), Some(Number::new(3)));
}

#[test]
fn some_element_of_empty_domain_is_none() {
    let mut c = UncertainCell::new();
    for n in 1..=9u8 {
        c.exclude(Number::new(n));
    }
    assert_eq!(c.entropy(), 0);
    assert_eq!(c.some_element(), None);
    assert_eq!(c.try_collapse(), None);
}

#[test]
fn num_cell_exclude_ignores_collapsed() {
    let mut c = NumCell::Collapsed(Number::new(5));
    c.exclude(Number::new(5));
    assert!(c.is_collapsed());
    assert_eq!(c.number(), Some(Number::new(5)));
}

#[test]
fn num_cell_accessors() {
    let c = NumCell::new();
    assert!(!c.is_collapsed());
    assert_eq!(c.number(), None);
    assert_eq!(c.uncertain().unwrap().entropy(), 9);
    let d = NumCell::Collapsed(Number::new(3));
    assert!(d.is_collapsed());
    assert_eq!(d.number(), Some(Number::new(3)));
    assert!(d.uncertain().is_none());
}

#[test]
fn parse_blank_tokens() {
    for t in ["=", "-", ".", ","] {
        let c = NumCell::parse(t).unwrap();
        assert!(!c.is_collapsed());
        assert_eq!(c.uncertain().unwrap().entropy(), 9);
    }
}

#[test]
fn parse_digit_tokens() {
    let c = NumCell::parse("7").unwrap();
    assert!(c.is_collapsed());
    assert_eq!(c.number(), Some(Number::new(7)));
}

#[test]
fn parse_bad_tokens() {
    assert!(matches!(NumCell::parse("0"), Err(ParseNumberError::OutOfRange(0))));
    assert!(matches!(NumCell::parse("12"), Err(ParseNumberError::OutOfRange(12))));
    assert!(matches!(NumCell::parse("_"), Err(ParseNumberError::InvalidNumber)));
    assert!(matches!(NumCell::parse("--"), Err(ParseNumberError::InvalidNumber)));
}

#[test]
fn if_uncertain_applies_only_to_uncertain_cells() {
    let c = NumCell::new();
    assert_eq!(c.if_uncertain(|u| u.entropy()), Some(9));
    let d = NumCell::Collapsed(Number::new(2));
    assert_eq!(d.if_uncertain(|u| u.entropy()), None);
}

#[test]
fn cell_from_str_delegates_to_parse() {
    let blank: NumCell = "-".parse().unwrap();
    assert!(!blank.is_collapsed());
    let clue: NumCell = "9".parse().unwrap();
    assert_eq!(clue.number(), Some(Number::new(9)));
}
