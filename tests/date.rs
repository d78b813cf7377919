use mdblog::markdown::date::{Date, DateError};

#[test]
fn date_it_works() {
    let input = "2020-04-01";
    let date = input.parse::<Date>().unwrap();
    assert_eq!(date, Date(2020, 4, 1));
    assert_eq!(date.to_string(), input);

    let input = "1970-1";
    let date = input.parse::<Date>().unwrap();
    assert_eq!(date, Date(1970, 1, 0));
    assert_eq!(date.to_string(), "1970-01-00");
}

#[test]
fn date_round_trip_of_canonical_text() {
    for s in ["0001-02-03", "9999-12-31", "2024-00-00", "0000-99-99"] {
        assert_eq!(Date::parse(s).unwrap().to_string(), s);
    }
}

#[test]
fn date_trims_and_defaults() {
    assert_eq!(Date::parse("  2021-7-4 \n").unwrap(), Date(2021, 7, 4));
    assert_eq!(Date::parse("2021").unwrap(), Date(2021, 0, 0));
    assert_eq!(Date::parse("2021-01-02-junk").unwrap(), Date(2021, 1, 2));
}

#[test]
fn date_pads_fields() {
    assert_eq!(Date(7, 3, 9).to_string(), "0007-03-09");
    assert_eq!(Date(12345, 100, 255).to_string(), "12345-100-255");
}

#[test]
fn date_errors() {
    assert_eq!(Date::parse(""), Err(DateError::Empty));
    assert_eq!(Date::parse("2020-"), Err(DateError::Empty));
    assert_eq!(Date::parse("20x0-01-01"), Err(DateError::InvalidDigit));
    assert_eq!(Date::parse("+2020"), Err(DateError::InvalidDigit));
    assert_eq!(Date::parse("70000-01-01"), Err(DateError::Overflow));
    assert_eq!(Date::parse("2020-256"), Err(DateError::Overflow));
    assert_eq!(Date::parse("65535-255-255").unwrap(), Date(65535, 255, 255));
}
