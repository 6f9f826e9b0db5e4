use trajectory_core::decimal::DecimalNumber;
use trajectory_core::point::{parse_plt_record, split_fields, ParseError, Point};

#[test]
fn split_fields_cuts_at_every_comma() {
    assert_eq!(split_fields("a,b,c"), vec!["a", "b", "c"]);
    assert_eq!(split_fields("abc"), vec!["abc"]);
    assert_eq!(split_fields(""), vec![""]);
    assert_eq!(split_fields(","), vec!["", ""]);
    assert_eq!(split_fields("a,,b,"), vec!["a", "", "b", ""]);
    assert_eq!(split_fields("é,ü"), vec!["é", "ü"]);
}

#[test]
fn record_takes_latitude_longitude_and_date() {
    let record =
        parse_plt_record("39.984702,116.318417,0,492,39744.1201851852,2008-10-23,02:53:04")
            .unwrap();
    assert_eq!(record.latitude, "39.984702");
    assert_eq!(record.longitude, "116.318417");
    assert_eq!(record.date, "39744.1201851852");
}

#[test]
fn record_needs_seven_fields() {
    assert_eq!(parse_plt_record("1,2,3,4,5,6").err(), Some(ParseError::InvalidFieldCount));
    assert_eq!(parse_plt_record("1,2,3,4,5,6,7,8").err(), Some(ParseError::InvalidFieldCount));
    assert_eq!(parse_plt_record("").err(), Some(ParseError::InvalidFieldCount));
    assert!(parse_plt_record(",,,,,,").is_ok());
}

#[test]
fn decimal_parse_reads_mantissa_and_scale() {
    assert_eq!(DecimalNumber::parse("1.5"), Ok(DecimalNumber { mantissa: 15, scale: 1 }));
    assert_eq!(
        DecimalNumber::parse("-116.318417"),
        Ok(DecimalNumber { mantissa: -116318417, scale: 6 })
    );
    assert_eq!(DecimalNumber::parse("39"), Ok(DecimalNumber { mantissa: 39, scale: 0 }));
    assert!(DecimalNumber::parse("north").is_err());
    assert!(DecimalNumber::parse("").is_err());
}

#[test]
fn point_from_fields_builds_a_sample() {
    assert_eq!(
        Point::from_fields("39.984702", "116.318417", 1224730384),
        Ok(Point {
            latitude: DecimalNumber { mantissa: 39984702, scale: 6 },
            longitude: DecimalNumber { mantissa: 116318417, scale: 6 },
            timestamp: 1224730384,
        })
    );
}

#[test]
fn point_from_fields_reports_the_first_failure() {
    assert_eq!(Point::from_fields("x", "y", i64::MAX), Err(ParseError::InvalidTimestamp));
    assert_eq!(Point::from_fields("1", "2", i64::MIN), Err(ParseError::InvalidTimestamp));
    assert!(matches!(Point::from_fields("x", "y", 0), Err(ParseError::LatitudeParse(_))));
    assert!(matches!(Point::from_fields("1", "y", 0), Err(ParseError::LongitudeParse(_))));
    assert!(Point::from_fields("1", "2", -1).is_ok());
}

#[test]
fn point_assemble_orders_the_errors() {
    let one = DecimalNumber { mantissa: 1, scale: 0 };
    let two = DecimalNumber { mantissa: 2, scale: 0 };
    assert_eq!(
        Point::assemble(true, Ok(one), Ok(two), 5),
        Ok(Point { latitude: one, longitude: two, timestamp: 5 })
    );
    assert_eq!(
        Point::assemble(false, Err("a".to_string()), Err("b".to_string()), 5),
        Err(ParseError::InvalidTimestamp)
    );
    assert_eq!(
        Point::assemble(true, Err("a".to_string()), Err("b".to_string()), 5),
        Err(ParseError::LatitudeParse("a".to_string()))
    );
    assert_eq!(
        Point::assemble(true, Ok(one), Err("b".to_string()), 5),
        Err(ParseError::LongitudeParse("b".to_string()))
    );
}
