use rbus::error::ZbusError;
use rbus::ObjectID;

#[test]
fn round_trip_name_and_version() {
    let cases: Vec<(&str, &str)> = vec![
        ("calc", "1.0"),
        ("server", ""),
        ("a", "b"),
        ("", "v2"),
        ("name.with.dots", "0.0.1"),
    ];
    for (name, version) in cases {
        let oid = ObjectID::new(name, version);
        let s = oid.to_string();
        let parsed = ObjectID::parse(s.as_str()).unwrap();
        assert_eq!(parsed, ObjectID::new(name, version));
    }
}

#[test]
fn to_string_with_version_uses_separator() {
    assert_eq!(ObjectID::new("calc", "1.0").to_string(), "calc@1.0".to_string());
}

#[test]
fn to_string_without_version_is_name_alone() {
    assert_eq!(ObjectID::new("calc", "").to_string(), "calc".to_string());
}

#[test]
fn parse_two_separators_fails() {
    let r = ObjectID::parse("a@b@c");
    assert!(matches!(r, Err(ZbusError::BadObjectID)));
    let r = ObjectID::parse("a@@b");
    assert!(matches!(r, Err(ZbusError::BadObjectID)));
}

#[test]
fn parse_without_separator_gives_empty_version() {
    let r = ObjectID::parse("a").unwrap();
    assert_eq!(r, ObjectID::new("a", ""));
}

#[test]
fn parse_trailing_separator_gives_empty_version() {
    let r = ObjectID::parse("a@").unwrap();
    assert_eq!(r, ObjectID::new("a", ""));
}

#[test]
fn parse_single_separator_splits() {
    let r = ObjectID::parse("calc@1.0").unwrap();
    assert_eq!(r, ObjectID::new("calc", "1.0"));
}

#[test]
fn error_messages() {
    assert_eq!(ZbusError::BadObjectID.message(), "Could not parse object ID".to_string());
    assert_eq!(ZbusError::DecodeError.message(), "Decoding failed".to_string());
    assert_eq!(ZbusError::EncodeError.message(), "Encoding failed".to_string());
    assert_eq!(ZbusError::E("boom".to_string()).message(), "boom".to_string());
    let e: ZbusError = ZbusError::from("wrapped".to_string());
    assert!(matches!(e, ZbusError::E(_)));
}
