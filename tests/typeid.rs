use std::cmp::Ordering;

use typeid::base32::EncodingReason;
use typeid::typeid::{Error, FormatReason, PrefixReason, TypeID, TypeIDPrefix};

fn prefix_error(tag: &str) -> PrefixReason {
    match TypeIDPrefix::new(tag) {
        Err(Error::InvalidPrefix { actual, reason }) => {
            assert_eq!(actual, tag);
            reason
        }
        other => panic!("expected a prefix error, got {:?}", other),
    }
}

#[test]
fn prefix_grammar() {
    assert!(TypeIDPrefix::new("").is_ok());
    assert!(TypeIDPrefix::new("user").is_ok());
    assert!(TypeIDPrefix::new("user_account").is_ok());
    assert_eq!(prefix_error("_x"), PrefixReason::LeadingUnderscore);
    assert_eq!(prefix_error("x_"), PrefixReason::TrailingUnderscore);
    assert_eq!(prefix_error("_"), PrefixReason::LeadingUnderscore);
    assert_eq!(
        prefix_error("User"),
        PrefixReason::Uppercase { character: 'U', position: 0 }
    );
    assert_eq!(
        prefix_error("user1"),
        PrefixReason::Digit { character: '1', position: 4 }
    );
    assert_eq!(
        prefix_error("us-er"),
        PrefixReason::InvalidCharacter { character: '-', position: 2 }
    );
    // The first byte of a non-ASCII character is reported, at its byte position.
    assert_eq!(
        prefix_error("usér"),
        PrefixReason::InvalidCharacter { character: '\u{c3}', position: 2 }
    );
    assert_eq!(
        prefix_error("é"),
        PrefixReason::InvalidCharacter { character: 'Ã', position: 0 }
    );
}

#[test]
fn prefix_length_limit() {
    let longest = "a".repeat(63);
    assert!(TypeIDPrefix::new(&longest).is_ok());
    let too_long = "a".repeat(64);
    assert_eq!(prefix_error(&too_long), PrefixReason::TooLong { len: 64 });
}

#[test]
fn parses_example() {
    let text = "user_01h455vb4pex5vsknk084sn02q";
    let id = TypeID::from_string(text).unwrap();
    assert_eq!(id.type_prefix(), "user");
    assert_eq!(id.uuid(), 0x01890a5dac96774bbcceb302099a8057);
    assert_eq!(id.to_string(), text);
}

#[test]
fn rejects_short_suffix() {
    assert!(matches!(
        TypeID::from_string("invalid_id"),
        Err(Error::InvalidSuffix { reason: EncodingReason::WrongLength { len: 2 } })
    ));
}

#[test]
fn rejects_uppercase_prefix() {
    assert!(matches!(
        TypeID::from_string("User_01h455vb4pex5vsknk084sn02q"),
        Err(Error::InvalidPrefix {
            reason: PrefixReason::Uppercase { character: 'U', position: 0 },
            ..
        })
    ));
}

#[test]
fn parse_errors_in_order() {
    let too_long = format!("{}_01h455vb4pex5vsknk084sn02q", "a".repeat(63));
    assert_eq!(too_long.len(), 90);
    assert!(matches!(TypeID::from_string(&too_long), Err(Error::TooLong)));
    assert!(matches!(
        TypeID::from_string("_01h455vb4pex5vsknk084sn02q"),
        Err(Error::InvalidFormat { reason: FormatReason::LeadingSeparator })
    ));
    assert!(matches!(
        TypeID::from_string("user_8zzzzzzzzzzzzzzzzzzzzzzzzz"),
        Err(Error::InvalidSuffix { reason: EncodingReason::Overflow })
    ));
    assert!(matches!(
        TypeID::from_string("User_8zzzzzzzzzzzzzzzzzzzzzzzzz"),
        Err(Error::InvalidSuffix { reason: EncodingReason::Overflow })
    ));
    assert!(matches!(
        TypeID::from_string("user__01h455vb4pex5vsknk084sn02q"),
        Err(Error::InvalidPrefix { reason: PrefixReason::TrailingUnderscore, .. })
    ));
    assert!(matches!(
        TypeID::from_string("user_01h455vb4pex5vsknk084sn02"),
        Err(Error::InvalidSuffix { reason: EncodingReason::WrongLength { len: 25 } })
    ));
}

#[test]
fn non_ascii_text_reports_bytes() {
    assert!(matches!(
        TypeID::from_string("usér_01h455vb4pex5vsknk084sn02q"),
        Err(Error::InvalidPrefix {
            reason: PrefixReason::InvalidCharacter { character: '\u{c3}', position: 2 },
            ..
        })
    ));
    assert!(matches!(
        TypeID::from_string("user_é1h455vb4pex5vsknk084sn02"),
        Err(Error::InvalidSuffix {
            reason: EncodingReason::InvalidCharacter { character: '\u{c3}', position: 0 }
        })
    ));
}

#[test]
fn parses_without_prefix() {
    let id = TypeID::from_string("01h455vb4pex5vsknk084sn02q").unwrap();
    assert!(id.is_nil_prefix());
    assert_eq!(id.type_prefix(), "");
    assert_eq!(id.to_string(), "01h455vb4pex5vsknk084sn02q");
}

#[test]
fn renders_and_parses_back() {
    for tag in ["", "a", "user", "some_long_prefix", &"b".repeat(62)] {
        for v in [0u128, 7, u128::MAX, 0x01890a5dac96774bbcceb302099a8057] {
            let id = TypeID::new(TypeIDPrefix::new(tag).unwrap(), v);
            let text = id.to_string();
            assert_eq!(TypeID::from_string(&text).unwrap(), id);
        }
    }
}

#[test]
fn sixty_three_letter_prefix_renders_beyond_parse_limit() {
    let id = TypeID::new(TypeIDPrefix::new(&"c".repeat(63)).unwrap(), 1);
    assert_eq!(id.to_string().len(), 90);
    assert!(matches!(TypeID::from_string(&id.to_string()), Err(Error::TooLong)));
}

#[test]
fn construction_helpers() {
    let id = TypeID::new_nil(5);
    assert!(id.is_nil_prefix());
    assert_eq!(id.uuid(), 5);
    assert_eq!(id.to_string(), "00000000000000000000000005");
    let unchecked = TypeIDPrefix::try_unsafe("post");
    assert_eq!(TypeID::new(unchecked, 32).to_string(), "post_00000000000000000000000010");
}

#[test]
fn generates_version_seven_values() {
    let id = TypeID::generate("user").unwrap();
    assert_eq!(id.type_prefix(), "user");
    let uuid = uuid::Uuid::from_u128(id.uuid());
    assert_eq!(uuid.get_version_num(), 7);
    assert!(matches!(
        TypeID::generate("User"),
        Err(Error::InvalidPrefix { reason: PrefixReason::Uppercase { .. }, .. })
    ));
    let nil = TypeID::generate_nil();
    assert!(nil.is_nil_prefix());
    assert_eq!(uuid::Uuid::from_u128(nil.uuid()).get_version_num(), 7);
}

#[test]
fn orders_by_prefix_then_value() {
    let a = TypeID::new(TypeIDPrefix::new("comment").unwrap(), 9);
    let b = TypeID::new(TypeIDPrefix::new("post").unwrap(), 1);
    let c = TypeID::new(TypeIDPrefix::new("post").unwrap(), 2);
    let d = TypeID::new(TypeIDPrefix::new("postx").unwrap(), 0);
    let e = TypeID::new(TypeIDPrefix::new("").unwrap(), u128::MAX);
    assert_eq!(a.compare(&b), Ordering::Less);
    assert_eq!(b.compare(&a), Ordering::Greater);
    assert_eq!(b.compare(&c), Ordering::Less);
    assert_eq!(c.compare(&d), Ordering::Less);
    assert_eq!(e.compare(&a), Ordering::Less);
    assert_eq!(c.compare(&c.clone()), Ordering::Equal);
    // The derived order agrees.
    assert!(a < b && b < c && c < d && e < a);
}

#[test]
fn order_is_transitive_on_samples() {
    let ids: Vec<TypeID> = [("b", 3u128), ("a", 9), ("b", 1), ("", 4), ("ab", 0), ("a", 2)]
        .iter()
        .map(|(t, v)| TypeID::new(TypeIDPrefix::new(t).unwrap(), *v))
        .collect();
    for x in &ids {
        for y in &ids {
            assert_eq!(x.compare(y), y.compare(x).reverse());
            assert_eq!(x.compare(y) == Ordering::Equal, x == y);
            for z in &ids {
                if x.compare(y) != Ordering::Greater && y.compare(z) != Ordering::Greater {
                    assert_ne!(x.compare(z), Ordering::Greater);
                }
            }
        }
    }
}
