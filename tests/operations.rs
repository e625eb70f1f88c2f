use typeid::typeid::{Error, PrefixReason, TypeID, TypeIDPrefix};
use typeid::{
    typeid_cmp, typeid_eq, typeid_ge, typeid_generate, typeid_generate_batch,
    typeid_generate_nil, typeid_gt, typeid_has_prefix, typeid_is_nil_prefix, typeid_is_valid,
    typeid_le, typeid_lt, typeid_ne, typeid_prefix, typeid_to_uuid, typeid_uuid_generate_v7,
    uuid_to_typeid,
};

fn id(tag: &str, v: u128) -> TypeID {
    TypeID::new(TypeIDPrefix::new(tag).unwrap(), v)
}

#[test]
fn test_typeid_generate() {
    let typeid = typeid_generate("test").unwrap();
    assert_eq!(typeid.type_prefix(), "test");
}

#[test]
fn test_uuid() {
    let value = typeid_uuid_generate_v7();
    let converted = uuid::Uuid::from_u128(value);
    println!("UUID: {:?}", converted.to_string());
    assert_eq!(converted.get_version_num(), 7);
}

#[test]
fn test_new_utility_functions() {
    let nil_id = typeid_generate_nil();
    assert_eq!(nil_id.type_prefix(), "");

    assert!(typeid_is_valid("user_01h455vb4pex5vsknk084sn02q"));
    assert!(!typeid_is_valid("invalid_id"));
    assert!(!typeid_is_valid("User_01h455vb4pex5vsknk084sn02q"));
    assert!(!typeid_is_valid("user_invalid"));

    let user_id = typeid_generate("user").unwrap();
    assert!(typeid_has_prefix(user_id.clone(), "user"));
    assert!(!typeid_has_prefix(user_id.clone(), "admin"));

    let uuid = uuid::Uuid::from_u128(typeid_to_uuid(user_id.clone()));
    let uuid_str = uuid.to_string();
    assert_eq!(uuid_str.len(), 36);
    assert!(uuid_str.contains("-"));
}

#[test]
fn test_error_messages() {
    assert!(typeid_generate("User").is_err());
    assert!(typeid_generate("user123").is_err());
    assert!(typeid_generate("_user").is_err());
}

#[test]
fn prefix_match_is_exact() {
    let x = id("user", 1);
    assert!(typeid_has_prefix(x.clone(), "user"));
    assert!(!typeid_has_prefix(x.clone(), "use"));
    assert!(!typeid_has_prefix(x.clone(), "users"));
    assert!(!typeid_has_prefix(x.clone(), "usér"));
    assert!(!typeid_has_prefix(x.clone(), ""));
    assert!(typeid_has_prefix(id("", 1), ""));
    assert!(typeid_is_nil_prefix(id("", 1)));
    assert!(!typeid_is_nil_prefix(x));
}

#[test]
fn prefix_and_value_accessors() {
    let x = id("order", 0x01890a5dac96774bbcceb302099a8057);
    assert_eq!(typeid_prefix(x.clone()), "order");
    assert_eq!(typeid_to_uuid(x), 0x01890a5dac96774bbcceb302099a8057);
}

#[test]
fn uuid_conversion() {
    let x = uuid_to_typeid("user", 0x01890a5dac96774bbcceb302099a8057).unwrap();
    assert_eq!(x.to_string(), "user_01h455vb4pex5vsknk084sn02q");
    assert!(matches!(
        uuid_to_typeid("user1", 3),
        Err(Error::InvalidPrefix { reason: PrefixReason::Digit { character: '1', position: 4 }, .. })
    ));
}

#[test]
fn comparison_helpers() {
    let a = id("post", 1);
    let b = id("post", 2);
    let c = id("comment", 5);
    assert_eq!(typeid_cmp(a.clone(), b.clone()), -1);
    assert_eq!(typeid_cmp(b.clone(), a.clone()), 1);
    assert_eq!(typeid_cmp(a.clone(), a.clone()), 0);
    assert_eq!(typeid_cmp(c.clone(), a.clone()), -1);
    assert!(typeid_lt(a.clone(), b.clone()));
    assert!(typeid_le(a.clone(), a.clone()));
    assert!(typeid_eq(a.clone(), a.clone()));
    assert!(!typeid_eq(a.clone(), b.clone()));
    assert!(typeid_ge(b.clone(), a.clone()));
    assert!(typeid_gt(b.clone(), a.clone()));
    assert!(typeid_ne(a.clone(), b.clone()));
    assert!(!typeid_ne(b.clone(), b.clone()));
}

#[test]
fn batch_generation() {
    let batch = typeid_generate_batch("user", 5).unwrap();
    assert_eq!(batch.len(), 5);
    for x in &batch {
        assert_eq!(x.type_prefix(), "user");
        assert_eq!(uuid::Uuid::from_u128(x.uuid()).get_version_num(), 7);
    }
    assert_eq!(typeid_generate_batch("user", 0).unwrap().len(), 0);
    assert_eq!(typeid_generate_batch("User", -3).unwrap().len(), 0);
    assert!(matches!(
        typeid_generate_batch("User", 2),
        Err(Error::InvalidPrefix { reason: PrefixReason::Uppercase { .. }, .. })
    ));
}

#[test]
fn generated_values_follow_creation_order() {
    let first = typeid_generate("user").unwrap();
    let second = typeid_generate("user").unwrap();
    assert!(typeid_lt(first, second));
}
