use typeid::aggregate::{TypeIDMax, TypeIDMin};
use typeid::typeid::{TypeID, TypeIDPrefix};

fn id(tag: &str, v: u128) -> TypeID {
    TypeID::new(TypeIDPrefix::new(tag).unwrap(), v)
}

fn fold_min(ids: &[TypeID]) -> Option<TypeID> {
    ids.iter().cloned().fold(None, TypeIDMin::state)
}

fn fold_max(ids: &[TypeID]) -> Option<TypeID> {
    ids.iter().cloned().fold(None, TypeIDMax::state)
}

#[test]
fn empty_input_has_no_extreme() {
    assert_eq!(fold_min(&[]), None);
    assert_eq!(fold_max(&[]), None);
    assert_eq!(TypeIDMin::combine(None, None), None);
    assert_eq!(TypeIDMax::combine(None, None), None);
}

#[test]
fn single_value_is_both_extremes() {
    let x = id("user", 3);
    assert_eq!(fold_min(&[x.clone()]), Some(x.clone()));
    assert_eq!(fold_max(&[x.clone()]), Some(x));
}

#[test]
fn min_and_max_follow_prefix_order() {
    let orders = [
        ["comment", "post", "user"],
        ["user", "post", "comment"],
        ["post", "user", "comment"],
    ];
    for order in orders {
        let ids: Vec<TypeID> = order
            .iter()
            .map(|p| TypeID::generate(p).unwrap())
            .collect();
        assert_eq!(fold_min(&ids).unwrap().type_prefix(), "comment");
        assert_eq!(fold_max(&ids).unwrap().type_prefix(), "user");
    }
}

#[test]
fn ties_on_prefix_go_to_value() {
    let ids = vec![id("post", 9), id("post", 2), id("post", 5), id("user", 0)];
    assert_eq!(fold_min(&ids), Some(id("post", 2)));
    assert_eq!(fold_max(&ids), Some(id("user", 0)));
}

#[test]
fn merged_partial_results_match_whole() {
    let ids = vec![
        id("user", 4),
        id("comment", 8),
        id("post", 1),
        id("comment", 3),
        id("", 99),
        id("user", 0),
    ];
    let whole_min = fold_min(&ids);
    let whole_max = fold_max(&ids);
    assert_eq!(whole_min, Some(id("", 99)));
    assert_eq!(whole_max, Some(id("user", 4)));
    for split in 0..=ids.len() {
        let (left, right) = ids.split_at(split);
        assert_eq!(TypeIDMin::combine(fold_min(left), fold_min(right)), whole_min);
        assert_eq!(TypeIDMax::combine(fold_max(left), fold_max(right)), whole_max);
    }
    let evens: Vec<TypeID> = ids.iter().step_by(2).cloned().collect();
    let odds: Vec<TypeID> = ids.iter().skip(1).step_by(2).cloned().collect();
    assert_eq!(TypeIDMin::combine(fold_min(&odds), fold_min(&evens)), whole_min);
    assert_eq!(TypeIDMax::combine(fold_max(&odds), fold_max(&evens)), whole_max);
}
