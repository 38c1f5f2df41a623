use std::str::FromStr;

use tuc::{parse_bounds_list, BoundOrFiller, Side, UserBounds, UserBoundsList};

#[test]
fn test_user_bounds_formatting() {
    assert_eq!(
        UserBounds::new(Side::Continue, Side::Continue).to_string(),
        "1:-1"
    );
    assert_eq!(
        UserBounds::new(Side::Continue, Side::Index(3)).to_string(),
        ":3"
    );
    assert_eq!(
        UserBounds::new(Side::Index(3), Side::Continue).to_string(),
        "3:"
    );
    assert_eq!(
        UserBounds::new(Side::Index(1), Side::Index(2)).to_string(),
        "1:2"
    );
    assert_eq!(
        UserBounds::new(Side::Index(-1), Side::Index(-2)).to_string(),
        "-1:-2"
    );
}

#[test]
fn test_user_bounds_from_str() {
    assert_eq!(
        UserBounds::from_str("1").ok(),
        Some(UserBounds::new(Side::Index(1), Side::Index(1))),
    );
    assert_eq!(
        UserBounds::from_str("-1").ok(),
        Some(UserBounds::new(Side::Index(-1), Side::Index(-1))),
    );
    assert_eq!(
        UserBounds::from_str("1:2").ok(),
        Some(UserBounds::new(Side::Index(1), Side::Index(2))),
    );
    assert_eq!(
        UserBounds::from_str("-2:-1").ok(),
        Some(UserBounds::new(Side::Index(-2), Side::Index(-1))),
    );
    assert_eq!(
        UserBounds::from_str("1:").ok(),
        Some(UserBounds::new(Side::Index(1), Side::Continue)),
    );
    assert_eq!(
        UserBounds::from_str("-1:").ok(),
        Some(UserBounds::new(Side::Index(-1), Side::Continue)),
    );
    assert_eq!(
        UserBounds::from_str(":1").ok(),
        Some(UserBounds::new(Side::Continue, Side::Index(1))),
    );
    assert_eq!(
        UserBounds::from_str(":-1").ok(),
        Some(UserBounds::new(Side::Continue, Side::Index(-1))),
    );

    assert_eq!(
        UserBounds::from_str("2:1")
            .err()
            .and_then(|x| Some(x.to_string())),
        Some(String::from(
            "Field left value cannot be greater than right value"
        ))
    );
    assert_eq!(
        UserBounds::from_str("-1:-2")
            .err()
            .and_then(|x| Some(x.to_string())),
        Some(String::from(
            "Field left value cannot be greater than right value"
        ))
    );
}

#[test]
fn test_parse_bounds_list() {
    assert_eq!(
        &parse_bounds_list("").unwrap_err().to_string(),
        "Field format error: empty field"
    );

    assert_eq!(
        &parse_bounds_list("{").unwrap_err().to_string(),
        "Field format error: missing closing parenthesis"
    );

    assert_eq!(
        &parse_bounds_list("}").unwrap_err().to_string(),
        "Field format error: missing opening parenthesis"
    );

    assert_eq!(
        &parse_bounds_list("{1}{").unwrap_err().to_string(),
        "Field format error: missing closing parenthesis"
    );

    assert!(parse_bounds_list("{1}}").is_err());
    assert!(parse_bounds_list("{{1}").is_err());

    assert_eq!(
        parse_bounds_list("1").unwrap(),
        vec![BoundOrFiller::Bound(UserBounds::new(
            Side::Index(1),
            Side::Index(1)
        ))],
    );

    assert_eq!(
        parse_bounds_list("{1}").unwrap(),
        vec![BoundOrFiller::Bound(UserBounds::new(
            Side::Index(1),
            Side::Index(1)
        ))],
    );

    assert_eq!(
        parse_bounds_list("{1:2}").unwrap(),
        vec![BoundOrFiller::Bound(UserBounds::new(
            Side::Index(1),
            Side::Index(2)
        ))],
    );

    assert_eq!(
        parse_bounds_list("{1,2}").unwrap(),
        vec![
            BoundOrFiller::Bound(UserBounds::new(Side::Index(1), Side::Index(1))),
            BoundOrFiller::Bound(UserBounds::new(Side::Index(2), Side::Index(2)))
        ],
    );

    assert_eq!(
        parse_bounds_list("hello {1,2} world").unwrap(),
        vec![
            BoundOrFiller::Filler(String::from("hello ")),
            BoundOrFiller::Bound(UserBounds::new(Side::Index(1), Side::Index(1))),
            BoundOrFiller::Bound(UserBounds::new(Side::Index(2), Side::Index(2))),
            BoundOrFiller::Filler(String::from(" world")),
        ],
    );
}

#[test]
fn test_user_bounds_is_sortable() {
    assert!(UserBoundsList(Vec::new()).is_sortable());

    assert!(UserBoundsList(vec![BoundOrFiller::Bound(
        UserBounds::from_str("1").unwrap()
    ),])
    .is_sortable());

    assert!(UserBoundsList(vec![
        BoundOrFiller::Bound(UserBounds::from_str("1").unwrap()),
        BoundOrFiller::Bound(UserBounds::from_str("2").unwrap()),
    ])
    .is_sortable());

    assert!(UserBoundsList(vec![
        BoundOrFiller::Bound(UserBounds::from_str("3").unwrap()),
        BoundOrFiller::Bound(UserBounds::from_str("2").unwrap()),
    ])
    .is_sortable());

    assert!(!UserBoundsList(vec![
        BoundOrFiller::Bound(UserBounds::from_str("-1").unwrap()),
        BoundOrFiller::Bound(UserBounds::from_str("1").unwrap()),
    ])
    .is_sortable());

    assert!(!UserBoundsList(vec![
        BoundOrFiller::Bound(UserBounds::from_str("-1:").unwrap()),
        BoundOrFiller::Bound(UserBounds::from_str(":1").unwrap()),
    ])
    .is_sortable());
}

#[test]
fn test_vec_of_bounds_is_sorted() {
    assert!(UserBoundsList(vec![BoundOrFiller::Bound(
        UserBounds::from_str("1").unwrap()
    ),])
    .is_sorted());

    assert!(UserBoundsList(vec![
        BoundOrFiller::Bound(UserBounds::from_str("1").unwrap()),
        BoundOrFiller::Bound(UserBounds::from_str("2").unwrap()),
    ])
    .is_sorted());

    assert!(UserBoundsList(vec![
        BoundOrFiller::Bound(UserBounds::from_str("-2").unwrap()),
        BoundOrFiller::Bound(UserBounds::from_str("-1").unwrap()),
    ])
    .is_sorted());

    assert!(UserBoundsList(vec![
        BoundOrFiller::Bound(UserBounds::from_str(":1").unwrap()),
        BoundOrFiller::Bound(UserBounds::from_str("2:4").unwrap()),
        BoundOrFiller::Bound(UserBounds::from_str("5:").unwrap()),
    ])
    .is_sorted());

    assert!(UserBoundsList(vec![
        BoundOrFiller::Bound(UserBounds::from_str("1").unwrap()),
        BoundOrFiller::Bound(UserBounds::from_str("1:2").unwrap()),
    ])
    .is_sorted());

    assert!(UserBoundsList(vec![
        BoundOrFiller::Bound(UserBounds::from_str("1").unwrap()),
        BoundOrFiller::Bound(UserBounds::from_str("1").unwrap()),
        BoundOrFiller::Bound(UserBounds::from_str("2").unwrap()),
    ])
    .is_sorted());
}
