use std::str::FromStr;

use tuc::{
    bounds_to_std_range, parse_bounds_list, parse_bounds_list_2, BoundOrFiller, BoundsError,
    BoundsType, Side, UserBounds, UserBoundsList,
};

fn b(l: Side, r: Side) -> UserBounds {
    UserBounds::new(l, r)
}

fn bound(s: &str) -> BoundOrFiller {
    BoundOrFiller::Bound(UserBounds::from_str(s).unwrap())
}

fn filler(s: &str) -> BoundOrFiller {
    BoundOrFiller::Filler(String::from(s))
}

#[test]
fn side_reads_signs_and_nothing() {
    assert_eq!(Side::from_str("").unwrap(), Side::Continue);
    assert_eq!(Side::from_str("5").unwrap(), Side::Index(5));
    assert_eq!(Side::from_str("+5").unwrap(), Side::Index(5));
    assert_eq!(Side::from_str("-12").unwrap(), Side::Index(-12));
    assert_eq!(Side::from_str("007").unwrap(), Side::Index(7));
    assert_eq!(Side::from_str("2147483647").unwrap(), Side::Index(i32::MAX));
    assert_eq!(Side::from_str("-2147483648").unwrap(), Side::Index(i32::MIN));
}

#[test]
fn side_refuses_what_is_no_i32() {
    for s in ["abc", "-", "+", "1a", " 1", "2147483648", "-2147483649", "+-1", "1.0"] {
        let e = Side::from_str(s).unwrap_err();
        assert_eq!(e, BoundsError::NotANumber(String::from(s)));
        assert_eq!(e.to_string(), format!("Not a number `{}`", s));
    }
}

#[test]
fn side_prints_its_index() {
    assert_eq!(Side::Index(-5).to_string(), "-5");
    assert_eq!(Side::Index(0).to_string(), "0");
    assert_eq!(Side::Index(i32::MIN).to_string(), "-2147483648");
    assert_eq!(Side::Index(1234).to_string(), "1234");
    assert_eq!(Side::Continue.to_string(), "");
}

#[test]
fn bound_prints_one_index_when_sides_agree() {
    assert_eq!(b(Side::Index(4), Side::Index(4)).to_string(), "4");
    assert_eq!(b(Side::Index(-4), Side::Index(-4)).to_string(), "-4");
    assert_eq!(b(Side::Index(10), Side::Index(20)).to_string(), "10:20");
}

#[test]
fn bound_errors_and_their_messages() {
    let cases = [
        ("", BoundsError::EmptyField, "Field format error: empty field"),
        (":", BoundsError::NoNumbersNextToColon, "Field format error, no numbers next to `:`"),
        ("0", BoundsError::ZeroField, "Field value 0 is not allowed (fields are 1-indexed)"),
        ("0:3", BoundsError::ZeroField, "Field value 0 is not allowed (fields are 1-indexed)"),
        ("1:0", BoundsError::ZeroField, "Field value 0 is not allowed (fields are 1-indexed)"),
        (":0", BoundsError::ZeroField, "Field value 0 is not allowed (fields are 1-indexed)"),
        (
            "3:2",
            BoundsError::LeftGreaterThanRight,
            "Field left value cannot be greater than right value",
        ),
    ];
    for (s, e, m) in cases {
        let got = UserBounds::from_str(s).unwrap_err();
        assert_eq!(got, e);
        assert_eq!(got.to_string(), m);
    }
    assert_eq!(
        UserBounds::from_str("a:1").unwrap_err(),
        BoundsError::NotANumber(String::from("a"))
    );
    assert_eq!(
        UserBounds::from_str("1:b").unwrap_err(),
        BoundsError::NotANumber(String::from("b"))
    );
    assert_eq!(
        UserBounds::from_str("::").unwrap_err(),
        BoundsError::NotANumber(String::from(":"))
    );
    assert_eq!(
        UserBounds::from_str("1:2:3").unwrap_err(),
        BoundsError::NotANumber(String::from("2:3"))
    );
    assert_eq!(
        UserBounds::from_str("x:0").unwrap_err(),
        BoundsError::NotANumber(String::from("x"))
    );
}

#[test]
fn bound_mixed_signs_are_read() {
    assert_eq!(
        UserBounds::from_str("-3:2").unwrap(),
        b(Side::Index(-3), Side::Index(2))
    );
    assert_eq!(
        UserBounds::from_str("+2:+3").unwrap(),
        b(Side::Index(2), Side::Index(3))
    );
}

#[test]
fn printed_bounds_read_back() {
    let valid = [
        b(Side::Index(1), Side::Index(1)),
        b(Side::Index(-7), Side::Index(-7)),
        b(Side::Index(2), Side::Index(9)),
        b(Side::Index(-9), Side::Index(-2)),
        b(Side::Index(-3), Side::Index(4)),
        b(Side::Index(3), Side::Continue),
        b(Side::Continue, Side::Index(-3)),
        b(Side::Index(i32::MIN), Side::Index(i32::MAX)),
    ];
    for x in valid {
        assert_eq!(UserBounds::from_str(&x.to_string()).unwrap(), x);
    }
    // The whole line prints as `1:-1`, which reads as no bound.
    assert_eq!(
        UserBounds::from_str(&b(Side::Continue, Side::Continue).to_string()).unwrap_err(),
        BoundsError::LeftGreaterThanRight
    );
}

#[test]
fn default_bound_is_the_first_part() {
    assert_eq!(UserBounds::default(), b(Side::Index(1), Side::Index(1)));
}

#[test]
fn matches_between_sides() {
    let x = b(Side::Index(2), Side::Index(4));
    assert_eq!(x.matches(1).unwrap(), false);
    assert_eq!(x.matches(2).unwrap(), true);
    assert_eq!(x.matches(4).unwrap(), true);
    assert_eq!(x.matches(5).unwrap(), false);
    assert_eq!(b(Side::Continue, Side::Continue).matches(-9).unwrap(), true);
    assert_eq!(b(Side::Continue, Side::Index(3)).matches(3).unwrap(), true);
    assert_eq!(b(Side::Continue, Side::Index(3)).matches(4).unwrap(), false);
    assert_eq!(b(Side::Index(-3), Side::Continue).matches(-4).unwrap(), false);
    assert_eq!(b(Side::Index(-3), Side::Continue).matches(-1).unwrap(), true);
}

#[test]
fn matches_refuses_other_sign() {
    let x = b(Side::Index(1), Side::Index(3));
    let e = x.matches(-1).unwrap_err();
    assert_eq!(e, BoundsError::SignMismatch { idx: -1, bounds: x.clone() });
    assert_eq!(
        e.to_string(),
        "sign mismatch. Can't verify if index -1 is between bounds 1:3"
    );
    let y = b(Side::Continue, Side::Index(-2));
    assert_eq!(
        y.matches(5).unwrap_err().to_string(),
        "sign mismatch. Can't verify if index 5 is between bounds :-2"
    );
}

#[test]
fn ranges_of_bounds() {
    let r = bounds_to_std_range(5, &b(Side::Index(2), Side::Index(3))).unwrap();
    assert_eq!((r.start, r.end), (1, 3));
    let r = bounds_to_std_range(5, &b(Side::Index(-2), Side::Index(-1))).unwrap();
    assert_eq!((r.start, r.end), (3, 5));
    let r = bounds_to_std_range(5, &b(Side::Continue, Side::Continue)).unwrap();
    assert_eq!((r.start, r.end), (0, 5));
    let r = bounds_to_std_range(5, &b(Side::Index(5), Side::Continue)).unwrap();
    assert_eq!((r.start, r.end), (4, 5));
    let r = bounds_to_std_range(5, &b(Side::Continue, Side::Index(-5))).unwrap();
    assert_eq!((r.start, r.end), (0, 1));
}

#[test]
fn ranges_out_of_bounds() {
    let e = bounds_to_std_range(5, &b(Side::Index(7), Side::Index(8))).unwrap_err();
    assert_eq!(e, BoundsError::OutOfBounds(7));
    assert_eq!(e.to_string(), "Out of bounds: 7");
    let e = bounds_to_std_range(5, &b(Side::Index(1), Side::Index(-6))).unwrap_err();
    assert_eq!(e.to_string(), "Out of bounds: -6");
}

#[test]
fn range_holds_the_matching_positions() {
    let len = 6;
    for s in ["1", "2:4", ":3", "4:", "-1", "-4:-2", ":-3", "-2:"] {
        let x = UserBounds::from_str(s).unwrap();
        let r = bounds_to_std_range(len, &x).unwrap();
        let negative = s.contains('-');
        for p in 0..len {
            let idx = if negative { p as i32 - len as i32 } else { p as i32 + 1 };
            assert_eq!(r.contains(&p), x.matches(idx).unwrap());
        }
    }
}

#[test]
fn order_of_bounds() {
    let one = b(Side::Index(1), Side::Index(1));
    let two = b(Side::Index(2), Side::Index(3));
    assert_eq!(one.cmp(&one), std::cmp::Ordering::Equal);
    assert_eq!(one.cmp(&two), std::cmp::Ordering::Less);
    assert_eq!(two.cmp(&one), std::cmp::Ordering::Greater);
    let open_right = b(Side::Index(2), Side::Continue);
    assert_eq!(open_right.cmp(&two), std::cmp::Ordering::Greater);
    // Overlapping bounds go by their left sides.
    let x = UserBounds::from_str("1:3").unwrap();
    let y = UserBounds::from_str("2:4").unwrap();
    assert_eq!(x.cmp(&y), std::cmp::Ordering::Less);
    assert_eq!(y.cmp(&x), std::cmp::Ordering::Greater);
    // Same left side: a right side that is left out comes last.
    assert_eq!(open_right.cmp(&b(Side::Index(2), Side::Index(9))), std::cmp::Ordering::Greater);
    assert_eq!(
        b(Side::Continue, Side::Index(2)).cmp(&b(Side::Index(1), Side::Index(1))),
        std::cmp::Ordering::Less
    );
}

#[test]
fn list_without_braces() {
    assert_eq!(
        parse_bounds_list("1,3:4,-1").unwrap(),
        vec![bound("1"), bound("3:4"), bound("-1")]
    );
    assert_eq!(parse_bounds_list("1,").unwrap_err(), BoundsError::EmptyField);
    assert_eq!(
        parse_bounds_list("1,x,0").unwrap_err(),
        BoundsError::NotANumber(String::from("x"))
    );
}

#[test]
fn format_strings() {
    assert_eq!(parse_bounds_list("{1}{2}").unwrap(), vec![bound("1"), bound("2")]);
    assert_eq!(
        parse_bounds_list("{1} {2}").unwrap(),
        vec![bound("1"), filler(" "), bound("2")]
    );
    assert_eq!(
        parse_bounds_list("a{{b}}c{1}").unwrap(),
        vec![filler("a{{b}}c"), bound("1")]
    );
    assert_eq!(
        parse_bounds_list("x\\n{1}\\n").unwrap(),
        vec![filler("x\n"), bound("1"), filler("\n")]
    );
    // Escaped braces with no bound: the whole text is a filler.
    assert_eq!(parse_bounds_list("a{{b").unwrap(), vec![filler("a{{b")]);
    assert_eq!(parse_bounds_list("{{").unwrap(), vec![filler("{{")]);
    assert_eq!(
        parse_bounds_list("{1{2}").unwrap_err(),
        BoundsError::MissingClosingParenthesis
    );
    assert_eq!(
        parse_bounds_list("{0}").unwrap_err(),
        BoundsError::ZeroField
    );
    assert_eq!(
        parse_bounds_list("ab}").unwrap_err(),
        BoundsError::MissingOpeningParenthesis
    );
}

#[test]
fn format_strings_read_in_place() {
    assert_eq!(
        parse_bounds_list_2("hello {1,2} world").unwrap(),
        vec![filler("hello "), bound("1"), bound("2"), filler(" world")]
    );
    assert_eq!(parse_bounds_list_2("1,2").unwrap(), vec![bound("1"), bound("2")]);
    assert_eq!(
        parse_bounds_list_2("a{{b}}c{1}").unwrap(),
        vec![filler("a{{b}}c"), bound("1")]
    );
    assert_eq!(
        parse_bounds_list_2("{1{2}").unwrap(),
        vec![filler("1"), bound("2")]
    );
    assert_eq!(parse_bounds_list_2("a{{b").unwrap(), vec![filler("a{{b")]);
    assert_eq!(
        parse_bounds_list_2("}").unwrap_err(),
        BoundsError::MissingOpeningParenthesis
    );
    assert_eq!(
        parse_bounds_list_2("{").unwrap_err(),
        BoundsError::MissingClosingParenthesis
    );
    assert_eq!(
        parse_bounds_list_2("{1}é").unwrap(),
        vec![bound("1"), filler("é")]
    );
}

#[test]
fn list_parses_through_from_str() {
    let l = UserBoundsList::from_str("{2} and {1}").unwrap();
    assert_eq!(l.0, vec![bound("2"), filler(" and "), bound("1")]);
    assert!(l.is_sortable());
    // A filler between the bounds leaves no pair of bounds to compare.
    assert!(l.is_sorted());
    assert!(!UserBoundsList::from_str("2,1").unwrap().is_sorted());
    assert!(UserBoundsList::from_str("{").is_err());
}

#[test]
fn sorting_checks() {
    assert!(UserBoundsList(vec![bound("3"), filler("x"), bound("1")]).is_sorted());
    assert!(!UserBoundsList(vec![bound("3"), bound("1")]).is_sorted());
    assert!(!UserBoundsList(vec![
        BoundOrFiller::Bound(b(Side::Index(0), Side::Index(0))),
        bound("1"),
    ])
    .is_sortable());
    assert!(UserBoundsList(vec![filler("only text")]).is_sortable());
}

#[test]
fn bounds_type_variants() {
    assert_ne!(BoundsType::Bytes, BoundsType::Lines);
    assert_eq!(BoundsType::Fields, BoundsType::Fields);
    assert_ne!(BoundsType::Characters, BoundsType::Fields);
}

#[test]
fn documented_bound_formats() {
    assert_eq!(parse_bounds_list("1").unwrap(), vec![bound("1")]);
    assert_eq!(
        parse_bounds_list("-1").unwrap(),
        vec![BoundOrFiller::Bound(b(Side::Index(-1), Side::Index(-1)))]
    );
    assert_eq!(
        parse_bounds_list("1:3").unwrap(),
        vec![BoundOrFiller::Bound(b(Side::Index(1), Side::Index(3)))]
    );
    assert_eq!(
        parse_bounds_list(":3").unwrap(),
        vec![BoundOrFiller::Bound(b(Side::Continue, Side::Index(3)))]
    );
    assert_eq!(
        parse_bounds_list("1:").unwrap(),
        vec![BoundOrFiller::Bound(b(Side::Index(1), Side::Continue))]
    );
    assert_eq!(
        parse_bounds_list("1,4").unwrap(),
        vec![
            BoundOrFiller::Bound(b(Side::Index(1), Side::Index(1))),
            BoundOrFiller::Bound(b(Side::Index(4), Side::Index(4)))
        ]
    );
}

#[test]
fn documented_format_string() {
    assert_eq!(
        parse_bounds_list("Hello {1}, found {1:3} and {2,4}").unwrap(),
        vec![
            filler("Hello "),
            BoundOrFiller::Bound(b(Side::Index(1), Side::Index(1))),
            filler(", found "),
            BoundOrFiller::Bound(b(Side::Index(1), Side::Index(3))),
            filler(" and "),
            BoundOrFiller::Bound(b(Side::Index(2), Side::Index(2))),
            BoundOrFiller::Bound(b(Side::Index(4), Side::Index(4))),
        ]
    );
}

#[test]
fn bound_before_another_selects_earlier_parts() {
    let x = UserBounds::from_str("1:2").unwrap();
    let y = UserBounds::from_str("2:4").unwrap();
    assert_eq!(x.cmp(&y), std::cmp::Ordering::Less);
    for i in 1..6 {
        for j in 1..6 {
            if x.matches(i).unwrap() && y.matches(j).unwrap() {
                assert!(i <= j);
            }
        }
    }
}

#[test]
fn matches_large_indexes_of_one_sign() {
    assert_eq!(
        UserBounds::new(Side::Index(46341), Side::Continue).matches(46341).unwrap(),
        true
    );
    assert_eq!(
        UserBounds::new(Side::Index(65536), Side::Continue).matches(65536).unwrap(),
        true
    );
    assert_eq!(
        UserBounds::new(Side::Index(i32::MIN), Side::Index(-70000)).matches(i32::MIN).unwrap(),
        true
    );
    assert_eq!(
        UserBounds::new(Side::Index(70000), Side::Index(80000)).matches(90000).unwrap(),
        false
    );
    let x = UserBounds::new(Side::Index(70000), Side::Continue);
    assert_eq!(
        x.matches(-70000).unwrap_err(),
        BoundsError::SignMismatch { idx: -70000, bounds: x.clone() }
    );
}

#[test]
fn partial_order_of_bounds() {
    let a = UserBounds::from_str("1:2").unwrap();
    let c = UserBounds::from_str("3").unwrap();
    assert!(a < c);
    assert!(a <= c);
    assert!(!(c <= a));
    assert_eq!(a.partial_cmp(&a), Some(std::cmp::Ordering::Equal));
    let big = UserBounds::from_str("1:70000").unwrap();
    let bigger = UserBounds::from_str("70000:80000").unwrap();
    assert_eq!(big.cmp(&bigger), std::cmp::Ordering::Less);
    assert!(big <= bigger);
    assert!(UserBoundsList(vec![
        BoundOrFiller::Bound(big),
        BoundOrFiller::Bound(bigger),
    ])
    .is_sorted());
}

#[test]
fn second_parser_on_wider_text() {
    assert_eq!(
        parse_bounds_list_2("héllo {{world}}").unwrap(),
        vec![filler("héllo {{world}}")]
    );
    assert_eq!(
        parse_bounds_list_2("é{1}ü").unwrap(),
        vec![filler("é"), bound("1"), filler("ü")]
    );
}

#[test]
fn parsers_agree_without_escapes() {
    for s in [
        "1",
        "1,2:3",
        "{1}",
        "hello {1,2} world",
        "{1} {2}x",
        "a{-1:}b{:3}",
        "Hello {1}, found {1:3} and {2,4}",
    ] {
        assert_eq!(parse_bounds_list(s).unwrap(), parse_bounds_list_2(s).unwrap());
    }
}

#[test]
fn order_reverses_when_swapped() {
    let texts = [
        "1", "2", "1:3", "2:4", "3:", ":2", "1:", ":5", "4:9", "-1", "-3:-1", "-5:", ":-2",
        "-4:-3",
    ];
    for p in texts {
        for q in texts {
            let x = UserBounds::from_str(p).unwrap();
            let y = UserBounds::from_str(q).unwrap();
            assert_eq!(x.cmp(&y), y.cmp(&x).reverse());
        }
    }
}
