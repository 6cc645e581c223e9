use blackjack::selection::SelectionExpression;
use blackjack::selection::SelectionFragment;
use blackjack::selection::SelectionParseError;
use blackjack::selection::SelectionFragment::{Group, Range, Single};

fn expl(v: &[SelectionFragment]) -> SelectionExpression {
    SelectionExpression::Explicit(v.to_vec())
}

#[test]
fn test_all() {
    assert_eq!(SelectionExpression::parse("*").unwrap(), SelectionExpression::All);
    assert_eq!(SelectionExpression::parse("   *").unwrap(), SelectionExpression::All);
    assert_eq!(SelectionExpression::parse("*   ").unwrap(), SelectionExpression::All);
    assert_eq!(SelectionExpression::parse("   *   ").unwrap(), SelectionExpression::All);
}

#[test]
fn test_none() {
    assert_eq!(SelectionExpression::parse("").unwrap(), SelectionExpression::Empty);
    assert_eq!(SelectionExpression::parse("   ").unwrap(), SelectionExpression::Empty);
}

#[test]
fn test_explicit() {
    assert_eq!(SelectionExpression::parse("1").unwrap(), expl(&[Single(1)]));
    assert_eq!(SelectionExpression::parse("1, 2, 3").unwrap(), expl(&[Single(1), Single(2), Single(3)]));
    assert_eq!(SelectionExpression::parse("1,2,3").unwrap(), expl(&[Single(1), Single(2), Single(3)]));
    assert_eq!(SelectionExpression::parse("1..5").unwrap(), expl(&[Range(1..5)]));
    assert_eq!(
        SelectionExpression::parse("1..5, 7..10, 15..16").unwrap(),
        expl(&[Range(1..5), Range(7..10), Range(15..16)])
    );
    assert_eq!(
        SelectionExpression::parse("1..5, 7..10, 15..16, 18, 22, 27").unwrap(),
        expl(&[Range(1..5), Range(7..10), Range(15..16), Single(18), Single(22), Single(27)])
    );
    assert_eq!(
        SelectionExpression::parse("@test, 4, 3..5, @another").unwrap(),
        expl(&[Group("test".into()), Single(4), Range(3..5), Group("another".into())])
    );
}

#[test]
fn test_error() {
    assert!(SelectionExpression::parse("1, *").is_err());
    assert!(SelectionExpression::parse("1 2 3").is_err());
    assert!(SelectionExpression::parse("*, 1").is_err());
    assert!(SelectionExpression::parse("1,2,3,a").is_err());
    assert!(SelectionExpression::parse("potato").is_err());
    assert!(SelectionExpression::parse("@1").is_err());
}

#[test]
fn unparse_canonical_forms() {
    assert_eq!(SelectionExpression::All.unparse(), "*");
    assert_eq!(SelectionExpression::Empty.unparse(), "");
    assert_eq!(expl(&[Single(1), Range(3..7), Group("top".into())]).unparse(), "1, 3..7, @top");
}

#[test]
fn parse_of_unparse_roundtrips() {
    let cases = vec![
        SelectionExpression::All,
        SelectionExpression::Empty,
        expl(&[Single(0)]),
        expl(&[Range(1..5), Single(18), Group("g_1".into())]),
    ];
    for e in cases {
        assert_eq!(SelectionExpression::parse(&e.unparse()).unwrap(), e);
    }
}

#[test]
fn numbers_too_large_are_refused() {
    assert_eq!(SelectionExpression::parse("4294967296"), Err(SelectionParseError::Syntax));
    assert_eq!(SelectionExpression::parse("1..99999999999"), Err(SelectionParseError::Syntax));
    assert_eq!(SelectionExpression::parse("4294967295").unwrap(), expl(&[Single(4294967295)]));
}
