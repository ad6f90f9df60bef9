use dice_roll::parser::{parse, DiceExpression};

#[test]
fn test_parse_basic_dice() {
    let result = parse("2d6").unwrap();
    assert_eq!(result, DiceExpression::Basic { count: 2, sides: 6, modifier: 0 });
}

#[test]
fn test_parse_with_positive_modifier() {
    let result = parse("2d6+3").unwrap();
    assert_eq!(result, DiceExpression::Basic { count: 2, sides: 6, modifier: 3 });
}

#[test]
fn test_parse_with_negative_modifier() {
    let result = parse("3d8-2").unwrap();
    assert_eq!(result, DiceExpression::Basic { count: 3, sides: 8, modifier: -2 });
}

#[test]
fn test_parse_keep_highest() {
    let result = parse("4d6k3").unwrap();
    assert_eq!(result, DiceExpression::KeepHighest { count: 4, sides: 6, keep: 3, modifier: 0 });
}

#[test]
fn test_parse_keep_lowest() {
    let result = parse("4d6kl1").unwrap();
    assert_eq!(result, DiceExpression::KeepLowest { count: 4, sides: 6, keep: 1, modifier: 0 });
}

#[test]
fn test_parse_advantage() {
    let result = parse("adv").unwrap();
    assert_eq!(result, DiceExpression::Advantage { sides: 20, modifier: 0 });
}

#[test]
fn test_parse_disadvantage() {
    let result = parse("dis").unwrap();
    assert_eq!(result, DiceExpression::Disadvantage { sides: 20, modifier: 0 });
}

#[test]
fn test_parse_exploding_dice() {
    let result = parse("2d6!").unwrap();
    assert_eq!(result, DiceExpression::Exploding { count: 2, sides: 6, modifier: 0 });
}

#[test]
fn test_parse_invalid_format() {
    assert!(parse("invalid").is_err());
    assert!(parse("2x6").is_err());
}

#[test]
fn test_parse_zero_dice() {
    assert!(parse("0d6").is_err());
}

#[test]
fn test_parse_negative_sides() {
    assert!(parse("2d-6").is_err());
}
