use dice_roll::parser::DiceExpression;
use dice_roll::roller::{calculate_statistics, keep_highest_indices, keep_lowest_indices, roll};

#[test]
fn test_roll_basic_dice() {
    let expr = DiceExpression::Basic { count: 2, sides: 6, modifier: 0 };
    let result = roll(&expr);
    assert_eq!(result.rolls.len(), 2);
    assert!(result.rolls.iter().all(|&r| r >= 1 && r <= 6));
    assert_eq!(result.modifier, 0);
}

#[test]
fn roller_test_roll_with_modifier() {
    let expr = DiceExpression::Basic { count: 1, sides: 6, modifier: 5 };
    let result = roll(&expr);
    assert!(result.total >= 6 && result.total <= 11);
}

#[test]
fn test_keep_highest_indices() {
    let rolls = vec![3, 1, 5, 2, 4];
    let indices = keep_highest_indices(&rolls, 3);
    assert_eq!(indices.len(), 3);
    let kept_values: Vec<i32> = indices.iter().map(|&i| rolls[i]).collect();
    assert!(kept_values.contains(&5));
    assert!(kept_values.contains(&4));
    assert!(kept_values.contains(&3));
}

#[test]
fn test_keep_lowest_indices() {
    let rolls = vec![3, 1, 5, 2, 4];
    let indices = keep_lowest_indices(&rolls, 2);
    assert_eq!(indices.len(), 2);
    let kept_values: Vec<i32> = indices.iter().map(|&i| rolls[i]).collect();
    assert!(kept_values.contains(&1));
    assert!(kept_values.contains(&2));
}

#[test]
fn test_calculate_statistics_basic() {
    let expr = DiceExpression::Basic { count: 2, sides: 6, modifier: 3 };
    let stats = calculate_statistics(&expr);
    assert_eq!(stats.min, 5);
    assert_eq!(stats.max, 15);
    assert_eq!(stats.average_hundredths as f64 / 100.0, 10.0);
}

#[test]
fn test_calculate_statistics_advantage() {
    let expr = DiceExpression::Advantage { sides: 20, modifier: 0 };
    let stats = calculate_statistics(&expr);
    assert_eq!(stats.min, 1);
    assert_eq!(stats.max, 20);
    assert!(stats.average_hundredths as f64 / 100.0 > 10.0);
}

#[test]
fn test_roll_advantage_returns_max() {
    let expr = DiceExpression::Advantage { sides: 20, modifier: 0 };
    let result = roll(&expr);
    assert_eq!(result.rolls.len(), 2);
    assert_eq!(result.total, *result.rolls.iter().max().unwrap() as i128);
}

#[test]
fn test_roll_disadvantage_returns_min() {
    let expr = DiceExpression::Disadvantage { sides: 20, modifier: 0 };
    let result = roll(&expr);
    assert_eq!(result.rolls.len(), 2);
    assert_eq!(result.total, *result.rolls.iter().min().unwrap() as i128);
}
