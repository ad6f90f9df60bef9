use dice_roll::parser::{parse, DiceExpression};
use dice_roll::roller::{calculate_statistics, keep_highest_indices, keep_lowest_indices, roll};

#[test]
fn test_parse_idempotent() {
    let first = parse("2d6+3").unwrap();
    let second = parse("2d6+3").unwrap();
    assert_eq!(first, second);
    let first_err = parse("0d6").unwrap_err();
    let second_err = parse("0d6").unwrap_err();
    assert_eq!(first_err, second_err);
}

#[test]
fn test_parse_trims_and_folds_case() {
    assert_eq!(
        parse("  2D6 ").unwrap(),
        DiceExpression::Basic { count: 2, sides: 6, modifier: 0 }
    );
    assert_eq!(
        parse("ADV+1").unwrap(),
        DiceExpression::Advantage { sides: 20, modifier: 1 }
    );
}

#[test]
fn test_parse_unicode_whitespace_trimmed() {
    assert_eq!(
        parse("\u{000B}2d6\u{000C}").unwrap(),
        DiceExpression::Basic { count: 2, sides: 6, modifier: 0 }
    );
    assert_eq!(
        parse("\u{00A0}adv\u{3000}").unwrap(),
        DiceExpression::Advantage { sides: 20, modifier: 0 }
    );
    assert_eq!(
        parse("\u{0085}1d20+5\u{202F}").unwrap(),
        DiceExpression::Basic { count: 1, sides: 20, modifier: 5 }
    );
}

#[test]
fn test_parse_unicode_case_fold() {
    // The kelvin sign lowers to an ASCII `k` under the Unicode mapping.
    assert_eq!(
        parse("4d6\u{212A}3").unwrap(),
        DiceExpression::KeepHighest { count: 4, sides: 6, keep: 3, modifier: 0 }
    );
}

#[test]
fn test_parse_advantage_custom_size() {
    assert_eq!(
        parse("adv(d12)").unwrap(),
        DiceExpression::Advantage { sides: 12, modifier: 0 }
    );
    assert_eq!(
        parse("dis(d8)-1").unwrap(),
        DiceExpression::Disadvantage { sides: 8, modifier: -1 }
    );
}

#[test]
fn test_parse_error_messages() {
    assert_eq!(parse("").unwrap_err(), "Invalid dice notation. Use format: XdY");
    assert_eq!(parse("xd6").unwrap_err(), "Invalid dice count");
    assert_eq!(parse("2dx").unwrap_err(), "Invalid die size");
    assert_eq!(parse("0d6").unwrap_err(), "Dice count and sides must be positive");
    assert_eq!(parse("4d6k").unwrap_err(), "Invalid keep count");
    assert_eq!(parse("4d6k9").unwrap_err(), "Invalid keep highest parameters");
    assert_eq!(parse("4d6kl9").unwrap_err(), "Invalid keep lowest parameters");
    assert_eq!(parse("6k3").unwrap_err(), "Invalid dice notation");
    assert_eq!(parse("2d6!!").unwrap_err(), "Invalid exploding dice notation");
    assert_eq!(parse("2!d6").unwrap_err(), "Invalid exploding dice notation");
    assert_eq!(parse("adv(dx)").unwrap_err(), "Invalid die size for advantage");
    assert_eq!(parse("dis(d0)").unwrap_err(), "Invalid die size for disadvantage");
}

#[test]
fn test_parse_overflow_boundaries() {
    assert_eq!(
        parse("1d2147483647").unwrap(),
        DiceExpression::Basic { count: 1, sides: 2147483647, modifier: 0 }
    );
    assert_eq!(parse("1d2147483648").unwrap_err(), "Invalid die size");
    // An unreadable trailing modifier falls back to zero.
    assert_eq!(
        parse("2d6+99999999999").unwrap(),
        DiceExpression::Basic { count: 2, sides: 6, modifier: 0 }
    );
}

#[test]
fn test_keep_tie_break_is_stable() {
    let indices = keep_highest_indices(&vec![5, 5, 3, 5], 2);
    assert_eq!(indices, vec![0, 1]);
    let indices = keep_lowest_indices(&vec![2, 1, 1], 2);
    assert_eq!(indices, vec![1, 2]);
}

#[test]
fn test_keep_requests_beyond_pool() {
    assert_eq!(keep_highest_indices(&vec![1, 2], 5).len(), 2);
    assert_eq!(keep_highest_indices(&vec![1, 2], -1).len(), 2);
    assert_eq!(keep_lowest_indices(&vec![4, 2, 9], 0).len(), 0);
}

#[test]
fn test_keep_order_is_by_value() {
    let indices = keep_highest_indices(&vec![3, 1, 5, 2, 4], 3);
    assert_eq!(indices, vec![2, 4, 0]);
    let indices = keep_lowest_indices(&vec![3, 1, 5, 2, 4], 2);
    assert_eq!(indices, vec![1, 3]);
}

#[test]
fn test_roll_single_face_is_exact() {
    let expr = parse("3d1").unwrap();
    let result = roll(&expr);
    assert_eq!(result.rolls, vec![1, 1, 1]);
    assert_eq!(result.total, 3);
}

#[test]
fn test_roll_keep_lowest_counts() {
    let expr = parse("4d6kl1").unwrap();
    for _ in 0..50 {
        let result = roll(&expr);
        assert_eq!(result.rolls.len(), 4);
        assert_eq!(result.kept_indices.len(), 1);
        assert!(result.total >= 1 && result.total <= 6);
    }
}

#[test]
fn test_roll_keep_total_is_sum_of_kept() {
    let expr = parse("4d6k3").unwrap();
    for _ in 0..50 {
        let result = roll(&expr);
        let kept: i128 = result.kept_indices.iter().map(|&i| result.rolls[i] as i128).sum();
        assert_eq!(result.total, kept);
    }
}

#[test]
fn test_roll_exploding_single_face_hits_reroll_bound() {
    // A one-sided exploding die always shows its maximum face, so its
    // chain runs to the reroll bound and then stops.
    let expr = parse("1d1!").unwrap();
    let result = roll(&expr);
    assert_eq!(result.rolls.len(), 1001);
    assert_eq!(result.total, 1001);
}

#[test]
fn test_roll_exploding_values_follow_maxima() {
    let expr = parse("2d4!").unwrap();
    for _ in 0..50 {
        let result = roll(&expr);
        assert!(result.rolls.len() >= 2);
        // The last value of the whole roll ends a chain.
        assert_ne!(*result.rolls.last().unwrap(), 4);
        // Exactly one chain ends per die: two values below the maximum.
        let below = result.rolls.iter().filter(|&&v| v != 4).count();
        assert_eq!(below, 2);
    }
}

#[test]
fn test_roll_draws_vary() {
    let expr = parse("1d6").unwrap();
    let mut seen = std::collections::HashSet::new();
    for _ in 0..300 {
        let result = roll(&expr);
        seen.insert(result.total);
    }
    assert!(seen.len() >= 2);
    assert!(seen.iter().all(|&t| t >= 1 && t <= 6));
}

#[test]
fn test_statistics_keep_highest() {
    let expr = parse("4d6k3").unwrap();
    let stats = calculate_statistics(&expr);
    assert_eq!(stats.min, 3);
    assert_eq!(stats.max, 18);
    assert_eq!(stats.average_hundredths, 1050);
}

#[test]
fn test_statistics_disadvantage() {
    let expr = parse("dis").unwrap();
    let stats = calculate_statistics(&expr);
    assert_eq!(stats.min, 1);
    assert_eq!(stats.max, 20);
    assert_eq!(stats.average_hundredths, 700);
}

#[test]
fn test_statistics_exploding_is_unbounded() {
    let expr = parse("2d6!").unwrap();
    let stats = calculate_statistics(&expr);
    assert_eq!(stats.min, 2);
    assert_eq!(stats.max, i64::MAX);
    assert_eq!(stats.average_hundredths, 840);
}

#[test]
fn test_statistics_basic_exact_hundredths() {
    let expr = parse("2d6+3").unwrap();
    let stats = calculate_statistics(&expr);
    assert_eq!(stats.average_hundredths, 1000);
}

#[test]
fn test_to_notation() {
    assert_eq!(parse("2d6").unwrap().to_notation(), "2d6+0");
    assert_eq!(parse("4d6k3").unwrap().to_notation(), "4d6k3+0");
    assert_eq!(parse("4d6kl1-2").unwrap().to_notation(), "4d6kl1-2");
    assert_eq!(parse("adv+2").unwrap().to_notation(), "adv(d20)+2");
    assert_eq!(parse("dis(d12)-1").unwrap().to_notation(), "dis(d12)-1");
    assert_eq!(parse("2d6!+5").unwrap().to_notation(), "2d6!+5");
    assert_eq!(
        DiceExpression::Basic { count: 10, sides: 100, modifier: -25 }.to_notation(),
        "10d100-25"
    );
}

#[test]
fn test_is_well_formed() {
    assert!(parse("2d6").unwrap().is_well_formed());
    assert!(!(DiceExpression::Basic { count: 0, sides: 6, modifier: 0 }).is_well_formed());
    assert!(!(DiceExpression::KeepHighest { count: 2, sides: 6, keep: 3, modifier: 0 })
        .is_well_formed());
}
