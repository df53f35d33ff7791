use grid_path::distance::{Distance, Step};

fn finite(straight: usize, diagonal: usize) -> Distance {
    Distance::Finite { straight, diagonal }
}

fn as_float(distance: &Distance) -> f64 {
    match distance {
        Distance::Finite { straight, diagonal } => {
            *straight as f64 + *diagonal as f64 * 2f64.sqrt()
        }
        Distance::Infinite => f64::INFINITY,
    }
}

#[test]
fn origin_is_zero() {
    assert_eq!(Distance::origin(), finite(0, 0));
    assert!(Distance::origin().is_finite());
    assert!(!Distance::Infinite.is_finite());
}

#[test]
fn extend_counts_the_move() {
    assert_eq!(finite(2, 3).extend(Step::Straight), finite(3, 3));
    assert_eq!(finite(2, 3).extend(Step::Diagonal), finite(2, 4));
    assert_eq!(Distance::Infinite.extend(Step::Straight), Distance::Infinite);
    assert_eq!(Distance::Infinite.extend(Step::Diagonal), Distance::Infinite);
}

#[test]
fn straight_moves_against_diagonal_moves() {
    // 7 < 5·√2 = 7.07..., but 3 > 2·√2 = 2.82...
    assert!(finite(7, 0).less_than(&finite(0, 5)));
    assert!(!finite(0, 5).less_than(&finite(7, 0)));
    assert!(!finite(3, 0).less_than(&finite(0, 2)));
    assert!(finite(0, 2).less_than(&finite(3, 0)));
    // 1 < √2 < 2
    assert!(finite(1, 0).less_than(&finite(0, 1)));
    assert!(finite(0, 1).less_than(&finite(2, 0)));
    // 99 < 70·√2 = 98.99...? No: 70·√2 = 98.9949...
    assert!(finite(0, 70).less_than(&finite(99, 0)));
    assert!(!finite(99, 0).less_than(&finite(0, 70)));
    assert!(finite(98, 0).less_than(&finite(0, 70)));
}

#[test]
fn equal_lengths_are_not_shorter() {
    assert!(!finite(0, 0).less_than(&finite(0, 0)));
    assert!(!finite(4, 9).less_than(&finite(4, 9)));
    assert!(!Distance::Infinite.less_than(&Distance::Infinite));
}

#[test]
fn infinite_is_above_every_length() {
    assert!(finite(0, 0).less_than(&Distance::Infinite));
    assert!(finite(usize::MAX, usize::MAX).less_than(&Distance::Infinite));
    assert!(!Distance::Infinite.less_than(&finite(usize::MAX, usize::MAX)));
    assert!(!Distance::Infinite.less_than(&finite(0, 0)));
}

#[test]
fn mixed_lengths_compare_as_real_numbers() {
    // 1 + 8·√2 = 12.31... against 12 and 13, and against 9·√2 = 12.72...
    assert!(finite(12, 0).less_than(&finite(1, 8)));
    assert!(finite(1, 8).less_than(&finite(13, 0)));
    assert!(finite(1, 8).less_than(&finite(0, 9)));
    assert!(!finite(0, 9).less_than(&finite(1, 8)));
    // 3 + √2 = 4.41... against 2·√2 + 1 = 3.82...
    assert!(finite(1, 2).less_than(&finite(3, 1)));
    assert!(!finite(3, 1).less_than(&finite(1, 2)));
}

#[test]
fn comparison_agrees_with_floating_point_on_small_counts() {
    for s1 in 0..12 {
        for d1 in 0..12 {
            for s2 in 0..12 {
                for d2 in 0..12 {
                    let a = finite(s1, d1);
                    let b = finite(s2, d2);
                    let expected = (s1, d1) != (s2, d2) && as_float(&a) < as_float(&b);
                    assert_eq!(a.less_than(&b), expected, "{:?} < {:?}", a, b);
                }
            }
        }
    }
}

#[test]
fn comparison_holds_at_the_largest_counts() {
    let max = usize::MAX;
    assert!(finite(max, 0).less_than(&finite(0, max)));
    assert!(!finite(0, max).less_than(&finite(max, 0)));
    assert!(finite(0, max - 1).less_than(&finite(0, max)));
    assert!(finite(max - 1, max).less_than(&finite(max, max)));
    assert!(!finite(max, max).less_than(&finite(max, max)));
}
