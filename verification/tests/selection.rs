use marzullo::interval::Refusal;
use marzullo::{BoundType, ErrorKind, Interval, MarzulloError, SourceBound};

fn source_bounds_generator(seed: Vec<i64>) -> Vec<SourceBound> {
    let mut source_bounds = Vec::new();
    for (idx, value) in seed.iter().enumerate() {
        let bound_type = if idx % 2 == 0 {
            BoundType::Lower
        } else {
            BoundType::Upper
        };
        source_bounds.push(SourceBound {
            source: (idx as u8) / 2,
            value: *value,
            bound_type,
        });
    }
    source_bounds
}

fn lower(value: i64, source: u8) -> SourceBound {
    SourceBound { value, bound_type: BoundType::Lower, source }
}

fn upper(value: i64, source: u8) -> SourceBound {
    SourceBound { value, bound_type: BoundType::Upper, source }
}

fn selected(seed: Vec<i64>) -> (i64, i64, u8, u8) {
    let interval = Interval::try_from_source_bounds(source_bounds_generator(seed)).unwrap();
    (interval.lower_bound, interval.upper_bound, interval.sources_true, interval.sources_false)
}

/// The greatest number of the given intervals that hold one point, found by
/// trying every end of every interval.
fn greatest_overlap(seed: &Vec<i64>) -> usize {
    let mut most: usize = 0;
    for x in seed.iter() {
        let mut holding: usize = 0;
        for pair in seed.chunks(2) {
            if pair[0] <= *x && *x <= pair[1] {
                holding += 1;
            }
        }
        if holding > most {
            most = holding;
        }
    }
    most
}

fn holders(seed: &Vec<i64>, from: i64, to: i64) -> usize {
    let mut holding: usize = 0;
    for pair in seed.chunks(2) {
        if pair[0] <= from && to <= pair[1] {
            holding += 1;
        }
    }
    holding
}

fn next_random(state: &mut u64) -> u64 {
    *state = state.wrapping_mul(6364136223846793005).wrapping_add(1442695040888963407);
    *state >> 33
}

fn random_seed(state: &mut u64, sources: usize, spread: u64) -> Vec<i64> {
    let mut seed: Vec<i64> = Vec::new();
    for _ in 0..sources {
        let from: i64 = (next_random(state) % spread) as i64 - (spread / 2) as i64;
        let length: i64 = (next_random(state) % (spread / 2 + 1)) as i64;
        seed.push(from);
        seed.push(from + length);
    }
    seed
}

#[test]
fn test_marzullo_interval_from_source_bounds() {
    let source_bounds = source_bounds_generator(vec![11, 13, 10, 12, 8, 12]);
    let interval = Interval::try_from_source_bounds(source_bounds).unwrap();
    assert_eq!(interval.lower_bound, 11);
    assert_eq!(interval.upper_bound, 12);
    assert_eq!(interval.sources_true, 3);
    assert_eq!(interval.sources_false, 0);

    let source_bounds = source_bounds_generator(vec![8, 12, 11, 13, 14, 15]);
    let interval = Interval::try_from_source_bounds(source_bounds).unwrap();
    assert_eq!(interval.lower_bound, 11);
    assert_eq!(interval.upper_bound, 12);
    assert_eq!(interval.sources_true, 2);
    assert_eq!(interval.sources_false, 1);

    let source_bounds = source_bounds_generator(vec![-10, 10, -1, 1, 0, 0]);
    let interval = Interval::try_from_source_bounds(source_bounds).unwrap();
    assert_eq!(interval.lower_bound, 0);
    assert_eq!(interval.upper_bound, 0);
    assert_eq!(interval.sources_true, 3);
    assert_eq!(interval.sources_false, 0);

    // The upper bound of the first interval overlaps inclusively with the lower of the last.
    let source_bounds = source_bounds_generator(vec![8, 12, 10, 11, 8, 10]);
    let interval = Interval::try_from_source_bounds(source_bounds).unwrap();
    assert_eq!(interval.lower_bound, 10);
    assert_eq!(interval.upper_bound, 10);
    assert_eq!(interval.sources_true, 3);
    assert_eq!(interval.sources_false, 0);

    // The first smallest interval is selected. The alternative with equal overlap is 10..12.
    // However, while this shares the same number of sources, it is not the smallest interval.
    let source_bounds = source_bounds_generator(vec![8, 12, 10, 12, 8, 9]);
    let interval = Interval::try_from_source_bounds(source_bounds).unwrap();
    assert_eq!(interval.lower_bound, 8);
    assert_eq!(interval.upper_bound, 9);
    assert_eq!(interval.sources_true, 2);
    assert_eq!(interval.sources_false, 1);

    // The last smallest interval is selected. The alternative with equal overlap is 7..9.
    // However, while this shares the same number of sources, it is not the smallest interval.
    let source_bounds = source_bounds_generator(vec![7, 9, 7, 12, 10, 11]);
    let interval = Interval::try_from_source_bounds(source_bounds).unwrap();
    assert_eq!(interval.lower_bound, 10);
    assert_eq!(interval.upper_bound, 11);
    assert_eq!(interval.sources_true, 2);
    assert_eq!(interval.sources_false, 1);

    // The same idea as the previous test, but with negative offsets.
    let source_bounds = source_bounds_generator(vec![-9, -7, -12, -7, -11, -10]);
    let interval = Interval::try_from_source_bounds(source_bounds).unwrap();
    assert_eq!(interval.lower_bound, -11);
    assert_eq!(interval.upper_bound, -10);
    assert_eq!(interval.sources_true, 2);
    assert_eq!(interval.sources_false, 1);

    // A cluster of one with no remote sources.
    let source_bounds = source_bounds_generator(vec![]);
    let interval = Interval::try_from_source_bounds(source_bounds).unwrap();
    assert_eq!(interval.lower_bound, 0);
    assert_eq!(interval.upper_bound, 0);
    assert_eq!(interval.sources_true, 0);
    assert_eq!(interval.sources_false, 0);

    // A cluster of two with one remote source.
    let source_bounds = source_bounds_generator(vec![1, 3]);
    let interval = Interval::try_from_source_bounds(source_bounds).unwrap();
    assert_eq!(interval.lower_bound, 1);
    assert_eq!(interval.upper_bound, 3);
    assert_eq!(interval.sources_true, 1);
    assert_eq!(interval.sources_false, 0);

    // A cluster of three with agreement.
    let source_bounds = source_bounds_generator(vec![1, 3, 2, 2]);
    let interval = Interval::try_from_source_bounds(source_bounds).unwrap();
    assert_eq!(interval.lower_bound, 2);
    assert_eq!(interval.upper_bound, 2);
    assert_eq!(interval.sources_true, 2);
    assert_eq!(interval.sources_false, 0);

    // A cluster of three with agreement.
    let source_bounds = source_bounds_generator(vec![1, 3, 4, 5]);
    let interval = Interval::try_from_source_bounds(source_bounds).unwrap();
    assert_eq!(interval.lower_bound, 4);
    assert_eq!(interval.upper_bound, 5);
    assert_eq!(interval.sources_true, 1);
    assert_eq!(interval.sources_false, 1);
}

#[test]
fn all_sources_agree() {
    assert_eq!(selected(vec![11, 13, 10, 12, 8, 12]), (11, 12, 3, 0));
}

#[test]
fn one_source_stands_apart() {
    assert_eq!(selected(vec![8, 12, 11, 13, 14, 15]), (11, 12, 2, 1));
}

#[test]
fn a_point_can_be_selected() {
    assert_eq!(selected(vec![-10, 10, -1, 1, 0, 0]), (0, 0, 3, 0));
}

#[test]
fn the_earlier_of_the_narrowest_windows_wins() {
    assert_eq!(selected(vec![8, 12, 10, 12, 8, 9]), (8, 9, 2, 1));
    // Two windows of depth one and width two: the first is kept.
    assert_eq!(selected(vec![0, 2, 5, 7]), (0, 2, 1, 1));
    assert_eq!(selected(vec![5, 7, 0, 2]), (0, 2, 1, 1));
}

#[test]
fn a_later_window_wins_only_where_it_is_narrower() {
    assert_eq!(selected(vec![7, 9, 7, 12, 10, 11]), (10, 11, 2, 1));
    assert_eq!(selected(vec![0, 3, 5, 7]), (5, 7, 1, 1));
    assert_eq!(selected(vec![0, 2, 5, 8]), (0, 2, 1, 1));
}

#[test]
fn touching_intervals_overlap() {
    assert_eq!(selected(vec![1, 5, 5, 9]), (5, 5, 2, 0));
    assert_eq!(selected(vec![5, 9, 1, 5]), (5, 5, 2, 0));
}

#[test]
fn no_source_gives_the_empty_interval() {
    let interval = Interval::try_from_source_bounds(Vec::new()).unwrap();
    assert_eq!(interval, Interval::empty());
    assert_eq!(
        interval,
        Interval { lower_bound: 0, upper_bound: 0, sources_true: 0, sources_false: 0 }
    );
    let sorted: Vec<SourceBound> = Vec::new();
    assert_eq!(Interval::try_from_sorted_bounds(&sorted).unwrap(), Interval::empty());
}

#[test]
fn a_single_bound_describes_no_source() {
    assert_eq!(Interval::try_from_source_bounds(vec![lower(4, 0)]).unwrap(), Interval::empty());
    assert_eq!(Interval::try_from_source_bounds(vec![upper(4, 0)]).unwrap(), Interval::empty());
    assert_eq!(Interval::try_from_sorted_bounds(&vec![upper(4, 0)]).unwrap(), Interval::empty());
}

#[test]
fn extreme_values_do_not_overflow() {
    assert_eq!(
        selected(vec![i64::MIN, i64::MAX, i64::MIN, i64::MAX]),
        (i64::MIN, i64::MAX, 2, 0)
    );
    assert_eq!(
        selected(vec![i64::MIN, i64::MAX, -1, 1, i64::MIN, 0]),
        (-1, 0, 3, 0)
    );
    // Two windows of depth one; the second is narrower by one.
    assert_eq!(
        selected(vec![i64::MIN, -1, 1, i64::MAX]),
        (1, i64::MAX, 1, 1)
    );
}

#[test]
fn first_bound_must_be_a_lower_bound() {
    let err = Interval::try_from_source_bounds(vec![lower(2, 0), upper(1, 0)]).unwrap_err();
    assert!(matches!(err, MarzulloError::InvalidSourceBounds(_)));
    assert_eq!(err.kind(), ErrorKind::InvalidSourceBounds);
    assert_eq!(
        err.to_string(),
        "Invalid source bounds order: first bound should be a lower bound"
    );
    let err = Interval::try_from_sorted_bounds(&vec![upper(1, 0), lower(2, 0)]).unwrap_err();
    assert!(matches!(err, MarzulloError::InvalidSourceBounds(_)));
    // A first upper bound is refused before any disorder behind it.
    let err = Interval::try_from_sorted_bounds(&vec![upper(5, 0), lower(2, 0)]).unwrap_err();
    assert!(matches!(err, MarzulloError::InvalidSourceBounds(_)));
}

#[test]
fn last_bound_must_be_an_upper_bound() {
    let err = Interval::try_from_source_bounds(vec![lower(1, 0), lower(2, 1)]).unwrap_err();
    assert!(matches!(err, MarzulloError::IntervalInvariant(_)));
    assert_eq!(err.kind(), ErrorKind::IntervalInvariant);
    assert_eq!(
        err.to_string(),
        "Interval invariant : expected last visited source bound to be an upper bound."
    );
    let err = Interval::try_from_source_bounds(vec![
        lower(1, 0),
        upper(2, 0),
        upper(3, 1),
        lower(4, 1),
    ])
    .unwrap_err();
    assert!(matches!(err, MarzulloError::IntervalInvariant(_)));
}

#[test]
fn more_open_intervals_than_sources_are_refused() {
    let err =
        Interval::try_from_source_bounds(vec![lower(1, 0), lower(2, 1), upper(3, 0)]).unwrap_err();
    assert!(matches!(err, MarzulloError::IntervalInvariant(_)));
    assert_eq!(
        err.to_string(),
        "Interval invariant : best count of overlapping intervals should be less than or equal to the number of sources."
    );
    let err = Interval::try_from_source_bounds(vec![
        lower(1, 0),
        lower(1, 1),
        lower(1, 2),
        upper(3, 0),
    ])
    .unwrap_err();
    assert!(matches!(err, MarzulloError::IntervalInvariant(_)));
}

#[test]
fn unordered_bounds_are_refused_by_the_sweep() {
    let err = Interval::try_from_sorted_bounds(&vec![lower(5, 0), upper(3, 0)]).unwrap_err();
    assert!(matches!(err, MarzulloError::InvalidSourceBoundsOrder(_)));
    assert_eq!(err.kind(), ErrorKind::InvalidSourceBoundsOrder);
    assert_eq!(
        err.to_string(),
        "Invalid source bounds sorting: expected each bound to be at most the bound behind it"
    );
    // At one value an upper bound may not stand before a lower bound.
    let err = Interval::try_from_sorted_bounds(&vec![
        lower(1, 0),
        upper(4, 0),
        lower(4, 1),
        upper(6, 1),
    ])
    .unwrap_err();
    assert!(matches!(err, MarzulloError::InvalidSourceBoundsOrder(_)));
    // Nor a higher source before a lower one of the same value and kind.
    let err = Interval::try_from_sorted_bounds(&vec![
        lower(1, 1),
        lower(1, 0),
        upper(4, 0),
        upper(6, 1),
    ])
    .unwrap_err();
    assert!(matches!(err, MarzulloError::InvalidSourceBoundsOrder(_)));
    // Disorder is refused before a last bound that is no upper bound.
    let err = Interval::try_from_sorted_bounds(&vec![lower(5, 0), lower(3, 0)]).unwrap_err();
    assert!(matches!(err, MarzulloError::InvalidSourceBoundsOrder(_)));
    // The same bounds are accepted once they are put in order.
    let interval = Interval::try_from_source_bounds(vec![
        lower(1, 1),
        lower(1, 0),
        upper(4, 0),
        upper(6, 1),
    ])
    .unwrap();
    assert_eq!(
        interval,
        Interval { lower_bound: 1, upper_bound: 4, sources_true: 2, sources_false: 0 }
    );
}

#[test]
fn sweep_of_ordered_bounds_selects_as_the_whole_does() {
    let sorted: Vec<SourceBound> = vec![
        lower(8, 0),
        lower(10, 1),
        lower(11, 2),
        upper(12, 0),
        upper(12, 1),
        upper(13, 2),
    ];
    let interval = Interval::try_from_sorted_bounds(&sorted).unwrap();
    assert_eq!(
        interval,
        Interval { lower_bound: 11, upper_bound: 12, sources_true: 3, sources_false: 0 }
    );
    assert_eq!(interval, Interval::try_from_source_bounds(sorted.clone()).unwrap());
}

#[test]
fn unbalanced_bounds_are_swept_without_panic() {
    // The count of open intervals falls below zero on the way.
    let interval = Interval::try_from_source_bounds(vec![
        lower(1, 0),
        upper(2, 0),
        upper(3, 1),
        lower(4, 1),
        lower(5, 2),
        upper(6, 2),
    ])
    .unwrap();
    assert_eq!(
        interval,
        Interval { lower_bound: 1, upper_bound: 2, sources_true: 1, sources_false: 2 }
    );
}

#[test]
fn counts_add_up_to_the_number_of_sources() {
    let mut state: u64 = 2024;
    for round in 0..300 {
        let sources: usize = 1 + round % 9;
        let seed = random_seed(&mut state, sources, 12);
        let (from, to, agreeing, others) = selected(seed.clone());
        assert_eq!(agreeing as usize + others as usize, sources);
        assert!(agreeing as usize <= sources);
        assert!(agreeing >= 1);
        assert!(from <= to);
    }
}

#[test]
fn agreeing_sources_are_the_greatest_overlap() {
    let mut state: u64 = 7;
    for round in 0..400 {
        let sources: usize = 1 + round % 7;
        let seed = random_seed(&mut state, sources, 10);
        let (from, to, agreeing, _) = selected(seed.clone());
        assert_eq!(agreeing as usize, greatest_overlap(&seed));
        // The sources that agree are those whose interval holds the selection.
        assert_eq!(holders(&seed, from, to), agreeing as usize);
    }
}

#[test]
fn no_deepest_window_is_narrower_or_earlier() {
    let mut state: u64 = 99;
    for round in 0..300 {
        let sources: usize = 1 + round % 6;
        let seed = random_seed(&mut state, sources, 9);
        let (from, to, agreeing, _) = selected(seed.clone());

        // Every window between neighbouring bounds, with its depth.
        let mut keys: Vec<(i64, u8, u8)> = Vec::new();
        for (j, pair) in seed.chunks(2).enumerate() {
            keys.push((pair[0], 0, j as u8));
            keys.push((pair[1], 1, j as u8));
        }
        keys.sort();
        let mut open: i64 = 0;
        let mut windows: Vec<(i64, i64, i64)> = Vec::new();
        for i in 0..keys.len() - 1 {
            if keys[i].1 == 0 {
                open += 1;
            } else {
                open -= 1;
            }
            windows.push((open, keys[i].0, keys[i + 1].0));
        }

        let chosen: usize = windows
            .iter()
            .position(|w| *w == (agreeing as i64, from, to))
            .unwrap();
        for (i, w) in windows.iter().enumerate() {
            assert!(w.0 <= agreeing as i64);
            if w.0 == agreeing as i64 {
                assert!(to - from <= w.2 - w.1);
                if i < chosen {
                    assert!(to - from < w.2 - w.1);
                }
            }
        }
    }
}

#[test]
fn order_of_the_bounds_is_irrelevant() {
    let mut state: u64 = 5;
    for round in 0..200 {
        let sources: usize = 1 + round % 8;
        let seed = random_seed(&mut state, sources, 10);
        let bounds = source_bounds_generator(seed);
        let expected = Interval::try_from_source_bounds(bounds.clone()).unwrap();

        let mut reversed: Vec<SourceBound> = bounds.clone();
        reversed.reverse();
        assert_eq!(Interval::try_from_source_bounds(reversed).unwrap(), expected);

        let mut rotated: Vec<SourceBound> = bounds.clone();
        rotated.rotate_left(round % bounds.len());
        assert_eq!(Interval::try_from_source_bounds(rotated).unwrap(), expected);

        let mut shuffled: Vec<SourceBound> = bounds.clone();
        for i in (1..shuffled.len()).rev() {
            let j: usize = (next_random(&mut state) % (i as u64 + 1)) as usize;
            shuffled.swap(i, j);
        }
        assert_eq!(Interval::try_from_source_bounds(shuffled).unwrap(), expected);

        // The same bounds again come to the same interval.
        assert_eq!(Interval::try_from_source_bounds(bounds).unwrap(), expected);
    }
}

#[test]
fn refusals_do_not_depend_on_the_order_either() {
    let given: Vec<SourceBound> = vec![lower(1, 0), lower(2, 1), upper(3, 0)];
    let mut reversed: Vec<SourceBound> = given.clone();
    reversed.reverse();
    let a = Interval::try_from_source_bounds(given).unwrap_err();
    let b = Interval::try_from_source_bounds(reversed).unwrap_err();
    assert_eq!(a.kind(), b.kind());
    assert_eq!(a.to_string(), b.to_string());
}

#[test]
fn counts_up_to_255_fit() {
    let mut seed: Vec<i64> = Vec::new();
    for _ in 0..255 {
        seed.push(-1);
        seed.push(1);
    }
    assert_eq!(selected(seed), (-1, 1, 255, 0));

    let mut apart: Vec<i64> = Vec::new();
    for j in 0..256 {
        apart.push(10 * j);
        apart.push(10 * j + 5);
    }
    assert_eq!(selected(apart), (0, 5, 1, 255));

    let mut halves: Vec<i64> = Vec::new();
    for _ in 0..128 {
        halves.push(0);
        halves.push(3);
    }
    for _ in 0..128 {
        halves.push(10);
        halves.push(12);
    }
    assert_eq!(selected(halves), (10, 12, 128, 128));
}

#[test]
fn counts_above_255_are_refused() {
    let mut seed: Vec<i64> = Vec::new();
    for _ in 0..256 {
        seed.push(-1);
        seed.push(1);
    }
    let err = Interval::try_from_source_bounds(source_bounds_generator(seed)).unwrap_err();
    assert!(matches!(err, MarzulloError::IntervalInvariant(_)));
    assert_eq!(
        err.to_string(),
        "Interval invariant : expected the counts of agreeing and of other sources to fit the interval's fields."
    );

    let mut apart: Vec<i64> = Vec::new();
    for j in 0..257 {
        apart.push(10 * j);
        apart.push(10 * j + 5);
    }
    let err = Interval::try_from_source_bounds(source_bounds_generator(apart)).unwrap_err();
    assert!(matches!(err, MarzulloError::IntervalInvariant(_)));
}

#[test]
fn each_refusal_has_its_error() {
    let err = Refusal::FirstNotLower.into_error();
    assert!(matches!(err, MarzulloError::InvalidSourceBounds(_)));
    let err = Refusal::OutOfOrder.into_error();
    assert!(matches!(err, MarzulloError::InvalidSourceBoundsOrder(_)));
    for refusal in [Refusal::LastNotUpper, Refusal::TooDeep, Refusal::CountsTooLarge] {
        assert!(matches!(refusal.into_error(), MarzulloError::IntervalInvariant(_)));
    }
}

#[test]
fn errors_are_rendered_with_their_heading() {
    let err = MarzulloError::InvalidSourceBounds(String::from("a"));
    assert_eq!(err.to_string(), "Invalid source bounds order: a");
    assert_eq!(err.kind(), ErrorKind::InvalidSourceBounds);
    let err = MarzulloError::InvalidSourceBoundsOrder(String::from("b"));
    assert_eq!(err.to_string(), "Invalid source bounds sorting: b");
    assert_eq!(err.kind(), ErrorKind::InvalidSourceBoundsOrder);
    let err = MarzulloError::IntervalInvariant(String::new());
    assert_eq!(err.to_string(), "Interval invariant : ");
    assert_eq!(err.kind(), ErrorKind::IntervalInvariant);
}
