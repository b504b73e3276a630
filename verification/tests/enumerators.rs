use hyperchess::enumerate::{
    collect, DimensionIter, Enumerator, OffsetIter, PositionIter, WithOffset,
};
use hyperchess::move_iterators::{BishopMoveIterator, DiagonalIter, KnightMoveIterator, LMoveIter};
use hyperchess::odometer::NewPositionIter;
use hyperchess::position::Position;

fn drain<E: Enumerator>(mut cursor: E) -> Vec<Vec<i8>> {
    let mut out = Vec::new();
    while let Some(p) = cursor.next() {
        out.push(p.0);
        assert!(out.len() < 100_000);
    }
    assert!(cursor.next().is_none());
    out
}

#[test]
fn axis_ray_upwards_has_seven_steps_after_the_origin() {
    for dimensions in 1..=7usize {
        for axis in 0..dimensions {
            let items = drain(DimensionIter::<7>::new(dimensions, axis, true));
            assert_eq!(items.len(), 8);
            assert_eq!(items[0], vec![0i8; dimensions]);
            for step in 1..=7usize {
                let mut expected = vec![0i8; dimensions];
                expected[axis] = step as i8;
                assert_eq!(items[step], expected);
            }
        }
    }
}

#[test]
fn axis_ray_downwards_counts_down() {
    let items = drain(DimensionIter::<3>::new(2, 1, false));
    assert_eq!(items, vec![vec![0, 0], vec![0, -1], vec![0, -2], vec![0, -3]]);
}

#[test]
fn axis_ray_along_a_missing_axis_is_empty() {
    assert!(drain(DimensionIter::<7>::new(2, 2, true)).is_empty());
    assert!(drain(DimensionIter::<7>::new(0, 0, true)).is_empty());
}

#[test]
fn axis_ray_restarts_when_made_again() {
    let first = drain(DimensionIter::<7>::new(3, 2, true));
    let second = drain(DimensionIter::<7>::new(3, 2, true));
    assert_eq!(first, second);
}

#[test]
fn axis_star_visits_origin_then_each_axis_both_ways() {
    let items = drain(PositionIter::<1>::new(2));
    assert_eq!(items, vec![vec![0, 0], vec![1, 0], vec![-1, 0], vec![0, 1], vec![0, -1]]);
    let longer = drain(PositionIter::<2>::new(1));
    assert_eq!(longer, vec![vec![0], vec![1], vec![2], vec![-1], vec![-2]]);
}

#[test]
fn axis_star_can_start_at_a_later_axis() {
    let items = drain(PositionIter::<1>::start_at(3, 1));
    assert_eq!(
        items,
        vec![vec![0, 0, 0], vec![0, 1, 0], vec![0, -1, 0], vec![0, 0, 1], vec![0, 0, -1]]
    );
    assert!(drain(PositionIter::<1>::start_at(1, 1)).is_empty());
    assert!(drain(PositionIter::<1>::new(0)).is_empty());
}

#[test]
fn odometer_counts_with_the_first_axis_fastest() {
    let items = drain(NewPositionIter::<2>::new(2));
    assert_eq!(
        items,
        vec![
            vec![0, 0],
            vec![1, 0],
            vec![2, 0],
            vec![0, 1],
            vec![1, 1],
            vec![2, 1],
            vec![0, 2],
            vec![1, 2],
            vec![2, 2],
        ]
    );
    assert_eq!(drain(NewPositionIter::<2>::new(1)), vec![vec![0], vec![1], vec![2]]);
    assert_eq!(drain(NewPositionIter::<2>::new(3)).len(), 27);
    assert!(drain(NewPositionIter::<2>::new(0)).is_empty());
}

#[test]
fn king_neighbourhood_in_two_dimensions() {
    let mut offsets: Vec<Vec<i8>> = drain(NewPositionIter::<2>::new(2))
        .into_iter()
        .map(|t| t.into_iter().map(|c| c - 1).collect())
        .filter(|t: &Vec<i8>| t.iter().any(|&c| c != 0))
        .collect();
    assert_eq!(offsets.len(), 8);
    for offset in &offsets {
        assert!(offset.iter().all(|c| (-1..=1).contains(c)));
    }
    offsets.sort();
    offsets.dedup();
    assert_eq!(offsets.len(), 8);
}

#[test]
fn diagonal_ray_moves_every_axis_together() {
    let items = drain(DiagonalIter::<3>::with_move_set(vec![true, false]));
    assert_eq!(items, vec![vec![0, 0], vec![1, -1], vec![2, -2], vec![3, -3]]);
    let falling = drain(DiagonalIter::<2>::new(3));
    assert_eq!(falling, vec![vec![0, 0, 0], vec![-1, -1, -1], vec![-2, -2, -2]]);
    assert_eq!(drain(DiagonalIter::<7>::with_move_set(vec![true])).len(), 8);
}

#[test]
fn bishop_has_one_ray_per_sign_vector() {
    let mut rays = BishopMoveIterator::new(2);
    let mut seen = Vec::new();
    while let Some(ray) = rays.next() {
        let items = drain(ray);
        assert_eq!(items.len(), 8);
        seen.push(items[1].clone());
    }
    assert!(rays.next().is_none());
    assert_eq!(seen, vec![vec![-1, -1], vec![1, -1], vec![-1, 1], vec![1, 1]]);
}

#[test]
fn bishop_sign_vector_follows_the_bits_of_the_mask() {
    let mut rays = BishopMoveIterator::new(3);
    assert_eq!(rays.gen_move_set(), vec![false, false, false]);
    let _ = rays.next();
    assert_eq!(rays.gen_move_set(), vec![true, false, false]);
    let _ = rays.next();
    assert_eq!(rays.gen_move_set(), vec![false, true, false]);
    let mut count = 2;
    while rays.next().is_some() {
        count += 1;
    }
    assert_eq!(count, 8);
}

#[test]
fn knight_leaps_in_two_dimensions_are_the_classical_eight() {
    let items = drain(LMoveIter::new(2, 2));
    assert_eq!(
        items,
        vec![
            vec![-1, -2],
            vec![1, -2],
            vec![-2, -1],
            vec![-2, 1],
            vec![2, -1],
            vec![2, 1],
            vec![-1, 2],
            vec![1, 2],
        ]
    );
}

#[test]
fn knight_leaps_from_an_interior_cell_land_on_the_classical_cells() {
    let base = Position(vec![4, 4]);
    let mut cells = drain(LMoveIter::new(2, 2).with_offset(&base));
    cells.sort();
    let mut expected = vec![
        vec![3, 2],
        vec![5, 2],
        vec![2, 3],
        vec![2, 5],
        vec![6, 3],
        vec![6, 5],
        vec![3, 6],
        vec![5, 6],
    ];
    expected.sort();
    assert_eq!(cells, expected);
}

#[test]
fn knight_leaps_in_three_dimensions() {
    let items = drain(LMoveIter::new(3, 2));
    assert_eq!(items.len(), 24);
    for leap in &items {
        let mut sizes: Vec<i8> = leap.iter().map(|c| c.abs()).collect();
        sizes.sort();
        assert_eq!(sizes, vec![0, 1, 2]);
    }
    let mut distinct = items.clone();
    distinct.sort();
    distinct.dedup();
    assert_eq!(distinct.len(), 24);
}

#[test]
fn leaps_with_more_legs_than_axes_do_not_exist() {
    assert!(drain(LMoveIter::new(2, 3)).is_empty());
    assert!(drain(LMoveIter::new(0, 2)).is_empty());
    assert_eq!(drain(LMoveIter::new(1, 1)), vec![vec![-1], vec![1]]);
}

#[test]
fn leap_without_legs_is_the_origin_once() {
    assert_eq!(drain(LMoveIter::new(2, 0)), vec![vec![0, 0]]);
}

#[test]
fn leap_steps_can_be_driven_by_hand() {
    let mut leaps = LMoveIter::new(2, 2);
    assert!(!leaps.check_valid());
    leaps.update_next();
    assert!(leaps.check_valid());
    assert_eq!(leaps.next().map(|p| p.0), Some(vec![-1, -2]));
}

#[test]
fn knight_groups_grow_by_one_leg() {
    let mut groups = KnightMoveIterator::new(2);
    let two = groups.next().expect("leaps with two legs");
    assert_eq!(drain(two).len(), 8);
    let three = groups.next().expect("leaps with three legs");
    assert!(drain(three).is_empty());
    assert!(groups.next().is_none());
    assert!(groups.next().is_none());
}

#[test]
fn offsets_that_leave_the_board_are_dropped() {
    let base = Position(vec![0, 7]);
    let cells = drain(OffsetIter::new(&base, PositionIter::<1>::new(2)));
    assert_eq!(cells, vec![vec![0, 7], vec![1, 7], vec![0, 6]]);
    let far = Position(vec![127, -128]);
    assert!(drain(PositionIter::<1>::new(2).with_offset(&far)).is_empty());
}

#[test]
fn offsets_are_added_over_the_shared_axes() {
    let base = Position(vec![3]);
    let cells = drain(DimensionIter::<2>::new(2, 1, true).with_offset(&base));
    assert_eq!(cells, vec![vec![3, 0], vec![3, 1], vec![3, 2]]);
}

#[test]
fn collect_hands_out_what_is_left() {
    let mut ray = DimensionIter::<3>::new(1, 0, true);
    let _ = ray.next();
    let rest: Vec<Vec<i8>> = collect(ray).into_iter().map(|p| p.0).collect();
    assert_eq!(rest, vec![vec![1], vec![2], vec![3]]);
    assert!(collect(PositionIter::<1>::new(0)).is_empty());
}

#[test]
fn a_ray_of_no_length_is_the_origin_alone() {
    assert_eq!(drain(DimensionIter::<0>::new(2, 0, false)), vec![vec![0, 0]]);
    assert_eq!(drain(PositionIter::<0>::new(2)), vec![vec![0, 0]]);
    assert_eq!(drain(NewPositionIter::<0>::new(2)), vec![vec![0, 0]]);
    assert_eq!(drain(DiagonalIter::<0>::new(2)), vec![vec![0, 0]]);
}
