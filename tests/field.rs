#![allow(non_snake_case)]

use dla_fractals::{ColorizedPoint, DLAField, FieldError, FieldPosition};

fn occupied() -> FieldPosition {
    FieldPosition::OCCUPIED(ColorizedPoint { color: [255, 0, 0, 255] })
}

fn stuck() -> FieldPosition {
    FieldPosition::STUCK(ColorizedPoint { color: [0, 255, 0, 255] })
}

/// A field of `width` columns and `height` rows with the given cells set.
fn field_with(width: usize, height: usize, cells: &[(usize, usize, FieldPosition)]) -> DLAField {
    let mut positionHash = vec![vec![FieldPosition::EMPTY; height]; width];
    for (x, y, c) in cells {
        positionHash[*x][*y] = *c;
    }
    DLAField { positionHash }
}

fn is_occupied_at(field: &DLAField, x: usize, y: usize) -> bool {
    matches!(field.positionHash[x][y], FieldPosition::OCCUPIED(_))
}

fn is_stuck_at(field: &DLAField, x: usize, y: usize) -> bool {
    matches!(field.positionHash[x][y], FieldPosition::STUCK(_))
}

fn particles(field: &DLAField) -> u32 {
    field.getStuckCount() + field.getOccupiedCount()
}

#[test]
fn isPositionOccupied_shouldReturnCorrectValues() {
    let colorizedPoint1: ColorizedPoint = ColorizedPoint { color: [0, 0, 0, 0] };
    let colorizedPoint2: ColorizedPoint = ColorizedPoint { color: [0, 0, 0, 0] };

    let positionHash = [
        [FieldPosition::EMPTY, FieldPosition::OCCUPIED(colorizedPoint1)].to_vec(),
        [FieldPosition::STUCK(colorizedPoint2), FieldPosition::EMPTY].to_vec(),
    ]
    .to_vec();

    let position = DLAField::isPositionOccupied(&positionHash, 0, 0);
    assert_eq!(position, false);

    let position = DLAField::isPositionOccupied(&positionHash, 0, 1);
    assert_eq!(position, true);

    let position = DLAField::isPositionOccupied(&positionHash, 1, 0);
    assert_eq!(position, true);

    let position = DLAField::isPositionOccupied(&positionHash, 1, 1);
    assert_eq!(position, false);
}

#[test]
fn isStuck_shouldReturnCorrectValues() {
    let colorizedPoint1 = ColorizedPoint { color: [255, 255, 255, 255] };
    let colorizedPoint2 = ColorizedPoint { color: [255, 255, 255, 255] };
    let colorizedPoint3 = ColorizedPoint { color: [255, 255, 255, 255] };
    let colorizedPoint4 = ColorizedPoint { color: [255, 255, 255, 255] };

    let positionHash = [
        [FieldPosition::OCCUPIED(colorizedPoint1), FieldPosition::EMPTY, FieldPosition::EMPTY].to_vec(),
        [FieldPosition::EMPTY, FieldPosition::OCCUPIED(colorizedPoint3), FieldPosition::EMPTY].to_vec(),
        [
            FieldPosition::OCCUPIED(colorizedPoint2),
            FieldPosition::EMPTY,
            FieldPosition::OCCUPIED(colorizedPoint4),
        ]
        .to_vec(),
    ]
    .to_vec();

    let field = DLAField { positionHash };

    assert_eq!(field.isStuck(0, 0, false), false);
    assert_eq!(field.isStuck(0, 1, false), false);
    assert_eq!(field.isStuck(0, 2, false), false);

    assert_eq!(field.isStuck(1, 0, false), false);

    // its neighbour on the floor is mobile, not yet frozen, so it stays free
    assert_eq!(field.isStuck(1, 1, false), false);
    assert_eq!(field.isStuck(1, 2, false), false);

    assert_eq!(field.isStuck(2, 0, false), false);

    // not stuck because it's empty (even though it's neighbor is on the floor)
    assert_eq!(field.isStuck(2, 1, false), false);

    // stuck because it's at the bottom and occupied
    assert_eq!(field.isStuck(2, 2, false), true);
}

#[test]
fn is_stuck_scenario_three_by_three() {
    let field = field_with(3, 3, &[(0, 0, occupied()), (1, 1, occupied()), (0, 2, occupied()), (2, 2, occupied())]);
    assert_eq!(field.isStuck(1, 1, false), false);
    assert_eq!(field.isStuck(0, 2, false), true);
    assert_eq!(field.isStuck(2, 2, false), true);
    assert_eq!(field.isStuck(0, 0, false), false);
}

#[test]
fn is_stuck_on_floor_whatever_the_neighbours() {
    let field = field_with(4, 3, &[(0, 2, occupied()), (2, 2, occupied()), (1, 1, occupied()), (3, 1, occupied())]);
    assert!(field.isStuck(0, 2, false));
    assert!(field.isStuck(2, 2, false));
    assert!(field.isStuck(0, 2, true));
}

#[test]
fn is_stuck_next_to_a_frozen_cell() {
    // straight below, diagonally, and at the left edge
    let field = field_with(4, 4, &[(1, 1, occupied()), (1, 2, stuck())]);
    assert!(field.isStuck(1, 1, false));
    let field = field_with(4, 4, &[(2, 1, occupied()), (3, 0, stuck())]);
    assert!(field.isStuck(2, 1, false));
    let field = field_with(4, 4, &[(0, 0, occupied()), (1, 1, stuck())]);
    assert!(field.isStuck(0, 0, false));
    // a frozen cell two columns away is no neighbour
    let field = field_with(4, 4, &[(0, 1, occupied()), (2, 1, stuck())]);
    assert!(!field.isStuck(0, 1, false));
    // the shallow check does not look at the neighbours
    let field = field_with(4, 4, &[(1, 1, occupied()), (1, 2, stuck())]);
    assert!(!field.isStuck(1, 1, true));
    assert!(field.isStuck(1, 2, true));
    assert!(!field.isStuck(0, 0, false));
}

#[test]
fn is_empty_reports_cells() {
    let field = field_with(2, 2, &[(0, 1, occupied()), (1, 0, stuck())]);
    assert!(field.isEmpty(0, 0));
    assert!(!field.isEmpty(0, 1));
    assert!(!field.isEmpty(1, 0));
    assert!(field.isEmpty(1, 1));
}

#[test]
fn new_seeds_the_requested_number_of_particles() {
    let field = DLAField::new(10, 5, 4).unwrap();
    assert_eq!(field.getWidth(), 5);
    assert_eq!(field.getHeight(), 4);
    assert_eq!(field.getOccupiedCount(), 10);
    assert_eq!(field.getStuckCount(), 0);
    let mut seen = 0;
    for x in 0..5 {
        for y in 0..4 {
            match field.positionHash[x][y] {
                FieldPosition::OCCUPIED(p) => {
                    assert_eq!(p.color, [255, 0, 0, 255]);
                    seen += 1;
                }
                FieldPosition::EMPTY => {}
                FieldPosition::STUCK(_) => panic!("no particle is frozen at the start"),
            }
        }
    }
    assert_eq!(seen, 10);
}

#[test]
fn new_can_fill_every_cell() {
    let field = DLAField::new(12, 4, 3).unwrap();
    assert_eq!(field.getOccupiedCount(), 12);
    for x in 0..4 {
        for y in 0..3 {
            assert!(is_occupied_at(&field, x, y));
        }
    }
    let field = DLAField::new(0, 4, 3).unwrap();
    assert_eq!(field.getOccupiedCount(), 0);
}

#[test]
fn new_rejects_too_many_particles() {
    assert_eq!(DLAField::new(13, 4, 3).err(), Some(FieldError::InvalidConfiguration));
    assert_eq!(DLAField::new(1, 0, 3).err(), Some(FieldError::InvalidConfiguration));
    assert_eq!(DLAField::new(-1, 4, 3).err(), Some(FieldError::InvalidConfiguration));
}

#[test]
fn cells_are_read_and_written_within_bounds_only() {
    let mut field = DLAField::new(0, 3, 2).unwrap();
    assert_eq!(field.setCell(2, 1, stuck()), Ok(()));
    assert!(matches!(field.getCell(2, 1), Ok(FieldPosition::STUCK(_))));
    assert!(matches!(field.getCell(0, 0), Ok(FieldPosition::EMPTY)));
    assert_eq!(field.setCell(3, 0, stuck()), Err(FieldError::OutOfBounds));
    assert_eq!(field.setCell(0, 2, stuck()), Err(FieldError::OutOfBounds));
    assert!(matches!(field.getCell(0, 2), Err(FieldError::OutOfBounds)));
    assert_eq!(field.getStuckCount(), 1);
}

#[test]
fn move_candidate_turns_inwards_at_edges() {
    let field = DLAField::new(0, 3, 3).unwrap();
    assert_eq!(field.moveCandidate(1, 1, true, true), Some((2, 2)));
    assert_eq!(field.moveCandidate(1, 1, false, false), Some((0, 0)));
    assert_eq!(field.moveCandidate(1, 1, true, false), Some((2, 0)));
    assert_eq!(field.moveCandidate(0, 0, false, false), Some((1, 1)));
    assert_eq!(field.moveCandidate(2, 2, true, true), Some((1, 1)));
    let narrow = DLAField::new(0, 1, 3).unwrap();
    assert_eq!(narrow.moveCandidate(0, 1, true, true), None);
}

#[test]
fn plan_move_takes_the_first_empty_candidate() {
    let field = field_with(3, 3, &[(1, 1, occupied()), (2, 2, stuck())]);
    assert_eq!(field.planMove(1, 1, &vec![(true, true), (false, true)]), (0, 2));
    assert_eq!(field.planMove(1, 1, &vec![(true, true), (true, true)]), (1, 1));
    assert_eq!(field.planMove(1, 1, &vec![]), (1, 1));
    assert_eq!(field.planMove(1, 1, &vec![(false, false)]), (0, 0));
}

#[test]
fn find_next_position_moves_diagonally_onto_empty_cells() {
    let field = field_with(3, 3, &[(1, 0, occupied())]);
    for _ in 0..50 {
        let r = field.findNextPosition(1, 0);
        assert!(r == (0, 1) || r == (2, 1));
    }
    // every diagonal is taken: the particle stays
    let field = field_with(3, 3, &[(1, 1, occupied()), (0, 0, stuck()), (2, 0, stuck()), (0, 2, stuck()), (2, 2, stuck())]);
    assert_eq!(field.findNextPosition(1, 1), (1, 1));
}

#[test]
fn next_state_settles_a_single_particle() {
    let mut field = field_with(3, 3, &[(1, 0, occupied()), (1, 2, stuck())]);
    assert_eq!(field.nextState(), false);
    assert_eq!(field.nextState(), true);
    assert_eq!(field.getOccupiedCount(), 0);
    assert_eq!(field.getStuckCount(), 2);
    assert!(is_stuck_at(&field, 0, 1) || is_stuck_at(&field, 2, 1));
    assert_eq!(field.nextState(), true);
}

#[test]
fn next_state_freezes_keeping_the_colour() {
    let blue = FieldPosition::OCCUPIED(ColorizedPoint { color: [0, 0, 255, 255] });
    let mut field = field_with(2, 2, &[(0, 1, blue)]);
    assert_eq!(field.nextState(), true);
    assert!(matches!(field.positionHash[0][1], FieldPosition::STUCK(ColorizedPoint { color: [0, 0, 255, 255] })));
}

#[test]
fn next_state_conserves_particles_and_keeps_frozen_cells() {
    let mut field = DLAField::new(40, 12, 10).unwrap();
    let mut done = false;
    let mut steps = 0;
    while !done && steps < 100000 {
        let before: Vec<(usize, usize)> =
            (0..12).flat_map(|x| (0..10).map(move |y| (x, y))).filter(|(x, y)| is_stuck_at(&field, *x, *y)).collect();
        done = field.nextState();
        steps += 1;
        assert_eq!(particles(&field), 40);
        for (x, y) in before {
            assert!(is_stuck_at(&field, x, y));
        }
    }
    assert!(done);
    assert_eq!(field.getStuckCount(), 40);
    assert_eq!(field.getOccupiedCount(), 0);
}

#[test]
fn pixel_buffer_of_empty_grid_is_black() {
    let field = DLAField::new(0, 3, 2).unwrap();
    let data = field.getOneDimensionalRepresentation();
    assert_eq!(data.len(), 3 * 2 * 4);
    for px in data.chunks(4) {
        assert_eq!(px, &[0, 0, 0, 255]);
    }
}

#[test]
fn pixel_buffer_is_row_major() {
    let red = FieldPosition::OCCUPIED(ColorizedPoint { color: [255, 0, 0, 255] });
    let green = FieldPosition::STUCK(ColorizedPoint { color: [0, 255, 0, 255] });
    // three columns, two rows: red at column 2 of row 0, green at column 0 of row 1
    let field = field_with(3, 2, &[(2, 0, red), (0, 1, green)]);
    let data = field.getOneDimensionalRepresentation();
    assert_eq!(
        data,
        vec![
            0, 0, 0, 255, 0, 0, 0, 255, 255, 0, 0, 255, //
            0, 255, 0, 255, 0, 0, 0, 255, 0, 0, 0, 255,
        ]
    );
}

#[test]
fn next_state_freezes_a_stack_on_the_floor_in_one_tick() {
    let p1 = FieldPosition::OCCUPIED(ColorizedPoint { color: [1, 2, 3, 255] });
    let p2 = FieldPosition::OCCUPIED(ColorizedPoint { color: [4, 5, 6, 255] });
    let mut field = field_with(3, 3, &[(0, 2, p1), (0, 1, p2)]);
    assert_eq!(field.nextState(), true);
    assert!(matches!(field.positionHash[0][2], FieldPosition::STUCK(ColorizedPoint { color: [1, 2, 3, 255] })));
    assert!(matches!(field.positionHash[0][1], FieldPosition::STUCK(ColorizedPoint { color: [4, 5, 6, 255] })));
    assert_eq!(field.getStuckCount(), 2);
    assert_eq!(field.getOccupiedCount(), 0);
}

#[test]
fn next_state_leaves_a_blocked_particle_in_place() {
    let p = FieldPosition::OCCUPIED(ColorizedPoint { color: [7, 8, 9, 255] });
    let mut field = field_with(2, 3, &[(0, 0, p), (1, 1, occupied())]);
    assert_eq!(field.nextState(), false);
    assert!(matches!(field.positionHash[0][0], FieldPosition::OCCUPIED(ColorizedPoint { color: [7, 8, 9, 255] })));
    assert_eq!(particles(&field), 2);
}

#[test]
fn next_state_freezes_the_floor_even_when_others_move() {
    let p = FieldPosition::OCCUPIED(ColorizedPoint { color: [9, 9, 9, 255] });
    let mut field = field_with(4, 4, &[(1, 3, p), (2, 0, occupied())]);
    assert_eq!(field.nextState(), false);
    assert!(matches!(field.positionHash[1][3], FieldPosition::STUCK(ColorizedPoint { color: [9, 9, 9, 255] })));
    assert_eq!(particles(&field), 2);
}
