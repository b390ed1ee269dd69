use fitcube::Dir;
use fitcube::Grid;
use fitcube::Op;
use fitcube::direction::create_travel_directions;
use fitcube::search::fitcube;
use fitcube::search::test_against;

#[test]
fn fitcube_test_against_should_sum_to_27() {
    let result = 1 + test_against().iter().sum::<i32>();
    let expected: i32 = 27;
    assert_eq!(result, expected);
}

#[test]
fn dir_get_new_travel_directions_should_not_include_self_or_reverse() {
    let all_dirs = [Dir::Up, Dir::Down, Dir::N, Dir::E, Dir::S, Dir::W];
    for dir in all_dirs {
        for new_dir in dir.get_new_travel_directions() {
            assert_ne!(dir, new_dir);
            assert_ne!(dir.get_reverse(), new_dir);
        }
    }
}

#[test]
fn dir_get_new_travel_directions_should_include_4_options() {
    let all_dirs = [Dir::Up, Dir::Down, Dir::N, Dir::E, Dir::S, Dir::W];
    for dir in all_dirs {
        let opt_count = dir.get_new_travel_directions().len();
        assert_eq!(opt_count, 4);
    }
}

#[test]
fn dir_get_single_travel_amt_should_be_normalized_in_one_direction() {
    let all_dirs = [Dir::Up, Dir::Down, Dir::N, Dir::E, Dir::S, Dir::W];
    for dir in all_dirs {
        let mut travel_dir_count = 0;
        let mut travel_amt_abs = 0;
        let travel_amt = dir.get_single_travel_amt();
        let travel_amt_arr = [travel_amt.0, travel_amt.1, travel_amt.2];
        for q in 0..travel_amt_arr.len() {
            travel_amt_abs += travel_amt_arr[q].abs();
            travel_dir_count += (travel_amt_arr[q] != 0) as i32;
        }
        assert_eq!(travel_dir_count, 1);
        assert_eq!(travel_amt_abs, 1);
    }
}

#[test]
fn op_start_at_apply_should_not_work_if_invalid_position() {
    let mut cube = Grid::new();
    let mut pos: (usize, usize, usize) = (0, 0, 0);

    {
        let start_pos = (2usize, 1usize, 0usize);
        let start_op = Op::StartAt(start_pos);
        cube.set(2, 1, 0, true);
        assert_eq!(start_op.apply(&mut cube, &mut pos), false);
        assert_eq!(pos, (0, 0, 0));
    }

    {
        let start_pos = (4usize, 1usize, 0usize);
        let start_op = Op::StartAt(start_pos);
        assert_eq!(start_op.apply(&mut cube, &mut pos), false);
        assert_eq!(pos, (0, 0, 0));
    }
}

#[test]
fn op_start_at_apply_should_be_revsersible() {
    let mut cube = Grid::new();
    let mut pos: (usize, usize, usize) = (0, 0, 0);

    let start_pos = (2usize, 1usize, 0usize);
    let start_op = Op::StartAt(start_pos);
    assert!(start_op.apply(&mut cube, &mut pos));

    assert_eq!(cube.get(2, 1, 0), true);
    assert_eq!(pos, (2, 1, 0));

    start_op.revert(&mut cube, &mut pos);

    assert_eq!(cube.get(2, 1, 0), false);
}

#[test]
fn op_travel_apply_should_not_work_if_invalid_position() {
    let mut cube = Grid::new();
    cube.set(0, 0, 0, true);
    let mut pos: (usize, usize, usize) = (0, 0, 0);

    {
        let travel_op = Op::Travel(Dir::Down, 1);
        assert_eq!(travel_op.apply(&mut cube, &mut pos), false);
    }

    {
        let travel_op = Op::Travel(Dir::W, 1);
        assert_eq!(travel_op.apply(&mut cube, &mut pos), false);
    }

    {
        let travel_op = Op::Travel(Dir::Up, 1);
        cube.set(0, 0, 1, true);
        assert_eq!(travel_op.apply(&mut cube, &mut pos), false);
        assert_eq!(pos, (0, 0, 0));
        cube.set(0, 0, 1, false);
    }

    {
        let travel_op = Op::Travel(Dir::Up, 2);
        cube.set(0, 0, 2, true);
        assert_eq!(travel_op.apply(&mut cube, &mut pos), false);
        assert_eq!(pos, (0, 0, 0));
        assert_eq!(cube.get(0, 0, 1), false);
    }

    {
        let travel_op = Op::Travel(Dir::E, 3);
        assert_eq!(travel_op.apply(&mut cube, &mut pos), false);
        assert_eq!(pos, (0, 0, 0));
        assert_eq!(cube.get(1, 0, 0), false);
        assert_eq!(cube.get(2, 0, 0), false);
    }
}

#[test]
fn op_travel_apply_should_be_reversible() {
    let mut cube = Grid::new();
    cube.set(2, 2, 2, true);
    let mut pos: (usize, usize, usize) = (2, 2, 2);

    {
        let travel_op = Op::Travel(Dir::Down, 1);
        assert_eq!(travel_op.apply(&mut cube, &mut pos), true);

        assert_eq!(cube.get(2, 2, 1), true);
        assert_eq!(pos, (2, 2, 1));
        assert_eq!(cube.get(2, 2, 0), false);

        travel_op.revert(&mut cube, &mut pos);

        assert_eq!(cube.get(2, 2, 1), false);
        assert_eq!(pos, (2, 2, 2));
        assert_eq!(cube.get(2, 2, 2), true);
    }

    {
        let travel_op = Op::Travel(Dir::W, 2);
        assert_eq!(travel_op.apply(&mut cube, &mut pos), true);

        assert_eq!(cube.get(0, 2, 2), true);
        assert_eq!(cube.get(1, 2, 2), true);
        assert_eq!(pos, (0, 2, 2));

        travel_op.revert(&mut cube, &mut pos);

        assert_eq!(cube.get(0, 2, 2), false);
        assert_eq!(cube.get(1, 2, 2), false);
        assert_eq!(pos, (2, 2, 2));
        assert_eq!(cube.get(2, 2, 2), true);
    }

    {
        let travel_op = Op::Travel(Dir::N, 2);
        let travel_op_2 = Op::Travel(Dir::Down, 1);
        assert_eq!(travel_op.apply(&mut cube, &mut pos), true);
        assert_eq!(travel_op_2.apply(&mut cube, &mut pos), true);

        assert_eq!(cube.get(2, 1, 2), true);
        assert_eq!(cube.get(2, 0, 2), true);
        assert_eq!(cube.get(2, 0, 1), true);
        assert_eq!(pos, (2, 0, 1));

        travel_op_2.revert(&mut cube, &mut pos);
        travel_op.revert(&mut cube, &mut pos);

        assert_eq!(cube.get(2, 1, 2), false);
        assert_eq!(cube.get(2, 0, 2), false);
        assert_eq!(cube.get(2, 0, 1), false);
        assert_eq!(pos, (2, 2, 2));
        assert_eq!(cube.get(2, 2, 2), true);
    }
}

#[test]
fn dir_get_reverse_exact_pairs() {
    assert_eq!(Dir::Up.get_reverse(), Dir::Down);
    assert_eq!(Dir::Down.get_reverse(), Dir::Up);
    assert_eq!(Dir::N.get_reverse(), Dir::S);
    assert_eq!(Dir::S.get_reverse(), Dir::N);
    assert_eq!(Dir::E.get_reverse(), Dir::W);
    assert_eq!(Dir::W.get_reverse(), Dir::E);
}

#[test]
fn dir_get_single_travel_amt_exact_vectors() {
    assert_eq!(Dir::Up.get_single_travel_amt(), (0, 0, 1));
    assert_eq!(Dir::Down.get_single_travel_amt(), (0, 0, -1));
    assert_eq!(Dir::N.get_single_travel_amt(), (0, -1, 0));
    assert_eq!(Dir::E.get_single_travel_amt(), (1, 0, 0));
    assert_eq!(Dir::S.get_single_travel_amt(), (0, 1, 0));
    assert_eq!(Dir::W.get_single_travel_amt(), (-1, 0, 0));
}

#[test]
fn create_travel_directions_fixed_order() {
    assert_eq!(create_travel_directions(Dir::Up), vec![Dir::N, Dir::S, Dir::E, Dir::W]);
    assert_eq!(create_travel_directions(Dir::Down), vec![Dir::N, Dir::S, Dir::E, Dir::W]);
    assert_eq!(create_travel_directions(Dir::N), vec![Dir::Up, Dir::Down, Dir::E, Dir::W]);
    assert_eq!(create_travel_directions(Dir::S), vec![Dir::Up, Dir::Down, Dir::E, Dir::W]);
    assert_eq!(create_travel_directions(Dir::E), vec![Dir::Up, Dir::Down, Dir::N, Dir::S]);
    assert_eq!(create_travel_directions(Dir::W), vec![Dir::Up, Dir::Down, Dir::N, Dir::S]);
}

#[test]
fn grid_new_starts_empty_and_set_get_round_trip() {
    let mut cube = Grid::new();
    for x in 0..3 {
        for y in 0..3 {
            for z in 0..3 {
                assert_eq!(cube.get(x, y, z), false);
            }
        }
    }
    cube.set(1, 2, 0, true);
    assert_eq!(cube.get(1, 2, 0), true);
    assert_eq!(cube.get(0, 2, 1), false);
    cube.set(1, 2, 0, false);
    assert_eq!(cube.get(1, 2, 0), false);
}

#[test]
fn travel_down_then_revert_restores_corner_state() {
    let mut cube = Grid::new();
    cube.set(2, 2, 2, true);
    let mut pos: (usize, usize, usize) = (2, 2, 2);

    let travel_op = Op::Travel(Dir::Down, 1);
    assert!(travel_op.apply(&mut cube, &mut pos));
    travel_op.revert(&mut cube, &mut pos);

    assert_eq!(pos, (2, 2, 2));
    for x in 0..3 {
        for y in 0..3 {
            for z in 0..3 {
                assert_eq!(cube.get(x, y, z), x == 2 && y == 2 && z == 2);
            }
        }
    }
}

#[test]
fn op_travel_apply_amount_zero_succeeds_and_touches_nothing() {
    let mut cube = Grid::new();
    cube.set(1, 1, 1, true);
    let mut pos: (usize, usize, usize) = (1, 1, 1);

    let travel_op = Op::Travel(Dir::E, 0);
    assert_eq!(travel_op.apply(&mut cube, &mut pos), true);

    assert_eq!(pos, (1, 1, 1));
    for x in 0..3 {
        for y in 0..3 {
            for z in 0..3 {
                assert_eq!(cube.get(x, y, z), x == 1 && y == 1 && z == 1);
            }
        }
    }
}

#[test]
fn fitcube_finds_a_complete_covering_path() {
    let ops = match fitcube() {
        Some(ops) => ops,
        None => panic!("no solution found for the fixed distance sequence"),
    };
    assert_eq!(ops.len(), 23);
    assert_eq!(ops[0], Op::StartAt((0, 0, 0)));

    let distances = test_against();
    let mut cube = Grid::new();
    let mut pos: (usize, usize, usize) = (0, 0, 0);
    for (i, op) in ops.iter().enumerate() {
        match *op {
            Op::StartAt(p) => {
                assert_eq!(i, 0);
                assert_eq!(p, (0, 0, 0));
            }
            Op::Travel(_, amt) => {
                assert_eq!(amt, distances[i - 1]);
            }
        }
        // A successful apply means the move stays in bounds and touches no
        // already-occupied cell.
        assert!(op.apply(&mut cube, &mut pos));
    }
    for x in 0..3 {
        for y in 0..3 {
            for z in 0..3 {
                assert!(cube.get(x, y, z));
            }
        }
    }
}
