use micromouse::mapping::{
    center_goals_16, Coord, Direction, FloodFillMode, Maze, MazeError, WallReadings, INF_COST,
    MICROMOUSE_CELLS,
};

#[test]
fn flood_fill_guides_start_toward_center() {
    let maze = Maze::<MICROMOUSE_CELLS>::new(16, 16).unwrap();
    let mut costs = [INF_COST; MICROMOUSE_CELLS];
    let goals = center_goals_16();

    maze.flood_fill(
        &goals,
        goals.len(),
        &mut costs,
        FloodFillMode::ExploreUnknownAsOpen,
    )
    .unwrap();

    let next = maze
        .best_next_direction(
            &costs,
            Coord::new(0, 0),
            Direction::North,
            FloodFillMode::ExploreUnknownAsOpen,
        )
        .unwrap();

    assert_eq!(next, Some(Direction::North));
}

#[test]
fn directions_turn_and_reverse() {
    for d in [Direction::North, Direction::East, Direction::South, Direction::West] {
        assert_eq!(d.left().right(), d);
        assert_eq!(d.right().left(), d);
        assert_eq!(d.left().left(), d.back());
        assert_eq!(d.back().back(), d);
    }
    assert_eq!(Direction::North.left(), Direction::West);
    assert_eq!(Direction::North.right(), Direction::East);
    assert_eq!(Direction::East.back(), Direction::West);
    assert_eq!(Direction::North.bit(), 1);
    assert_eq!(Direction::East.bit(), 2);
    assert_eq!(Direction::South.bit(), 4);
    assert_eq!(Direction::West.bit(), 8);
}

#[test]
fn coord_new_keeps_components() {
    let c = Coord::new(3, 9);
    assert_eq!(c.x, 3);
    assert_eq!(c.y, 9);
}

#[test]
fn new_rejects_bad_dimensions() {
    assert_eq!(Maze::<16>::new(0, 4).unwrap_err(), MazeError::InvalidDimensions);
    assert_eq!(Maze::<16>::new(4, 0).unwrap_err(), MazeError::InvalidDimensions);
    assert_eq!(Maze::<16>::new(5, 4).unwrap_err(), MazeError::InvalidDimensions);
    let maze = Maze::<16>::new(4, 4).unwrap();
    assert_eq!(maze.width(), 4);
    assert_eq!(maze.height(), 4);
}

#[test]
fn new_maze_has_only_outer_walls() {
    let maze = Maze::<16>::new(4, 3).unwrap();
    assert_eq!(maze.has_wall(Coord::new(0, 0), Direction::South), Ok(true));
    assert_eq!(maze.has_wall(Coord::new(0, 0), Direction::West), Ok(true));
    assert_eq!(maze.has_wall(Coord::new(3, 2), Direction::North), Ok(true));
    assert_eq!(maze.has_wall(Coord::new(3, 2), Direction::East), Ok(true));
    assert_eq!(maze.has_wall(Coord::new(1, 1), Direction::North), Ok(false));
    assert_eq!(maze.has_wall(Coord::new(0, 0), Direction::East), Ok(false));
    assert_eq!(maze.is_known(Coord::new(1, 1), Direction::East), Ok(false));
    assert_eq!(maze.is_known(Coord::new(0, 1), Direction::West), Ok(true));
}

#[test]
fn new_unchecked_starts_blank() {
    let maze = Maze::<4>::new_unchecked(2, 2);
    assert_eq!(maze.width(), 2);
    assert_eq!(maze.height(), 2);
    assert_eq!(maze.has_wall(Coord::new(0, 0), Direction::North), Ok(false));
    assert_eq!(maze.is_known(Coord::new(0, 0), Direction::North), Ok(false));
}

#[test]
fn neighbor_stops_at_edges() {
    let maze = Maze::<16>::new(4, 4).unwrap();
    assert_eq!(maze.neighbor(Coord::new(0, 0), Direction::South), None);
    assert_eq!(maze.neighbor(Coord::new(0, 0), Direction::West), None);
    assert_eq!(maze.neighbor(Coord::new(3, 3), Direction::North), None);
    assert_eq!(maze.neighbor(Coord::new(3, 3), Direction::East), None);
    assert_eq!(maze.neighbor(Coord::new(1, 1), Direction::North), Some(Coord::new(1, 2)));
    assert_eq!(maze.neighbor(Coord::new(1, 1), Direction::East), Some(Coord::new(2, 1)));
    assert_eq!(maze.neighbor(Coord::new(1, 1), Direction::South), Some(Coord::new(1, 0)));
    assert_eq!(maze.neighbor(Coord::new(1, 1), Direction::West), Some(Coord::new(0, 1)));
}

#[test]
fn set_wall_reads_back_on_both_sides() {
    let mut maze = Maze::<16>::new(4, 4).unwrap();
    assert_eq!(maze.set_wall(Coord::new(1, 1), Direction::East, true), Ok(()));
    assert_eq!(maze.has_wall(Coord::new(1, 1), Direction::East), Ok(true));
    assert_eq!(maze.has_wall(Coord::new(2, 1), Direction::West), Ok(true));
    assert_eq!(maze.is_known(Coord::new(1, 1), Direction::East), Ok(true));
    assert_eq!(maze.is_known(Coord::new(2, 1), Direction::West), Ok(true));
    assert_eq!(maze.has_wall(Coord::new(1, 1), Direction::North), Ok(false));
    assert_eq!(maze.is_known(Coord::new(1, 1), Direction::North), Ok(false));

    assert_eq!(maze.set_wall(Coord::new(2, 1), Direction::West, false), Ok(()));
    assert_eq!(maze.has_wall(Coord::new(1, 1), Direction::East), Ok(false));
    assert_eq!(maze.has_wall(Coord::new(2, 1), Direction::West), Ok(false));
    assert_eq!(maze.is_known(Coord::new(1, 1), Direction::East), Ok(true));
}

#[test]
fn set_wall_keeps_border_walled() {
    let mut maze = Maze::<16>::new(4, 4).unwrap();
    assert_eq!(maze.set_wall(Coord::new(0, 2), Direction::West, false), Ok(()));
    assert_eq!(maze.has_wall(Coord::new(0, 2), Direction::West), Ok(true));
}

#[test]
fn set_wall_outside_is_rejected() {
    let mut maze = Maze::<16>::new(4, 4).unwrap();
    let before = maze.clone();
    assert_eq!(
        maze.set_wall(Coord::new(4, 0), Direction::South, true),
        Err(MazeError::OutOfBounds)
    );
    assert_eq!(maze, before);
    assert_eq!(
        maze.has_wall(Coord::new(5, 1), Direction::North),
        Err(MazeError::OutOfBounds)
    );
    assert_eq!(
        maze.is_known(Coord::new(1, 7), Direction::South),
        Err(MazeError::OutOfBounds)
    );
}

#[test]
fn update_from_walls_records_three_sides() {
    let mut maze = Maze::<16>::new(4, 4).unwrap();
    let readings = WallReadings { front: Some(true), left: Some(false), right: None };
    assert_eq!(maze.update_from_walls(Coord::new(1, 1), Direction::North, readings), Ok(()));
    assert_eq!(maze.has_wall(Coord::new(1, 1), Direction::North), Ok(true));
    assert_eq!(maze.is_known(Coord::new(1, 1), Direction::West), Ok(true));
    assert_eq!(maze.has_wall(Coord::new(1, 1), Direction::West), Ok(false));
    assert_eq!(maze.is_known(Coord::new(1, 1), Direction::East), Ok(false));
    assert_eq!(
        maze.update_from_walls(Coord::new(9, 9), Direction::North, readings),
        Err(MazeError::OutOfBounds)
    );
}

#[test]
fn flood_fill_counts_moves_from_goal() {
    let maze = Maze::<9>::new(3, 3).unwrap();
    let mut costs = [0u16; 9];
    let goals = [Coord::new(0, 0)];
    assert_eq!(
        maze.flood_fill(&goals, 1, &mut costs, FloodFillMode::ExploreUnknownAsOpen),
        Ok(())
    );
    assert_eq!(costs, [0, 1, 2, 1, 2, 3, 2, 3, 4]);
}

#[test]
fn flood_fill_goes_around_walls() {
    let mut maze = Maze::<9>::new(3, 3).unwrap();
    maze.set_wall(Coord::new(0, 0), Direction::North, true).unwrap();
    maze.set_wall(Coord::new(1, 0), Direction::North, true).unwrap();
    let mut costs = [0u16; 9];
    let goals = [Coord::new(0, 0)];
    maze.flood_fill(&goals, 1, &mut costs, FloodFillMode::ExploreUnknownAsOpen).unwrap();
    // row 0: 0 1 2; row 1 only reachable through (2,1)
    assert_eq!(costs, [0, 1, 2, 5, 4, 3, 6, 5, 4]);
}

#[test]
fn flood_fill_known_only_stops_at_unobserved_sides() {
    let mut maze = Maze::<9>::new(3, 3).unwrap();
    maze.set_wall(Coord::new(0, 0), Direction::East, false).unwrap();
    let mut costs = [0u16; 9];
    let goals = [Coord::new(0, 0)];
    maze.flood_fill(&goals, 1, &mut costs, FloodFillMode::KnownOpenOnly).unwrap();
    assert_eq!(costs[0], 0);
    assert_eq!(costs[1], 1);
    for i in 2..9 {
        assert_eq!(costs[i], INF_COST);
    }
}

#[test]
fn flood_fill_leaves_unused_slots_alone() {
    let maze = Maze::<16>::new(2, 2).unwrap();
    let mut costs = [77u16; 16];
    let goals = [Coord::new(1, 1), Coord::new(0, 0)];
    maze.flood_fill(&goals, 2, &mut costs, FloodFillMode::ExploreUnknownAsOpen).unwrap();
    assert_eq!(&costs[..4], &[0, 1, 1, 0]);
    for i in 4..16 {
        assert_eq!(costs[i], 77);
    }
}

#[test]
fn flood_fill_uses_only_counted_goals() {
    let maze = Maze::<9>::new(3, 3).unwrap();
    let mut costs = [0u16; 9];
    let goals = [Coord::new(0, 0), Coord::new(2, 2)];
    maze.flood_fill(&goals, 1, &mut costs, FloodFillMode::ExploreUnknownAsOpen).unwrap();
    assert_eq!(costs[8], 4);
}

#[test]
fn flood_fill_reports_errors() {
    let maze = Maze::<9>::new(3, 3).unwrap();
    let goals = [Coord::new(0, 0), Coord::new(3, 0)];
    let mut costs = [5u16; 9];
    assert_eq!(
        maze.flood_fill(&goals, 3, &mut costs, FloodFillMode::ExploreUnknownAsOpen),
        Err(MazeError::TooManyGoals)
    );
    assert_eq!(costs, [5u16; 9]);
    assert_eq!(
        maze.flood_fill(&goals, 2, &mut costs, FloodFillMode::ExploreUnknownAsOpen),
        Err(MazeError::OutOfBounds)
    );
    assert_eq!(costs, [0, INF_COST, INF_COST, INF_COST, INF_COST, INF_COST, INF_COST, INF_COST, INF_COST]);
}

#[test]
fn flood_fill_queue_can_overflow_on_repeated_goals() {
    let maze = Maze::<4>::new(2, 2).unwrap();
    let goals = [Coord::new(0, 0); 4];
    let mut costs = [0u16; 4];
    assert_eq!(
        maze.flood_fill(&goals, 4, &mut costs, FloodFillMode::ExploreUnknownAsOpen),
        Err(MazeError::QueueFull)
    );
    let goals = [Coord::new(0, 0); 5];
    assert_eq!(
        maze.flood_fill(&goals, 5, &mut costs, FloodFillMode::ExploreUnknownAsOpen),
        Err(MazeError::QueueFull)
    );
}

#[test]
fn best_next_direction_prefers_straight_then_left_then_right() {
    let maze = Maze::<9>::new(3, 3).unwrap();
    // all neighbours of the centre cost the same
    let costs = [9u16, 3, 9, 3, 9, 3, 9, 3, 9];
    let mode = FloodFillMode::ExploreUnknownAsOpen;
    let centre = Coord::new(1, 1);
    assert_eq!(maze.best_next_direction(&costs, centre, Direction::North, mode), Ok(Some(Direction::North)));
    assert_eq!(maze.best_next_direction(&costs, centre, Direction::East, mode), Ok(Some(Direction::East)));
    // cheaper on the right wins over straight on
    let costs = [9u16, 3, 9, 3, 9, 2, 9, 3, 9];
    assert_eq!(maze.best_next_direction(&costs, centre, Direction::North, mode), Ok(Some(Direction::East)));
}

#[test]
fn best_next_direction_respects_walls_and_unreached() {
    let mut maze = Maze::<9>::new(3, 3).unwrap();
    let mode = FloodFillMode::ExploreUnknownAsOpen;
    let costs = [INF_COST; 9];
    assert_eq!(maze.best_next_direction(&costs, Coord::new(1, 1), Direction::North, mode), Ok(None));
    let costs = [9u16, 9, 9, 9, 9, 9, 9, 1, 9];
    maze.set_wall(Coord::new(1, 1), Direction::North, true).unwrap();
    // the cheap cell straight ahead is walled off; the left turn wins the tie
    assert_eq!(
        maze.best_next_direction(&costs, Coord::new(1, 1), Direction::North, mode),
        Ok(Some(Direction::West))
    );
    assert_eq!(
        maze.best_next_direction(&costs, Coord::new(5, 5), Direction::North, mode),
        Err(MazeError::OutOfBounds)
    );
}

#[test]
fn following_best_moves_reaches_the_goal() {
    let mut maze = Maze::<25>::new(5, 5).unwrap();
    maze.set_wall(Coord::new(0, 0), Direction::North, true).unwrap();
    maze.set_wall(Coord::new(2, 2), Direction::West, true).unwrap();
    maze.set_wall(Coord::new(3, 1), Direction::North, true).unwrap();
    let mut costs = [0u16; 25];
    let goals = [Coord::new(2, 2)];
    let mode = FloodFillMode::ExploreUnknownAsOpen;
    maze.flood_fill(&goals, 1, &mut costs, mode).unwrap();
    let mut cell = Coord::new(0, 0);
    let mut heading = Direction::North;
    let mut steps = 0;
    while cell != Coord::new(2, 2) {
        let here = costs[(cell.y as usize) * 5 + cell.x as usize];
        let d = maze.best_next_direction(&costs, cell, heading, mode).unwrap().unwrap();
        cell = maze.neighbor(cell, d).unwrap();
        let there = costs[(cell.y as usize) * 5 + cell.x as usize];
        assert_eq!(there + 1, here);
        heading = d;
        steps += 1;
    }
    assert_eq!(steps, costs[0]);
}

#[test]
fn all_directions_clockwise_from_north() {
    assert_eq!(
        Direction::all(),
        [Direction::North, Direction::East, Direction::South, Direction::West]
    );
}

#[test]
fn oversized_unchecked_maze_still_answers_without_storage() {
    let maze = Maze::<4>::new_unchecked(3, 3);
    let goals = [Coord::new(0, 0)];
    let mut costs = [9u16; 4];
    assert_eq!(
        maze.flood_fill(&goals, 2, &mut costs, FloodFillMode::ExploreUnknownAsOpen),
        Err(MazeError::TooManyGoals)
    );
    assert_eq!(costs, [9u16; 4]);
    assert_eq!(maze.has_wall(Coord::new(2, 2), Direction::North), Ok(true));
    assert_eq!(maze.is_known(Coord::new(2, 2), Direction::East), Ok(true));
    assert_eq!(
        maze.has_wall(Coord::new(3, 1), Direction::West),
        Err(MazeError::OutOfBounds)
    );
}

#[test]
fn flood_fill_repeated_goals_succeed_when_the_queue_has_room() {
    let maze = Maze::<9>::new(3, 3).unwrap();
    let goals = [Coord::new(0, 0), Coord::new(0, 0)];
    let mut costs = [0u16; 9];
    assert_eq!(
        maze.flood_fill(&goals, 2, &mut costs, FloodFillMode::ExploreUnknownAsOpen),
        Ok(())
    );
    assert_eq!(costs, [0, 1, 2, 1, 2, 3, 2, 3, 4]);
}

#[test]
fn set_wall_is_idempotent_and_last_write_wins() {
    let base = Maze::<16>::new(4, 4).unwrap();
    let mut once = base.clone();
    once.set_wall(Coord::new(1, 2), Direction::North, true).unwrap();
    let mut twice = once.clone();
    twice.set_wall(Coord::new(1, 2), Direction::North, true).unwrap();
    assert_eq!(twice, once);

    let mut overwritten = base.clone();
    overwritten.set_wall(Coord::new(1, 2), Direction::North, false).unwrap();
    overwritten.set_wall(Coord::new(1, 2), Direction::North, true).unwrap();
    assert_eq!(overwritten, once);

    let mut from_neighbor = base.clone();
    from_neighbor.set_wall(Coord::new(1, 3), Direction::South, true).unwrap();
    assert_eq!(from_neighbor, once);
}

#[test]
fn flood_costs_are_monotone_in_mode_and_walls() {
    let mut maze = Maze::<16>::new(4, 4).unwrap();
    maze.set_wall(Coord::new(0, 0), Direction::East, false).unwrap();
    maze.set_wall(Coord::new(1, 0), Direction::North, false).unwrap();
    let goals = [Coord::new(0, 0)];
    let mut explore = [0u16; 16];
    let mut known = [0u16; 16];
    maze.flood_fill(&goals, 1, &mut explore, FloodFillMode::ExploreUnknownAsOpen).unwrap();
    maze.flood_fill(&goals, 1, &mut known, FloodFillMode::KnownOpenOnly).unwrap();
    for i in 0..16 {
        assert!(explore[i] <= known[i]);
    }
    let mut walled = maze.clone();
    walled.set_wall(Coord::new(0, 0), Direction::North, true).unwrap();
    let mut after = [0u16; 16];
    walled.flood_fill(&goals, 1, &mut after, FloodFillMode::ExploreUnknownAsOpen).unwrap();
    for i in 0..16 {
        assert!(explore[i] <= after[i]);
    }
    assert!(explore[4] < after[4]);
}
