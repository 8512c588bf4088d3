use decay_life::config::DECAY_TICKS;
use decay_life::rules::{should_decay, should_spawn};
use decay_life::ticks_processor::{
    count_cell_neighbors, count_neighbors, decay_cells, kill_cells, limited_positive_range,
    process_tick, spawn_cells, tick,
};
use decay_life::types::{Board, Cell, Change, FrameTimer, Position};

fn dead() -> Cell {
    Cell { decaying: true, decaying_ticks: 0, dead: true, neighbors: 0 }
}

fn stable(neighbors: u32) -> Cell {
    Cell { decaying: false, decaying_ticks: DECAY_TICKS, dead: false, neighbors }
}

fn board_of(width: usize, height: usize, alive: &[(usize, usize)]) -> Board {
    let mut board = Board(vec![vec![dead(); height]; width]);
    for &(x, y) in alive {
        board.0[x][y] = stable(0);
    }
    board
}

fn alive_set(board: &Board) -> Vec<(usize, usize)> {
    let mut alive = Vec::new();
    for x in 0..board.0.len() {
        for y in 0..board.0[x].len() {
            if !board.0[x][y].dead {
                alive.push((x, y));
            }
        }
    }
    alive
}

#[test]
fn spawn_rule_is_exactly_two() {
    assert!(!should_spawn(0));
    assert!(!should_spawn(1));
    assert!(should_spawn(2));
    assert!(!should_spawn(3));
    assert!(!should_spawn(8));
}

#[test]
fn decay_rule_is_outside_two_and_three() {
    assert!(should_decay(0));
    assert!(should_decay(1));
    assert!(!should_decay(2));
    assert!(!should_decay(3));
    assert!(should_decay(4));
    assert!(should_decay(8));
}

#[test]
fn limited_range_is_cut_at_max() {
    assert_eq!(limited_positive_range(0, 1, 100), 0..2);
    assert_eq!(limited_positive_range(4, 6, 100), 4..7);
    assert_eq!(limited_positive_range(98, 100, 100), 98..100);
    assert_eq!(limited_positive_range(2, 2, 3), 2..3);
    assert_eq!(limited_positive_range(0, usize::MAX, 7), 0..7);
}

#[test]
fn default_cell_is_dead() {
    assert_eq!(Cell::default(), dead());
    assert_eq!(Cell::alive(), stable(0));
}

#[test]
fn board_get_set_and_size() {
    let mut board = board_of(3, 2, &[]);
    assert_eq!(board.width(), 3);
    assert_eq!(board.height(), 2);
    assert_eq!(Board(vec![]).height(), 0);
    assert_eq!(board.get(2, 1), dead());
    board.set(2, 1, stable(5));
    assert_eq!(board.get(2, 1), stable(5));
    assert_eq!(alive_set(&board), vec![(2, 1)]);
}

#[test]
fn corner_has_three_neighbor_coordinates() {
    let board = board_of(4, 5, &[]);
    let p = |x, y| Position { x, y };
    assert_eq!(board.neighbor_coordinates(0, 0), vec![p(0, 1), p(1, 0), p(1, 1)]);
    assert_eq!(board.neighbor_coordinates(3, 4), vec![p(2, 3), p(2, 4), p(3, 3)]);
    assert_eq!(board.neighbor_coordinates(0, 4).len(), 3);
    assert_eq!(board.neighbor_coordinates(3, 0).len(), 3);
}

#[test]
fn edge_has_five_neighbor_coordinates() {
    let board = board_of(4, 5, &[]);
    let p = |x, y| Position { x, y };
    assert_eq!(
        board.neighbor_coordinates(0, 2),
        vec![p(0, 1), p(0, 3), p(1, 1), p(1, 2), p(1, 3)]
    );
    assert_eq!(board.neighbor_coordinates(2, 0).len(), 5);
    assert_eq!(board.neighbor_coordinates(3, 1).len(), 5);
    assert_eq!(board.neighbor_coordinates(1, 4).len(), 5);
}

#[test]
fn interior_has_eight_neighbor_coordinates() {
    let board = board_of(4, 5, &[]);
    let p = |x, y| Position { x, y };
    assert_eq!(
        board.neighbor_coordinates(1, 2),
        vec![p(0, 1), p(0, 2), p(0, 3), p(1, 1), p(1, 3), p(2, 1), p(2, 2), p(2, 3)]
    );
}

#[test]
fn single_cell_board_has_no_neighbor_coordinates() {
    let board = board_of(1, 1, &[(0, 0)]);
    assert_eq!(board.neighbor_coordinates(0, 0), vec![]);
}

#[test]
fn count_does_not_wrap_round_the_edges() {
    let mut board = board_of(3, 3, &[(2, 0), (2, 1), (2, 2), (0, 2)]);
    count_cell_neighbors(&mut board, 0, 0);
    assert_eq!(board.0[0][0].neighbors, 0);
    count_cell_neighbors(&mut board, 1, 1);
    assert_eq!(board.0[1][1].neighbors, 4);
    count_cell_neighbors(&mut board, 2, 1);
    assert_eq!(board.0[2][1].neighbors, 2);
}

#[test]
fn count_overwrites_a_stale_count_and_leaves_the_rest() {
    let mut board = board_of(2, 2, &[(0, 0)]);
    board.0[1][1].neighbors = 77;
    board.0[0][0].decaying_ticks = 4;
    count_neighbors(&mut board);
    assert_eq!(board.0[1][1], Cell { neighbors: 1, ..dead() });
    assert_eq!(board.0[0][0], Cell { decaying_ticks: 4, ..stable(0) });
    assert_eq!(board.0[0][1].neighbors, 1);
    assert_eq!(board.0[1][0].neighbors, 1);
}

#[test]
fn count_all_eight() {
    let all: Vec<(usize, usize)> = (0..3).flat_map(|x| (0..3).map(move |y| (x, y))).collect();
    let mut board = board_of(3, 3, &all);
    count_neighbors(&mut board);
    assert_eq!(board.0[1][1].neighbors, 8);
    assert_eq!(board.0[0][0].neighbors, 3);
    assert_eq!(board.0[0][1].neighbors, 5);
}

#[test]
fn spawn_phase_revives_and_reports() {
    let mut board = board_of(2, 2, &[(0, 0)]);
    board.0[0][1].neighbors = 2;
    board.0[1][0].neighbors = 3;
    board.0[0][0].neighbors = 2;
    board.0[0][0].decaying_ticks = 3;
    let changes = spawn_cells(&mut board);
    assert_eq!(changes, vec![Change { position: Position { x: 0, y: 1 }, dead: false }]);
    assert_eq!(board.0[0][1], stable(2));
    assert_eq!(board.0[1][0], Cell { neighbors: 3, ..dead() });
    assert_eq!(board.0[0][0], Cell { decaying_ticks: 3, ..stable(2) });
}

#[test]
fn decay_phase_counts_down_once_started() {
    let mut board = board_of(1, 4, &[(0, 0), (0, 1), (0, 2)]);
    board.0[0][0].neighbors = 2;
    board.0[0][1].neighbors = 4;
    board.0[0][2] = Cell { decaying: true, decaying_ticks: 0, dead: false, neighbors: 3 };
    board.0[0][3] = Cell { decaying: false, decaying_ticks: 5, dead: true, neighbors: 0 };
    decay_cells(&mut board);
    assert_eq!(board.0[0][0], stable(2));
    assert_eq!(
        board.0[0][1],
        Cell { decaying: true, decaying_ticks: DECAY_TICKS - 1, dead: false, neighbors: 4 }
    );
    assert_eq!(board.0[0][2], Cell { decaying: true, decaying_ticks: 0, dead: false, neighbors: 3 });
    assert_eq!(board.0[0][3], Cell { decaying: false, decaying_ticks: 5, dead: true, neighbors: 0 });
}

#[test]
fn kill_phase_takes_only_spent_decaying_cells() {
    let mut board = board_of(1, 4, &[(0, 0)]);
    board.0[0][1] = Cell { decaying: true, decaying_ticks: 0, dead: false, neighbors: 2 };
    board.0[0][2] = Cell { decaying: true, decaying_ticks: 1, dead: false, neighbors: 0 };
    board.0[0][3] = Cell { decaying: false, decaying_ticks: 0, dead: false, neighbors: 0 };
    let changes = kill_cells(&mut board);
    assert_eq!(changes, vec![Change { position: Position { x: 0, y: 1 }, dead: true }]);
    assert_eq!(alive_set(&board), vec![(0, 0), (0, 2), (0, 3)]);
    assert_eq!(board.0[0][1], Cell { decaying: true, decaying_ticks: 0, dead: true, neighbors: 2 });
}

#[test]
fn two_cells_in_a_corner_spawn_their_common_neighbors() {
    let mut board = board_of(3, 3, &[(0, 0), (0, 1)]);
    let changes = tick(&mut board);
    assert_eq!(alive_set(&board), vec![(0, 0), (0, 1), (1, 0), (1, 1)]);
    assert_eq!(
        changes,
        vec![
            Change { position: Position { x: 1, y: 0 }, dead: false },
            Change { position: Position { x: 1, y: 1 }, dead: false },
        ]
    );
    let counts: Vec<Vec<u32>> =
        board.0.iter().map(|column| column.iter().map(|c| c.neighbors).collect()).collect();
    assert_eq!(counts, vec![vec![1, 1, 1], vec![2, 2, 1], vec![0, 0, 0]]);
    assert_eq!(board.0[1][0], stable(2));
    assert_eq!(board.0[1][1], stable(2));
    assert_eq!(
        board.0[0][0],
        Cell { decaying: true, decaying_ticks: DECAY_TICKS - 1, dead: false, neighbors: 1 }
    );
    assert_eq!(board.0[0][2], Cell { neighbors: 1, ..dead() });
}

#[test]
fn lone_cell_with_two_ticks_left_dies_in_the_second_tick() {
    let mut board = board_of(3, 3, &[(1, 1)]);
    board.0[1][1].decaying_ticks = 2;

    let changes = tick(&mut board);
    assert_eq!(changes, vec![]);
    assert_eq!(board.0[1][1], Cell { decaying: true, decaying_ticks: 1, dead: false, neighbors: 0 });

    let changes = tick(&mut board);
    assert_eq!(changes, vec![Change { position: Position { x: 1, y: 1 }, dead: true }]);
    assert_eq!(board.0[1][1], Cell { decaying: true, decaying_ticks: 0, dead: true, neighbors: 0 });

    let changes = tick(&mut board);
    assert_eq!(changes, vec![]);
    assert!(board.0[1][1].dead);
    assert_eq!(alive_set(&board), vec![]);
}

#[test]
fn decaying_cell_does_not_recover_among_good_neighbors() {
    let mut board = board_of(3, 3, &[(0, 0), (1, 1), (2, 2)]);
    board.0[1][1] = Cell { decaying: true, decaying_ticks: 1, dead: false, neighbors: 0 };
    tick(&mut board);
    assert_eq!(board.0[1][1], Cell { decaying: true, decaying_ticks: 0, dead: true, neighbors: 2 });
}

#[test]
fn spawned_cell_lives_at_the_end_of_the_same_tick() {
    let mut board = board_of(3, 1, &[(0, 0), (2, 0)]);
    let changes = tick(&mut board);
    assert_eq!(board.0[1][0], stable(2));
    assert_eq!(changes, vec![Change { position: Position { x: 1, y: 0 }, dead: false }]);
}

#[test]
fn lone_stable_cell_dies_after_the_full_countdown() {
    let mut board = board_of(1, 1, &[(0, 0)]);
    for done in 1..DECAY_TICKS {
        let changes = tick(&mut board);
        assert_eq!(changes, vec![]);
        assert_eq!(
            board.0[0][0],
            Cell { decaying: true, decaying_ticks: DECAY_TICKS - done, dead: false, neighbors: 0 }
        );
    }
    let changes = tick(&mut board);
    assert_eq!(changes, vec![Change { position: Position { x: 0, y: 0 }, dead: true }]);
    assert!(board.0[0][0].dead);
}

#[test]
fn nothing_happens_before_the_interval_has_elapsed() {
    let mut board = board_of(3, 3, &[(0, 0), (0, 1)]);
    let before = board.clone();
    let mut timer = FrameTimer { interval_nanos: 100, elapsed_nanos: 0 };
    let changes = process_tick(40, &mut timer, &mut board);
    assert_eq!(changes, vec![]);
    assert_eq!(board, before);
    assert_eq!(timer, FrameTimer { interval_nanos: 100, elapsed_nanos: 40 });
    let changes = process_tick(59, &mut timer, &mut board);
    assert_eq!(changes, vec![]);
    assert_eq!(board, before);
    assert_eq!(timer, FrameTimer { interval_nanos: 100, elapsed_nanos: 99 });
}

#[test]
fn tick_runs_when_the_interval_has_elapsed() {
    let mut board = board_of(3, 3, &[(0, 0), (0, 1)]);
    let mut expected = board.clone();
    let expected_changes = tick(&mut expected);
    let mut timer = FrameTimer { interval_nanos: 100, elapsed_nanos: 40 };
    let changes = process_tick(70, &mut timer, &mut board);
    assert_eq!(changes, expected_changes);
    assert_eq!(changes.len(), 2);
    assert_eq!(board, expected);
    assert_eq!(timer, FrameTimer { interval_nanos: 100, elapsed_nanos: 10 });
}

#[test]
fn timer_finishes_exactly_at_the_interval() {
    let mut board = board_of(1, 1, &[(0, 0)]);
    let mut timer = FrameTimer { interval_nanos: 100, elapsed_nanos: 0 };
    process_tick(100, &mut timer, &mut board);
    assert_eq!(timer.elapsed_nanos, 0);
    assert_eq!(board.0[0][0].decaying_ticks, DECAY_TICKS - 1);
}

#[test]
fn long_frame_runs_one_tick_and_keeps_the_rest() {
    let mut board = board_of(1, 1, &[(0, 0)]);
    let mut timer = FrameTimer { interval_nanos: 100, elapsed_nanos: 30 };
    process_tick(320, &mut timer, &mut board);
    assert_eq!(timer, FrameTimer { interval_nanos: 100, elapsed_nanos: 50 });
    assert_eq!(board.0[0][0].decaying_ticks, DECAY_TICKS - 1);
}

#[test]
fn timer_without_interval_finishes_every_frame() {
    let mut board = board_of(1, 1, &[(0, 0)]);
    let mut timer = FrameTimer { interval_nanos: 0, elapsed_nanos: 7 };
    process_tick(5, &mut timer, &mut board);
    process_tick(0, &mut timer, &mut board);
    assert_eq!(timer, FrameTimer { interval_nanos: 0, elapsed_nanos: 0 });
    assert_eq!(board.0[0][0].decaying_ticks, DECAY_TICKS - 2);
}

#[test]
fn count_of_intervals_is_kept_in_32_bits() {
    let mut board = board_of(1, 1, &[(0, 0)]);
    let before = board.clone();
    let mut timer = FrameTimer { interval_nanos: 1, elapsed_nanos: 0 };
    let changes = process_tick(1 << 32, &mut timer, &mut board);
    assert_eq!(changes, vec![]);
    assert_eq!(board, before);
    assert_eq!(timer, FrameTimer { interval_nanos: 1, elapsed_nanos: 0 });
    process_tick((1 << 32) + 1, &mut timer, &mut board);
    assert_eq!(board.0[0][0].decaying_ticks, DECAY_TICKS - 1);
}

#[test]
fn largest_times_do_not_overflow() {
    let mut board = board_of(1, 1, &[(0, 0)]);
    let mut timer = FrameTimer { interval_nanos: u64::MAX, elapsed_nanos: u64::MAX };
    process_tick(u64::MAX, &mut timer, &mut board);
    assert_eq!(timer, FrameTimer { interval_nanos: u64::MAX, elapsed_nanos: 0 });
    assert_eq!(board.0[0][0].decaying_ticks, DECAY_TICKS - 1);
}

#[test]
fn stay_alive_is_the_opposite_of_decay() {
    for n in 0..=9 {
        assert_eq!(decay_life::rules::should_stay_alive(n), !should_decay(n));
    }
    assert!(decay_life::rules::should_stay_alive(2));
    assert!(decay_life::rules::should_stay_alive(3));
    assert!(!decay_life::rules::should_stay_alive(4));
}

#[test]
fn coordinates_come_by_column_then_row() {
    let board = board_of(2, 3, &[]);
    let p = |x, y| Position { x, y };
    assert_eq!(board.coordinates(), vec![p(0, 0), p(0, 1), p(0, 2), p(1, 0), p(1, 1), p(1, 2)]);
    assert_eq!(Board(vec![]).coordinates(), vec![]);
}

#[test]
fn rectangle_check() {
    assert!(board_of(2, 3, &[]).is_rectangular());
    assert!(Board(vec![]).is_rectangular());
    assert!(!Board(vec![vec![dead()], vec![]]).is_rectangular());
    assert!(!Board(vec![vec![], vec![dead()]]).is_rectangular());
}

#[test]
fn two_runs_from_one_start_agree() {
    let start = board_of(6, 5, &[(1, 1), (1, 2), (2, 2), (3, 3), (4, 1), (4, 2), (0, 4)]);
    let mut first = start.clone();
    let mut second = start.clone();
    for _ in 0..25 {
        let a = tick(&mut first);
        let b = tick(&mut second);
        assert_eq!(a, b);
        assert_eq!(first, second);
    }
    assert_ne!(first, start);
}

#[test]
fn countdown_stays_within_the_decay_duration() {
    let mut board = board_of(6, 5, &[(1, 1), (1, 2), (2, 2), (3, 3), (4, 1), (4, 2), (0, 4)]);
    for _ in 0..40 {
        tick(&mut board);
        for column in &board.0 {
            assert_eq!(column.len(), 5);
            for cell in column {
                assert!(cell.decaying_ticks <= DECAY_TICKS);
            }
        }
    }
}

#[test]
fn empty_board_ticks_to_itself() {
    let mut board = Board(vec![]);
    assert_eq!(tick(&mut board), vec![]);
    assert_eq!(board, Board(vec![]));
}
