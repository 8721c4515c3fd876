use agent_core::board::EliminateMove;
use agent_core::combat::{CombatAction, CombatEngine};
use agent_core::grid::GridPos;
use agent_core::ieee::F32Bits;
use agent_core::path::PathfindingEngine;
use agent_core::EliminateEngine;
use rustc_hash::FxHashSet;

fn hp(v: f32) -> F32Bits {
    F32Bits::from_bits(v.to_bits())
}

fn mv(
    from_row: usize,
    from_col: usize,
    to_row: usize,
    to_col: usize,
    score: i32,
    eliminates: usize,
    creates_special: bool,
) -> EliminateMove {
    EliminateMove { from_row, from_col, to_row, to_col, score, eliminates, creates_special }
}

fn blocked(cells: &[(i32, i32)]) -> FxHashSet<(i32, i32)> {
    let mut set = FxHashSet::default();
    for &c in cells {
        set.insert(c);
    }
    set
}

fn step_costs(path: &[GridPos], diagonal: bool) -> i32 {
    let mut total = 0;
    for pair in path.windows(2) {
        let dx = (pair[1].x - pair[0].x).abs();
        let dy = (pair[1].y - pair[0].y).abs();
        assert!(dx <= 1 && dy <= 1 && dx + dy >= 1);
        assert!(diagonal || dx + dy == 1);
        total += if !diagonal {
            1
        } else if dx + dy == 2 {
            14
        } else {
            10
        };
    }
    total
}

#[test]
fn test_pathfinding() {
    let start = GridPos::new(0, 0);
    let goal = GridPos::new(5, 5);
    let obstacles = FxHashSet::default();

    let result = PathfindingEngine::find_path(start, goal, &obstacles, 10, 10);
    assert!(result.found);
    assert_eq!(result.path.first(), Some(&start));
    assert_eq!(result.path.last(), Some(&goal));
}

#[test]
fn test_pathfinding_with_obstacles() {
    let start = GridPos::new(0, 0);
    let goal = GridPos::new(2, 0);
    let mut obstacles = FxHashSet::default();
    obstacles.insert((1, 0));

    let result = PathfindingEngine::find_path(start, goal, &obstacles, 10, 10);
    assert!(result.found);
    assert!(result.path.len() > 3);
}

#[test]
fn test_combat_analysis() {
    let self_pos = GridPos::new(5, 5);
    let enemies = vec![(GridPos::new(7, 5), hp(0.8))];
    let allies = vec![GridPos::new(4, 5)];
    let skill_ready = vec![true, false, false];

    let decisions =
        CombatEngine::analyze_combat(self_pos, hp(0.7), &enemies, &allies, &skill_ready, false);

    assert!(!decisions.is_empty());
}

#[test]
fn open_grid_path_has_cost_ten() {
    let start = GridPos::new(0, 0);
    let goal = GridPos::new(5, 5);
    let result = PathfindingEngine::find_path(start, goal, &FxHashSet::default(), 10, 10);
    assert!(result.found);
    assert_eq!(result.total_cost, 10);
    assert_eq!(result.path.len(), 11);
    assert_eq!(result.path[0], start);
    assert_eq!(result.path[10], goal);
    assert_eq!(step_costs(&result.path, false), 10);
}

#[test]
fn path_goes_round_an_obstacle() {
    let obstacles = blocked(&[(1, 0)]);
    let result =
        PathfindingEngine::find_path(GridPos::new(0, 0), GridPos::new(2, 0), &obstacles, 10, 10);
    assert!(result.found);
    assert_eq!(result.path.len(), 5);
    assert_eq!(result.total_cost, 4);
    assert_eq!(step_costs(&result.path, false), 4);
    for p in &result.path {
        assert!(!obstacles.contains(&(p.x, p.y)));
        assert!(p.x >= 0 && p.x < 10 && p.y >= 0 && p.y < 10);
    }
}

#[test]
fn path_from_a_cell_to_itself() {
    let here = GridPos::new(3, 4);
    let obstacles = blocked(&[(3, 4)]);
    for result in [
        PathfindingEngine::find_path(here, here, &obstacles, 10, 10),
        PathfindingEngine::find_path_8dir(here, here, &obstacles, 10, 10),
        PathfindingEngine::find_path(here, here, &FxHashSet::default(), 0, 0),
    ] {
        assert!(result.found);
        assert_eq!(result.path, vec![here]);
        assert_eq!(result.total_cost, 0);
    }
}

#[test]
fn blocked_goal_is_not_found() {
    let obstacles = blocked(&[(2, 2)]);
    for result in [
        PathfindingEngine::find_path(GridPos::new(0, 0), GridPos::new(2, 2), &obstacles, 5, 5),
        PathfindingEngine::find_path_8dir(GridPos::new(0, 0), GridPos::new(2, 2), &obstacles, 5, 5),
    ] {
        assert!(!result.found);
        assert!(result.path.is_empty());
        assert_eq!(result.total_cost, -1);
    }
}

#[test]
fn walled_off_goal_is_not_found() {
    let obstacles = blocked(&[(2, 0), (2, 1), (2, 2), (2, 3), (2, 4)]);
    for result in [
        PathfindingEngine::find_path(GridPos::new(0, 0), GridPos::new(4, 4), &obstacles, 5, 5),
        PathfindingEngine::find_path_8dir(GridPos::new(0, 0), GridPos::new(4, 4), &obstacles, 5, 5),
        PathfindingEngine::find_path(
            GridPos::new(0, 0),
            GridPos::new(7, 7),
            &FxHashSet::default(),
            5,
            5,
        ),
    ] {
        assert!(!result.found);
        assert!(result.path.is_empty());
        assert_eq!(result.total_cost, -1);
    }
}

#[test]
fn path_through_a_maze_is_shortest() {
    let obstacles = blocked(&[(1, 0), (1, 1), (1, 2), (1, 3), (3, 4), (3, 3), (3, 2), (3, 1)]);
    let result =
        PathfindingEngine::find_path(GridPos::new(0, 0), GridPos::new(4, 4), &obstacles, 5, 5);
    assert!(result.found);
    assert_eq!(result.total_cost, 16);
    assert_eq!(result.path.len(), 17);
    assert_eq!(step_costs(&result.path, false), 16);
    assert_eq!(result.path[0], GridPos::new(0, 0));
    assert_eq!(result.path[16], GridPos::new(4, 4));
    for p in &result.path {
        assert!(!obstacles.contains(&(p.x, p.y)));
    }
}

#[test]
fn start_outside_the_grid_steps_in() {
    let result = PathfindingEngine::find_path(
        GridPos::new(-1, 0),
        GridPos::new(1, 0),
        &FxHashSet::default(),
        3,
        3,
    );
    assert!(result.found);
    assert_eq!(result.total_cost, 2);
    assert_eq!(result.path, vec![GridPos::new(-1, 0), GridPos::new(0, 0), GridPos::new(1, 0)]);
}

#[test]
fn diagonal_path_costs() {
    let result = PathfindingEngine::find_path_8dir(
        GridPos::new(0, 0),
        GridPos::new(5, 5),
        &FxHashSet::default(),
        10,
        10,
    );
    assert!(result.found);
    assert_eq!(result.total_cost, 70);
    assert_eq!(result.path.len(), 6);
    assert_eq!(step_costs(&result.path, true), 70);
    let result = PathfindingEngine::find_path_8dir(
        GridPos::new(0, 0),
        GridPos::new(5, 2),
        &FxHashSet::default(),
        10,
        10,
    );
    assert_eq!(result.total_cost, 58);
    assert_eq!(result.path.len(), 6);
    assert_eq!(step_costs(&result.path, true), 58);
}

#[test]
fn diagonal_steps_do_not_cut_corners() {
    let obstacles = blocked(&[(1, 0)]);
    let result =
        PathfindingEngine::find_path_8dir(GridPos::new(0, 0), GridPos::new(1, 1), &obstacles, 5, 5);
    assert!(result.found);
    assert_eq!(result.total_cost, 20);
    assert_eq!(result.path, vec![GridPos::new(0, 0), GridPos::new(0, 1), GridPos::new(1, 1)]);
    let both = blocked(&[(1, 0), (0, 1)]);
    let result =
        PathfindingEngine::find_path_8dir(GridPos::new(0, 0), GridPos::new(1, 1), &both, 5, 5);
    assert!(!result.found);
    assert_eq!(result.total_cost, -1);
}

#[test]
fn distances_between_cells() {
    let a = GridPos::new(1, -2);
    let b = GridPos::new(-3, 5);
    assert_eq!(a.manhattan_distance(&b), 11);
    assert_eq!(b.manhattan_distance(&a), 11);
    assert_eq!(a.euclidean_distance_sq(&b), 65);
    assert_eq!(a.manhattan_distance(&a), 0);
    assert_eq!(a.chebyshev_wide(&b), 7);
    let far = GridPos::new(i32::MIN, i32::MIN);
    let near = GridPos::new(i32::MAX, i32::MAX);
    assert_eq!(far.manhattan_wide(&near), 2 * (u32::MAX as i64));
}

#[test]
fn skill_is_used_on_an_enemy_in_range() {
    let decisions = CombatEngine::analyze_combat(
        GridPos::new(5, 5),
        hp(0.7),
        &[(GridPos::new(7, 5), hp(0.8))],
        &[GridPos::new(4, 5)],
        &[true, false, false],
        false,
    );
    assert_eq!(decisions.len(), 1);
    assert_eq!(decisions[0].action, CombatAction::UseSkill);
    assert_eq!(decisions[0].target_pos, Some(GridPos::new(7, 5)));
    assert_eq!(decisions[0].priority, 70);
    assert_eq!(decisions[0].reason, "Skill ready, enemy in range");
}

#[test]
fn critical_health_retreats_alone() {
    let decisions = CombatEngine::analyze_combat(
        GridPos::new(5, 5),
        hp(0.19),
        &[(GridPos::new(5, 6), hp(0.1))],
        &[],
        &[true],
        true,
    );
    assert_eq!(decisions.len(), 1);
    assert_eq!(decisions[0].action, CombatAction::Retreat);
    assert_eq!(decisions[0].target_pos, None);
    assert_eq!(decisions[0].priority, 100);
    assert_eq!(decisions[0].reason, "HP critical, must retreat");
}

#[test]
fn tower_without_allies_retreats_alone() {
    let decisions = CombatEngine::analyze_combat(
        GridPos::new(5, 5),
        hp(0.2),
        &[(GridPos::new(5, 6), hp(0.1))],
        &[],
        &[true],
        true,
    );
    assert_eq!(decisions.len(), 1);
    assert_eq!(decisions[0].action, CombatAction::Retreat);
    assert_eq!(decisions[0].priority, 90);
    assert_eq!(decisions[0].reason, "In enemy tower range without allies");
}

#[test]
fn all_three_rules_in_order() {
    let enemies = [
        (GridPos::new(9, 5), hp(0.9)),
        (GridPos::new(5, 8), hp(0.29)),
        (GridPos::new(5, 7), hp(0.1)),
        (GridPos::new(6, 6), hp(0.5)),
        (GridPos::new(4, 4), hp(0.3)),
    ];
    let decisions = CombatEngine::analyze_combat(
        GridPos::new(5, 5),
        hp(0.4),
        &enemies,
        &[GridPos::new(0, 0)],
        &[true],
        true,
    );
    assert_eq!(decisions.len(), 3);
    assert_eq!(decisions[0].action, CombatAction::Attack);
    assert_eq!(decisions[0].target_pos, Some(GridPos::new(5, 8)));
    assert_eq!(decisions[0].priority, 80);
    assert_eq!(decisions[0].reason, "Low HP enemy nearby");
    assert_eq!(decisions[1].action, CombatAction::UseSkill);
    assert_eq!(decisions[1].target_pos, Some(GridPos::new(5, 7)));
    assert_eq!(decisions[1].priority, 70);
    assert_eq!(decisions[2].action, CombatAction::Retreat);
    assert_eq!(decisions[2].target_pos, None);
    assert_eq!(decisions[2].priority, 60);
    assert_eq!(decisions[2].reason, "Outnumbered with low HP");
}

#[test]
fn nothing_to_do_waits() {
    let decisions = CombatEngine::analyze_combat(
        GridPos::new(5, 5),
        hp(0.5),
        &[(GridPos::new(11, 5), hp(0.1)), (GridPos::new(5, 10), hp(0.3))],
        &[],
        &[false, true],
        false,
    );
    assert_eq!(decisions.len(), 1);
    assert_eq!(decisions[0].action, CombatAction::Wait);
    assert_eq!(decisions[0].target_pos, None);
    assert_eq!(decisions[0].priority, 10);
    assert_eq!(decisions[0].reason, "No immediate action needed");
    let nan = CombatEngine::analyze_combat(
        GridPos::new(5, 5),
        hp(f32::NAN),
        &[(GridPos::new(5, 6), hp(f32::NAN))],
        &[],
        &[],
        false,
    );
    assert_eq!(nan.len(), 1);
    assert_eq!(nan[0].action, CombatAction::Wait);
}

#[test]
fn skill_out_of_range_is_not_used() {
    let decisions = CombatEngine::analyze_combat(
        GridPos::new(5, 5),
        hp(0.9),
        &[(GridPos::new(11, 5), hp(0.9)), (GridPos::new(5, 11), hp(0.9))],
        &[GridPos::new(1, 1)],
        &[true],
        true,
    );
    assert_eq!(decisions.len(), 1);
    assert_eq!(decisions[0].action, CombatAction::Wait);
}

#[test]
fn kite_position() {
    let free = FxHashSet::default();
    let here = GridPos::new(5, 5);
    let target = GridPos::new(5, 8);
    assert_eq!(CombatEngine::calculate_kite_position(here, target, 3, &free, 10, 10), Some(here));
    assert_eq!(
        CombatEngine::calculate_kite_position(here, target, 2, &free, 10, 10),
        Some(GridPos::new(5, 6))
    );
    assert_eq!(
        CombatEngine::calculate_kite_position(here, target, 4, &free, 10, 10),
        Some(GridPos::new(5, 4))
    );
    let wall = blocked(&[(5, 4)]);
    assert_eq!(
        CombatEngine::calculate_kite_position(here, target, 4, &wall, 10, 10),
        Some(GridPos::new(6, 5))
    );
    let boxed = blocked(&[(5, 4), (5, 6), (4, 5), (6, 5)]);
    assert_eq!(CombatEngine::calculate_kite_position(here, target, 4, &boxed, 10, 10), None);
    assert_eq!(
        CombatEngine::calculate_kite_position(GridPos::new(0, 0), target, 20, &free, 1, 1),
        None
    );
}

#[test]
fn board_without_a_valid_move() {
    let board = vec![
        vec![1, 1, 2, 3, 4],
        vec![2, 2, 2, 4, 5],
        vec![3, 3, 3, 5, 6],
        vec![4, 4, 4, 6, 1],
        vec![5, 5, 5, 1, 2],
    ];
    assert!(EliminateEngine::find_all_moves(&board).is_empty());
    assert_eq!(EliminateEngine::find_best_move(&board), None);
    assert!(EliminateEngine::find_best_moves(&board, 3).is_empty());
}

#[test]
fn moves_of_a_small_board() {
    let board = vec![vec![1, 2, 1, 1], vec![3, 1, 4, 5], vec![6, 7, 6, 6], vec![6, 2, 3, 4]];
    let moves = EliminateEngine::find_all_moves(&board);
    assert_eq!(
        moves,
        vec![
            mv(0, 0, 0, 1, 30, 3, false),
            mv(2, 0, 2, 1, 30, 3, false),
            mv(0, 1, 1, 1, 90, 4, true),
        ]
    );
    assert_eq!(EliminateEngine::find_best_move(&board), Some(mv(0, 1, 1, 1, 90, 4, true)));
    assert_eq!(
        EliminateEngine::find_best_moves(&board, 2),
        vec![mv(0, 1, 1, 1, 90, 4, true), mv(0, 0, 0, 1, 30, 3, false)]
    );
    assert_eq!(EliminateEngine::find_best_moves(&board, 0), vec![]);
    assert_eq!(EliminateEngine::find_best_moves(&board, 9).len(), 3);
}

#[test]
fn equal_moves_keep_their_order() {
    let board =
        vec![vec![1, 1, 2, 1, 1], vec![3, 4, 1, 5, 6], vec![7, 3, 1, 4, 5], vec![3, 5, 6, 7, 2]];
    assert_eq!(
        EliminateEngine::find_all_moves(&board),
        vec![
            mv(0, 1, 0, 2, 110, 6, true),
            mv(0, 2, 0, 3, 110, 6, true),
            mv(2, 0, 2, 1, 30, 3, false),
            mv(0, 2, 1, 2, 100, 5, true),
        ]
    );
    assert_eq!(EliminateEngine::find_best_move(&board), Some(mv(0, 2, 0, 3, 110, 6, true)));
    assert_eq!(
        EliminateEngine::find_best_moves(&board, 4),
        vec![
            mv(0, 1, 0, 2, 110, 6, true),
            mv(0, 2, 0, 3, 110, 6, true),
            mv(0, 2, 1, 2, 100, 5, true),
            mv(2, 0, 2, 1, 30, 3, false),
        ]
    );
}

#[test]
fn every_listed_move_makes_a_run() {
    let board =
        vec![vec![1, 1, 2, 1, 1], vec![3, 4, 1, 5, 6], vec![7, 3, 1, 4, 5], vec![3, 5, 6, 7, 2]];
    for m in EliminateEngine::find_all_moves(&board) {
        let mut after = board.clone();
        let a = after[m.from_row][m.from_col];
        after[m.from_row][m.from_col] = after[m.to_row][m.to_col];
        after[m.to_row][m.to_col] = a;
        let scored =
            EliminateEngine::evaluate_move(&after, m.from_row, m.from_col, m.to_row, m.to_col)
                .unwrap();
        assert!(scored.eliminates >= 3);
        assert_eq!(scored.eliminates, m.eliminates);
        assert_eq!(scored.score, m.score);
        assert_eq!((scored.from_row, scored.from_col, scored.to_row, scored.to_col), (0, 0, 0, 0));
    }
    assert_eq!(EliminateEngine::evaluate_move(&board, 0, 0, 0, 1), None);
}

#[test]
fn empty_cells_are_never_swapped() {
    let board = vec![vec![1, 2, 0], vec![2, 1, 0], vec![1, 2, 1]];
    assert_eq!(
        EliminateEngine::find_all_moves(&board),
        vec![mv(1, 0, 1, 1, 60, 6, false), mv(1, 1, 2, 1, 30, 3, false)]
    );
    assert!(EliminateEngine::find_all_moves(&[]).is_empty());
    assert!(EliminateEngine::find_all_moves(&[vec![], vec![]]).is_empty());
    assert!(EliminateEngine::find_all_moves(&[vec![1], vec![2], vec![1]]).is_empty());
}

#[test]
fn board_after_a_move() {
    let board = vec![vec![1, 2, 1, 1], vec![3, 1, 4, 5], vec![6, 7, 6, 6], vec![6, 2, 3, 4]];
    assert_eq!(
        EliminateEngine::simulate_move(&board, &EliminateMove::new(2, 0, 2, 1)),
        vec![vec![1, 0, 0, 0], vec![3, 2, 1, 1], vec![7, 1, 4, 5], vec![6, 2, 3, 4]]
    );
    assert_eq!(
        EliminateEngine::simulate_move(&board, &EliminateMove::new(0, 1, 1, 1)),
        vec![vec![0, 0, 0, 0], vec![3, 2, 4, 5], vec![6, 7, 6, 6], vec![6, 2, 3, 4]]
    );
    let crossed =
        vec![vec![1, 1, 2, 1, 1], vec![3, 4, 1, 5, 6], vec![7, 3, 1, 4, 5], vec![3, 5, 6, 7, 2]];
    assert_eq!(
        EliminateEngine::simulate_move(&crossed, &EliminateMove::new(0, 2, 0, 3)),
        vec![vec![0, 0, 0, 2, 1], vec![3, 4, 0, 5, 6], vec![7, 3, 0, 4, 5], vec![3, 5, 6, 7, 2]]
    );
}

#[test]
fn clearing_and_falling() {
    let board = vec![vec![1, 2, 3], vec![4, 4, 4], vec![5, 0, 6], vec![0, 0, 0]];
    assert_eq!(
        EliminateEngine::remove_matches(&board),
        vec![vec![1, 2, 3], vec![0, 0, 0], vec![5, 0, 6], vec![0, 0, 0]]
    );
    assert_eq!(
        EliminateEngine::apply_gravity(&board),
        vec![vec![0, 0, 0], vec![1, 0, 3], vec![4, 2, 4], vec![5, 4, 6]]
    );
}

#[test]
fn move_ranks() {
    let plain = mv(0, 0, 0, 1, 90, 9, false);
    let special = mv(0, 0, 0, 1, 80, 3, true);
    assert!(special.ranks_above(&plain));
    assert!(!plain.ranks_above(&special));
    assert!(mv(0, 0, 0, 1, 40, 3, false).ranks_above(&mv(5, 5, 5, 6, 30, 9, false)));
    assert!(mv(0, 0, 0, 1, 30, 4, false).ranks_above(&mv(5, 5, 5, 6, 30, 3, false)));
    assert!(!plain.ranks_above(&plain));
    assert_eq!(EliminateMove::new(1, 2, 3, 4), mv(1, 2, 3, 4, 0, 0, false));
}

#[test]
fn nearest_safe_position() {
    let free = FxHashSet::default();
    let here = GridPos::new(2, 2);
    assert_eq!(
        PathfindingEngine::find_safe_position(here, &[], &free, 5, 5, 3),
        Some(here)
    );
    let enemy = [GridPos::new(2, 2)];
    let found = PathfindingEngine::find_safe_position(here, &enemy, &free, 5, 5, 2).unwrap();
    assert_eq!(found.manhattan_distance(&here), 2);
    assert_eq!(found, GridPos::new(2, 4));
    assert_eq!(PathfindingEngine::find_safe_position(here, &enemy, &free, 5, 5, 5), None);
    let corner = PathfindingEngine::find_safe_position(here, &enemy, &free, 5, 5, 4).unwrap();
    assert_eq!(corner.manhattan_distance(&here), 4);
    let wall = blocked(&[(2, 3), (1, 2), (3, 2), (1, 1), (2, 0)]);
    assert_eq!(
        PathfindingEngine::find_safe_position(here, &enemy, &wall, 5, 5, 2),
        Some(GridPos::new(3, 1))
    );
    assert_eq!(
        PathfindingEngine::find_safe_position(here, &enemy, &wall, 5, 5, 4),
        Some(GridPos::new(4, 0))
    );
    let shut = blocked(&[(2, 3), (1, 2), (3, 2), (2, 1)]);
    assert_eq!(PathfindingEngine::find_safe_position(here, &enemy, &shut, 5, 5, 1), None);
    let on_a_block = blocked(&[(2, 2)]);
    assert_eq!(
        PathfindingEngine::find_safe_position(here, &[], &on_a_block, 5, 5, 0),
        Some(GridPos::new(2, 3))
    );
    assert_eq!(
        PathfindingEngine::find_safe_position(GridPos::new(-3, 9), &[], &free, 5, 5, 0),
        Some(GridPos::new(-3, 9))
    );
}
