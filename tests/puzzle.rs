use n_puzzle::astar::AStar;
use n_puzzle::direction::Direction;
use n_puzzle::node::Node;
use n_puzzle::solver::{Solve, SolvedState};
use n_puzzle::utils::{
    check_solvability, create_array_with_increasing_value, is_goal, same_state, shuffle_and_check,
};

const GOAL: [i8; 9] = [0, 1, 2, 3, 4, 5, 6, 7, 8];

fn apply(state: [i8; 9], moves: &[Direction]) -> [i8; 9] {
    let mut s = state;
    for d in moves {
        let p = s.iter().position(|v| *v == 0).unwrap();
        let t = match d {
            Direction::Left => {
                assert!(p % 3 > 0);
                p - 1
            }
            Direction::Right => {
                assert!(p % 3 < 2);
                p + 1
            }
            Direction::Up => {
                assert!(p / 3 > 0);
                p - 3
            }
            Direction::Down => {
                assert!(p / 3 < 2);
                p + 3
            }
            Direction::NoMove => p,
        };
        s.swap(p, t);
    }
    s
}

fn solve(state: [i8; 9]) -> SolvedState {
    let mut input = state;
    let mut solver = AStar::new();
    let solved = solver.solve(&mut input).expect("a solvable board is solved");
    assert_eq!(input, state);
    solved
}

#[test]
fn manhattan_of_goal_is_zero() {
    assert_eq!(Node::manhattan_distance(&GOAL), 0);
}

#[test]
fn manhattan_ignores_the_blank() {
    assert_eq!(Node::manhattan_distance(&[1, 0, 2, 3, 4, 5, 6, 7, 8]), 1);
}

#[test]
fn manhattan_of_two_swapped_tiles() {
    assert_eq!(Node::manhattan_distance(&[0, 2, 1, 3, 4, 5, 6, 7, 8]), 2);
}

#[test]
fn manhattan_of_far_corner_tile() {
    assert_eq!(Node::manhattan_distance(&[8, 1, 2, 3, 4, 5, 6, 7, 0]), 4);
    assert_eq!(Node::manhattan_distance(&[8, 7, 6, 5, 4, 3, 2, 1, 0]), 20);
}

#[test]
fn root_node_fields() {
    let root = Node::new([1, 0, 2, 3, 4, 5, 6, 7, 8]);
    assert_eq!(root.length, 0);
    assert_eq!(root.distance, 1);
    assert_eq!(root.value, 1);
    assert_eq!(root.direction, Direction::NoMove);
    assert_eq!(root.parent_node, None);
    assert!(!root.is_ending_node);
    assert!(Node::new(GOAL).is_ending_node);
}

#[test]
fn new_with_parent_copies_the_board() {
    let root = Node::new([1, 0, 2, 3, 4, 5, 6, 7, 8]);
    let c = Node::new_with_parent(&root, 7, Direction::Up);
    assert_eq!(c.puzzle_state, root.puzzle_state);
    assert_eq!(c.length, 1);
    assert_eq!(c.distance, 0);
    assert_eq!(c.value, 0);
    assert_eq!(c.direction, Direction::Up);
    assert_eq!(c.parent_node, Some(7));
    assert!(!c.is_movable);
}

#[test]
fn goal_root_has_two_children() {
    let root = Node::new(GOAL);
    let children = root.get_possible_nodes(0);
    assert_eq!(children.len(), 2);
    assert_eq!(children[0].direction, Direction::Right);
    assert_eq!(children[0].puzzle_state, [1, 0, 2, 3, 4, 5, 6, 7, 8]);
    assert_eq!(children[1].direction, Direction::Down);
    assert_eq!(children[1].puzzle_state, [3, 1, 2, 0, 4, 5, 6, 7, 8]);
    for c in &children {
        assert!(c.is_movable);
        assert_eq!(c.parent_node, Some(0));
        assert_eq!(c.length, 1);
        assert_eq!(c.value, c.length + c.distance);
    }
}

#[test]
fn node_reached_by_left_never_moves_right() {
    let mut node = Node::new([1, 2, 3, 4, 0, 5, 6, 7, 8]);
    node.direction = Direction::Left;
    let children = node.get_possible_nodes(3);
    let dirs: Vec<Direction> = children.iter().map(|c| c.direction).collect();
    assert_eq!(dirs, vec![Direction::Left, Direction::Up, Direction::Down]);
    assert!(!dirs.contains(&Direction::Right));
}

#[test]
fn pruning_for_each_incoming_direction() {
    let centre = [1, 2, 3, 4, 0, 5, 6, 7, 8];
    let cases = [
        (Direction::Right, vec![Direction::Right, Direction::Up, Direction::Down]),
        (Direction::Up, vec![Direction::Left, Direction::Right, Direction::Up]),
        (Direction::Down, vec![Direction::Left, Direction::Right, Direction::Down]),
        (
            Direction::NoMove,
            vec![Direction::Left, Direction::Right, Direction::Up, Direction::Down],
        ),
    ];
    for (incoming, expected) in cases {
        let mut node = Node::new(centre);
        node.direction = incoming;
        let dirs: Vec<Direction> = node.get_possible_nodes(0).iter().map(|c| c.direction).collect();
        assert_eq!(dirs, expected);
    }
}

#[test]
fn move_off_the_board_is_not_movable() {
    let root = Node::new([3, 1, 2, 0, 4, 5, 6, 7, 8]);
    let c = root.left(0);
    assert!(!c.is_movable);
    assert_eq!(c.distance, 0);
    assert_eq!(c.value, 0);
    assert_eq!(c.length, 1);
    assert_eq!(c.puzzle_state, root.puzzle_state);
}

#[test]
fn moves_swap_the_blank() {
    let root = Node::new([1, 2, 3, 4, 0, 5, 6, 7, 8]);
    assert_eq!(root.left(0).puzzle_state, [1, 2, 3, 0, 4, 5, 6, 7, 8]);
    assert_eq!(root.right(0).puzzle_state, [1, 2, 3, 4, 5, 0, 6, 7, 8]);
    assert_eq!(root.up(0).puzzle_state, [1, 0, 3, 4, 2, 5, 6, 7, 8]);
    assert_eq!(root.down(0).puzzle_state, [1, 2, 3, 4, 7, 5, 6, 0, 8]);
    let up = root.up(0);
    assert_eq!(up.distance, Node::manhattan_distance(&up.puzzle_state));
    assert_eq!(up.value, 1 + up.distance);
}

#[test]
fn child_reaching_goal_is_ending_node() {
    let root = Node::new([1, 0, 2, 3, 4, 5, 6, 7, 8]);
    let c = root.left(0);
    assert!(c.is_movable);
    assert!(c.is_ending_node);
    assert_eq!(c.distance, 0);
    assert!(Node::check_completion(&c));
    assert!(!root.right(0).is_ending_node);
}

#[test]
fn out_of_bounds_at_edges() {
    assert!(Node::is_out_of_bounds(0, Direction::Left));
    assert!(Node::is_out_of_bounds(0, Direction::Up));
    assert!(!Node::is_out_of_bounds(0, Direction::Right));
    assert!(!Node::is_out_of_bounds(0, Direction::Down));
    assert!(Node::is_out_of_bounds(3, Direction::Left));
    assert!(Node::is_out_of_bounds(5, Direction::Right));
    assert!(Node::is_out_of_bounds(8, Direction::Down));
    assert!(Node::is_out_of_bounds(2, Direction::Right));
    assert!(!Node::is_out_of_bounds(4, Direction::Up));
    assert!(!Node::is_out_of_bounds(4, Direction::NoMove));
}

#[test]
fn blank_index_finds_the_blank() {
    assert_eq!(Node::blank_index(&GOAL), 0);
    assert_eq!(Node::blank_index(&[1, 2, 3, 4, 5, 6, 7, 8, 0]), 8);
}

#[test]
fn goal_input_gives_empty_moves() {
    let solved = solve(GOAL);
    assert!(solved.moves.is_empty());
    assert_eq!(solved.puzzle_state, GOAL);
}

#[test]
fn one_move_scramble() {
    let start = [1, 0, 2, 3, 4, 5, 6, 7, 8];
    let solved = solve(start);
    assert_eq!(solved.moves, vec![Direction::Left]);
    assert_eq!(solved.puzzle_state, GOAL);
}

#[test]
fn three_move_scramble_is_solved_in_three() {
    let start = apply(GOAL, &[Direction::Right, Direction::Down, Direction::Left]);
    assert_eq!(start, [1, 4, 2, 0, 3, 5, 6, 7, 8]);
    let solved = solve(start);
    assert_eq!(solved.moves, vec![Direction::Right, Direction::Up, Direction::Left]);
    assert_eq!(solved.puzzle_state, GOAL);
    assert_eq!(apply(start, &solved.moves), GOAL);
}

#[test]
fn goal_input_expands_nothing() {
    let mut input = GOAL;
    let mut solver = AStar::new();
    let solved = solver.solve(&mut input).unwrap();
    assert!(solved.moves.is_empty());
    assert!(solver.closed_list.is_empty());
    assert_eq!(solver.nodes.len(), 1);
}

#[test]
fn returned_path_has_no_reversals() {
    let start = [3, 2, 8, 4, 1, 6, 5, 7, 0];
    let solved = solve(start);
    assert_eq!(apply(start, &solved.moves), GOAL);
    for (k, d) in solved.moves.iter().enumerate() {
        assert_ne!(*d, Direction::NoMove);
        if k + 1 < solved.moves.len() {
            let back = match d {
                Direction::Left => Direction::Right,
                Direction::Right => Direction::Left,
                Direction::Up => Direction::Down,
                Direction::Down => Direction::Up,
                Direction::NoMove => Direction::NoMove,
            };
            assert_ne!(solved.moves[k + 1], back);
        }
    }
}

#[test]
fn first_seen_policy_can_return_a_longer_path() {
    let start = [1, 5, 8, 3, 7, 4, 6, 2, 0];
    let (l, r, u, d) = (Direction::Left, Direction::Right, Direction::Up, Direction::Down);
    let shorter = [u, l, d, r, u, u, l, d, d, r, u, u, l, l];
    assert_eq!(apply(start, &shorter), GOAL);
    let solved = solve(start);
    assert_eq!(apply(start, &solved.moves), GOAL);
    assert_eq!(solved.moves.len(), 16);
}

#[test]
fn moves_replay_to_the_final_state() {
    let start = apply(
        GOAL,
        &[
            Direction::Down,
            Direction::Right,
            Direction::Right,
            Direction::Up,
            Direction::Left,
            Direction::Down,
            Direction::Down,
            Direction::Left,
        ],
    );
    assert!(check_solvability(&start));
    assert!(!check_solvability(&[5, 2, 3, 1, 8, 4, 6, 0, 7]));
    let solved = solve(start);
    assert_eq!(solved.puzzle_state, GOAL);
    assert_eq!(apply(start, &solved.moves), solved.puzzle_state);
}

#[test]
fn longer_scramble_round_trip_and_bound() {
    let fixture = [
        Direction::Down,
        Direction::Right,
        Direction::Down,
        Direction::Right,
        Direction::Up,
        Direction::Left,
    ];
    let start = apply(GOAL, &fixture);
    let solved = solve(start);
    assert!(solved.moves.len() <= fixture.len());
    assert_eq!(apply(start, &solved.moves), GOAL);
}

#[test]
fn step_closes_one_node_without_duplicates() {
    let mut solver = AStar::new();
    assert!(solver.nodes.is_empty());
    assert!(!solver.is_ending_node_reached);
    solver.start([1, 4, 2, 0, 3, 5, 6, 7, 8]);
    assert_eq!(solver.open_list, vec![0]);
    assert!(solver.closed_list.is_empty());
    solver.step();
    assert_eq!(solver.closed_list, vec![0]);
    assert_eq!(solver.open_list.len() + solver.closed_list.len(), solver.nodes.len());
    for _ in 0..5 {
        if solver.is_ending_node_reached || solver.open_list.is_empty() {
            break;
        }
        solver.step();
    }
    for a in &solver.open_list {
        assert!(!solver.closed_list.contains(a));
    }
    for (i, a) in solver.nodes.iter().enumerate() {
        for b in &solver.nodes[i + 1..] {
            assert_ne!(a.puzzle_state, b.puzzle_state);
        }
    }
}

#[test]
fn default_search_is_empty() {
    let solver = AStar::default();
    assert!(solver.nodes.is_empty());
    assert!(solver.open_list.is_empty());
    assert!(solver.closed_list.is_empty());
    assert!(solver.ending_node.is_none());
    assert!(!solver.is_ending_node_reached);
}

#[test]
fn min_index_takes_first_least_score() {
    let mut solver = AStar::new();
    solver.start([1, 4, 2, 0, 3, 5, 6, 7, 8]);
    solver.step();
    let k = solver.min_index();
    let best = solver.nodes[solver.open_list[k]].value;
    for (j, i) in solver.open_list.iter().enumerate() {
        assert!(best <= solver.nodes[*i].value);
        if j < k {
            assert!(best < solver.nodes[*i].value);
        }
    }
    assert!(solver.contains_state(&[1, 4, 2, 0, 3, 5, 6, 7, 8]));
    assert!(!solver.contains_state(&[8, 7, 6, 5, 4, 3, 2, 1, 0]));
}

#[test]
fn solvability_parity() {
    assert!(check_solvability(&GOAL));
    assert!(check_solvability(&[1, 0, 2, 3, 4, 5, 6, 7, 8]));
    assert!(!check_solvability(&[0, 2, 1, 3, 4, 5, 6, 7, 8]));
    assert!(check_solvability(&[8, 7, 6, 5, 4, 3, 2, 1, 0]));
    assert!(!check_solvability(&[8, 7, 6, 5, 4, 3, 1, 2, 0]));
}

#[test]
fn increasing_array_is_goal() {
    let a = create_array_with_increasing_value();
    assert_eq!(a, GOAL);
    assert!(is_goal(&a));
    assert!(!is_goal(&[1, 0, 2, 3, 4, 5, 6, 7, 8]));
}

#[test]
fn same_state_compares_cells() {
    assert!(same_state(&GOAL, &[0, 1, 2, 3, 4, 5, 6, 7, 8]));
    assert!(!same_state(&GOAL, &[0, 1, 2, 3, 4, 5, 6, 8, 7]));
}

#[test]
fn shuffle_keeps_values_and_reports_parity() {
    let mut changed = false;
    for _ in 0..20 {
        let mut s = GOAL;
        let ok = shuffle_and_check(&mut s);
        assert_eq!(ok, check_solvability(&s));
        let mut sorted = s;
        sorted.sort();
        assert_eq!(sorted, GOAL);
        if s != GOAL {
            changed = true;
        }
    }
    assert!(changed);
}

#[test]
fn solved_state_new_keeps_fields() {
    let s = SolvedState::new(GOAL, vec![Direction::Up, Direction::Left]);
    assert_eq!(s.puzzle_state, GOAL);
    assert_eq!(s.moves, vec![Direction::Up, Direction::Left]);
}
