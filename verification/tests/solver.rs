use water_sort::game::Game;
use water_sort::solver::{comes_before, Solver};

fn replay(layout: Vec<[u8; 4]>, solution: &[(usize, usize)]) -> Game {
    let mut game = Game::new(layout);
    for &(from, to) in solution {
        let a = game.tube(from);
        let b = game.tube(to);
        assert!(game.pour(a, b));
    }
    game
}

#[test]
fn two_colors_take_seven_moves() {
    let layout = vec![[1, 2, 1, 2], [2, 1, 2, 1], [0, 0, 0, 0]];
    let game = Game::new(layout.clone());
    assert!(game.check_valid());
    let mut solver = Solver::new(game);
    let solutions = solver.get_solutions();
    assert!(!solutions.is_empty());
    for solution in &solutions {
        assert_eq!(solution.len(), 7);
        assert!(replay(layout.clone(), solution).is_solved());
    }
}

#[test]
fn solutions_come_in_descending_order() {
    let game = Game::new(vec![[1, 2, 1, 2], [2, 1, 2, 1], [0, 0, 0, 0]]);
    let mut solver = Solver::new(game);
    let solutions = solver.get_solutions();
    for pair in solutions.windows(2) {
        assert!(pair[0] >= pair[1]);
        assert!(!comes_before(&pair[0], &pair[1]));
    }
}

#[test]
fn full_tubes_cannot_be_solved() {
    let game = Game::new(vec![[1, 2, 1, 2], [2, 1, 2, 1]]);
    assert!(game.check_valid());
    let mut solver = Solver::new(game);
    assert!(!solver.next_move());
    assert_eq!(solver.pending(), 0);
    assert_eq!(solver.get_solutions(), Vec::<Vec<(usize, usize)>>::new());
}

#[test]
fn ended_search_stays_as_it_is() {
    let game = Game::new(vec![[1, 2, 1, 2], [2, 1, 2, 1], [0, 0, 0, 0]]);
    let mut solver = Solver::new(game);
    let first = solver.get_solutions();
    assert!(!solver.next_move());
    let second = solver.get_solutions();
    assert_eq!(first, second);
}

#[test]
fn one_pour_solves_two_halves() {
    let layout = vec![[0, 0, 1, 1], [0, 0, 1, 1]];
    let mut solver = Solver::new(Game::new(layout.clone()));
    let solutions = solver.get_solutions();
    assert_eq!(solutions, vec![vec![(1, 2)]]);
    assert!(replay(layout, &solutions[0]).is_solved());
}

#[test]
fn three_colors_are_sorted() {
    let layout = vec![
        [1, 2, 3, 1],
        [2, 3, 1, 2],
        [3, 1, 2, 3],
        [0, 0, 0, 0],
        [0, 0, 0, 0],
    ];
    let game = Game::new(layout.clone());
    assert!(game.check_valid());
    let mut solver = Solver::new(game);
    let solutions = solver.get_solutions();
    assert!(!solutions.is_empty());
    let length = solutions[0].len();
    for solution in &solutions {
        assert_eq!(solution.len(), length);
        assert!(replay(layout.clone(), solution).is_solved());
    }
}

#[test]
fn move_lists_are_compared_pair_by_pair() {
    assert!(comes_before(&vec![(1, 2)], &vec![(1, 3)]));
    assert!(comes_before(&vec![(1, 9)], &vec![(2, 0)]));
    assert!(comes_before(&vec![(1, 2)], &vec![(1, 2), (0, 0)]));
    assert!(!comes_before(&vec![(1, 2)], &vec![(1, 2)]));
    assert!(!comes_before(&vec![(1, 2), (0, 0)], &vec![(1, 2)]));
    assert!(!comes_before(&vec![], &vec![]));
    assert!(comes_before(&vec![], &vec![(0, 0)]));
}

#[test]
fn a_solved_puzzle_has_no_solutions() {
    let game = Game::new(vec![[1, 1, 1, 1], [0, 0, 0, 0]]);
    assert!(game.is_solved());
    let mut solver = Solver::new(game);
    assert_eq!(solver.get_solutions(), Vec::<Vec<(usize, usize)>>::new());
    assert_eq!(solver.pending(), 0);
}

#[test]
fn a_round_moves_the_frontier_one_pour_on() {
    let game = Game::new(vec![[1, 2, 1, 2], [2, 1, 2, 1], [0, 0, 0, 0]]);
    let mut solver = Solver::new(game);
    assert_eq!(solver.pending(), 1);
    assert!(solver.next_move());
    assert_eq!(solver.pending(), 2);
    assert!(solver.next_move());
    assert_eq!(solver.pending(), 2);
}

fn layout_of(game: &Game) -> Vec<[u16; 4]> {
    let mut layout: Vec<[u16; 4]> = game
        .state
        .iter()
        .map(|tube| {
            [
                tube[0].ordinal(),
                tube[1].ordinal(),
                tube[2].ordinal(),
                tube[3].ordinal(),
            ]
        })
        .collect();
    layout.sort();
    layout
}

fn shortest_by_plain_search(layout: Vec<[u8; 4]>) -> Option<usize> {
    let root = Game::new(layout);
    let mut seen = std::collections::HashSet::new();
    seen.insert(layout_of(&root));
    let mut frontier = vec![root];
    let mut depth = 0;
    while !frontier.is_empty() {
        depth += 1;
        let mut next = Vec::new();
        for game in &frontier {
            for a in 0..game.state.len() {
                for b in 0..game.state.len() {
                    if let Some(after) = game.try_pour(a, b) {
                        if after.is_solved() {
                            return Some(depth);
                        }
                        if seen.insert(layout_of(&after)) {
                            next.push(after);
                        }
                    }
                }
            }
        }
        frontier = next;
    }
    None
}

#[test]
fn no_shorter_solution_exists() {
    let layouts: Vec<Vec<[u8; 4]>> = vec![
        vec![[1, 2, 1, 2], [2, 1, 2, 1], [0, 0, 0, 0]],
        vec![[0, 0, 1, 1], [0, 0, 1, 1]],
        vec![[1, 2, 1, 2], [2, 1, 2, 1]],
        vec![[1, 2, 3, 1], [2, 3, 1, 2], [3, 1, 2, 3], [0, 0, 0, 0], [0, 0, 0, 0]],
        vec![[1, 1, 2, 2], [2, 2, 1, 1], [0, 0, 0, 0]],
        vec![[0, 1, 2, 1], [0, 2, 1, 2], [0, 0, 0, 0]],
    ];
    for layout in layouts {
        let mut solver = Solver::new(Game::new(layout.clone()));
        let solutions = solver.get_solutions();
        match shortest_by_plain_search(layout.clone()) {
            Some(length) => {
                assert!(!solutions.is_empty());
                for solution in &solutions {
                    assert_eq!(solution.len(), length);
                    assert!(replay(layout.clone(), solution).is_solved());
                }
            }
            None => assert!(solutions.is_empty()),
        }
    }
}

#[test]
fn each_solved_state_is_found_once() {
    let layout = vec![[1, 2, 1, 2], [2, 1, 2, 1], [0, 0, 0, 0]];
    let mut solver = Solver::new(Game::new(layout.clone()));
    let solutions = solver.get_solutions();
    let ends: Vec<Game> = solutions
        .iter()
        .map(|solution| replay(layout.clone(), solution))
        .collect();
    for i in 0..ends.len() {
        for j in 0..i {
            assert_ne!(ends[i], ends[j]);
        }
    }
}

#[test]
fn replaying_a_solution_solves_the_puzzle() {
    let layout = vec![[1, 2, 1, 2], [2, 1, 2, 1], [0, 0, 0, 0]];
    let mut solver = Solver::new(Game::new(layout.clone()));
    for solution in solver.get_solutions() {
        let mut game = Game::new(layout.clone());
        game.replay(&solution);
        assert!(game.is_solved());
        assert!(game.moves.is_empty());
        let ids: Vec<usize> = game.state.iter().map(|tube| tube.id).collect();
        assert_eq!(ids, vec![1, 2, 3]);
    }
}
