use water_sort::color::Color;
use water_sort::game::Game;
use water_sort::tube::Tube;

fn for_many_tubes<F>(closure: F)
where
    F: Fn([u8; 4]),
{
    for a in 0..10 {
        for b in 64..74 {
            for c in 128..138 {
                for d in 196..206 {
                    closure([a, b, c, d]);
                }
            }
        }
    }
}

#[test]
fn lib_color_constructor() {
    assert_eq!(Color::new(0), Color::Empty);
    assert_eq!(Color::new(255), Color::Full(255));
}

#[test]
fn lib_empty_color_is_empty() {
    assert!(Color::Empty.is_empty());
    assert!(!Color::Empty.is_value());
}

#[test]
fn lib_full_color_is_full() {
    assert!(Color::new(3).is_value());
    assert!(!Color::new(67).is_empty());
}

#[test]
fn lib_tube_constructor() {
    assert_eq!(
        Tube::new([0; 4], 0),
        Tube {
            colors: [Color::Empty; 4],
            id: 0
        }
    );
    for_many_tubes(|colors| {
        assert_eq!(
            Tube::new(colors, 0),
            Tube {
                colors: [
                    Color::new(colors[0]),
                    Color::new(colors[1]),
                    Color::new(colors[2]),
                    Color::new(colors[3])
                ],
                id: 0
            }
        );
    });
}

#[test]
fn lib_can_pour_into_empty() {
    let mut tube = Tube::new([1, 2, 3, 4], 0);
    let mut empty = Tube::new([0, 0, 0, 0], 0);
    assert!(tube.pour(&mut empty));
    assert_eq!(tube, Tube::new([0, 2, 3, 4], 0));
    empty = Tube::new([0, 0, 0, 0], 0);
    assert!(tube.pour(&mut empty));
    assert_eq!(tube, Tube::new([0, 0, 3, 4], 0));
}

#[test]
fn lib_can_pour_into_partialy_full() {
    let mut tube = Tube::new([1, 2, 3, 4], 0);
    let mut partial = Tube::new([0, 1, 1, 1], 0);
    assert!(tube.pour(&mut partial));
    assert_eq!(tube, Tube::new([0, 2, 3, 4], 0));
    assert_eq!(partial, Tube::new([1, 1, 1, 1], 0));
}

#[test]
fn lib_can_pour_multiple() {
    let mut tube = Tube::new([1, 1, 2, 3], 0);
    let mut into = Tube::new([0, 0, 1, 1], 0);
    assert!(tube.pour(&mut into));
    assert_eq!(tube, Tube::new([0, 0, 2, 3], 0));
    assert_eq!(into, Tube::new([1, 1, 1, 1], 0));
}

#[test]
fn lib_cant_pour_underneath() {
    let mut tube = Tube::new([1, 1, 2, 1], 0);
    let mut into = Tube::new([0, 0, 0, 0], 0);
    assert!(tube.pour(&mut into));
    assert_eq!(tube, Tube::new([0, 0, 2, 1], 0));
    assert_eq!(into, Tube::new([0, 0, 1, 1], 0));
}

#[test]
fn lib_pours_partial() {
    let mut tube = Tube::new([1, 1, 2, 3], 0);
    let mut into = Tube::new([0, 1, 2, 3], 0);
    assert!(tube.pour(&mut into));
    assert_eq!(tube, Tube::new([0, 1, 2, 3], 0));
    assert_eq!(into, Tube::new([1, 1, 2, 3], 0));
}

#[test]
fn lib_cant_pour_into_full() {
    let mut tube = Tube::new([0, 0, 1, 2], 0);
    let mut into = Tube::new([1, 2, 3, 4], 0);
    assert!(!tube.pour(&mut into));
    assert_eq!(tube, Tube::new([0, 0, 1, 2], 0));
    assert_eq!(into, Tube::new([1, 2, 3, 4], 0));
}

#[test]
fn lib_cant_pour_wrong_color() {
    let mut tube = Tube::new([1, 2, 3, 4], 0);
    let mut into = Tube::new([0, 0, 2, 3], 0);
    assert!(!tube.pour(&mut into));
    assert_eq!(tube, Tube::new([1, 2, 3, 4], 0));
    assert_eq!(into, Tube::new([0, 0, 2, 3], 0));
}

#[test]
fn lib_cant_pour_nothing() {
    let mut tube = Tube::new([0, 0, 0, 0], 0);
    let mut into = Tube::new([0, 0, 0, 0], 0);
    assert!(!tube.pour(&mut into));
    into = Tube::new([0, 0, 1, 2], 0);
    assert!(!tube.pour(&mut into));
}

#[test]
fn lib_tube_index() {
    for_many_tubes(|colors| {
        let tube = Tube::new(colors, 0);
        assert_eq!(tube[0], Color::new(colors[0]));
        assert_eq!(tube[1], Color::new(colors[1]));
        assert_eq!(tube[2], Color::new(colors[2]));
        assert_eq!(tube[3], Color::new(colors[3]));
        assert_eq!(tube[4], Color::Empty);
    });
}

#[test]
fn lib_game_constructor() {
    let game = Game::new(vec![[1, 2, 3, 4], [0; 4]]);
    assert_eq!(
        game,
        Game {
            state: vec![Tube::new([1, 2, 3, 4], 1), Tube::new([0, 0, 0, 0], 2)],
            moves: vec![]
        }
    );
}

#[test]
fn cant_pour_into_self() {
    let mut game = Game::new(vec![[1, 2, 3, 4]]);
    assert!(!game.pour(0, 0));
}

#[test]
fn lib_basic_moves() {
    let game = Game::new(vec![[1, 2, 3, 4], [0; 4]]);
    let moves = game.moves();
    assert_eq!(moves, vec![Game::new(vec![[0, 0, 0, 1], [0, 2, 3, 4]])]);
}

#[test]
fn lib_simple_moves() {
    let game = Game::new(vec![[1, 1, 1, 3], [1, 2, 3, 4], [0; 4]]);
    let moves = game.moves();
    println!("{:?}", moves);
    assert!(moves.contains(&Game::new(vec![[0, 0, 0, 3], [0, 1, 1, 1], [1, 2, 3, 4]])));
    assert!(moves.contains(&Game::new(vec![[0, 0, 0, 1], [0, 2, 3, 4], [1, 1, 1, 3]])));
}

#[test]
fn lib_duplicate_moves() {
    let game = Game::new(vec![[1, 1, 3, 4], [0; 4], [0; 4]]);
    let moves = game.moves();
    assert_eq!(
        moves,
        vec![Game::new(vec![[0; 4], [0, 0, 1, 1], [0, 0, 3, 4]])]
    );
}
