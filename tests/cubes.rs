use gear_ratios::cubes::{games_of, possible_games_sum, power_sum, Game, Round};

const GAMES: &str = "Game 1: 3 blue, 4 red; 1 red, 2 green, 6 blue; 2 green
Game 2: 1 blue, 2 green; 3 green, 4 blue, 1 red; 1 green, 1 blue
Game 3: 8 green, 6 blue, 20 red; 5 blue, 4 red, 13 green; 5 green, 1 red
Game 4: 1 green, 3 red, 6 blue; 3 green, 6 red; 3 green, 15 blue, 14 red
Game 5: 6 red, 1 blue, 3 green; 2 blue, 1 red, 2 green
";

#[test]
fn cubes_example_possible_sum() {
    let games = games_of(GAMES).unwrap();
    assert_eq!(games.len(), 5);
    assert_eq!(possible_games_sum(&games), 8);
}

#[test]
fn cubes_example_power_sum() {
    let games = games_of(GAMES).unwrap();
    assert_eq!(power_sum(&games), 2286);
}

#[test]
fn round_parses_counts_by_colour() {
    let r = Round::from_str(" 3 blue, 4 red").unwrap();
    assert_eq!(r, Round { red: 4, green: 0, blue: 3 });
    let later_wins = Round::from_str("1 red, 2 red, 5 purple").unwrap();
    assert_eq!(later_wins, Round { red: 2, green: 0, blue: 0 });
    assert!(Round::from_str("red").is_err());
    assert!(Round::from_str("").is_err());
    assert!(Round::from_str("70000 red").is_err());
}

#[test]
fn game_parses_index_and_rounds() {
    let g = Game::from_str("Game 12: 1 green; 2 blue, 3 red").unwrap();
    assert_eq!(g.index, 12);
    assert_eq!(
        g.rounds,
        vec![Round { red: 0, green: 1, blue: 0 }, Round { red: 3, green: 0, blue: 2 }]
    );
    assert!(Game::from_str("Game 12 1 green").is_err());
    assert!(Game::from_str("Game: 1 green").is_err());
}

#[test]
fn round_limits() {
    assert!(Round { red: 12, green: 13, blue: 14 }.is_valid());
    assert!(!Round { red: 13, green: 0, blue: 0 }.is_valid());
    assert!(!Round { red: 0, green: 14, blue: 0 }.is_valid());
    assert!(!Round { red: 0, green: 0, blue: 15 }.is_valid());
    assert_eq!(Round::new(), Round { red: 0, green: 0, blue: 0 });
}

#[test]
fn fewest_cubes_and_power() {
    let a = Round { red: 4, green: 0, blue: 3 };
    let b = Round { red: 1, green: 2, blue: 6 };
    assert_eq!(a.get_min_required(b), Round { red: 4, green: 2, blue: 6 });
    assert_eq!(Round { red: 4, green: 2, blue: 6 }.power(), 48);
    assert_eq!(Round { red: 65535, green: 65535, blue: 65535 }.power(), 281462092005375);
    let g = Game { index: 1, rounds: vec![a, b, Round { red: 0, green: 2, blue: 0 }] };
    assert_eq!(g.get_max(), Round { red: 4, green: 2, blue: 6 });
    assert!(g.is_valid());
    let empty = Game { index: 9, rounds: vec![] };
    assert_eq!(empty.get_max(), Round::new());
    assert!(empty.is_valid());
}
