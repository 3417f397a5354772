use gear_ratios::races::{beat, get_races, margin_of_error, Race};

#[test]
fn races_example() {
    let races = get_races("Time:      7  15   30\nDistance:  9  40  200\n".to_string()).unwrap();
    assert_eq!(
        races,
        vec![
            Race { duration: 7, record_distance: 9 },
            Race { duration: 15, record_distance: 40 },
            Race { duration: 30, record_distance: 200 },
        ]
    );
    let wins: Vec<u64> = races.iter().map(beat).collect();
    assert_eq!(wins, vec![4, 8, 9]);
    assert_eq!(margin_of_error(&races), Some(288));
}

#[test]
fn races_malformed() {
    assert_eq!(get_races("Time: 7 15\n".to_string()), None);
    assert_eq!(get_races("Time: 7 15\nDistance: 9\n".to_string()), None);
    assert_eq!(get_races("Time: 7 x\nDistance: 9 40\n".to_string()), None);
    assert_eq!(get_races("Time:\nDistance:\n".to_string()), Some(vec![]));
}

#[test]
fn beat_edges() {
    assert_eq!(beat(&Race { duration: 0, record_distance: 0 }), 0);
    assert_eq!(beat(&Race { duration: 2, record_distance: 0 }), 1);
    assert_eq!(beat(&Race { duration: 4, record_distance: 3 }), 1);
    assert_eq!(beat(&Race { duration: 4, record_distance: 4 }), 0);
}

#[test]
fn margin_edges() {
    assert_eq!(margin_of_error(&vec![]), Some(1));
    let none = Race { duration: 1, record_distance: 5 };
    let some = Race { duration: 30, record_distance: 200 };
    assert_eq!(margin_of_error(&vec![some, none]), Some(0));
}
