use gear_ratios::almanac::{create_map, get, get_maps, get_seeds, Almanac, MapRange};

const ALMANAC: &str = "seeds: 79 14 55 13

seed-to-soil map:
50 98 2
52 50 48

soil-to-fertilizer map:
0 15 37
37 52 2
39 0 15

fertilizer-to-water map:
49 53 8
0 11 42
42 0 7
57 7 4

water-to-light map:
88 18 7
18 25 70

light-to-temperature map:
45 77 23
81 45 19
68 64 13

temperature-to-humidity map:
0 69 1
1 0 69

humidity-to-location map:
60 56 37
56 93 4
";

#[test]
fn seeds_example() {
    let almanac = Almanac::from(ALMANAC.to_string()).unwrap();
    assert_eq!(almanac.seeds, vec![79, 14, 55, 13]);
    assert_eq!(almanac.maps.len(), 7);
    assert_eq!(almanac.traverse(), Some(vec![82, 43, 86, 35]));
    assert_eq!(almanac.lowest_location(), Some(35));
}

#[test]
fn get_moves_covered_seeds_only() {
    let map = vec![
        MapRange { start: 98, last: 99, jump: -48 },
        MapRange { start: 50, last: 97, jump: 2 },
    ];
    assert_eq!(get(&map, 79), Some(81));
    assert_eq!(get(&map, 98), Some(50));
    assert_eq!(get(&map, 14), Some(14));
    assert_eq!(get(&map, 100), Some(100));
    let far = vec![MapRange { start: 0, last: 10, jump: i64::MAX }];
    assert_eq!(get(&far, 5), None);
}

#[test]
fn seeds_line_parses() {
    assert_eq!(get_seeds("seeds: 1 2 3\n\nx map:\n1 2 3"), Some(vec![1, 2, 3]));
    assert_eq!(get_seeds("4 5"), Some(vec![4, 5]));
    assert_eq!(get_seeds("seeds: 1 b"), None);
}

#[test]
fn map_blocks_parse() {
    let block: Vec<Vec<char>> =
        vec!["seed-to-soil map:".chars().collect(), "50 98 2".chars().collect()];
    assert_eq!(create_map(&block), Some(vec![MapRange { start: 98, last: 99, jump: -48 }]));
    let bad: Vec<Vec<char>> = vec!["map 2:".chars().collect()];
    assert_eq!(create_map(&bad), None);
    let short: Vec<Vec<char>> = vec!["m:".chars().collect(), "1 2".chars().collect()];
    assert_eq!(create_map(&short), None);
    assert_eq!(get_maps("seeds: 1"), None);
    let maps = get_maps("seeds: 1\n\na:\n1 2 3\n\nb:\n").unwrap();
    assert_eq!(maps, vec![vec![MapRange { start: 2, last: 4, jump: -1 }], vec![]]);
}

#[test]
fn lowest_location_needs_seeds() {
    let empty = Almanac { seeds: vec![], maps: vec![] };
    assert_eq!(empty.lowest_location(), None);
    let one = Almanac { seeds: vec![7], maps: vec![] };
    assert_eq!(one.lowest_location(), Some(7));
}
