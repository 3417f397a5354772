use gear_ratios::schematic::{
    has_punctuation, locate_runs, part1, DigitRun, Number, Schematic, SchematicError,
};

const EXAMPLE: &str = "467..114..
...*......
..35..633.
......#...
617*......
.....+.58.
..592.....
......755.
...$.*....
.664.598..
";

fn sum(text: &str) -> Result<u128, SchematicError> {
    part1(text.to_string())
}

#[test]
fn main_example() {
    assert_eq!(sum(EXAMPLE), Ok(4361));
}

#[test]
fn example_with_crlf_lines() {
    let text = EXAMPLE.replace('\n', "\r\n");
    assert_eq!(part1(text), Ok(4361));
}

#[test]
fn example_parts_are_the_expected_numbers() {
    let g = Schematic::new(EXAMPLE.to_string()).unwrap();
    let numbers = g.to_numbers().unwrap();
    let all: Vec<u64> = numbers.iter().map(|n| n.number).collect();
    assert_eq!(all, vec![467, 114, 35, 633, 617, 58, 592, 755, 664, 598]);
    let parts: Vec<u64> = numbers.iter().filter_map(|n| n.part_number()).collect();
    assert_eq!(parts, vec![467, 35, 633, 617, 592, 755, 664, 598]);
}

#[test]
fn same_input_same_sum() {
    assert_eq!(sum(EXAMPLE), sum(EXAMPLE));
    let g = Schematic::new(EXAMPLE.to_string()).unwrap();
    assert_eq!(g.to_numbers().unwrap().len(), g.to_numbers().unwrap().len());
}

#[test]
fn no_symbols_sum_zero() {
    assert_eq!(sum("12..5\n..34.\n7...9"), Ok(0));
}

#[test]
fn no_digits_sum_zero() {
    assert_eq!(sum("..#..\n*...$\n....."), Ok(0));
}

#[test]
fn single_filler_row_sums_zero() {
    assert_eq!(sum("....."), Ok(0));
}

#[test]
fn single_row_number_sums_zero() {
    assert_eq!(sum("123"), Ok(0));
}

#[test]
fn run_at_left_edge_sees_symbol_below() {
    assert_eq!(sum("12..\n...*"), Ok(0));
    assert_eq!(sum("12..\n..*."), Ok(12));
    assert_eq!(sum("12..\n.*.."), Ok(12));
    assert_eq!(sum("12..\n...#\n45.."), Ok(0));
    assert_eq!(sum("12..\n..#.\n45.."), Ok(57));
}

#[test]
fn run_at_right_edge_sees_symbol_above() {
    assert_eq!(sum(".#..\n..78"), Ok(78));
    assert_eq!(sum("#...\n..78"), Ok(0));
}

#[test]
fn flanked_single_digit_qualifies() {
    assert_eq!(sum("..*7.."), Ok(7));
    assert_eq!(sum("..7#.."), Ok(7));
    assert_eq!(sum("5$"), Ok(5));
}

#[test]
fn diagonal_symbols_qualify() {
    assert_eq!(sum("*....\n.42..\n....."), Ok(42));
    assert_eq!(sum(".....\n.42..\n...+."), Ok(42));
    assert_eq!(sum(".....\n.42..\n....+"), Ok(0));
}

#[test]
fn neighbouring_digits_are_no_symbol() {
    assert_eq!(sum("12.\n.34\n..."), Ok(0));
}

#[test]
fn whitespace_inside_a_row_is_a_symbol() {
    assert_eq!(sum("12 .\n...."), Ok(12));
}

#[test]
fn surrounding_whitespace_is_trimmed() {
    assert_eq!(sum("\n\n  .1*.\n....\n \n"), Ok(1));
}

#[test]
fn empty_input_is_malformed() {
    assert_eq!(sum(""), Err(SchematicError::MalformedGrid));
    assert_eq!(sum(" \n\t\r\n"), Err(SchematicError::MalformedGrid));
}

#[test]
fn ragged_rows_are_malformed() {
    assert_eq!(sum("12.\n..\n..."), Err(SchematicError::MalformedGrid));
    assert!(Schematic::new("1.\n.#.".to_string()).is_err());
}

#[test]
fn oversized_number_fails_to_parse() {
    assert_eq!(sum("18446744073709551615*"), Ok(18446744073709551615));
    assert_eq!(sum("18446744073709551616*"), Err(SchematicError::NumberParse));
    assert_eq!(sum("99999999999999999999."), Err(SchematicError::NumberParse));
}

#[test]
fn leading_zeros_are_insignificant() {
    assert_eq!(sum("007*"), Ok(7));
    assert_eq!(sum("000000000000000000000000001*"), Ok(1));
    assert_eq!(sum("00#"), Ok(0));
}

#[test]
fn sum_may_exceed_u64() {
    let text = "18446744073709551615*18446744073709551615";
    assert_eq!(sum(text), Ok(2 * 18446744073709551615u128));
}

#[test]
fn locate_runs_finds_maximal_runs() {
    let line: Vec<char> = "12.3..456".chars().collect();
    let runs = locate_runs(&line, 4);
    assert_eq!(
        runs,
        vec![
            DigitRun { row: 4, start: 0, end: 2 },
            DigitRun { row: 4, start: 3, end: 4 },
            DigitRun { row: 4, start: 6, end: 9 },
        ]
    );
    let none: Vec<char> = "...#".chars().collect();
    assert!(locate_runs(&none, 0).is_empty());
}

#[test]
fn number_window_is_clipped() {
    let g = Schematic::new("12.\n*..\n.34".to_string()).unwrap();
    assert_eq!(g.height(), 3);
    assert_eq!(g.width(), 3);
    let first = Number::new(&g, &DigitRun { row: 0, start: 0, end: 2 }).unwrap();
    assert_eq!(first.prev_line, None);
    assert_eq!(first.line, vec!['1', '2', '.']);
    assert_eq!(first.next_line, Some(vec!['*', '.', '.']));
    assert_eq!(first.number, 12);
    assert_eq!(first.part_number(), Some(12));
    let last = Number::new(&g, &DigitRun { row: 2, start: 1, end: 3 }).unwrap();
    assert_eq!(last.prev_line, Some(vec!['*', '.', '.']));
    assert_eq!(last.line, vec!['.', '3', '4']);
    assert_eq!(last.next_line, None);
    assert_eq!(last.part_number(), Some(34));
}

#[test]
fn has_punctuation_ignores_digits_and_filler() {
    assert!(!has_punctuation(&None));
    assert!(!has_punctuation(&Some(vec!['.', '1', '.'])));
    assert!(has_punctuation(&Some(vec!['.', '1', '/'])));
    assert!(!has_punctuation(&Some(vec![])));
}
