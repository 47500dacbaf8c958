use aoc_days::calculator::{ElvishCalculator, Operation};
use aoc_days::config::{read_config, Mode};
use aoc_days::day11;
use aoc_days::day13;
use aoc_days::day4;
use aoc_days::day5;
use aoc_days::day7;
use aoc_days::day8;
use aoc_days::parser::ElvishMachineLanguageParser;

#[test]
fn test() {
    let value: u64 = 10;
    let (left, right) = day11::split(value, value.ilog10() + 1);
    assert_eq!(1, left);
    assert_eq!(0, right);
}

#[test]
fn test2() {
    let value: u64 = 3456;
    let (left, right) = day11::split(value, value.ilog10() + 1);
    assert_eq!(34, left);
    assert_eq!(56, right);
}

#[test]
fn stones_after_25_blinks() {
    assert_eq!(day11::run_on_string("125 17", 1), Ok(55312));
}

#[test]
fn stone_parse_rejects_junk() {
    assert!(day11::run_on_string("125 x7", 1).is_err());
    assert!(day11::run_on_string("", 1).is_err());
}

fn run_machine(input: &str, toggles: bool) -> i32 {
    let mut parser = ElvishMachineLanguageParser::new(toggles);
    let ops = parser.load_string(input);
    let mut calc = ElvishCalculator::new();
    for op in ops {
        calc.enter(op);
    }
    calc.result()
}

#[test]
fn corrupted_memory_sums_multiplications() {
    let input = "xmul(2,4)%&mul[3,7]!@^do_not_mul(5,5)+mul(32,64]then(mul(11,8)mul(8,5))";
    assert_eq!(run_machine(input, false), 161);
}

#[test]
fn toggles_disable_multiplications() {
    let input = "xmul(2,4)&mul[3,7]!^don't()_mul(5,5)+mul(32,64](mul(11,8)undo()do()mul(8,5))";
    assert_eq!(run_machine(input, true), 48);
}

#[test]
fn calculator_accumulates_when_enabled() {
    let mut calc = ElvishCalculator::new();
    calc.enter(Operation::MUL(2, 3));
    calc.enter(Operation::COND(false));
    calc.enter(Operation::MUL(10, 10));
    calc.enter(Operation::COND(true));
    calc.enter(Operation::MUL(4, 5));
    assert_eq!(calc.result(), 26);
}

#[test]
fn word_search_counts_xmas() {
    let input = "\
MMMSXXMASM\n\
MSAMXMSMSA\n\
AMXSXMAAMM\n\
MSAMASMSMX\n\
XMASAMXAMM\n\
XXAMMXXAMA\n\
SMSMSASXSS\n\
SAXAMASAAA\n\
MAMMMXMMMM\n\
MXMXAXMASX";
    assert_eq!(day4::part1(input), Ok(18));
}

#[test]
fn word_search_rejects_ragged_rows() {
    assert!(day4::part1("XMAS\nXM").is_err());
}

const PAGE_SAMPLE: &str = "\
47|53\n97|13\n97|61\n97|47\n75|29\n61|13\n75|53\n29|13\n97|29\n53|29\n\
61|53\n97|53\n61|29\n47|13\n75|47\n97|75\n47|61\n75|61\n47|29\n75|13\n53|13\n\
\n\
75,47,61,53,29\n\
97,61,53,29,13\n\
75,29,13\n\
75,97,47,61,53\n\
61,13,29\n\
97,13,75,29,47";

#[test]
fn ordered_updates_sum_their_middles() {
    assert_eq!(day5::run_on_string(PAGE_SAMPLE, 1), Ok(143));
}

#[test]
fn reordered_updates_sum_their_middles() {
    assert_eq!(day5::run_on_string(PAGE_SAMPLE, 2), Ok(123));
}

#[test]
fn even_updates_have_no_middle() {
    assert!(day5::run_on_string("1|2\n\n1,2", 1).is_err());
}

const CALIBRATION_SAMPLE: &str = "\
190: 10 19\n\
3267: 81 40 27\n\
83: 17 5\n\
156: 15 6\n\
7290: 6 8 6 15\n\
161011: 16 10 13\n\
192: 17 8 14\n\
21037: 9 7 18 13\n\
292: 11 6 16 20";

#[test]
fn calibrations_with_two_operators() {
    assert_eq!(day7::run_on_string(CALIBRATION_SAMPLE, 1), Ok(3749));
}

#[test]
fn calibrations_with_concatenation() {
    assert_eq!(day7::run_on_string(CALIBRATION_SAMPLE, 2), Ok(11387));
}

#[test]
fn calibration_lines_need_a_colon() {
    assert!(day7::run_on_string("190 10 19", 1).is_err());
}

const ANTENNA_SAMPLE: &str = "\
............\n\
........0...\n\
.....0......\n\
.......0....\n\
....0.......\n\
......A.....\n\
............\n\
............\n\
........A...\n\
.........A..\n\
............\n\
............";

#[test]
fn antinodes_of_paired_antennas() {
    assert_eq!(day8::run_on_string(ANTENNA_SAMPLE, 1), Ok(14));
}

#[test]
fn resonant_antinodes_line_up() {
    assert_eq!(day8::run_on_string(ANTENNA_SAMPLE, 2), Ok(34));
}

const CLAW_SAMPLE: &str = "\
Button A: X+94, Y+34\n\
Button B: X+22, Y+67\n\
Prize: X=8400, Y=5400\n\
\n\
Button A: X+26, Y+66\n\
Button B: X+67, Y+21\n\
Prize: X=12748, Y=12176\n\
\n\
Button A: X+17, Y+86\n\
Button B: X+84, Y+37\n\
Prize: X=7870, Y=6450\n\
\n\
Button A: X+69, Y+23\n\
Button B: X+27, Y+71\n\
Prize: X=18641, Y=10279";

#[test]
fn claw_machines_cost_tokens() {
    assert_eq!(day13::run_on_string(CLAW_SAMPLE, 1, false), Ok(480));
}

#[test]
fn one_winnable_machine() {
    assert_eq!(day13::solve_machine(94, 34, 22, 67, 8400, 5400), 280);
}

#[test]
fn an_unwinnable_machine_costs_nothing() {
    assert_eq!(day13::solve_machine(26, 66, 67, 21, 12748, 12176), 0);
}

#[test]
fn config_lines_parse_into_runs() {
    let parts = read_config("// a comment\n1,t,sample.txt,17\n2,r,real.txt,-3\n").expect(
        "a configuration",
    );
    assert_eq!(parts.len(), 2);
    assert_eq!(parts[0].part, 1);
    assert_eq!(parts[0].mode, Mode::Test);
    assert_eq!(parts[0].filename, "sample.txt");
    assert_eq!(parts[0].expected, 17);
    assert_eq!(parts[1].part, 2);
    assert_eq!(parts[1].mode, Mode::Real);
    assert_eq!(parts[1].expected, -3);
}

#[test]
fn config_rejects_a_short_line() {
    assert!(read_config("1,t,missing").is_err());
}

#[test]
fn mode_letters_parse() {
    assert_eq!(Mode::from_str("r"), Ok(Mode::Real));
    assert_eq!(Mode::from_str("t"), Ok(Mode::Test));
    assert!(Mode::from_str("x").is_err());
}

use aoc_days::day6;

const PATROL_SAMPLE: &str = "\
....#.....\n\
.........#\n\
..........\n\
..#.......\n\
.......#..\n\
..........\n\
.#..^.....\n\
........#.\n\
#.........\n\
......#...";

#[test]
fn patrol_visits_squares() {
    assert_eq!(day6::run_on_string(PATROL_SAMPLE, 1), Ok(41));
}

#[test]
fn obstructions_that_trap_the_guard() {
    assert_eq!(day6::run_on_string(PATROL_SAMPLE, 2), Ok(6));
}

#[test]
fn a_map_without_a_guard_is_fatal() {
    assert!(day6::run_on_string("....\n....", 1).is_err());
}

#[test]
fn a_stone_count_too_large_is_an_error() {
    // a long run of maximal stones overflows the 64-bit count well
    // before the blink budget runs out
    let huge = "9999999999999999999";
    assert!(day11::run_on_string(huge, 1).is_err());
}

#[test]
fn stone_tokens_parse_to_their_value() {
    assert_eq!(day11::parse_to("0"), Ok(0));
    assert_eq!(day11::parse_to("18446744073709551615"), Ok(u64::MAX));
    assert!(day11::parse_to("18446744073709551616").is_err());
    assert!(day11::parse_to("").is_err());
}

#[test]
fn config_part_numbers_stop_at_the_field_width() {
    assert!(read_config("255,r,x.txt,1").is_ok());
    assert!(read_config("256,r,x.txt,1").is_err());
}

#[test]
fn config_expectations_span_the_full_range() {
    let far = read_config("1,r,x.txt,-9223372036854775808").expect("the least value fits");
    assert_eq!(far[0].expected, i64::MIN);
    let big = read_config("1,r,x.txt,9223372036854775807").expect("the greatest value fits");
    assert_eq!(big[0].expected, i64::MAX);
    assert!(read_config("1,r,x.txt,9223372036854775808").is_err());
    assert!(read_config("1,r,x.txt,-9223372036854775809").is_err());
}

#[test]
fn page_numbers_span_the_machine_word() {
    let wide = "2147483646|2147483647\n\n2147483646,5,2147483647";
    assert_eq!(day5::run_on_string(wide, 1), Ok(5));
    let over = "1|2\n\n1,2147483648,2";
    assert!(day5::run_on_string(over, 1).is_err());
}
