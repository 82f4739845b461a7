use wire_router::parse::parse_u32_field;
use wire_router::problem::load_problem;

#[test]
fn load_reads_dimensions_and_pin_pairs() {
    let text = b"6;6\n1;3;5;3\n0;0;5;5\n";
    let problem = load_problem(text, Some(9)).unwrap();
    assert_eq!(problem.dimensions, (6, 6));
    assert_eq!(problem.pin_locations, vec![((1, 3), (5, 3)), ((0, 0), (5, 5))]);
    assert_eq!(problem.population.len(), 0);
    assert_eq!(problem.random, Some(9));
}

#[test]
fn load_accepts_blanks_and_missing_final_newline() {
    let text = b" 6 ;\t6\r\n1;3;5;3";
    let problem = load_problem(text, None).unwrap();
    assert_eq!(problem.dimensions, (6, 6));
    assert_eq!(problem.pin_locations, vec![((1, 3), (5, 3))]);
}

#[test]
fn load_of_empty_text_is_the_empty_problem() {
    let problem = load_problem(b"", None).unwrap();
    assert_eq!(problem.dimensions, (0, 0));
    assert!(problem.pin_locations.is_empty());
}

#[test]
fn load_rejects_wrong_field_counts() {
    assert!(load_problem(b"6;6;6\n1;3;5;3\n", None).is_none());
    assert!(load_problem(b"6;6\n1;3;5\n", None).is_none());
    assert!(load_problem(b"6;6\n1;3;5;3;9\n", None).is_none());
    assert!(load_problem(b"6\n", None).is_none());
}

#[test]
fn load_rejects_non_numeric_fields() {
    assert!(load_problem(b"6;x\n", None).is_none());
    assert!(load_problem(b"6;6\n1;3;five;3\n", None).is_none());
    assert!(load_problem(b"6;6\n1;3;;3\n", None).is_none());
    assert!(load_problem(b"6;6\n1;3;5 5;3\n", None).is_none());
}

#[test]
fn load_rejects_pins_outside_the_grid() {
    assert!(load_problem(b"6;6\n1;3;6;3\n", None).is_none());
    assert!(load_problem(b"6;6\n1;3;5;6\n", None).is_none());
    assert!(load_problem(b"0;0\n0;0;0;0\n", None).is_none());
}

#[test]
fn parse_field_handles_bounds_and_blanks() {
    assert_eq!(parse_u32_field(b" 42 "), Some(42));
    assert_eq!(parse_u32_field(b"0"), Some(0));
    assert_eq!(parse_u32_field(b"4294967295"), Some(4294967295));
    assert_eq!(parse_u32_field(b"4294967296"), None);
    assert_eq!(parse_u32_field(b""), None);
    assert_eq!(parse_u32_field(b"  "), None);
    assert_eq!(parse_u32_field(b"4 2"), None);
    assert_eq!(parse_u32_field(b"-3"), None);
}
