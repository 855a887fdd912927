use brainfck::executor::{execute, Status, TAPE_SIZE};
use brainfck::instr::Node;
use brainfck::parser::{parse, parse_between, ParseError};
use brainfck::pipeline::interpret;

const PLENTY: u64 = u64::MAX;

fn size(program: &[Node]) -> usize {
    let mut n = 0;
    for node in program {
        n += 1;
        if let Node::Loop(body) = node {
            n += size(body);
        }
    }
    n
}

fn repeated(node: fn() -> Node, n: usize) -> Vec<Node> {
    let mut v = Vec::new();
    for _ in 0..n {
        v.push(node());
    }
    v
}

#[test]
fn empty_text_is_empty_program() {
    assert_eq!(parse("").unwrap().len(), 0);
    assert_eq!(interpret("", PLENTY), Ok((Status::Finished, vec![])));
}

#[test]
fn each_character_maps_to_its_node() {
    let p = parse("<>+-.,").unwrap();
    assert_eq!(p.len(), 6);
    assert!(matches!(p[0], Node::Left));
    assert!(matches!(p[1], Node::Right));
    assert!(matches!(p[2], Node::Increment));
    assert!(matches!(p[3], Node::Decrement));
    assert!(matches!(p[4], Node::Output));
    assert!(matches!(p[5], Node::InputReplace));
}

#[test]
fn loops_nest() {
    let p = parse("+[-[>]<]").unwrap();
    assert_eq!(p.len(), 2);
    assert!(matches!(p[0], Node::Increment));
    match &p[1] {
        Node::Loop(body) => {
            assert_eq!(body.len(), 3);
            assert!(matches!(body[0], Node::Decrement));
            match &body[1] {
                Node::Loop(inner) => {
                    assert_eq!(inner.len(), 1);
                    assert!(matches!(inner[0], Node::Right));
                }
                _ => panic!("expected an inner loop"),
            }
            assert!(matches!(body[2], Node::Left));
        }
        _ => panic!("expected a loop"),
    }
}

#[test]
fn other_characters_are_skipped() {
    let p = parse("a + b\n]é-").unwrap();
    assert_eq!(p.len(), 2);
    assert!(matches!(p[0], Node::Increment));
    assert!(matches!(p[1], Node::Decrement));
}

#[test]
fn non_ascii_text_around_instructions() {
    assert_eq!(interpret("é+ü.ß", PLENTY), Ok((Status::Finished, vec![1])));
}

#[test]
fn node_count_matches_node_characters() {
    let text = "x+[->[<]]y,.]";
    let p = parse(text).unwrap();
    let expected = text.chars().filter(|c| "<>+-.,[".contains(*c)).count();
    assert_eq!(size(&p), expected);
    assert_eq!(size(&p), 8);
}

#[test]
fn unclosed_loop_scenario() {
    assert_eq!(parse("+[+").unwrap_err(), ParseError::UnclosedLoop);
    assert_eq!(interpret("+[+", PLENTY), Err(ParseError::UnclosedLoop));
}

#[test]
fn unclosed_inner_loop_is_rejected() {
    assert_eq!(parse("[[]").unwrap_err(), ParseError::UnclosedLoop);
    assert_eq!(parse("[]]][").unwrap_err(), ParseError::UnclosedLoop);
}

#[test]
fn parse_between_reads_a_range() {
    let cs: Vec<char> = "+[-]>".chars().collect();
    let p = parse_between(&cs, 2, 3).unwrap();
    assert_eq!(p.len(), 1);
    assert!(matches!(p[0], Node::Decrement));
    assert!(parse_between(&cs, 1, 3).is_err());
}

#[test]
fn round_trip_scenario() {
    let p = parse("++>+++++[<+>-]").unwrap();
    let mut pointer: usize = 0;
    let mut tape = [0u8; TAPE_SIZE];
    let mut out = Vec::new();
    let st = execute(&p, &mut pointer, &mut tape, &mut out, PLENTY);
    assert_eq!(st, Status::Finished);
    assert_eq!(tape[0], 7);
    assert_eq!(tape[1], 0);
    // The body `<+>-` ends on cell 1, where the loop's test finds zero.
    assert_eq!(pointer, 1);
    assert!(out.is_empty());
}

#[test]
fn output_scenario() {
    assert_eq!(interpret("++.", PLENTY), Ok((Status::Finished, vec![2])));
}

#[test]
fn output_keeps_program_order() {
    assert_eq!(interpret("+.+.>-.", PLENTY), Ok((Status::Finished, vec![1, 2, 255])));
}

#[test]
fn input_is_fatal_scenario() {
    assert_eq!(interpret("+.,+.", PLENTY), Ok((Status::Unsupported, vec![1])));
    assert_eq!(interpret("+[.,]", PLENTY), Ok((Status::Unsupported, vec![1])));
    assert_eq!(interpret(",", PLENTY), Ok((Status::Unsupported, vec![])));
}

#[test]
fn input_in_a_skipped_loop_is_harmless() {
    assert_eq!(interpret("[,]+.", PLENTY), Ok((Status::Finished, vec![1])));
}

#[test]
fn full_turn_right_returns_pointer() {
    let p = repeated(|| Node::Right, TAPE_SIZE);
    let mut pointer: usize = 0;
    let mut tape = [0u8; TAPE_SIZE];
    let mut out = Vec::new();
    assert_eq!(execute(&p, &mut pointer, &mut tape, &mut out, 0), Status::Finished);
    assert_eq!(pointer, 0);
}

#[test]
fn full_turn_left_returns_pointer() {
    let p = repeated(|| Node::Left, TAPE_SIZE);
    let mut pointer: usize = 0;
    let mut tape = [0u8; TAPE_SIZE];
    let mut out = Vec::new();
    assert_eq!(execute(&p, &mut pointer, &mut tape, &mut out, 0), Status::Finished);
    assert_eq!(pointer, 0);
}

#[test]
fn pointer_wraps_at_both_ends() {
    let mut tape = [0u8; TAPE_SIZE];
    let mut out = Vec::new();
    let mut pointer: usize = 0;
    execute(&vec![Node::Left], &mut pointer, &mut tape, &mut out, 0);
    assert_eq!(pointer, TAPE_SIZE - 1);
    execute(&vec![Node::Right], &mut pointer, &mut tape, &mut out, 0);
    assert_eq!(pointer, 0);
}

#[test]
fn cell_wraps_on_increment() {
    let mut tape = [0u8; TAPE_SIZE];
    let mut out = Vec::new();
    let mut pointer: usize = 0;
    execute(&repeated(|| Node::Increment, 255), &mut pointer, &mut tape, &mut out, 0);
    assert_eq!(tape[0], 255);
    execute(&vec![Node::Increment], &mut pointer, &mut tape, &mut out, 0);
    assert_eq!(tape[0], 0);
}

#[test]
fn cell_wraps_on_decrement() {
    let mut tape = [0u8; TAPE_SIZE];
    let mut out = Vec::new();
    let mut pointer: usize = 0;
    execute(&vec![Node::Decrement], &mut pointer, &mut tape, &mut out, 0);
    assert_eq!(tape[0], 255);
    execute(&repeated(|| Node::Decrement, 255), &mut pointer, &mut tape, &mut out, 0);
    assert_eq!(tape[0], 0);
}

#[test]
fn loop_on_zero_cell_is_skipped() {
    let p = parse("[+>.]").unwrap();
    let mut tape = [0u8; TAPE_SIZE];
    tape[1] = 9;
    let mut out = Vec::new();
    let mut pointer: usize = 0;
    assert_eq!(execute(&p, &mut pointer, &mut tape, &mut out, PLENTY), Status::Finished);
    assert_eq!(pointer, 0);
    assert_eq!(tape[0], 0);
    assert_eq!(tape[1], 9);
    assert!(out.is_empty());
}

#[test]
fn endless_loop_runs_out_of_fuel() {
    assert_eq!(interpret("+.[]", 10), Ok((Status::OutOfFuel, vec![1])));
}

#[test]
fn fuel_bounds_each_loop() {
    assert_eq!(interpret("+++++[-]", 5), Ok((Status::Finished, vec![])));
    assert_eq!(interpret("+++++[-]", 4), Ok((Status::OutOfFuel, vec![])));
}

#[test]
fn nested_loops_multiply() {
    // 3 * 4 in cell 2.
    let text = "+++[>++++[>+<-]<-]>>.";
    assert_eq!(interpret(text, PLENTY), Ok((Status::Finished, vec![12])));
}
