use brainfuck::exe::Runner;
use brainfuck::machine::Step;
use brainfuck::ir::{Instruction, Representation};
use brainfuck::lex::{Lexer, Token};
use brainfuck::parse::SyntaxParser;

const LIMIT: usize = 1_000_000;

fn tokens_of(source: &str) -> Vec<Token> {
    let mut lexer = Lexer::new(source.to_string());
    lexer.parse().unwrap();
    let tokens = lexer.tokens();
    SyntaxParser::new().parse(&tokens).unwrap();
    tokens
}

fn runner_for(source: &str) -> Runner {
    Runner::new(tokens_of(source))
}

fn lower(source: &str) -> Vec<Instruction> {
    let mut rep = Representation::new();
    rep.parse(&tokens_of(source));
    rep.instructions
}

fn nonzero_cells(runner: &Runner) -> Vec<(usize, u8)> {
    (0..30000).map(|i| (i, runner.cell(i))).filter(|&(_, v)| v != 0).collect()
}

const BALANCED_HELLO: &str = "\
++++++++++[>+++++++<-]>++.[-]<
++++++++++[>++++++++++<-]>+.[-]<
++++++++++[>++++++++++<-]>++++++++.[-]<
++++++++++[>++++++++++<-]>++++++++.[-]<
++++++++++[>+++++++++++<-]>+.[-]<
++++++++++[>+++<-]>++.[-]<
++++++++++[>++++++++<-]>+++++++.[-]<
++++++++++[>+++++++++++<-]>+.[-]<
++++++++++[>+++++++++++<-]>++++.[-]<
++++++++++[>++++++++++<-]>++++++++.[-]<
++++++++++[>++++++++++<-]>.[-]<
++++++++++[>+++<-]>+++.[-]<
++++++++++[>+<-]>.[-]<
";

const CLASSIC_HELLO: &str = "++++++++[>++++[>++>+++>+++>+<<<<-]>+>+>->>+[<]<-]>>.>---.+++++++..+++.>>.<-.<.+++.------.--------.>>+.>++.";

#[test]
fn hello_world_with_loops_that_end_where_they_began() {
    let mut runner = runner_for(BALANCED_HELLO);
    let out = runner.run(&[], LIMIT);
    assert!(out.finished);
    assert_eq!(out.output, b"Hello World!\n".to_vec());
    assert_eq!(out.consumed, 0);
    assert_eq!(nonzero_cells(&runner), vec![]);
}

#[test]
fn hello_world_through_the_instructions() {
    let ins = lower(BALANCED_HELLO);
    let mut runner = runner_for("");
    let out = runner.run_ins(&ins, &[], LIMIT);
    assert!(out.finished);
    assert_eq!(out.output, b"Hello World!\n".to_vec());
}

#[test]
fn scan_loop_that_moves_the_pointer_tests_the_cell_it_was_entered_on() {
    // `+[<]` enters its loop on cell 0, which stays 1: the loop never ends.
    let mut runner = runner_for("+[<]");
    let out = runner.run(&[], 1000);
    assert!(!out.finished);
    assert_eq!(out.output, Vec::<u8>::new());
    assert_eq!(runner.cell(0), 1);
}

#[test]
fn classic_hello_world_stays_in_its_scan_loop() {
    let mut runner = runner_for(CLASSIC_HELLO);
    let out = runner.run(&[], LIMIT);
    assert!(!out.finished);
    assert_eq!(out.output, Vec::<u8>::new());
    // the program counter is inside `[<]`, which begins at token 43
    assert!(runner.pc() == 44 || runner.pc() == 45);
}

#[test]
fn echo_one_byte() {
    let mut runner = runner_for(",.");
    let out = runner.run(b"A", LIMIT);
    assert!(out.finished);
    assert_eq!(out.output, b"A".to_vec());
    assert_eq!(out.consumed, 1);
}

#[test]
fn echo_through_the_instructions() {
    let ins = lower(",.");
    let mut runner = runner_for("");
    let out = runner.run_ins(&ins, b"A", LIMIT);
    assert!(out.finished);
    assert_eq!(out.output, b"A".to_vec());
    assert_eq!(out.consumed, 1);
}

#[test]
fn add_two_digits_program() {
    // Reads '3' and '4', moves the first onto the second, adds 6 and then
    // takes 8 from cell 0 once for each unit of cell 1: 109 times.
    let mut runner = runner_for(",>,<[->+<]>++++++[-<-------->]<.");
    let out = runner.run(b"34", LIMIT);
    assert!(out.finished);
    assert_eq!(out.consumed, 2);
    assert_eq!(out.output, vec![152]);
    assert_eq!(nonzero_cells(&runner), vec![(0, 152)]);
}

#[test]
fn sum_of_two_digits_as_a_digit() {
    // '3' + '4' - '0' = '7'
    let mut runner = runner_for(",>,<[->+<]++++++[->--------<]>.");
    let out = runner.run(b"34", LIMIT);
    assert!(out.finished);
    assert_eq!(out.output, b"7".to_vec());
}

#[test]
fn empty_loop() {
    let mut runner = runner_for("[+]");
    let out = runner.run(&[], LIMIT);
    assert!(out.finished);
    assert_eq!(out.output, Vec::<u8>::new());
    assert_eq!(nonzero_cells(&runner), vec![]);
    assert_eq!(runner.ptr(), 0);
}

#[test]
fn loop_entered_on_zero_runs_its_body_once() {
    let mut runner = runner_for("[>+<]");
    let out = runner.run(&[], LIMIT);
    assert!(out.finished);
    assert_eq!(nonzero_cells(&runner), vec![(1, 1)]);
    assert_eq!(runner.ptr(), 0);
}

#[test]
fn loop_without_body_entered_on_zero_changes_nothing() {
    let mut runner = runner_for("[]");
    let out = runner.run(&[], LIMIT);
    assert!(out.finished);
    assert_eq!(nonzero_cells(&runner), vec![]);
    assert_eq!(runner.ptr(), 0);
    assert_eq!(runner.pc(), 3);
}

#[test]
fn left_wrap() {
    let mut runner = runner_for("<+");
    let out = runner.run(&[], LIMIT);
    assert!(out.finished);
    assert_eq!(runner.ptr(), 29999);
    assert_eq!(nonzero_cells(&runner), vec![(29999, 1)]);
}

#[test]
fn right_wrap() {
    let source = ">".repeat(30000);
    let mut runner = runner_for(&source);
    runner.run(&[], 29999);
    assert_eq!(runner.ptr(), 29999);
    runner.run(&[], 1);
    assert_eq!(runner.ptr(), 0);
}

#[test]
fn cell_wraps_after_256_increments() {
    let source = format!("+++++{}", "+".repeat(256));
    let mut runner = runner_for(&source);
    runner.run(&[], 5);
    assert_eq!(runner.cell(0), 5);
    runner.run(&[], 256);
    assert_eq!(runner.cell(0), 5);
}

#[test]
fn decrement_of_zero_is_255() {
    let mut runner = runner_for("-");
    runner.run(&[], LIMIT);
    assert_eq!(runner.cell(0), 255);
}

#[test]
fn sum_adds_modulo_256() {
    let mut runner = runner_for("");
    let ins = vec![Instruction::Sum(300, 0), Instruction::Sum(-1, 1), Instruction::Sum(-513, 2)];
    let out = runner.run_ins(&ins, &[], LIMIT);
    assert!(out.finished);
    assert_eq!(nonzero_cells(&runner), vec![(0, 44), (1, 255), (2, 255)]);
}

#[test]
fn straight_line_program_gives_the_same_tape_both_ways() {
    let source = "+++>--<<+>>>++++-<-";
    let mut by_tokens = runner_for(source);
    assert!(by_tokens.run(&[], LIMIT).finished);
    let mut by_instructions = runner_for("");
    assert!(by_instructions.run_ins(&lower(source), &[], LIMIT).finished);
    assert_eq!(nonzero_cells(&by_tokens), nonzero_cells(&by_instructions));
    assert_eq!(nonzero_cells(&by_tokens), vec![(0, 3), (1, 253), (2, 3), (29999, 1)]);
}

#[test]
fn read_at_the_end_of_the_input_keeps_the_cell() {
    let mut runner = runner_for("+++,.");
    let out = runner.run(&[], LIMIT);
    assert!(out.finished);
    assert_eq!(out.output, vec![3]);
    assert_eq!(out.consumed, 0);
}

#[test]
fn input_is_read_in_order() {
    let mut runner = runner_for(",>,>,<<.>.>.");
    let out = runner.run(b"xyz!", LIMIT);
    assert_eq!(out.output, b"xyz".to_vec());
    assert_eq!(out.consumed, 3);
}

#[test]
fn step_limit_stops_a_run_and_the_next_run_goes_on() {
    let mut runner = runner_for("+.+.+.");
    let first = runner.run(&[], 3);
    assert!(!first.finished);
    assert_eq!(first.output, vec![1]);
    assert_eq!(runner.pc(), 3);
    let second = runner.run(&[], LIMIT);
    assert!(second.finished);
    assert_eq!(second.output, vec![2, 3]);
}

#[test]
fn single_steps_report_what_they_ask_for() {
    let mut runner = runner_for("+.,");
    assert!(!runner.wants_input());
    assert_eq!(runner.step(None), Step::Continue);
    assert_eq!(runner.step(None), Step::Output(1));
    assert!(runner.wants_input());
    assert_eq!(runner.step(Some(9)), Step::Continue);
    assert_eq!(runner.cell(0), 9);
    assert!(!runner.finished());
    assert_eq!(runner.step(None), Step::Done);
    assert!(runner.finished());
    assert_eq!(runner.step(None), Step::Done);
    assert_eq!(runner.pc(), 4);
}

#[test]
fn added_tokens_run_on_the_same_tape() {
    let mut runner = Runner::new(vec![]);
    let mut line = tokens_of("+++");
    runner.add(&mut line);
    assert!(line.is_empty());
    assert!(runner.run(&[], LIMIT).finished);
    let mut line = tokens_of(">++<.");
    runner.add(&mut line);
    let out = runner.run(&[], LIMIT);
    assert!(out.finished);
    assert_eq!(out.output, vec![3]);
    assert_eq!(nonzero_cells(&runner), vec![(0, 3), (1, 2)]);
}

#[test]
fn repl_print() {
    let mut runner = runner_for("+++");
    runner.run(&[], LIMIT);
    assert_eq!(runner.print_tape(3), "3 0 0 ");
}

#[test]
fn tape_dump_of_no_cells_is_empty() {
    let runner = runner_for("");
    assert_eq!(runner.print_tape(0), "");
}

#[test]
fn tape_dump_writes_each_byte_in_decimal() {
    let mut runner = runner_for("->++++++++++>+");
    runner.run(&[], LIMIT);
    assert_eq!(runner.print_tape(4), "255 10 1 0 ");
}

fn unchecked_tokens_of(source: &str) -> Vec<Token> {
    let mut lexer = Lexer::new(source.to_string());
    lexer.parse().unwrap();
    lexer.tokens()
}

#[test]
fn any_tokens_make_a_runner_on_a_tape_of_zeros() {
    let runner = Runner::new(unchecked_tokens_of("+]>["));
    assert_eq!(runner.ptr(), 0);
    assert_eq!(runner.pc(), 0);
    assert!(!runner.finished());
    assert_eq!(nonzero_cells(&runner), vec![]);
    assert_eq!(runner.print_tape(4), "0 0 0 0 ");
}

#[test]
fn two_runners_share_nothing() {
    let mut first = runner_for("+++");
    let second = runner_for("+++");
    first.run(&[], LIMIT);
    assert_eq!(first.cell(0), 3);
    assert_eq!(second.cell(0), 0);
    assert_eq!(second.pc(), 0);
}

#[test]
fn adding_tokens_runs_nothing() {
    let mut runner = runner_for("++>");
    runner.run(&[], 2);
    let mut more = unchecked_tokens_of("]-[");
    runner.add(&mut more);
    assert!(more.is_empty());
    assert_eq!(runner.pc(), 2);
    assert_eq!(runner.ptr(), 0);
    assert_eq!(nonzero_cells(&runner), vec![(0, 2)]);
}
