use brainfuck::ir::{Instruction, Representation};
use brainfuck::lex::{Lexer, Token};

fn tokens_of(source: &str) -> Vec<Token> {
    let mut lexer = Lexer::new(source.to_string());
    lexer.parse().unwrap();
    lexer.tokens()
}

fn lower(source: &str) -> Vec<Instruction> {
    let mut rep = Representation::new();
    rep.parse(&tokens_of(source));
    rep.instructions
}

#[test]
fn runs_of_plus_and_minus_fold_into_one_sum() {
    assert_eq!(lower("+++"), vec![Instruction::Sum(3, 0)]);
    assert_eq!(lower("+++--"), vec![Instruction::Sum(1, 0)]);
    assert_eq!(lower("--"), vec![Instruction::Sum(-2, 0)]);
}

#[test]
fn sum_of_zero_is_not_emitted() {
    assert_eq!(lower("+-"), vec![]);
    assert_eq!(lower("+->-+"), vec![]);
}

#[test]
fn moves_only_shift_the_cursor() {
    assert_eq!(lower("+>++>+++"), vec![
        Instruction::Sum(1, 0),
        Instruction::Sum(2, 1),
        Instruction::Sum(3, 2),
    ]);
    assert_eq!(lower("><"), vec![]);
}

#[test]
fn cursor_wraps_at_both_ends() {
    assert_eq!(lower("<+"), vec![Instruction::Sum(1, 29999)]);
    assert_eq!(lower("<>+"), vec![Instruction::Sum(1, 0)]);
}

#[test]
fn input_output_and_loops_carry_their_cell() {
    assert_eq!(lower(",>.+[-]"), vec![
        Instruction::Read(0),
        Instruction::Print(1),
        Instruction::Sum(1, 1),
        Instruction::LoopStart(1),
        Instruction::Sum(-1, 1),
        Instruction::LoopEnd(1),
    ]);
}

#[test]
fn pending_sum_is_written_before_each_other_operation() {
    assert_eq!(lower("+.+,"), vec![
        Instruction::Sum(1, 0),
        Instruction::Print(0),
        Instruction::Sum(1, 0),
        Instruction::Read(0),
    ]);
}

#[test]
fn lowering_appends_to_what_is_there() {
    let mut rep = Representation::new();
    rep.parse(&tokens_of("+"));
    rep.parse(&tokens_of(">-"));
    assert_eq!(rep.instructions, vec![Instruction::Sum(1, 0), Instruction::Sum(-1, 1)]);
}

#[test]
fn a_pair_of_moves_splits_a_sum_once() {
    let once = lower("+><+");
    let twice = lower("+><><+");
    assert_eq!(once, vec![Instruction::Sum(1, 0), Instruction::Sum(1, 0)]);
    assert_eq!(twice, once);
}

#[test]
fn get_finds_the_latest_sum_of_a_cell() {
    let mut rep = Representation::new();
    rep.parse(&tokens_of("+>++<+++"));
    assert_eq!(rep.get(0), 3);
    assert_eq!(rep.get(1), 2);
    assert_eq!(rep.get(2), 0);
}

/// Adjacent sums on one cell added up, sums of zero dropped.
fn merge(instructions: &[Instruction]) -> Vec<Instruction> {
    let mut out: Vec<Instruction> = Vec::new();
    for ins in instructions {
        match (out.last().copied(), *ins) {
            (_, Instruction::Sum(0, _)) => {}
            (Some(Instruction::Sum(a, at)), Instruction::Sum(b, cell)) if at == cell => {
                out.pop();
                if a + b != 0 {
                    out.push(Instruction::Sum(a + b, cell));
                }
            }
            (_, other) => out.push(other),
        }
    }
    out
}

#[test]
fn a_pair_of_moves_changes_nothing_once_sums_are_merged() {
    let plain = lower("++>-[<+>-]<-+.");
    let paired = lower("+><+>-[<+><>-]<-><+.");
    assert_ne!(plain, paired);
    assert_eq!(merge(&plain), merge(&paired));
    assert_eq!(merge(&lower("+><-")), vec![]);
    assert_eq!(merge(&lower("+><+")), vec![Instruction::Sum(2, 0)]);
}

#[test]
fn sums_add_up_cell_by_cell() {
    let instructions = lower("+++>--<->>+<<<+>-");
    let total = |cell: usize| -> i32 {
        instructions
            .iter()
            .map(|ins| match ins {
                Instruction::Sum(delta, at) if *at == cell => *delta,
                _ => 0,
            })
            .sum()
    };
    assert!(instructions.iter().all(|ins| matches!(ins, Instruction::Sum(_, _))));
    assert_eq!(total(0), 1);
    assert_eq!(total(1), -2);
    assert_eq!(total(2), 1);
    assert_eq!(total(29999), 1);
    assert_eq!(total(3), 0);
}
