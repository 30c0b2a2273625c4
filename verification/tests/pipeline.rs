use brainfuck::driver::{
    classify, classify_bytes, compile, run, run_incremental, run_lowered, Command, Error,
};
use brainfuck::exe::Runner;
use brainfuck::lex::LexError;
use brainfuck::parse::SyntaxError;

const LIMIT: usize = 1_000_000;

#[test]
fn compile_gives_the_assembly_of_the_lowered_program() {
    let text = compile("++[-]. // two, then clear\n".to_string()).unwrap();
    assert_eq!(
        text,
        "format ELF executable 3\nentry start\n\nsegment readable writeable\ntape rb 30000\n\nsegment readable executable\nstart:\n    mov ebp, tape\n    add byte [ebp + 0], 2\n; Start of loop 0\nloop_start_0:\n    cmp byte [ebp + 0], 0\n    je loop_end_0\n    add byte [ebp + 0], -1\n; End of loop 0\n    cmp byte [ebp + 0], 0\n    jne loop_start_0\nloop_end_0:\n; Print character at position 0\n    mov eax, 4         ; sys_write syscall number\n    mov ebx, 1         ; file descriptor (stdout)\n    lea ecx, [ebp + 0]  ; pointer to character\n    mov edx, 1         ; number of bytes to write\n    int 0x80           ; invoke syscall\n\n; Exit program\n    mov eax, 1      ; sys_exit syscall number\n    xor ebx, ebx    ; exit status 0\n    int 0x80        ; invoke syscall"
    );
}

#[test]
fn compile_reports_the_first_unknown_character() {
    assert_eq!(
        compile("+\n+?]".to_string()),
        Err(Error::Lex(LexError::UnexpectedChar { ch: b'?', line: 2, col: 2 }))
    );
}

#[test]
fn compile_reports_unmatched_brackets() {
    assert_eq!(
        compile("+]".to_string()),
        Err(Error::Syntax(SyntaxError::UnmatchedClose { line: 1, col: 2 }))
    );
    assert_eq!(
        compile("[[+]".to_string()),
        Err(Error::Syntax(SyntaxError::UnmatchedOpen { line: 1, col: 1 }))
    );
}

#[test]
fn run_gives_the_output_of_the_program() {
    let out = run(",+.".to_string(), b"a", LIMIT).unwrap();
    assert!(out.finished);
    assert_eq!(out.output, b"b".to_vec());
    assert_eq!(out.consumed, 1);
}

#[test]
fn run_reports_errors_before_it_runs() {
    assert!(matches!(run("+.x".to_string(), &[], LIMIT), Err(Error::Lex(_))));
    assert!(matches!(run("+.[".to_string(), &[], LIMIT), Err(Error::Syntax(_))));
}

#[test]
fn run_lowered_gives_the_same_output_for_loops_that_end_where_they_began() {
    let source = "++++++++[>++++++++<-]>+.";
    let by_tokens = run(source.to_string(), &[], LIMIT).unwrap();
    let by_instructions = run_lowered(source.to_string(), &[], LIMIT).unwrap();
    assert_eq!(by_tokens.output, b"A".to_vec());
    assert_eq!(by_instructions.output, b"A".to_vec());
    assert!(by_tokens.finished && by_instructions.finished);
}

#[test]
fn session_keeps_its_tape_from_line_to_line() {
    let mut session = Runner::new(vec![]);
    let first = run_incremental(&mut session, "+++\n".to_string(), &[], LIMIT).unwrap();
    assert!(first.finished);
    assert_eq!(first.output, Vec::<u8>::new());
    let second = run_incremental(&mut session, "[->++<]>.\n".to_string(), &[], LIMIT).unwrap();
    assert!(second.finished);
    assert_eq!(second.output, vec![6]);
    assert_eq!(session.print_tape(3), "0 6 0 ");
}

#[test]
fn session_discards_a_line_that_is_no_program() {
    let mut session = Runner::new(vec![]);
    run_incremental(&mut session, "++".to_string(), &[], LIMIT).unwrap();
    let pc = session.pc();
    assert_eq!(
        run_incremental(&mut session, "+[".to_string(), &[], LIMIT).err(),
        Some(Error::Syntax(SyntaxError::UnmatchedOpen { line: 1, col: 2 }))
    );
    assert_eq!(
        run_incremental(&mut session, "+ oops".to_string(), &[], LIMIT).err(),
        Some(Error::Lex(LexError::UnexpectedChar { ch: b'o', line: 1, col: 3 }))
    );
    assert_eq!(session.pc(), pc);
    assert_eq!(session.print_tape(2), "2 0 ");
    run_incremental(&mut session, "+".to_string(), &[], LIMIT).unwrap();
    assert_eq!(session.print_tape(2), "3 0 ");
}

#[test]
fn exit_is_a_command() {
    assert_eq!(classify("exit"), Command::Exit);
    assert_eq!(classify("  exit \r\n"), Command::Exit);
    assert_eq!(classify("exit now"), Command::Source);
    assert_eq!(classify("exits"), Command::Source);
}

#[test]
fn print_takes_a_count() {
    assert_eq!(classify("print 3\n"), Command::Print(3));
    assert_eq!(classify("  print   25  \n"), Command::Print(25));
    assert_eq!(classify("print\t7"), Command::Print(7));
}

#[test]
fn print_without_a_usable_count_shows_ten_cells() {
    assert_eq!(classify("print\n"), Command::Print(10));
    assert_eq!(classify("print abc\n"), Command::Print(10));
    assert_eq!(classify("print 0\n"), Command::Print(10));
    assert_eq!(classify("print -4\n"), Command::Print(10));
}

#[test]
fn print_reads_the_leading_digits_of_its_argument() {
    assert_eq!(classify("print 12x\n"), Command::Print(12));
    assert_eq!(classify("print 4 5\n"), Command::Print(4));
}

#[test]
fn print_shows_no_more_cells_than_the_tape_has() {
    assert_eq!(classify("print 30000\n"), Command::Print(30000));
    assert_eq!(classify("print 30001\n"), Command::Print(30000));
    assert_eq!(classify("print 99999999999999999999999999\n"), Command::Print(30000));
}

#[test]
fn other_lines_are_source() {
    assert_eq!(classify(""), Command::Source);
    assert_eq!(classify("   \n"), Command::Source);
    assert_eq!(classify("+++.\n"), Command::Source);
    assert_eq!(classify("print3\n"), Command::Source);
    assert_eq!(classify_bytes(b"printer"), Command::Source);
}

#[test]
fn errors_have_a_line_of_text() {
    assert_eq!(
        LexError::UnexpectedChar { ch: b'x', line: 12, col: 3 }.message(),
        "Unexpected character `x` at col 3 on line 12"
    );
    assert_eq!(
        SyntaxError::UnmatchedClose { line: 1, col: 20 }.message(),
        "Syntax Error: Unmatched LoopEnd at col 20 on line 1"
    );
    assert_eq!(
        Error::Syntax(SyntaxError::UnmatchedOpen { line: 7, col: 1 }).message(),
        "Syntax Error: Unmatched LoopStart at col 1 on line 7"
    );
    assert_eq!(
        Error::Lex(LexError::UnexpectedChar { ch: b'/', line: 1, col: 1 }).message(),
        "Unexpected character `/` at col 1 on line 1"
    );
}
