use brainfuck::fasm::FasmGenerator;
use brainfuck::ir::Instruction;

#[test]
fn empty_program_is_header_and_exit() {
    let text = FasmGenerator::new().generate(&[]);
    assert_eq!(
        text,
        "format ELF executable 3\nentry start\n\nsegment readable writeable\ntape rb 30000\n\nsegment readable executable\nstart:\n    mov ebp, tape\n\n; Exit program\n    mov eax, 1      ; sys_exit syscall number\n    xor ebx, ebx    ; exit status 0\n    int 0x80        ; invoke syscall"
    );
}

#[test]
fn sum_is_one_add_with_a_signed_value() {
    let text = FasmGenerator::new().generate(&[
        Instruction::Sum(3, 0),
        Instruction::Sum(-12, 29999),
        Instruction::Sum(i32::MIN, 7),
        Instruction::Sum(i32::MAX, 10),
    ]);
    assert!(text.contains("\n    mov ebp, tape\n    add byte [ebp + 0], 3\n    add byte [ebp + 29999], -12\n    add byte [ebp + 7], -2147483648\n    add byte [ebp + 10], 2147483647\n\n; Exit program\n"));
}

#[test]
fn nested_and_following_loops_get_their_own_numbers() {
    let text = FasmGenerator::new().generate(&[
        Instruction::Sum(3, 0),
        Instruction::LoopStart(0),
        Instruction::Sum(-1, 0),
        Instruction::LoopStart(0),
        Instruction::Print(1),
        Instruction::LoopEnd(0),
        Instruction::LoopEnd(0),
        Instruction::LoopStart(0),
        Instruction::Read(29999),
        Instruction::LoopEnd(0),
    ]);
    assert_eq!(
        text,
        "format ELF executable 3\nentry start\n\nsegment readable writeable\ntape rb 30000\n\nsegment readable executable\nstart:\n    mov ebp, tape\n    add byte [ebp + 0], 3\n; Start of loop 0\nloop_start_0:\n    cmp byte [ebp + 0], 0\n    je loop_end_0\n    add byte [ebp + 0], -1\n; Start of loop 1\nloop_start_1:\n    cmp byte [ebp + 0], 0\n    je loop_end_1\n; Print character at position 1\n    mov eax, 4         ; sys_write syscall number\n    mov ebx, 1         ; file descriptor (stdout)\n    lea ecx, [ebp + 1]  ; pointer to character\n    mov edx, 1         ; number of bytes to write\n    int 0x80           ; invoke syscall\n; End of loop 1\n    cmp byte [ebp + 0], 0\n    jne loop_start_1\nloop_end_1:\n; End of loop 0\n    cmp byte [ebp + 0], 0\n    jne loop_start_0\nloop_end_0:\n; Start of loop 2\nloop_start_2:\n    cmp byte [ebp + 0], 0\n    je loop_end_2\n; Read character into position 29999\n    mov eax, 3         ; sys_read syscall number\n    mov ebx, 0         ; file descriptor (stdin)\n    lea ecx, [ebp + 29999]  ; buffer to read into\n    mov edx, 1         ; number of bytes to read\n    int 0x80           ; invoke syscall\n; End of loop 2\n    cmp byte [ebp + 0], 0\n    jne loop_start_2\nloop_end_2:\n\n; Exit program\n    mov eax, 1      ; sys_exit syscall number\n    xor ebx, ebx    ; exit status 0\n    int 0x80        ; invoke syscall"
    );
}

#[test]
fn loop_numbers_have_all_their_digits() {
    let mut ir = Vec::new();
    for _ in 0..12 {
        ir.push(Instruction::LoopStart(5));
        ir.push(Instruction::LoopEnd(5));
    }
    let text = FasmGenerator::new().generate(&ir);
    assert!(text.contains("loop_start_10:\n    cmp byte [ebp + 5], 0\n    je loop_end_10\n"));
    assert!(text.contains("; End of loop 11\n    cmp byte [ebp + 5], 0\n    jne loop_start_11\nloop_end_11:\n"));
}

#[test]
fn second_call_goes_on_after_the_first() {
    let mut generator = FasmGenerator::new();
    let first = generator.generate(&[Instruction::LoopStart(0), Instruction::LoopEnd(0)]);
    let second = generator.generate(&[Instruction::LoopStart(1), Instruction::LoopEnd(1)]);
    assert!(second.starts_with(&first));
    assert!(second.contains("loop_start_1:\n    cmp byte [ebp + 1], 0\n"));
}
