use crate::ir::Instruction;
use crate::text::{
    join_lines, joined, number, push_number, push_signed_number, signed_number, texts,
};
use vstd::prelude::*;
use vstd::string::*;

verus! {

/// What a generator has written so far: the lines of assembly, the number the
/// next loop will get, and the numbers of the loops that are still open,
/// innermost last.
pub struct Emission {
    pub lines: Seq<Seq<char>>,
    pub next_id: usize,
    pub open: Seq<usize>,
}

/// The lines every program begins with: the format, the tape and the entry point.
pub open spec fn header_lines() -> Seq<Seq<char>> {
    seq![
        "format ELF executable 3"@,
        "entry start"@,
        ""@,
        "segment readable writeable"@,
        "tape rb 30000"@,
        ""@,
        "segment readable executable"@,
        "start:"@,
        "    mov ebp, tape"@,
    ]
}

/// The lines every program ends with: the exit system call.
pub open spec fn exit_lines() -> Seq<Seq<char>> {
    seq![
        "\n; Exit program"@,
        "    mov eax, 1      ; sys_exit syscall number"@,
        "    xor ebx, ebx    ; exit status 0"@,
        "    int 0x80        ; invoke syscall"@,
    ]
}

pub open spec fn sum_line(value: i32, cell: usize) -> Seq<char> {
    "    add byte [ebp + "@ + number(cell) + "], "@ + signed_number(value)
}

pub open spec fn print_lines(cell: usize) -> Seq<Seq<char>> {
    seq![
        "; Print character at position "@ + number(cell),
        "    mov eax, 4         ; sys_write syscall number"@,
        "    mov ebx, 1         ; file descriptor (stdout)"@,
        "    lea ecx, [ebp + "@ + number(cell) + "]  ; pointer to character"@,
        "    mov edx, 1         ; number of bytes to write"@,
        "    int 0x80           ; invoke syscall"@,
    ]
}

pub open spec fn read_lines(cell: usize) -> Seq<Seq<char>> {
    seq![
        "; Read character into position "@ + number(cell),
        "    mov eax, 3         ; sys_read syscall number"@,
        "    mov ebx, 0         ; file descriptor (stdin)"@,
        "    lea ecx, [ebp + "@ + number(cell) + "]  ; buffer to read into"@,
        "    mov edx, 1         ; number of bytes to read"@,
        "    int 0x80           ; invoke syscall"@,
    ]
}

/// The line that tests a cell against zero.
pub open spec fn test_line(cell: usize) -> Seq<char> {
    "    cmp byte [ebp + "@ + number(cell) + "], 0"@
}

pub open spec fn loop_start_lines(id: usize, cell: usize) -> Seq<Seq<char>> {
    seq![
        "; Start of loop "@ + number(id),
        "loop_start_"@ + number(id) + ":"@,
        test_line(cell),
        "    je loop_end_"@ + number(id),
    ]
}

pub open spec fn loop_end_lines(id: usize, cell: usize) -> Seq<Seq<char>> {
    seq![
        "; End of loop "@ + number(id),
        test_line(cell),
        "    jne loop_start_"@ + number(id),
        "loop_end_"@ + number(id) + ":"@,
    ]
}

/// The state a new generator starts in.
pub open spec fn emission_start() -> Emission {
    Emission { lines: header_lines(), next_id: 0, open: Seq::empty() }
}

/// The effect of one instruction: the lines it adds, and for a loop the
/// number it takes or gives back. A `LoopEnd` closes the innermost open loop.
pub open spec fn emit_step(st: Emission, ins: Instruction) -> Emission {
    match ins {
        Instruction::Sum(value, cell) => Emission {
            lines: st.lines.push(sum_line(value, cell)),
            ..st
        },
        Instruction::Print(cell) => Emission { lines: st.lines + print_lines(cell), ..st },
        Instruction::Read(cell) => Emission { lines: st.lines + read_lines(cell), ..st },
        Instruction::LoopStart(cell) => Emission {
            lines: st.lines + loop_start_lines(st.next_id, cell),
            next_id: (st.next_id + 1) as usize,
            open: st.open.push(st.next_id),
        },
        Instruction::LoopEnd(cell) => if st.open.len() > 0 {
            Emission {
                lines: st.lines + loop_end_lines(st.open.last(), cell),
                next_id: st.next_id,
                open: st.open.drop_last(),
            }
        } else {
            st
        },
    }
}

/// The generator run over `ir` from the state `st`.
pub open spec fn emit_fold(st: Emission, ir: Seq<Instruction>) -> Emission
    decreases ir.len(),
{
    if ir.len() == 0 {
        st
    } else {
        emit_step(emit_fold(st, ir.drop_last()), ir.last())
    }
}

/// Every `LoopEnd` in `ir` finds a loop open when the generator reaches it
/// from the state `st`.
pub open spec fn loops_close(st: Emission, ir: Seq<Instruction>) -> bool
    decreases ir.len(),
{
    if ir.len() == 0 {
        true
    } else {
        &&& loops_close(st, ir.drop_last())
        &&& (ir.last() is LoopEnd ==> emit_fold(st, ir.drop_last()).open.len() > 0)
    }
}

/// The whole assembly text of a program, as a new generator writes it.
pub open spec fn assembly(ir: Seq<Instruction>) -> Seq<char> {
    joined(emit_fold(emission_start(), ir).lines + exit_lines())
}

/// The generator: it turns instructions into lines of FASM assembly for
/// 32-bit Linux and numbers the loops as it meets them.
pub struct FasmGenerator {
    instructions: Vec<String>,
    loop_count: usize,
    loop_stack: Vec<usize>,
}

fn sum_text(value: i32, cell: usize) -> (line: String)
    ensures
        line@ == sum_line(value, cell),
{
    let mut line = "    add byte [ebp + ".to_owned();
    push_number(&mut line, cell);
    line.append("], ");
    push_signed_number(&mut line, value);
    line
}

fn with_number(head: &str, n: usize, tail: &str) -> (line: String)
    ensures
        line@ == head@ + number(n) + tail@,
{
    let mut line = head.to_owned();
    push_number(&mut line, n);
    line.append(tail);
    line
}

impl FasmGenerator {
    /// What the generator has written so far.
    pub closed spec fn state(&self) -> Emission {
        Emission {
            lines: texts(self.instructions@),
            next_id: self.loop_count,
            open: self.loop_stack@,
        }
    }

    /// No more loops have been numbered than lines written.
    pub closed spec fn wf(&self) -> bool {
        self.loop_count <= self.instructions.len()
    }

    pub fn new() -> (generator: FasmGenerator)
        ensures
            generator.wf(),
            generator.state() == emission_start(),
    {
        let mut instructions: Vec<String> = Vec::new();
        instructions.push("format ELF executable 3".to_owned());
        instructions.push("entry start".to_owned());
        instructions.push("".to_owned());
        instructions.push("segment readable writeable".to_owned());
        instructions.push("tape rb 30000".to_owned());
        instructions.push("".to_owned());
        instructions.push("segment readable executable".to_owned());
        instructions.push("start:".to_owned());
        instructions.push("    mov ebp, tape".to_owned());
        assert(texts(instructions@) =~= header_lines());
        Self { instructions, loop_count: 0, loop_stack: Vec::new() }
    }

    fn push_line(&mut self, line: String)
        ensures
            final(self).state() == (Emission {
                lines: old(self).state().lines.push(line@),
                ..old(self).state()
            }),
            final(self).instructions.len() == old(self).instructions.len() + 1,
            final(self).loop_count == old(self).loop_count,
    {
        self.instructions.push(line);
        assert(texts(self.instructions@) =~= texts(old(self).instructions@).push(line@));
    }

    fn push_print(&mut self, cell: usize)
        requires
            old(self).wf(),
        ensures
            final(self).wf(),
            final(self).state() == emit_step(old(self).state(), Instruction::Print(cell)),
    {
        self.push_line(with_number("; Print character at position ", cell, ""));
        self.push_line("    mov eax, 4         ; sys_write syscall number".to_owned());
        self.push_line("    mov ebx, 1         ; file descriptor (stdout)".to_owned());
        self.push_line(with_number("    lea ecx, [ebp + ", cell, "]  ; pointer to character"));
        self.push_line("    mov edx, 1         ; number of bytes to write".to_owned());
        self.push_line("    int 0x80           ; invoke syscall".to_owned());
        proof {
            reveal_strlit("");
            assert(self.state().lines =~= old(self).state().lines + print_lines(cell));
        }
    }

    fn push_read(&mut self, cell: usize)
        requires
            old(self).wf(),
        ensures
            final(self).wf(),
            final(self).state() == emit_step(old(self).state(), Instruction::Read(cell)),
    {
        self.push_line(with_number("; Read character into position ", cell, ""));
        self.push_line("    mov eax, 3         ; sys_read syscall number".to_owned());
        self.push_line("    mov ebx, 0         ; file descriptor (stdin)".to_owned());
        self.push_line(with_number("    lea ecx, [ebp + ", cell, "]  ; buffer to read into"));
        self.push_line("    mov edx, 1         ; number of bytes to read".to_owned());
        self.push_line("    int 0x80           ; invoke syscall".to_owned());
        proof {
            reveal_strlit("");
            assert(self.state().lines =~= old(self).state().lines + read_lines(cell));
        }
    }

    fn push_loop_start(&mut self, cell: usize)
        requires
            old(self).wf(),
        ensures
            final(self).wf(),
            final(self).state() == emit_step(old(self).state(), Instruction::LoopStart(cell)),
    {
        let loop_id = self.loop_count;
        self.push_line(with_number("; Start of loop ", loop_id, ""));
        self.push_line(with_number("loop_start_", loop_id, ":"));
        self.push_line(with_number("    cmp byte [ebp + ", cell, "], 0"));
        self.push_line(with_number("    je loop_end_", loop_id, ""));
        self.loop_count += 1;
        self.loop_stack.push(loop_id);
        proof {
            reveal_strlit("");
            assert(self.state().lines =~= old(self).state().lines + loop_start_lines(
                loop_id,
                cell,
            ));
        }
    }

    fn push_loop_end(&mut self, cell: usize)
        requires
            old(self).wf(),
            old(self).state().open.len() > 0,
        ensures
            final(self).wf(),
            final(self).state() == emit_step(old(self).state(), Instruction::LoopEnd(cell)),
    {
        let loop_id = self.loop_stack.pop().unwrap();
        self.push_line(with_number("; End of loop ", loop_id, ""));
        self.push_line(with_number("    cmp byte [ebp + ", cell, "], 0"));
        self.push_line(with_number("    jne loop_start_", loop_id, ""));
        self.push_line(with_number("loop_end_", loop_id, ":"));
        proof {
            reveal_strlit("");
            assert(self.state().lines =~= old(self).state().lines + loop_end_lines(loop_id, cell));
        }
    }

    /// Writes the assembly for `ir` after what the generator holds already,
    /// closes it with the exit system call, and returns the whole text.
    /// No `LoopEnd` may come without an open loop.
    pub fn generate(&mut self, ir: &[Instruction]) -> (text: String)
        requires
            old(self).wf(),
            loops_close(old(self).state(), ir@),
        ensures
            final(self).wf(),
            final(self).state() == (Emission {
                lines: emit_fold(old(self).state(), ir@).lines + exit_lines(),
                ..emit_fold(old(self).state(), ir@)
            }),
            text@ == joined(final(self).state().lines),
    {
        let ghost start = self.state();
        let mut i: usize = 0;
        while i < ir.len()
            invariant
                i <= ir.len(),
                self.wf(),
                loops_close(start, ir@.take(i as int)),
                loops_close(start, ir@),
                self.state() == emit_fold(start, ir@.take(i as int)),
            decreases ir.len() - i,
        {
            proof {
                assert(ir@.take(i + 1).drop_last() =~= ir@.take(i as int));
                lemma_loops_close_prefix(start, ir@, i + 1);
            }
            match ir[i] {
                Instruction::Sum(value, cell) => {
                    self.push_line(sum_text(value, cell));
                },
                Instruction::Print(cell) => {
                    self.push_print(cell);
                },
                Instruction::Read(cell) => {
                    self.push_read(cell);
                },
                Instruction::LoopStart(cell) => {
                    self.push_loop_start(cell);
                },
                Instruction::LoopEnd(cell) => {
                    self.push_loop_end(cell);
                },
            }
            i += 1;
        }
        assert(ir@.take(i as int) =~= ir@);
        let ghost body = self.state();
        self.push_line("\n; Exit program".to_owned());
        self.push_line("    mov eax, 1      ; sys_exit syscall number".to_owned());
        self.push_line("    xor ebx, ebx    ; exit status 0".to_owned());
        self.push_line("    int 0x80        ; invoke syscall".to_owned());
        assert(self.state().lines =~= body.lines + exit_lines());
        join_lines(&self.instructions)
    }
}

/// Where every `LoopEnd` of a program finds a loop open, so does every
/// `LoopEnd` of each of its beginnings.
pub proof fn lemma_loops_close_prefix(st: Emission, ir: Seq<Instruction>, k: int)
    requires
        loops_close(st, ir),
        0 <= k <= ir.len(),
    ensures
        loops_close(st, ir.take(k)),
    decreases ir.len(),
{
    if k == ir.len() {
        assert(ir.take(k) =~= ir);
    } else {
        lemma_loops_close_prefix(st, ir.drop_last(), k);
        assert(ir.drop_last().take(k) =~= ir.take(k));
    }
}

} // verus!
