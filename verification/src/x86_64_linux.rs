//! Code generator for the x86-64 Linux target: a one-to-one positional
//! translation of the instruction stream into nasm assembly, with one label
//! per stream position so that resolved jump targets can be referenced
//! directly.

use crate::parser::Token;
use crate::text::dec_spec;
use crate::text::push_dec;
use vstd::prelude::*;
use vstd::string::StringExecFns;

verus! {

/// The program prologue: reserved tape and input buffer, the line-buffered
/// read routine, and entry-point setup.
pub open spec fn header_text(memory: int) -> Seq<char> {
    "section .bss\n  tape        resb "@ + dec_spec(memory)
        + "\n  input_buf   resb 10000\n  input_index resq 1\n  input_len   resq 1\n\nsection .text\nglobal _start\n\nread_line:\n  mov rax, qword [input_index]\n  cmp rax, qword [input_len]\n  jne end\n\n  mov qword [input_index], 0\n  mov qword [input_len], 0\n\n  read_loop:\n    mov rax, 0\n    mov rdi, 0,\n    mov rcx, qword [input_len]\n    lea rsi, byte [input_buf + rcx]\n    mov rdx, 1\n    syscall\n\n    mov rcx, qword [input_len]\n    add qword [input_len], 1\n    cmp byte [input_buf + rcx], 10\n    jne read_loop\n\n  end:\n  ret\n\n_start:\n  mov qword [input_index], 0\n  mov qword [input_len], 0\n"@
}

/// The program epilogue: the exit system call.
pub open spec fn footer_text() -> Seq<char> {
    "mov rax, 60\nmov rdi, 0\nsyscall\n"@
}

/// Text for a pointer move to the right.
pub open spec fn right_text(count: int) -> Seq<char> {
    "add rbx, "@ + dec_spec(count) + "\n"@
}

/// Text for a pointer move to the left.
pub open spec fn left_text(count: int) -> Seq<char> {
    "sub rbx, "@ + dec_spec(count) + "\n"@
}

/// Text for a cell increment.
pub open spec fn add_text(count: int) -> Seq<char> {
    "add byte [tape + rbx], "@ + dec_spec(count) + "\n"@
}

/// Text for a cell decrement.
pub open spec fn sub_text(count: int) -> Seq<char> {
    "sub byte [tape + rbx], "@ + dec_spec(count) + "\n"@
}

/// Text for reading one input byte into the current cell.
pub open spec fn read_text() -> Seq<char> {
    "call read_line\nmov rcx, qword [input_index]\nmov dl, byte [input_buf + rcx]\nmov byte [tape + rbx], dl\nadd qword [input_index], 1\n"@
}

/// Text for writing the current cell to the output.
pub open spec fn write_text() -> Seq<char> {
    "mov rax, 1\nmov rdi, 1\nmov rsi, tape\nadd rsi, rbx\nmov rdx, 1\nsyscall\n"@
}

/// Text for a loop exit at position `i`: branches back to its partner `j`
/// when the cell is nonzero; its own label sits after the branch, so the
/// partner's forward jump leaves the loop.
pub open spec fn loop_text(j: int, i: int) -> Seq<char> {
    "movzx rcx, byte [tape + rbx]\ncmp rcx, 0\njne L"@ + dec_spec(j) + "\nL"@ + dec_spec(i)
        + ":\n"@
}

/// Text for a loop entry at position `i`: skips forward past its partner
/// `j` when the cell is zero; its own label sits before the test, so the
/// partner's backward jump re-enters the loop at the test.
pub open spec fn break_text(j: int, i: int) -> Seq<char> {
    "L"@ + dec_spec(i) + ":\nmovzx rcx, byte [tape + rbx]\ncmp rcx, 0\nje L"@ + dec_spec(j)
        + "\n"@
}

/// The translation of one instruction at stream position `i`.
pub open spec fn token_text(t: Token, i: int) -> Seq<char> {
    match t {
        Token::Right(c) => right_text(c as int),
        Token::Left(c) => left_text(c as int),
        Token::Add(c) => add_text(c as int),
        Token::Sub(c) => sub_text(c as int),
        Token::Read => read_text(),
        Token::Write => write_text(),
        Token::Loop(j) => loop_text(j as int, i),
        Token::Break(j) => break_text(j as int, i),
        Token::Comment => Seq::empty(),
    }
}

/// The concatenated translations of the first `n` instructions, in stream
/// order.
pub open spec fn body_text(prog: Seq<Token>, n: int) -> Seq<char>
    decreases n,
{
    if n <= 0 {
        Seq::empty()
    } else {
        body_text(prog, n - 1) + token_text(prog[n - 1], n - 1)
    }
}

/// The whole program text: prologue, one chunk per instruction, epilogue.
pub open spec fn asm_text(prog: Seq<Token>, memory: int) -> Seq<char> {
    header_text(memory) + body_text(prog, prog.len() as int) + footer_text()
}

/// Emits the complete assembly program for an instruction stream and a tape
/// of `memory` cells, as a 1:1 positional translation.
pub fn codegen(program: &Vec<Token>, memory: usize) -> (out: String)
    ensures
        out@ == asm_text(program@, memory as int),
{
    let ghost prog = program@;
    let mut out = String::from_str("section .bss\n  tape        resb ");
    push_dec(&mut out, memory);
    out.append(
        "\n  input_buf   resb 10000\n  input_index resq 1\n  input_len   resq 1\n\nsection .text\nglobal _start\n\nread_line:\n  mov rax, qword [input_index]\n  cmp rax, qword [input_len]\n  jne end\n\n  mov qword [input_index], 0\n  mov qword [input_len], 0\n\n  read_loop:\n    mov rax, 0\n    mov rdi, 0,\n    mov rcx, qword [input_len]\n    lea rsi, byte [input_buf + rcx]\n    mov rdx, 1\n    syscall\n\n    mov rcx, qword [input_len]\n    add qword [input_len], 1\n    cmp byte [input_buf + rcx], 10\n    jne read_loop\n\n  end:\n  ret\n\n_start:\n  mov qword [input_index], 0\n  mov qword [input_len], 0\n",
    );
    proof {
        assert(out@ =~= header_text(memory as int));
    }
    let n = program.len();
    let mut i: usize = 0;
    while i < n
        invariant
            i <= n,
            n == prog.len(),
            prog == program@,
            out@ == header_text(memory as int) + body_text(prog, i as int),
        decreases n - i,
    {
        let t = program[i];
        match t {
            Token::Right(count) => {
                out.append("add rbx, ");
                push_dec(&mut out, count);
                out.append("\n");
            }
            Token::Left(count) => {
                out.append("sub rbx, ");
                push_dec(&mut out, count);
                out.append("\n");
            }
            Token::Add(count) => {
                out.append("add byte [tape + rbx], ");
                push_dec(&mut out, count as usize);
                out.append("\n");
            }
            Token::Sub(count) => {
                out.append("sub byte [tape + rbx], ");
                push_dec(&mut out, count as usize);
                out.append("\n");
            }
            Token::Read => {
                out.append(
                    "call read_line\nmov rcx, qword [input_index]\nmov dl, byte [input_buf + rcx]\nmov byte [tape + rbx], dl\nadd qword [input_index], 1\n",
                );
            }
            Token::Write => {
                out.append("mov rax, 1\nmov rdi, 1\nmov rsi, tape\nadd rsi, rbx\nmov rdx, 1\nsyscall\n");
            }
            Token::Loop(jump) => {
                out.append("movzx rcx, byte [tape + rbx]\ncmp rcx, 0\njne L");
                push_dec(&mut out, jump);
                out.append("\nL");
                push_dec(&mut out, i);
                out.append(":\n");
            }
            Token::Break(jump) => {
                out.append("L");
                push_dec(&mut out, i);
                out.append(":\nmovzx rcx, byte [tape + rbx]\ncmp rcx, 0\nje L");
                push_dec(&mut out, jump);
                out.append("\n");
            }
            Token::Comment => {}
        }
        proof {
            assert(out@ =~= header_text(memory as int) + body_text(prog, i + 1));
        }
        i = i + 1;
    }
    out.append("mov rax, 60\nmov rdi, 0\nsyscall\n");
    proof {
        assert(out@ =~= asm_text(prog, memory as int));
    }
    out
}

} // verus!
