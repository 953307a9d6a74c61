//! Code generator for the 32-bit ARM Linux target: a one-to-one positional
//! translation of the instruction stream into GNU assembler text, with one
//! label per stream position so that resolved jump targets can be referenced
//! directly. Pointer-move offsets are loaded through a move-immediate macro
//! pair rather than encoded as immediates.

use crate::parser::Token;
use crate::text::dec_spec;
use crate::text::push_dec;
use vstd::prelude::*;
use vstd::string::StringExecFns;

verus! {

/// The program prologue: the move-immediate macro, the read and write
/// routines, and entry-point setup.
pub open spec fn header_text() -> Seq<char> {
    ".syntax unified\n.global _start\n\n.macro mov32, reg, val\n    movw \\reg, #:lower16:\\val\n    movt \\reg, #:upper16:\\val\n.endm\n\n.text\nwrite:\n    mov    r0, #1\n    add    r1, r5, r4\n    mov    r2, #1\n    mov    r7, #4\n    svc    #0\n    mov    pc, lr\n\nread:\n    mov    r0, #0\n    add    r1, r5, r4\n    mov    r2, #1\n    mov    r7, #3\n    svc    #0\n    mov    pc, lr\n\n_start:\n    mov    r4, #0\n    mov32  r5, #tape\n"@
}

/// The program epilogue: the exit system call and the reserved tape.
pub open spec fn footer_text(memory: int) -> Seq<char> {
    "exit:\n    mov    r0, #0\n    mov    r7, #1\n    svc    #0\n\n.bss\ntape:    .space "@
        + dec_spec(memory) + ", 0x0\n"@
}

/// Text for a pointer move to the right.
pub open spec fn right_text(count: int) -> Seq<char> {
    "@\n    mov32  r0, #"@ + dec_spec(count) + "\n    add    r4, r4, r0\n"@
}

/// Text for a pointer move to the left.
pub open spec fn left_text(count: int) -> Seq<char> {
    "@\n    mov32  r0, #"@ + dec_spec(count) + "\n    sub    r4, r4, r0\n"@
}

/// Text for a cell increment.
pub open spec fn add_text(count: int) -> Seq<char> {
    "@\n    mov32  r0, #"@ + dec_spec(count)
        + "\n    ldrb   r1, [r5, r4]\n    add    r1, r0, r1\n    strb   r1, [r5, r4]\n"@
}

/// Text for a cell decrement.
pub open spec fn sub_text(count: int) -> Seq<char> {
    "@\n    mov32  r0, #"@ + dec_spec(count)
        + "\n    ldrb   r1, [r5, r4]\n    sub    r1, r1, r0\n    strb   r1, [r5, r4]\n"@
}

/// Text for reading one input byte into the current cell.
pub open spec fn read_text() -> Seq<char> {
    "@\n    bl     read\n"@
}

/// Text for writing the current cell to the output.
pub open spec fn write_text() -> Seq<char> {
    "@\n    bl     write\n"@
}

/// Text for a loop exit at position `i`: branches back to its partner `j`
/// when the cell is nonzero; its own label sits after the branch, so the
/// partner's forward jump leaves the loop.
pub open spec fn loop_text(j: int, i: int) -> Seq<char> {
    "@\n    ldrb   r0, [r5, r4]\n    cmp    r0, #0\n    bne    L"@ + dec_spec(j) + "\nL"@
        + dec_spec(i) + ":\n"@
}

/// Text for a loop entry at position `i`: skips forward past its partner
/// `j` when the cell is zero; its own label sits before the test, so the
/// partner's backward jump re-enters the loop at the test.
pub open spec fn break_text(j: int, i: int) -> Seq<char> {
    "L"@ + dec_spec(i) + ":\n    ldrb   r0, [r5, r4]\n    cmp    r0, #0\n    beq    L"@
        + dec_spec(j) + "\n"@
}

/// The translation of one instruction at stream position `i`.
pub open spec fn token_text(t: Token, i: int) -> Seq<char> {
    match t {
        Token::Right(c) => right_text(c as int),
        Token::Left(c) => left_text(c as int),
        Token::Add(c) => add_text(c as int),
        Token::Sub(c) => sub_text(c as int),
        Token::Read => read_text(),
        Token::Write => write_text(),
        Token::Loop(j) => loop_text(j as int, i),
        Token::Break(j) => break_text(j as int, i),
        Token::Comment => Seq::empty(),
    }
}

/// The concatenated translations of the first `n` instructions, in stream
/// order.
pub open spec fn body_text(prog: Seq<Token>, n: int) -> Seq<char>
    decreases n,
{
    if n <= 0 {
        Seq::empty()
    } else {
        body_text(prog, n - 1) + token_text(prog[n - 1], n - 1)
    }
}

/// The whole program text: prologue, one chunk per instruction, epilogue.
pub open spec fn asm_text(prog: Seq<Token>, memory: int) -> Seq<char> {
    header_text() + body_text(prog, prog.len() as int) + footer_text(memory)
}

/// Emits the complete assembly program for an instruction stream and a tape
/// of `memory` cells, as a 1:1 positional translation.
pub fn codegen(program: &Vec<Token>, memory: usize) -> (out: String)
    ensures
        out@ == asm_text(program@, memory as int),
{
    let ghost prog = program@;
    let mut out = String::from_str(
        ".syntax unified\n.global _start\n\n.macro mov32, reg, val\n    movw \\reg, #:lower16:\\val\n    movt \\reg, #:upper16:\\val\n.endm\n\n.text\nwrite:\n    mov    r0, #1\n    add    r1, r5, r4\n    mov    r2, #1\n    mov    r7, #4\n    svc    #0\n    mov    pc, lr\n\nread:\n    mov    r0, #0\n    add    r1, r5, r4\n    mov    r2, #1\n    mov    r7, #3\n    svc    #0\n    mov    pc, lr\n\n_start:\n    mov    r4, #0\n    mov32  r5, #tape\n",
    );
    let n = program.len();
    let mut i: usize = 0;
    while i < n
        invariant
            i <= n,
            n == prog.len(),
            prog == program@,
            out@ == header_text() + body_text(prog, i as int),
        decreases n - i,
    {
        let t = program[i];
        match t {
            Token::Right(count) => {
                out.append("@\n    mov32  r0, #");
                push_dec(&mut out, count);
                out.append("\n    add    r4, r4, r0\n");
            }
            Token::Left(count) => {
                out.append("@\n    mov32  r0, #");
                push_dec(&mut out, count);
                out.append("\n    sub    r4, r4, r0\n");
            }
            Token::Add(count) => {
                out.append("@\n    mov32  r0, #");
                push_dec(&mut out, count as usize);
                out.append("\n    ldrb   r1, [r5, r4]\n    add    r1, r0, r1\n    strb   r1, [r5, r4]\n");
            }
            Token::Sub(count) => {
                out.append("@\n    mov32  r0, #");
                push_dec(&mut out, count as usize);
                out.append("\n    ldrb   r1, [r5, r4]\n    sub    r1, r1, r0\n    strb   r1, [r5, r4]\n");
            }
            Token::Read => {
                out.append("@\n    bl     read\n");
            }
            Token::Write => {
                out.append("@\n    bl     write\n");
            }
            Token::Loop(jump) => {
                out.append("@\n    ldrb   r0, [r5, r4]\n    cmp    r0, #0\n    bne    L");
                push_dec(&mut out, jump);
                out.append("\nL");
                push_dec(&mut out, i);
                out.append(":\n");
            }
            Token::Break(jump) => {
                out.append("L");
                push_dec(&mut out, i);
                out.append(":\n    ldrb   r0, [r5, r4]\n    cmp    r0, #0\n    beq    L");
                push_dec(&mut out, jump);
                out.append("\n");
            }
            Token::Comment => {}
        }
        proof {
            assert(out@ =~= header_text() + body_text(prog, i + 1));
        }
        i = i + 1;
    }
    out.append("exit:\n    mov    r0, #0\n    mov    r7, #1\n    svc    #0\n\n.bss\ntape:    .space ");
    push_dec(&mut out, memory);
    out.append(", 0x0\n");
    proof {
        assert(out@ =~= asm_text(prog, memory as int));
    }
    out
}

} // verus!
