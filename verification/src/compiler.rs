//! Code generator for the x86-64 Linux target that names loop labels by
//! entry order: each loop entry takes the next label number, tracked on an
//! explicit stack. The entry tests the cell and skips past its loop's end
//! label when zero; the exit branches back to the entry's label when nonzero
//! and places that end label. The stream must not close a loop it never
//! opened.

use crate::parser::bal;
use crate::parser::Token;
use crate::text::dec_spec;
use crate::text::push_dec;
use crate::x86_64_linux::add_text;
use crate::x86_64_linux::footer_text;
use crate::x86_64_linux::header_text;
use crate::x86_64_linux::left_text;
use crate::x86_64_linux::read_text;
use crate::x86_64_linux::right_text;
use crate::x86_64_linux::sub_text;
use crate::x86_64_linux::write_text;
use vstd::prelude::*;
use vstd::string::StringExecFns;

verus! {

/// No prefix of the stream closes more loops than it has opened: what a
/// resolved stream always satisfies, and what the label stack needs.
pub open spec fn prefix_balanced(prog: Seq<Token>) -> bool {
    forall|k: int| 0 <= k <= prog.len() ==> bal(#[trigger] prog.subrange(0, k)) >= 0
}

/// How many loop entries appear strictly before position `n`: the label
/// number the next entry will take.
pub open spec fn entries_before(prog: Seq<Token>, n: int) -> int
    decreases n,
{
    if n <= 0 {
        0
    } else {
        entries_before(prog, n - 1) + if prog[n - 1] is Break {
            1int
        } else {
            0int
        }
    }
}

/// The stack of pending label numbers after the first `n` instructions:
/// entries push their label, exits pop.
pub open spec fn label_stack(prog: Seq<Token>, n: int) -> Seq<int>
    decreases n,
{
    if n <= 0 {
        Seq::empty()
    } else {
        let s = label_stack(prog, n - 1);
        if prog[n - 1] is Break {
            s.push(entries_before(prog, n - 1))
        } else if prog[n - 1] is Loop {
            if s.len() > 0 {
                s.drop_last()
            } else {
                s
            }
        } else {
            s
        }
    }
}

/// Text for a loop entry: its label, freshly numbered in entry order, then
/// the test that skips to the loop's end label when the cell is zero.
pub open spec fn entry_text(label: int) -> Seq<char> {
    "l"@ + dec_spec(label) + ":\nmovzx rcx, byte [tape + rbx]\ncmp rcx, 0\nje l"@ + dec_spec(
        label,
    ) + "e\n"@
}

/// Text for a loop exit: the branch back to the entry's label when the cell
/// is nonzero, then the end label the entry skips to.
pub open spec fn exit_text(label: int) -> Seq<char> {
    "movzx rcx, byte [tape + rbx]\ncmp rcx, 0\njne l"@ + dec_spec(label) + "\nl"@ + dec_spec(
        label,
    ) + "e:\n"@
}

/// The translation of the instruction at stream position `i`.
pub open spec fn token_text(prog: Seq<Token>, i: int) -> Seq<char> {
    match prog[i] {
        Token::Right(c) => right_text(c as int),
        Token::Left(c) => left_text(c as int),
        Token::Add(c) => add_text(c as int),
        Token::Sub(c) => sub_text(c as int),
        Token::Read => read_text(),
        Token::Write => write_text(),
        Token::Break(_) => entry_text(entries_before(prog, i)),
        Token::Loop(_) => exit_text(label_stack(prog, i).last()),
        Token::Comment => Seq::empty(),
    }
}

/// The concatenated translations of the first `n` instructions, in stream
/// order.
pub open spec fn body_text(prog: Seq<Token>, n: int) -> Seq<char>
    decreases n,
{
    if n <= 0 {
        Seq::empty()
    } else {
        body_text(prog, n - 1) + token_text(prog, n - 1)
    }
}

/// The whole program text: prologue, one chunk per instruction, epilogue.
pub open spec fn asm_text(prog: Seq<Token>, memory: int) -> Seq<char> {
    header_text(memory) + body_text(prog, prog.len() as int) + footer_text()
}

/// At most one loop entry per instruction: the next label number never
/// outgrows the stream position.
proof fn lemma_entries_bound(prog: Seq<Token>, n: int)
    requires
        0 <= n,
    ensures
        0 <= entries_before(prog, n) <= n,
    decreases n,
{
    if n > 0 {
        lemma_entries_bound(prog, n - 1);
    }
}

/// On a stream whose prefixes never close unopened loops, the label stack's
/// height is exactly the running bracket balance.
proof fn lemma_stack_is_balance(prog: Seq<Token>, n: int)
    requires
        0 <= n <= prog.len(),
        forall|k: int| 0 <= k <= n ==> bal(#[trigger] prog.subrange(0, k)) >= 0,
    ensures
        label_stack(prog, n).len() == bal(prog.subrange(0, n)),
    decreases n,
{
    if n == 0 {
        assert(prog.subrange(0, 0) =~= Seq::<Token>::empty());
    } else {
        lemma_stack_is_balance(prog, n - 1);
        assert(prog.subrange(0, n).drop_last() =~= prog.subrange(0, n - 1));
        assert(prog.subrange(0, n).last() == prog[n - 1]);
    }
}

/// Entry-ordered labels are unique per loop occurrence: any instruction after
/// a loop entry sees a strictly larger next-label number, so no later entry
/// ever reuses an earlier entry's label.
pub proof fn lemma_entry_labels_increase(prog: Seq<Token>, i: int, j: int)
    requires
        0 <= i < j,
        prog[i] is Break,
    ensures
        entries_before(prog, i) < entries_before(prog, j),
    decreases j,
{
    if j > i + 1 {
        lemma_entry_labels_increase(prog, i, j - 1);
    }
}

/// Runtime check that no prefix of a stream closes more loops than it has
/// opened, for callers that hold a stream of unknown provenance.
pub fn balance_nonneg(p: &Vec<Token>) -> (b: bool)
    ensures
        b == prefix_balanced(p@),
{
    let n = p.len();
    let mut depth: usize = 0;
    let mut i: usize = 0;
    proof {
        assert(p@.subrange(0, 0) =~= Seq::<Token>::empty());
    }
    while i < n
        invariant
            i <= n,
            n == p@.len(),
            depth == bal(p@.subrange(0, i as int)),
            forall|k: int| 0 <= k <= i ==> bal(#[trigger] p@.subrange(0, k)) >= 0,
        decreases n - i,
    {
        let t = p[i];
        proof {
            assert(p@.subrange(0, i + 1).drop_last() =~= p@.subrange(0, i as int));
            assert(p@.subrange(0, i + 1).last() == p@[i as int]);
            crate::parser::lemma_bal_bounds(p@.subrange(0, i as int));
        }
        match t {
            Token::Break(_) => {
                depth = depth + 1;
            }
            Token::Loop(_) => {
                if depth == 0 {
                    return false;
                }
                depth = depth - 1;
            }
            _ => {}
        }
        i = i + 1;
    }
    true
}

/// Whatever the front end resolves is accepted here: a fully matched,
/// resolved stream never closes a loop it has not opened.
pub proof fn lemma_resolved_stream_accepted(s: Seq<Token>, r: Seq<Token>)
    requires
        crate::parser::resolved_view(s, r),
        crate::parser::all_matched(s),
    ensures
        prefix_balanced(r),
{
    assert forall|k: int| 0 <= k <= r.len() implies bal(#[trigger] r.subrange(0, k)) >= 0 by {
        crate::parser::lemma_matched_prefixes_nonneg(s, k);
        crate::parser::lemma_resolved_same_balance(s, r, k);
    }
}

/// Emits the complete assembly program for an instruction stream and a tape
/// of `memory` cells, numbering loop labels in entry order.
pub fn codegen(program: &Vec<Token>, memory: usize) -> (out: String)
    requires
        prefix_balanced(program@),
    ensures
        out@ == asm_text(program@, memory as int),
{
    let ghost prog = program@;
    let mut out = String::from_str("section .bss\n  tape        resb ");
    push_dec(&mut out, memory);
    out.append(
        "\n  input_buf   resb 10000\n  input_index resq 1\n  input_len   resq 1\n\nsection .text\nglobal _start\n\nread_line:\n  mov rax, qword [input_index]\n  cmp rax, qword [input_len]\n  jne end\n\n  mov qword [input_index], 0\n  mov qword [input_len], 0\n\n  read_loop:\n    mov rax, 0\n    mov rdi, 0,\n    mov rcx, qword [input_len]\n    lea rsi, byte [input_buf + rcx]\n    mov rdx, 1\n    syscall\n\n    mov rcx, qword [input_len]\n    add qword [input_len], 1\n    cmp byte [input_buf + rcx], 10\n    jne read_loop\n\n  end:\n  ret\n\n_start:\n  mov qword [input_index], 0\n  mov qword [input_len], 0\n",
    );
    proof {
        assert(out@ =~= header_text(memory as int));
    }
    let n = program.len();
    let mut loop_index: usize = 0;
    let mut loops: Vec<usize> = Vec::new();
    let mut i: usize = 0;
    while i < n
        invariant
            i <= n,
            n == prog.len(),
            prog == program@,
            prefix_balanced(prog),
            loop_index == entries_before(prog, i as int),
            loops@.len() == label_stack(prog, i as int).len(),
            forall|m: int| 0 <= m < loops@.len() ==> loops@[m] == label_stack(prog, i as int)[m],
            out@ == header_text(memory as int) + body_text(prog, i as int),
        decreases n - i,
    {
        let t = program[i];
        proof {
            lemma_stack_is_balance(prog, i as int);
            lemma_stack_is_balance(prog, i + 1);
            assert(prog.subrange(0, i + 1).drop_last() =~= prog.subrange(0, i as int));
            assert(prog.subrange(0, i + 1).last() == prog[i as int]);
            crate::parser::lemma_bal_bounds(prog.subrange(0, i as int));
            lemma_entries_bound(prog, i as int);
        }
        match t {
            Token::Right(count) => {
                out.append("add rbx, ");
                push_dec(&mut out, count);
                out.append("\n");
            }
            Token::Left(count) => {
                out.append("sub rbx, ");
                push_dec(&mut out, count);
                out.append("\n");
            }
            Token::Add(count) => {
                out.append("add byte [tape + rbx], ");
                push_dec(&mut out, count as usize);
                out.append("\n");
            }
            Token::Sub(count) => {
                out.append("sub byte [tape + rbx], ");
                push_dec(&mut out, count as usize);
                out.append("\n");
            }
            Token::Read => {
                out.append(
                    "call read_line\nmov rcx, qword [input_index]\nmov dl, byte [input_buf + rcx]\nmov byte [tape + rbx], dl\nadd qword [input_index], 1\n",
                );
            }
            Token::Write => {
                out.append("mov rax, 1\nmov rdi, 1\nmov rsi, tape\nadd rsi, rbx\nmov rdx, 1\nsyscall\n");
            }
            Token::Break(_) => {
                loops.push(loop_index);
                out.append("l");
                push_dec(&mut out, loop_index);
                out.append(":\nmovzx rcx, byte [tape + rbx]\ncmp rcx, 0\nje l");
                push_dec(&mut out, loop_index);
                out.append("e\n");
                loop_index = loop_index + 1;
            }
            Token::Loop(_) => {
                proof {
                    assert(label_stack(prog, i as int).len() > 0);
                }
                let label = loops.pop().unwrap();
                out.append("movzx rcx, byte [tape + rbx]\ncmp rcx, 0\njne l");
                push_dec(&mut out, label);
                out.append("\nl");
                push_dec(&mut out, label);
                out.append("e:\n");
            }
            Token::Comment => {}
        }
        proof {
            assert(out@ =~= header_text(memory as int) + body_text(prog, i + 1));
        }
        i = i + 1;
    }
    out.append("mov rax, 60\nmov rdi, 0\nsyscall\n");
    proof {
        assert(out@ =~= asm_text(prog, memory as int));
    }
    out
}

} // verus!
