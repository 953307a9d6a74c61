use tapelang::arch::Target;
use tapelang::compiler;
use tapelang::parser::ast;
use tapelang::{aarch32_linux, x86_64_linux};

fn x86_header(memory: usize) -> String {
    format!(
        "section .bss\n  tape        resb {}\n  input_buf   resb 10000\n  input_index resq 1\n  input_len   resq 1\n\nsection .text\nglobal _start\n\nread_line:\n  mov rax, qword [input_index]\n  cmp rax, qword [input_len]\n  jne end\n\n  mov qword [input_index], 0\n  mov qword [input_len], 0\n\n  read_loop:\n    mov rax, 0\n    mov rdi, 0,\n    mov rcx, qword [input_len]\n    lea rsi, byte [input_buf + rcx]\n    mov rdx, 1\n    syscall\n\n    mov rcx, qword [input_len]\n    add qword [input_len], 1\n    cmp byte [input_buf + rcx], 10\n    jne read_loop\n\n  end:\n  ret\n\n_start:\n  mov qword [input_index], 0\n  mov qword [input_len], 0\n",
        memory
    )
}

const X86_FOOTER: &str = "mov rax, 60\nmov rdi, 0\nsyscall\n";

const ARM_HEADER: &str = ".syntax unified\n.global _start\n\n.macro mov32, reg, val\n    movw \\reg, #:lower16:\\val\n    movt \\reg, #:upper16:\\val\n.endm\n\n.text\nwrite:\n    mov    r0, #1\n    add    r1, r5, r4\n    mov    r2, #1\n    mov    r7, #4\n    svc    #0\n    mov    pc, lr\n\nread:\n    mov    r0, #0\n    add    r1, r5, r4\n    mov    r2, #1\n    mov    r7, #3\n    svc    #0\n    mov    pc, lr\n\n_start:\n    mov    r4, #0\n    mov32  r5, #tape\n";

fn arm_footer(memory: usize) -> String {
    format!(
        "exit:\n    mov    r0, #0\n    mov    r7, #1\n    svc    #0\n\n.bss\ntape:    .space {}, 0x0\n",
        memory
    )
}

#[test]
fn x86_emits_clear_loop() {
    let program = ast("[-]").unwrap();
    let out = x86_64_linux::codegen(&program, 7);
    let expected = format!(
        "{}L0:\nmovzx rcx, byte [tape + rbx]\ncmp rcx, 0\nje L2\nsub byte [tape + rbx], 1\nmovzx rcx, byte [tape + rbx]\ncmp rcx, 0\njne L0\nL2:\n{}",
        x86_header(7),
        X86_FOOTER
    );
    assert_eq!(out, expected);
}

#[test]
fn x86_emits_all_plain_instructions() {
    let program = ast(">><+++--.,").unwrap();
    let out = x86_64_linux::codegen(&program, 30000);
    let expected = format!(
        "{}add rbx, 2\nsub rbx, 1\nadd byte [tape + rbx], 3\nsub byte [tape + rbx], 2\nmov rax, 1\nmov rdi, 1\nmov rsi, tape\nadd rsi, rbx\nmov rdx, 1\nsyscall\ncall read_line\nmov rcx, qword [input_index]\nmov dl, byte [input_buf + rcx]\nmov byte [tape + rbx], dl\nadd qword [input_index], 1\n{}",
        x86_header(30000),
        X86_FOOTER
    );
    assert_eq!(out, expected);
}

#[test]
fn x86_renders_multi_digit_counts() {
    let program = ast(">>>>>>>>>>>>").unwrap();
    let out = x86_64_linux::codegen(&program, 123);
    let expected = format!("{}add rbx, 12\n{}", x86_header(123), X86_FOOTER);
    assert_eq!(out, expected);
}

#[test]
fn stack_labelled_generator_numbers_loops_by_entry() {
    let program = ast("[-][+]").unwrap();
    assert!(compiler::balance_nonneg(&program));
    let out = compiler::codegen(&program, 7);
    let expected = format!(
        "{}l0:\nmovzx rcx, byte [tape + rbx]\ncmp rcx, 0\nje l0e\nsub byte [tape + rbx], 1\nmovzx rcx, byte [tape + rbx]\ncmp rcx, 0\njne l0\nl0e:\nl1:\nmovzx rcx, byte [tape + rbx]\ncmp rcx, 0\nje l1e\nadd byte [tape + rbx], 1\nmovzx rcx, byte [tape + rbx]\ncmp rcx, 0\njne l1\nl1e:\n{}",
        x86_header(7),
        X86_FOOTER
    );
    assert_eq!(out, expected);
}

#[test]
fn stack_labelled_generator_nests_labels() {
    let program = ast("[[-]]").unwrap();
    assert!(compiler::balance_nonneg(&program));
    let out = compiler::codegen(&program, 7);
    let expected = format!(
        "{}l0:\nmovzx rcx, byte [tape + rbx]\ncmp rcx, 0\nje l0e\nl1:\nmovzx rcx, byte [tape + rbx]\ncmp rcx, 0\nje l1e\nsub byte [tape + rbx], 1\nmovzx rcx, byte [tape + rbx]\ncmp rcx, 0\njne l1\nl1e:\nmovzx rcx, byte [tape + rbx]\ncmp rcx, 0\njne l0\nl0e:\n{}",
        x86_header(7),
        X86_FOOTER
    );
    assert_eq!(out, expected);
}

#[test]
fn arm_emits_moves_and_loops() {
    let program = ast(">[-.]").unwrap();
    let out = aarch32_linux::codegen(&program, 9);
    let expected = format!(
        "{}@\n    mov32  r0, #1\n    add    r4, r4, r0\nL1:\n    ldrb   r0, [r5, r4]\n    cmp    r0, #0\n    beq    L4\n@\n    mov32  r0, #1\n    ldrb   r1, [r5, r4]\n    sub    r1, r1, r0\n    strb   r1, [r5, r4]\n@\n    bl     write\n@\n    ldrb   r0, [r5, r4]\n    cmp    r0, #0\n    bne    L1\nL4:\n{}",
        ARM_HEADER,
        arm_footer(9)
    );
    assert_eq!(out, expected);
}

#[test]
fn arm_emits_read() {
    let program = ast(",<").unwrap();
    let out = aarch32_linux::codegen(&program, 30000);
    let expected = format!(
        "{}@\n    bl     read\n@\n    mov32  r0, #1\n    sub    r4, r4, r0\n{}",
        ARM_HEADER,
        arm_footer(30000)
    );
    assert_eq!(out, expected);
}

#[test]
fn target_names_round_trip() {
    assert_eq!(Target::from_name("aarch32-linux"), Some(Target::Aarch32Linux));
    assert_eq!(Target::from_name("x86_64-linux"), Some(Target::X86_64Linux));
    assert_eq!(Target::from_name("mips-linux"), None);
    assert_eq!(Target::from_name(""), None);
    assert_eq!(Target::Aarch32Linux.name(), "aarch32-linux");
    assert_eq!(Target::X86_64Linux.name(), "x86_64-linux");
    for t in [Target::Aarch32Linux, Target::X86_64Linux] {
        assert_eq!(Target::from_name(t.name()), Some(t));
    }
}

#[test]
fn target_dispatch_picks_the_right_generator() {
    let program = ast("+.").unwrap();
    assert_eq!(
        Target::X86_64Linux.codegen(&program, 64),
        x86_64_linux::codegen(&program, 64)
    );
    assert_eq!(
        Target::Aarch32Linux.codegen(&program, 64),
        aarch32_linux::codegen(&program, 64)
    );
}
