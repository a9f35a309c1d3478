use bfc::{parse, Arch, AstNode, ByteStream, Format, Location, Node, Plan, X86Mode};

fn tree_of(text: &str) -> Vec<Node<AstNode>> {
    parse(ByteStream::from_str(String::from("p.b"), text)).expect("well bracketed")
}

fn asm_of(mode: X86Mode, text: &str) -> String {
    String::from_utf8(mode.gen_asm(tree_of(text))).expect("ascii")
}

const AMD64_READ_WRITE_LOOP: &str = ".text
.globl _start
_start:
  pushq $0
  mov %rsp, %rbx
  addw $2, (%rbx)
  jmp _at_1_3_loop_end
  _at_1_3_loop_start:
  movw $0, (%rbx)
  mov $0, %rax
  mov $0, %rdi
  mov %rbx, %rsi
  mov $1, %rdx
  syscall
  cmp $1, %rax
  je _at_1_4_getc_end
  movw $-1, (%rbx)
  _at_1_4_getc_end:
  mov $1, %rax
  mov $1, %rdi
  mov %rbx, %rsi
  mov $1, %rdx
  syscall
  _at_1_3_loop_end:
  cmpw $0, (%rbx)
  jne _at_1_3_loop_start
  mov $60, %rax
  mov $0, %rdi
  syscall
";

#[test]
fn amd64_code_for_read_write_loop() {
    assert_eq!(asm_of(X86Mode::Amd64, "++[,.]"), AMD64_READ_WRITE_LOOP);
}

#[test]
fn x86_code_for_moves_and_decrement() {
    let expected = ".text
.globl _start
_start:
  pushl $0
  mov %esp, %esi
  sub $6, %esi
  jmp _at_1_1_check_esp_end
  _at_1_1_check_esp_start:
  pushl $0
  _at_1_1_check_esp_end:
  cmp %esi, %esp
  jae _at_1_1_check_esp_start
  subw $2, (%esi)
  add $4, %esi
  mov $4, %eax
  mov $1, %ebx
  mov %esi, %ecx
  mov $1, %edx
  int $0x80
  mov $1, %eax
  mov $0, %ebx
  int $0x80
";
    assert_eq!(asm_of(X86Mode::X86, ">>>--<<."), expected);
}

#[test]
fn x86_read_code() {
    let text = asm_of(X86Mode::X86, "\n ,");
    assert!(text.contains(
        "  movw $0, (%esi)\n  mov $3, %eax\n  mov $0, %ebx\n  mov %esi, %ecx\n  mov $1, %edx\n  int $0x80\n  cmp $1, %eax\n  je _at_2_2_getc_end\n  movw $-1, (%esi)\n  _at_2_2_getc_end:\n"
    ));
}

#[test]
fn empty_program_is_prologue_and_exit() {
    assert_eq!(
        asm_of(X86Mode::Amd64, "no code here"),
        ".text\n.globl _start\n_start:\n  pushq $0\n  mov %rsp, %rbx\n  mov $60, %rax\n  mov $0, %rdi\n  syscall\n"
    );
}

#[test]
fn forward_move_guard_scales_by_cell_width() {
    let text = asm_of(X86Mode::Amd64, ">");
    assert!(text.contains("  sub $2, %rbx\n  jmp _at_1_1_check_esp_end\n  _at_1_1_check_esp_start:\n  pushq $0\n  _at_1_1_check_esp_end:\n  cmp %rbx, %rsp\n  jae _at_1_1_check_esp_start\n"));
    let text = asm_of(X86Mode::Amd64, &">".repeat(12));
    assert!(text.contains("  sub $24, %rbx\n"));
}

#[test]
fn label_for_location() {
    let loc = Location { file: String::from("x"), line: 12, column: 305 };
    assert_eq!(X86Mode::label_for(&loc), b"_at_12_305".to_vec());
    let loc = Location { file: String::from("x"), line: u64::MAX, column: 0 };
    assert_eq!(X86Mode::label_for(&loc), b"_at_18446744073709551615_0".to_vec());
}

#[test]
fn labels_are_distinct() {
    let text = asm_of(X86Mode::Amd64, "[>[,]\n>[.,]]>,\n[[<]]");
    let defined: Vec<&str> = text
        .lines()
        .map(|l| l.trim())
        .filter(|l| l.starts_with("_at_") && l.ends_with(':'))
        .collect();
    assert_eq!(defined.len(), 2 * 5 + 2 * 3 + 3);
    for (i, a) in defined.iter().enumerate() {
        for b in &defined[i + 1..] {
            assert_ne!(a, b);
        }
    }
}

#[test]
fn plan_for_text_output() {
    match X86Mode::Amd64.generate(tree_of("++[,.]"), Format::Asm, String::from("out.s")) {
        Plan::WriteText { path, text } => {
            assert_eq!(path, "out.s");
            assert_eq!(String::from_utf8(text).unwrap(), AMD64_READ_WRITE_LOOP);
        }
        _ => panic!("expected text output"),
    }
}

#[test]
fn plan_for_executable_output() {
    match X86Mode::X86.generate(tree_of("+"), Format::Elf, String::from("prog")) {
        Plan::AssembleAndLink { text, assembler, linker } => {
            assert_eq!(text, X86Mode::X86.gen_asm(tree_of("+")));
            assert_eq!(assembler, vec!["as", "-o", "prog.o", "--32"]);
            assert_eq!(linker, vec!["ld", "prog.o", "-o", "prog", "-m", "elf_i386"]);
        }
        _ => panic!("expected an executable"),
    }
    match X86Mode::Amd64.generate(tree_of(""), Format::Elf, String::from("a.out")) {
        Plan::AssembleAndLink { assembler, linker, .. } => {
            assert_eq!(assembler, vec!["as", "-o", "a.out.o", "--64"]);
            assert_eq!(linker, vec!["ld", "a.out.o", "-o", "a.out", "-m", "elf_x86_64"]);
        }
        _ => panic!("expected an executable"),
    }
}
