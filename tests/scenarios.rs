use unicc::codegen::CodeGenerator;
use unicc::lexer::lex;
use unicc::parser::parse;

fn compile(source: &str) -> String {
    let tokens = lex(source).expect("lexes");
    let program = parse(tokens).expect("parses");
    let mut generator = CodeGenerator::new();
    generator.generate(program).expect("generates");
    generator.output()
}

fn lines(text: &str) -> Vec<&str> {
    text.lines().collect()
}

fn contains_run(text: &str, run: &[&str]) -> bool {
    let ls = lines(text);
    ls.windows(run.len()).any(|w| w == run)
}

#[test]
fn return_constant() {
    let out = compile("int main() { return 2; }");
    assert!(contains_run(&out, &["mov $2, %rax", "mov %rbp, %rsp", "pop %rbp", "ret"]));
    assert_eq!(
        out,
        ".globl main\nmain:\npush %rbp\nmov %rsp, %rbp\nmov $2, %rax\nmov %rbp, %rsp\npop %rbp\nret\nxor %rax, %rax\nmov %rbp, %rsp\npop %rbp\nret\n"
    );
}

#[test]
fn return_negated_constant() {
    let out = compile("int main() { return -5; }");
    assert!(contains_run(&out, &["mov $5, %rax", "neg %rax"]));
}

#[test]
fn product_binds_tighter_than_sum() {
    let out = compile("int main() { return 1 + 2 * 3; }");
    assert!(contains_run(
        &out,
        &[
            "mov $3, %rax",
            "push %rax",
            "mov $2, %rax",
            "pop %rcx",
            "imul %rcx, %rax",
            "push %rax",
            "mov $1, %rax",
            "pop %rcx",
            "add %rcx, %rax",
        ]
    ));
}

#[test]
fn logic_or_short_circuits() {
    let out = compile("int main() { return 1 || 0; }");
    assert!(contains_run(
        &out,
        &[
            "mov $1, %rax",
            "cmp $0, %rax",
            "je .L0",
            "mov $1, %rax",
            "jmp .L1",
            ".L0:",
            "mov $0, %rax",
            "cmp $0, %rax",
            "mov $0, %rax",
            "setne %al",
            ".L1:",
        ]
    ));
}

#[test]
fn two_initialized_locals() {
    let out = compile("int main() { int a = 3; int b = 4; return a + b; }");
    assert_eq!(lines(&out).iter().filter(|l| **l == "sub $4, %rsp").count(), 2);
    assert!(contains_run(&out, &["mov $3, %rax", "sub $4, %rsp", "movl %eax, -4(%rbp)"]));
    assert!(contains_run(&out, &["mov $4, %rax", "sub $4, %rsp", "movl %eax, -8(%rbp)"]));
    assert!(contains_run(
        &out,
        &[
            "xor %rax, %rax",
            "movl -8(%rbp), %eax",
            "push %rax",
            "xor %rax, %rax",
            "movl -4(%rbp), %eax",
            "pop %rcx",
            "add %rcx, %rax",
        ]
    ));
}

#[test]
fn assignment_then_return() {
    let out = compile("int main() { int a; a = 7; return a; }");
    let ls = lines(&out);
    assert_eq!(ls.iter().filter(|l| **l == "sub $4, %rsp").count(), 1);
    assert_eq!(ls.iter().filter(|l| **l == "movl %eax, -4(%rbp)").count(), 1);
    assert_eq!(ls.iter().filter(|l| **l == "movl -4(%rbp), %eax").count(), 1);
    assert!(contains_run(&out, &["mov $7, %rax", "movl %eax, -4(%rbp)"]));
}
