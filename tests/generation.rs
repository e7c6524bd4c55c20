use unicc::codegen::{Code, CodeGenerator, CodegenError, Scope};
use unicc::lexer::lex;
use unicc::parser::{parse, BinaryOperator, Expression, FunctionDeclaration, Program, Statement};
use unicc::text::{push_int, push_nat};

fn generate_source(source: &str) -> Result<String, CodegenError> {
    let program = parse(lex(source).unwrap()).unwrap();
    let mut generator = CodeGenerator::new();
    generator.generate(program)?;
    Ok(generator.output())
}

fn listing(source: &str) -> String {
    generate_source(source).unwrap()
}

fn count(text: &str, line: &str) -> usize {
    text.lines().filter(|l| *l == line).count()
}

#[test]
fn code_buffer_appends() {
    let mut code = Code::new();
    assert_eq!(code.to_string(), "");
    code.add_asm("mov");
    code.add_asm_line(" $1, %rax");
    code.add_label(".L7".to_string());
    let mut other = Code::new();
    other.add_asm_line("ret");
    code.append(other);
    assert_eq!(code.to_string(), "mov $1, %rax\n.L7:\nret\n");
}

#[test]
fn labels_are_fresh_and_numbered() {
    let mut generator = CodeGenerator::new();
    assert_eq!(generator.get_label(), ".L0");
    assert_eq!(generator.get_label(), ".L1");
    assert_eq!(generator.get_label(), ".L2");
    assert_eq!(generator.code.to_string(), "");
}

#[test]
fn scope_offsets_step_down_by_four() {
    let mut scope = Scope::new();
    assert_eq!(scope.stack_index, -4);
    assert_eq!(scope.add_symbol("a".to_string()), Ok(()));
    assert_eq!(scope.add_symbol("b".to_string()), Ok(()));
    assert_eq!(scope.get_symbol("a"), Some(-4));
    assert_eq!(scope.get_symbol("b"), Some(-8));
    assert_eq!(scope.get_symbol("c"), None);
    assert_eq!(scope.stack_index, -12);
    assert!(scope.contains_symbol("a"));
    assert!(!scope.contains_symbol("c"));
}

#[test]
fn scope_lookup_walks_outward() {
    let mut outer = Scope::new();
    outer.add_symbol("x".to_string()).unwrap();
    let mut inner = Scope::from_parent(outer);
    assert_eq!(inner.stack_index, -4);
    assert!(inner.contains_symbol("x"));
    assert_eq!(inner.get_symbol("x"), Some(-4));
    assert_eq!(inner.add_symbol("x".to_string()), Err(CodegenError::DuplicateSymbol("x".to_string())));
    inner.add_symbol("y".to_string()).unwrap();
    assert_eq!(inner.get_symbol("y"), Some(-4));
    assert!(inner.parent.as_ref().unwrap().get_symbol("y").is_none());
}

#[test]
fn scope_refuses_duplicates() {
    let mut scope = Scope::new();
    scope.add_symbol("a".to_string()).unwrap();
    assert_eq!(scope.add_symbol("a".to_string()), Err(CodegenError::DuplicateSymbol("a".to_string())));
    assert_eq!(scope.stack_index, -8);
}

#[test]
fn scope_frame_overflow() {
    let mut scope = Scope::new();
    scope.stack_index = i64::MIN + 3;
    assert_eq!(scope.add_symbol("a".to_string()), Err(CodegenError::FrameOverflow));
    scope.stack_index = i64::MIN + 4;
    assert_eq!(scope.add_symbol("a".to_string()), Ok(()));
    assert_eq!(scope.stack_index, i64::MIN);
}

#[test]
fn decimal_text() {
    let mut s = String::from("x=");
    push_int(&mut s, -120);
    assert_eq!(s, "x=-120");
    let mut s = String::new();
    push_int(&mut s, i64::MIN);
    assert_eq!(s, "-9223372036854775808");
    let mut s = String::new();
    push_nat(&mut s, 0);
    push_nat(&mut s, 907);
    assert_eq!(s, "0907");
}

#[test]
fn int_declaration_without_initializer() {
    let out = listing("int main() { int x; }");
    assert_eq!(count(&out, "sub $4, %rsp"), 1);
    assert!(!out.contains("movl %eax"));
}

#[test]
fn return_zero_matches_fall_through_epilogue() {
    let out = listing("int main() { return 0; }");
    let lines: Vec<&str> = out.lines().collect();
    assert_eq!(
        lines,
        vec![
            ".globl main", "main:", "push %rbp", "mov %rsp, %rbp", "mov $0, %rax", "mov %rbp, %rsp", "pop %rbp", "ret",
            "xor %rax, %rax", "mov %rbp, %rsp", "pop %rbp", "ret",
        ]
    );
    let empty = listing("int main() { }");
    assert!(empty.ends_with("mov %rbp, %rsp\npop %rbp\nret\n"));
    assert!(out.ends_with("mov %rbp, %rsp\npop %rbp\nret\n"));
}

#[test]
fn logic_or_skeleton_around_right_operand() {
    let out = listing("int main() { int a = 1; int b = 0; return a || b; }");
    let lines: Vec<&str> = out.lines().collect();
    let je = lines.iter().position(|l| *l == "je .L0").unwrap();
    assert_eq!(lines[je + 1], "mov $1, %rax");
    assert_eq!(lines[je + 2], "jmp .L1");
    assert_eq!(lines[je + 3], ".L0:");
    assert_eq!(lines[je + 4], "xor %rax, %rax");
    assert_eq!(lines[je + 5], "movl -8(%rbp), %eax");
    assert_eq!(&lines[je + 6..je + 10], &["cmp $0, %rax", "mov $0, %rax", "setne %al", ".L1:"]);
}

#[test]
fn logic_and_mirrors_logic_or() {
    let out = listing("int main() { return 0 && 1; }");
    let lines: Vec<&str> = out.lines().collect();
    let start = lines.iter().position(|l| *l == "mov $0, %rax").unwrap();
    assert_eq!(
        &lines[start..start + 11],
        &["mov $0, %rax", "cmp $0, %rax", "jne .L0", "mov $0, %rax", "jmp .L1", ".L0:", "mov $1, %rax", "cmp $0, %rax", "mov $0, %rax", "setne %al", ".L1:"]
    );
}

#[test]
fn unary_operators_emit() {
    let out = listing("int main() { return ~!3; }");
    assert!(out.contains("mov $3, %rax\ncmp $0, %rax\nmov $0, %rax\nsete %al\nnot %rax\n"));
}

#[test]
fn division_and_comparisons_emit() {
    let out = listing("int main() { return 7 / 2; }");
    assert!(out.contains("mov $2, %rax\npush %rax\nmov $7, %rax\npop %rcx\ncqo\nidiv %rcx\n"));
    for (op, set) in [("==", "sete"), ("!=", "setne"), ("<", "setl"), (">", "setg"), ("<=", "setle"), (">=", "setge")] {
        let out = listing(&format!("int main() {{ return 1 {} 2; }}", op));
        assert!(out.contains(&format!("pop %rcx\ncmp %rcx, %rax\nmov $0, %rax\n{} %al\n", set)), "{}", op);
    }
    let out = listing("int main() { return 5 - 3; }");
    assert!(out.contains("mov $3, %rax\npush %rax\nmov $5, %rax\npop %rcx\nsub %rcx, %rax\n"));
}

#[test]
fn initializer_sees_its_own_slot() {
    let out = listing("int main() { int a = 2; int b = b; return b; }");
    assert!(out.contains("xor %rax, %rax\nmovl -8(%rbp), %eax\nsub $4, %rsp\nmovl %eax, -8(%rbp)\n"));
}

#[test]
fn chained_assignment_stores_twice() {
    let out = listing("int main() { int a; int b; a = b = 5; return a; }");
    assert!(out.contains("mov $5, %rax\nmovl %eax, -8(%rbp)\nmovl %eax, -4(%rbp)\n"));
}

#[test]
fn labels_continue_across_functions() {
    let out = listing("int f() { return 1 || 2; } int g() { return 1 && 2; }");
    assert!(out.contains("je .L0\n"));
    assert!(out.contains("jne .L2\n"));
    assert!(out.contains(".L3:\n"));
    assert_eq!(count(&out, ".globl f"), 1);
    assert_eq!(count(&out, ".globl g"), 1);
}

#[test]
fn assignment_to_non_variable_fails() {
    assert_eq!(generate_source("int main() { 1 = 2; }"), Err(CodegenError::InvalidAssignment));
}

#[test]
fn undeclared_variable_fails() {
    assert_eq!(generate_source("int main() { return x; }"), Err(CodegenError::UndeclaredSymbol("x".to_string())));
    assert_eq!(generate_source("int main() { y = 1; }"), Err(CodegenError::UndeclaredSymbol("y".to_string())));
}

#[test]
fn right_operand_is_checked_first() {
    assert_eq!(generate_source("int main() { return a + b; }"), Err(CodegenError::UndeclaredSymbol("b".to_string())));
    assert_eq!(generate_source("int main() { return a || b; }"), Err(CodegenError::UndeclaredSymbol("a".to_string())));
}

#[test]
fn redeclaration_fails() {
    assert_eq!(generate_source("int main() { int a; int a = 1; }"), Err(CodegenError::DuplicateSymbol("a".to_string())));
}

#[test]
fn locals_of_other_functions_are_not_visible() {
    assert_eq!(generate_source("int f() { int a; } int g() { return a; }"), Err(CodegenError::UndeclaredSymbol("a".to_string())));
    assert!(generate_source("int f() { int a; } int g() { int a; return a; }").is_ok());
}

#[test]
fn generates_from_a_built_tree() {
    let program = Program {
        declarations: vec![FunctionDeclaration {
            return_type: "int".to_string(),
            name: "main".to_string(),
            body: vec![Statement::Return(Expression::BinaryOperation(
                Box::new(Expression::Int(-3)),
                BinaryOperator::Times,
                Box::new(Expression::Int(4)),
            ))],
        }],
    };
    let mut generator = CodeGenerator::new();
    generator.generate(program).unwrap();
    assert!(generator.code.to_string().contains("mov $4, %rax\npush %rax\nmov $-3, %rax\npop %rcx\nimul %rcx, %rax\n"));
}

#[test]
fn output_is_the_emitted_text() {
    let program = parse(lex("int main() { return 2; }").unwrap()).unwrap();
    let mut generator = CodeGenerator::new();
    assert_eq!(generator.output(), "");
    generator.generate(program).unwrap();
    assert_eq!(
        generator.output(),
        ".globl main\nmain:\npush %rbp\nmov %rsp, %rbp\nmov $2, %rax\nmov %rbp, %rsp\npop %rbp\nret\nxor %rax, %rax\nmov %rbp, %rsp\npop %rbp\nret\n"
    );
    assert_eq!(generator.output(), generator.code.to_string());
}

#[test]
fn scope_clone_is_deep() {
    let mut outer = Scope::new();
    outer.add_symbol("x".to_string()).unwrap();
    let mut inner = Scope::from_parent(outer);
    inner.add_symbol("y".to_string()).unwrap();
    let copy = inner.clone();
    inner.add_symbol("z".to_string()).unwrap();
    assert_eq!(copy.get_symbol("x"), Some(-4));
    assert_eq!(copy.get_symbol("y"), Some(-4));
    assert_eq!(copy.get_symbol("z"), None);
    assert_eq!(copy.stack_index, -8);
}
