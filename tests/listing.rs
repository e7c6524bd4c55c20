use std::collections::BTreeSet;

use unicc::codegen::CodeGenerator;
use unicc::lexer::lex;
use unicc::parser::parse;

fn compile(source: &str) -> String {
    let program = parse(lex(source).unwrap()).unwrap();
    let mut generator = CodeGenerator::new();
    generator.generate(program).unwrap();
    generator.output()
}

const SAMPLE: &str = "int main() { int a = 1; int b; b = a || (a && !b); int c = b == 2 || a < 3; return c && b || a; }";

#[test]
fn compiling_twice_gives_identical_text() {
    assert_eq!(compile(SAMPLE), compile(SAMPLE));
}

#[test]
fn one_reservation_per_local() {
    let out = compile(SAMPLE);
    assert_eq!(out.lines().filter(|l| *l == "sub $4, %rsp").count(), 3);
    let none = compile("int main() { return 1 + 2; }");
    assert_eq!(none.lines().filter(|l| *l == "sub $4, %rsp").count(), 0);
}

#[test]
fn single_entry_per_function() {
    let out = compile(SAMPLE);
    let lines: Vec<&str> = out.lines().collect();
    assert_eq!(lines.iter().filter(|l| l.starts_with(".globl")).count(), 1);
    assert_eq!(lines.iter().filter(|l| **l == "push %rbp").count(), 1);
    let at = lines.iter().position(|l| *l == "push %rbp").unwrap();
    assert_eq!(lines[at + 1], "mov %rsp, %rbp");
}

#[test]
fn labels_and_jumps_match() {
    let out = compile(SAMPLE);
    let mut placed = BTreeSet::new();
    let mut targets = BTreeSet::new();
    for line in out.lines() {
        if let Some(label) = line.strip_suffix(':') {
            if label.starts_with(".L") {
                placed.insert(label.to_string());
            }
        }
        for kind in ["je ", "jne ", "jmp "] {
            if let Some(target) = line.strip_prefix(kind) {
                targets.insert(target.to_string());
            }
        }
    }
    assert_eq!(placed.len(), 10);
    assert_eq!(placed, targets);
}
