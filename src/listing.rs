//! Facts about the emitted listing: its labels, jumps and the lines each construct yields.
use vstd::prelude::*;

use crate::ast::{BinaryOperator, ExprV, FunctionV, StmtV, UnaryOperator};
use crate::codegen::{
    arith_lines, body_code, decision_lines, expr_code, fall_through_lines, function_code,
    function_header, function_scope, is_short_circuit, join_lines, label_line, label_name,
    load_line, imm_line, program_code, return_lines, stmt_code, store_line, unary_lines, Lines,
    ScopeV,
};
use crate::lexer::{
    is_alphanumeric, is_identifier_text, lemma_lexed_identifiers, lex_spec, TokenV,
};
use crate::parser::{lemma_function_names_are_identifiers, names_identifier, spec_program};
use crate::text::{digit_char, nat_text};

verus! {

/// The last digit of a number's text is the number modulo ten.
proof fn lemma_nat_text_last(n: nat)
    ensures
        nat_text(n).len() > 0,
        nat_text(n).last() == digit_char(n % 10),
    decreases n,
{
    if n >= 10 {
        lemma_nat_text_last(n / 10);
    }
}

/// Two consecutive local labels differ.
pub proof fn lemma_consecutive_labels_differ(n: nat)
    ensures
        label_name(n) != label_name(n + 1),
{
    lemma_nat_text_last(n);
    lemma_nat_text_last(n + 1);
    let a = label_name(n);
    let b = label_name(n + 1);
    assert(a.last() == nat_text(n).last());
    assert(b.last() == nat_text(n + 1).last());
    assert(digit_char(n % 10) != digit_char((n + 1) % 10));
}

/// `a || b` skips `b` when `a` is non-zero: after the code of `a`, a zero result jumps with
/// `je` to a fresh label placed just before the code of `b`; otherwise the result is set to
/// one and `jmp` goes to a second, different fresh label that ends the listing after `b`.
pub proof fn lemma_logic_or_skips_right(a: ExprV, b: ExprV, sc: ScopeV, next: nat)
    requires
        expr_code(ExprV::Binary(Box::new(a), BinaryOperator::LogicOr, Box::new(b)), sc, next) is Ok,
    ensures
        ({
            let lines = expr_code(
                ExprV::Binary(Box::new(a), BinaryOperator::LogicOr, Box::new(b)),
                sc,
                next,
            )->Ok_0.0;
            let (left, after_left) = expr_code(a, sc, next + 2)->Ok_0;
            let right = expr_code(b, sc, after_left)->Ok_0.0;
            let k = left.len() as int;
            &&& lines.subrange(0, k) == left
            &&& lines[k] == "cmp $0, %rax"@
            &&& lines[k + 1] == "je "@ + label_name(next)
            &&& lines[k + 2] == "mov $1, %rax"@
            &&& lines[k + 3] == "jmp "@ + label_name(next + 1)
            &&& lines[k + 4] == label_line(label_name(next))
            &&& lines.subrange(k + 5, k + 5 + right.len()) == right
            &&& lines.len() == k + 9 + right.len()
            &&& lines.last() == label_line(label_name(next + 1))
            &&& label_name(next) != label_name(next + 1)
        }),
{
    let lines = expr_code(ExprV::Binary(Box::new(a), BinaryOperator::LogicOr, Box::new(b)), sc, next)->Ok_0.0;
    let (left, after_left) = expr_code(a, sc, next + 2)->Ok_0;
    let right = expr_code(b, sc, after_left)->Ok_0.0;
    let k = left.len() as int;
    assert(lines.subrange(0, k) =~= left);
    assert(lines.subrange(k + 5, k + 5 + right.len()) =~= right);
    lemma_consecutive_labels_differ(next);
}

/// Compiling is deterministic: the program parsed from a token sequence, and the listing
/// generated from it, depend on the tokens and the starting label number alone, so parsing
/// equal tokens afresh and generating again yields the same text.
pub proof fn lemma_compilation_deterministic(t1: Seq<TokenV>, t2: Seq<TokenV>, next: nat)
    requires
        t1 == t2,
        spec_program(t1) is Ok,
    ensures
        spec_program(t2) is Ok,
        spec_program(t2)->Ok_0 == spec_program(t1)->Ok_0,
        program_code(spec_program(t1)->Ok_0, next) == program_code(spec_program(t2)->Ok_0, next),
{
}

/// Number of lines equal to `l`.
pub open spec fn count_line(ls: Lines, l: Seq<char>) -> nat
    decreases ls.len(),
{
    if ls.len() == 0 {
        0
    } else {
        count_line(ls.drop_last(), l) + if ls.last() == l {
            1nat
        } else {
            0
        }
    }
}

/// A `.globl` directive.
pub open spec fn is_globl_line(l: Seq<char>) -> bool {
    l.len() >= 6 && l.subrange(0, 6) == ".globl"@
}

/// Number of `.globl` directives.
pub open spec fn count_globl(ls: Lines) -> nat
    decreases ls.len(),
{
    if ls.len() == 0 {
        0
    } else {
        count_globl(ls.drop_last()) + if is_globl_line(ls.last()) {
            1nat
        } else {
            0
        }
    }
}

/// Number of declarations among statements.
pub open spec fn declaration_count(ss: Seq<StmtV>) -> nat
    decreases ss.len(),
{
    if ss.len() == 0 {
        0
    } else {
        declaration_count(ss.drop_last()) + if ss.last() is Declare {
            1nat
        } else {
            0
        }
    }
}

proof fn lemma_count_concat(a: Lines, b: Lines, l: Seq<char>)
    ensures
        count_line(a + b, l) == count_line(a, l) + count_line(b, l),
        count_globl(a + b) == count_globl(a) + count_globl(b),
    decreases b.len(),
{
    if b.len() == 0 {
        assert(a + b =~= a);
    } else {
        assert((a + b).drop_last() =~= a + b.drop_last());
        lemma_count_concat(a, b.drop_last(), l);
    }
}

proof fn lemma_count_absent(ls: Lines, l: Seq<char>)
    requires
        forall|i: int| 0 <= i < ls.len() ==> ls[i] != l && !is_globl_line(#[trigger] ls[i]),
    ensures
        count_line(ls, l) == 0,
        count_globl(ls) == 0,
    decreases ls.len(),
{
    if ls.len() > 0 {
        assert forall|i: int| 0 <= i < ls.drop_last().len() implies ls.drop_last()[i] != l
            && !is_globl_line(#[trigger] ls.drop_last()[i]) by {
            assert(ls.drop_last()[i] == ls[i]);
        }
        lemma_count_absent(ls.drop_last(), l);
    }
}

/// The fixed lines that expressions emit.
pub open spec fn is_fixed_expr_line(l: Seq<char>) -> bool {
    ||| l == "xor %rax, %rax"@
    ||| l == "neg %rax"@
    ||| l == "not %rax"@
    ||| l == "cmp $0, %rax"@
    ||| l == "mov $0, %rax"@
    ||| l == "sete %al"@
    ||| l == "mov $1, %rax"@
    ||| l == "setne %al"@
    ||| l == "push %rax"@
    ||| l == "pop %rcx"@
    ||| l == "add %rcx, %rax"@
    ||| l == "sub %rcx, %rax"@
    ||| l == "imul %rcx, %rax"@
    ||| l == "cqo"@
    ||| l == "idiv %rcx"@
    ||| l == "cmp %rcx, %rax"@
    ||| l == "setl %al"@
    ||| l == "setg %al"@
    ||| l == "setle %al"@
    ||| l == "setge %al"@
}

/// A line that an expression may emit: a fixed one, a move (`m...`), a jump (`j...`) or a
/// local label (`.L...`).
pub open spec fn is_expr_line(l: Seq<char>) -> bool {
    ||| is_fixed_expr_line(l)
    ||| l.len() > 0 && (l[0] == 'm' || l[0] == 'j')
    ||| l.len() > 1 && l[0] == '.' && l[1] == 'L'
}

/// No expression line reserves a stack slot, opens a frame, or is a `.globl` directive.
proof fn lemma_expr_line_facts(l: Seq<char>)
    requires
        is_expr_line(l),
    ensures
        l != "sub $4, %rsp"@,
        l != "push %rbp"@,
        !is_globl_line(l),
{
    reveal_strlit("sub $4, %rsp");
    reveal_strlit("push %rbp");
    reveal_strlit(".globl");
    reveal_strlit("xor %rax, %rax");
    reveal_strlit("neg %rax");
    reveal_strlit("not %rax");
    reveal_strlit("cmp $0, %rax");
    reveal_strlit("mov $0, %rax");
    reveal_strlit("sete %al");
    reveal_strlit("mov $1, %rax");
    reveal_strlit("setne %al");
    reveal_strlit("push %rax");
    reveal_strlit("pop %rcx");
    reveal_strlit("add %rcx, %rax");
    reveal_strlit("sub %rcx, %rax");
    reveal_strlit("imul %rcx, %rax");
    reveal_strlit("cqo");
    reveal_strlit("idiv %rcx");
    reveal_strlit("cmp %rcx, %rax");
    reveal_strlit("setl %al");
    reveal_strlit("setg %al");
    reveal_strlit("setle %al");
    reveal_strlit("setge %al");
    assert("sub $4, %rsp"@[0] == 's');
    assert("push %rbp"@[0] == 'p');
    assert("push %rbp"@[7] == 'b');
    assert(".globl"@[0] == '.');
    assert(".globl"@[1] == 'g');
    if l.len() > 0 {
        assert(l[0] == l[0]);
    }
    if l.len() > 7 {
        assert(l[7] == l[7]);
    }
    if l.len() >= 6 {
        assert(l.subrange(0, 6)[0] == l[0]);
        assert(l.subrange(0, 6)[1] == l[1]);
    }
}

/// Every line an expression emits is an expression line.
proof fn lemma_expr_lines(e: ExprV, sc: ScopeV, next: nat)
    requires
        expr_code(e, sc, next) is Ok,
    ensures
        forall|i: int|
            0 <= i < expr_code(e, sc, next)->Ok_0.0.len() ==> is_expr_line(
                #[trigger] expr_code(e, sc, next)->Ok_0.0[i],
            ),
    decreases e,
{
    reveal_strlit("mov $");
    reveal_strlit("movl ");
    reveal_strlit("movl %eax, ");
    reveal_strlit("je ");
    reveal_strlit("jne ");
    reveal_strlit("jmp ");
    reveal_strlit(".L");
    let lines = expr_code(e, sc, next)->Ok_0.0;
    match e {
        ExprV::Int(n) => {
            assert(imm_line(n as int)[0] == 'm');
        },
        ExprV::Variable(name) => {
            let offset = crate::codegen::lookup(sc, name)->0;
            assert(load_line(offset as int)[0] == 'm');
        },
        ExprV::Unary(op, sub) => {
            lemma_expr_lines(*sub, sc, next);
            let sub_lines = expr_code(*sub, sc, next)->Ok_0.0;
            assert forall|i: int| 0 <= i < lines.len() implies is_expr_line(#[trigger] lines[i]) by {
                if i >= sub_lines.len() {
                    assert(lines[i] == unary_lines(op)[i - sub_lines.len()]);
                }
            }
        },
        ExprV::Binary(lhs, op, rhs) => {
            if is_short_circuit(op) {
                let (left, n1) = expr_code(*lhs, sc, next + 2)->Ok_0;
                let right = expr_code(*rhs, sc, n1)->Ok_0.0;
                lemma_expr_lines(*lhs, sc, next + 2);
                lemma_expr_lines(*rhs, sc, n1);
                let second = label_name(next);
                let end = label_name(next + 1);
                let d = decision_lines(op == BinaryOperator::LogicOr, second, end);
                let j = join_lines(end);
                assert(("je "@ + second)[0] == 'j');
                assert(("jne "@ + second)[0] == 'j');
                assert(("jmp "@ + end)[0] == 'j');
                assert(label_line(second)[0] == '.' && label_line(second)[1] == 'L');
                assert(label_line(end)[0] == '.' && label_line(end)[1] == 'L');
                assert forall|i: int| 0 <= i < d.len() implies is_expr_line(#[trigger] d[i]) by {}
                assert forall|i: int| 0 <= i < j.len() implies is_expr_line(#[trigger] j[i]) by {}
                assert(lines == left + d + right + j);
                assert forall|i: int| 0 <= i < lines.len() implies is_expr_line(#[trigger] lines[i]) by {
                    let a = left.len() as int;
                    let b = a + d.len();
                    let c = b + right.len();
                    if i < a {
                        assert(lines[i] == left[i]);
                    } else if i < b {
                        assert(lines[i] == d[i - a]);
                    } else if i < c {
                        assert(lines[i] == right[i - b]);
                    } else {
                        assert(lines[i] == j[i - c]);
                    }
                }
            } else if op == BinaryOperator::Assign {
                let right = expr_code(*rhs, sc, next)->Ok_0.0;
                lemma_expr_lines(*rhs, sc, next);
                if let ExprV::Variable(name) = *lhs {
                    let offset = crate::codegen::lookup(sc, name)->0;
                    assert(store_line(offset as int)[0] == 'm');
                    assert forall|i: int| 0 <= i < lines.len() implies is_expr_line(#[trigger] lines[i]) by {
                        if i < right.len() {
                            assert(lines[i] == right[i]);
                        }
                    }
                }
            } else {
                let (right, n1) = expr_code(*rhs, sc, next)->Ok_0;
                let left = expr_code(*lhs, sc, n1)->Ok_0.0;
                lemma_expr_lines(*rhs, sc, next);
                lemma_expr_lines(*lhs, sc, n1);
                let tail = arith_lines(op);
                assert forall|i: int| 0 <= i < tail.len() implies is_expr_line(#[trigger] tail[i]) by {}
                assert forall|i: int| 0 <= i < lines.len() implies is_expr_line(#[trigger] lines[i]) by {
                    let a = right.len() as int;
                    let b = a + 1 + left.len();
                    if i < a {
                        assert(lines[i] == right[i]);
                    } else if i == a {
                    } else if i < b {
                        assert(lines[i] == left[i - a - 1]);
                    } else if i == b {
                    } else {
                        assert(lines[i] == tail[i - b - 1]);
                    }
                }
            }
        },
    }
}

/// An expression emits no stack reservation, no frame set-up and no `.globl`.
proof fn lemma_expr_counts(e: ExprV, sc: ScopeV, next: nat)
    requires
        expr_code(e, sc, next) is Ok,
    ensures
        count_line(expr_code(e, sc, next)->Ok_0.0, "sub $4, %rsp"@) == 0,
        count_line(expr_code(e, sc, next)->Ok_0.0, "push %rbp"@) == 0,
        count_globl(expr_code(e, sc, next)->Ok_0.0) == 0,
{
    let lines = expr_code(e, sc, next)->Ok_0.0;
    lemma_expr_lines(e, sc, next);
    assert forall|i: int| 0 <= i < lines.len() implies lines[i] != "sub $4, %rsp"@ && lines[i]
        != "push %rbp"@ && !is_globl_line(#[trigger] lines[i]) by {
        lemma_expr_line_facts(lines[i]);
    }
    lemma_count_absent(lines, "sub $4, %rsp"@);
    lemma_count_absent(lines, "push %rbp"@);
}

proof fn lemma_count_single(x: Seq<char>, l: Seq<char>)
    ensures
        count_line(seq![x], l) == if x == l {
            1nat
        } else {
            0
        },
        count_globl(seq![x]) == if is_globl_line(x) {
            1nat
        } else {
            0
        },
{
    assert(seq![x].drop_last() =~= Seq::<Seq<char>>::empty());
    assert(count_line(Seq::<Seq<char>>::empty(), l) == 0);
    assert(count_globl(Seq::<Seq<char>>::empty()) == 0);
    assert(seq![x].last() == x);
}

/// The lines a statement may emit besides expression lines end a frame.
proof fn lemma_frame_end_facts()
    ensures
        "pop %rbp"@ != "sub $4, %rsp"@,
        "pop %rbp"@ != "push %rbp"@,
        !is_globl_line("pop %rbp"@),
        "ret"@ != "sub $4, %rsp"@,
        "ret"@ != "push %rbp"@,
        !is_globl_line("ret"@),
        "sub $4, %rsp"@ != "push %rbp"@,
        !is_globl_line("sub $4, %rsp"@),
        is_expr_line("mov %rbp, %rsp"@),
        is_expr_line("mov %rsp, %rbp"@),
{
    reveal_strlit("pop %rbp");
    reveal_strlit("ret");
    reveal_strlit("sub $4, %rsp");
    reveal_strlit("push %rbp");
    reveal_strlit(".globl");
    reveal_strlit("mov %rbp, %rsp");
    reveal_strlit("mov %rsp, %rbp");
    assert("pop %rbp"@.subrange(0, 6)[0] == 'p');
    assert("ret"@.len() == 3);
    assert("push %rbp"@.len() == 9);
    assert("sub $4, %rsp"@.subrange(0, 6)[0] == 's');
    assert(".globl"@[0] == '.');
}

/// Counts of the lines of one statement: a declaration reserves one slot; no statement
/// sets up a frame or emits `.globl`.
proof fn lemma_stmt_counts(st: StmtV, sc: ScopeV, next: nat)
    requires
        stmt_code(st, sc, next) is Ok,
    ensures
        count_line(stmt_code(st, sc, next)->Ok_0.0, "sub $4, %rsp"@) == if st is Declare {
            1nat
        } else {
            0
        },
        count_line(stmt_code(st, sc, next)->Ok_0.0, "push %rbp"@) == 0,
        count_globl(stmt_code(st, sc, next)->Ok_0.0) == 0,
{
    let lines = stmt_code(st, sc, next)->Ok_0.0;
    let t = "sub $4, %rsp"@;
    let p = "push %rbp"@;
    lemma_frame_end_facts();
    match st {
        StmtV::Return(e) => {
            lemma_expr_counts(e, sc, next);
            let r = return_lines();
            lemma_expr_line_facts("mov %rbp, %rsp"@);
            assert forall|i: int| 0 <= i < r.len() implies r[i] != t && r[i] != p && !is_globl_line(
                #[trigger] r[i],
            ) by {}
            lemma_count_absent(r, t);
            lemma_count_absent(r, p);
            lemma_count_concat(expr_code(e, sc, next)->Ok_0.0, r, t);
            lemma_count_concat(expr_code(e, sc, next)->Ok_0.0, r, p);
        },
        StmtV::Declare(name, None) => {
            lemma_count_single(t, t);
            lemma_count_single(t, p);
        },
        StmtV::Declare(name, Some(e)) => {
            let sc2 = crate::codegen::declare(sc, name)->Ok_0;
            let body = expr_code(e, sc2, next)->Ok_0.0;
            lemma_expr_counts(e, sc2, next);
            let store = store_line(sc.stack_index as int);
            reveal_strlit("movl %eax, ");
            assert(store[0] == 'm');
            lemma_expr_line_facts(store);
            lemma_count_single(t, t);
            lemma_count_single(t, p);
            lemma_count_single(store, t);
            lemma_count_single(store, p);
            assert(seq![t, store] =~= seq![t] + seq![store]);
            lemma_count_concat(seq![t], seq![store], t);
            lemma_count_concat(seq![t], seq![store], p);
            lemma_count_concat(body, seq![t, store], t);
            lemma_count_concat(body, seq![t, store], p);
        },
        StmtV::Expression(e) => {
            lemma_expr_counts(e, sc, next);
        },
    }
}

/// Counts of the lines of a run of statements.
proof fn lemma_body_counts(ss: Seq<StmtV>, sc: ScopeV, next: nat)
    requires
        body_code(ss, sc, next) is Ok,
    ensures
        count_line(body_code(ss, sc, next)->Ok_0.0, "sub $4, %rsp"@) == declaration_count(ss),
        count_line(body_code(ss, sc, next)->Ok_0.0, "push %rbp"@) == 0,
        count_globl(body_code(ss, sc, next)->Ok_0.0) == 0,
    decreases ss.len(),
{
    if ss.len() > 0 {
        let (lines, sc1, n1) = body_code(ss.drop_last(), sc, next)->Ok_0;
        lemma_body_counts(ss.drop_last(), sc, next);
        lemma_stmt_counts(ss.last(), sc1, n1);
        let more = stmt_code(ss.last(), sc1, n1)->Ok_0.0;
        lemma_count_concat(lines, more, "sub $4, %rsp"@);
        lemma_count_concat(lines, more, "push %rbp"@);
    }
}

/// Each function reserves one stack slot per declared local: its listing holds exactly as
/// many `sub $4, %rsp` lines as its body has declarations.
pub proof fn lemma_one_reservation_per_local(f: FunctionV, next: nat)
    requires
        function_code(f, next) is Ok,
    ensures
        count_line(function_code(f, next)->Ok_0.0, "sub $4, %rsp"@) == declaration_count(f.body),
{
    lemma_function_counts(f, next);
}

/// Each function's listing holds exactly one `.globl` directive and exactly one
/// `push %rbp`, which `mov %rsp, %rbp` follows at once. The function's name is identifier
/// text.
pub proof fn lemma_single_entry(f: FunctionV, next: nat)
    requires
        function_code(f, next) is Ok,
        is_identifier_text(f.name),
    ensures
        count_globl(function_code(f, next)->Ok_0.0) == 1,
        count_line(function_code(f, next)->Ok_0.0, "push %rbp"@) == 1,
        function_code(f, next)->Ok_0.0[2] == "push %rbp"@,
        function_code(f, next)->Ok_0.0[3] == "mov %rsp, %rbp"@,
{
    if f.name.len() > 0 {
        assert(is_alphanumeric(f.name[0]));
    }
    lemma_function_counts(f, next);
    let lines = function_code(f, next)->Ok_0.0;
    let body = body_code(f.body, function_scope(), next)->Ok_0.0;
    assert(lines[2] == function_header(f.name)[2]);
    assert(lines[3] == function_header(f.name)[3]);
}

proof fn lemma_function_counts(f: FunctionV, next: nat)
    requires
        function_code(f, next) is Ok,
    ensures
        count_line(function_code(f, next)->Ok_0.0, "sub $4, %rsp"@) == declaration_count(f.body),
        (f.name.len() == 0 || f.name[0] != '.') ==> count_globl(function_code(f, next)->Ok_0.0)
            == 1,
        count_line(function_code(f, next)->Ok_0.0, "push %rbp"@) == 1,
        function_code(f, next)->Ok_0.0 == function_header(f.name) + body_code(
            f.body,
            function_scope(),
            next,
        )->Ok_0.0 + fall_through_lines(),
{
    let t = "sub $4, %rsp"@;
    let p = "push %rbp"@;
    let body = body_code(f.body, function_scope(), next)->Ok_0.0;
    lemma_body_counts(f.body, function_scope(), next);
    lemma_frame_end_facts();
    reveal_strlit("sub $4, %rsp");
    reveal_strlit("push %rbp");
    reveal_strlit(".globl");
    reveal_strlit(".globl ");
    let g = ".globl "@ + f.name;
    let entry = f.name + seq![':'];
    assert(g[0] == '.');
    assert(g.subrange(0, 6) =~= ".globl"@);
    assert(entry[entry.len() - 1] == ':');
    assert(t[11] == 'p');
    assert(p[8] == 'p');
    assert(g != t && g != p);
    assert(p.subrange(0, 6)[0] == 'p');
    assert(!is_globl_line(p));
    assert(is_globl_line(g));
    assert(entry != t && entry != p);
    if f.name.len() == 0 || f.name[0] != '.' {
        if entry.len() >= 6 {
            assert(entry.subrange(0, 6)[0] == entry[0]);
        }
        assert(!is_globl_line(entry));
    }
    let h = function_header(f.name);
    assert(h =~= seq![g] + seq![entry] + seq![p] + seq!["mov %rsp, %rbp"@]);
    lemma_expr_line_facts("mov %rsp, %rbp"@);
    lemma_count_single(g, t);
    lemma_count_single(g, p);
    lemma_count_single(entry, t);
    lemma_count_single(entry, p);
    lemma_count_single(p, t);
    lemma_count_single(p, p);
    lemma_count_single("mov %rsp, %rbp"@, t);
    lemma_count_single("mov %rsp, %rbp"@, p);
    lemma_count_concat(seq![g], seq![entry], t);
    lemma_count_concat(seq![g], seq![entry], p);
    lemma_count_concat(seq![g] + seq![entry], seq![p], t);
    lemma_count_concat(seq![g] + seq![entry], seq![p], p);
    lemma_count_concat(seq![g] + seq![entry] + seq![p], seq!["mov %rsp, %rbp"@], t);
    lemma_count_concat(seq![g] + seq![entry] + seq![p], seq!["mov %rsp, %rbp"@], p);
    let ft = fall_through_lines();
    lemma_expr_line_facts("xor %rax, %rax"@);
    lemma_expr_line_facts("mov %rbp, %rsp"@);
    assert forall|i: int| 0 <= i < ft.len() implies ft[i] != t && ft[i] != p && !is_globl_line(
        #[trigger] ft[i],
    ) by {}
    lemma_count_absent(ft, t);
    lemma_count_absent(ft, p);
    lemma_count_concat(h, body, t);
    lemma_count_concat(h, body, p);
    lemma_count_concat(h + body, ft, t);
    lemma_count_concat(h + body, ft, p);
}

/// A local label: `.L` and more.
pub open spec fn is_local_label(x: Seq<char>) -> bool {
    x.len() >= 2 && x[0] == '.' && x[1] == 'L'
}

/// A jump to `x`.
pub open spec fn is_jump_to(l: Seq<char>, x: Seq<char>) -> bool {
    l == "je "@ + x || l == "jne "@ + x || l == "jmp "@ + x
}

/// The local labels that lines place.
pub open spec fn placed_labels(ls: Lines) -> Set<Seq<char>> {
    Set::new(
        |x: Seq<char>|
            is_local_label(x) && exists|i: int| 0 <= i < ls.len() && ls[i] == label_line(x),
    )
}

/// The labels that lines jump to.
pub open spec fn jump_targets(ls: Lines) -> Set<Seq<char>> {
    Set::new(|x: Seq<char>| exists|i: int| 0 <= i < ls.len() && is_jump_to(ls[i], x))
}

/// A line that neither places a label nor jumps.
pub open spec fn is_inert(l: Seq<char>) -> bool {
    l.len() > 0 && l[0] != 'j' && l.last() != ':'
}

proof fn lemma_labels_concat(a: Lines, b: Lines)
    ensures
        placed_labels(a + b) == placed_labels(a) + placed_labels(b),
        jump_targets(a + b) == jump_targets(a) + jump_targets(b),
{
    let ab = a + b;
    assert forall|x: Seq<char>| #[trigger] placed_labels(ab).contains(x) <==> (placed_labels(
        a,
    ).contains(x) || placed_labels(b).contains(x)) by {
        if placed_labels(ab).contains(x) {
            let i = choose|i: int| 0 <= i < ab.len() && ab[i] == label_line(x);
            if i < a.len() {
                assert(a[i] == ab[i]);
            } else {
                assert(b[i - a.len()] == ab[i]);
            }
        }
        if placed_labels(a).contains(x) {
            let i = choose|i: int| 0 <= i < a.len() && a[i] == label_line(x);
            assert(ab[i] == a[i]);
        }
        if placed_labels(b).contains(x) {
            let i = choose|i: int| 0 <= i < b.len() && b[i] == label_line(x);
            assert(ab[i + a.len()] == b[i]);
        }
    }
    assert forall|x: Seq<char>| #[trigger] jump_targets(ab).contains(x) <==> (jump_targets(
        a,
    ).contains(x) || jump_targets(b).contains(x)) by {
        if jump_targets(ab).contains(x) {
            let i = choose|i: int| 0 <= i < ab.len() && is_jump_to(ab[i], x);
            if i < a.len() {
                assert(a[i] == ab[i]);
            } else {
                assert(b[i - a.len()] == ab[i]);
            }
        }
        if jump_targets(a).contains(x) {
            let i = choose|i: int| 0 <= i < a.len() && is_jump_to(a[i], x);
            assert(ab[i] == a[i]);
        }
        if jump_targets(b).contains(x) {
            let i = choose|i: int| 0 <= i < b.len() && is_jump_to(b[i], x);
            assert(ab[i + a.len()] == b[i]);
        }
    }
    assert(placed_labels(ab) =~= placed_labels(a) + placed_labels(b));
    assert(jump_targets(ab) =~= jump_targets(a) + jump_targets(b));
}

/// Lines that neither place labels nor jump contribute to neither set.
proof fn lemma_inert_lines(ls: Lines)
    requires
        forall|i: int| 0 <= i < ls.len() ==> is_inert(#[trigger] ls[i]),
    ensures
        placed_labels(ls) == Set::<Seq<char>>::empty(),
        jump_targets(ls) == Set::<Seq<char>>::empty(),
{
    reveal_strlit("je ");
    reveal_strlit("jne ");
    reveal_strlit("jmp ");
    assert forall|x: Seq<char>| !#[trigger] placed_labels(ls).contains(x) by {
        if placed_labels(ls).contains(x) {
            let i = choose|i: int| 0 <= i < ls.len() && ls[i] == label_line(x);
            assert(ls[i].last() == ':');
        }
    }
    assert forall|x: Seq<char>| !#[trigger] jump_targets(ls).contains(x) by {
        if jump_targets(ls).contains(x) {
            let i = choose|i: int| 0 <= i < ls.len() && is_jump_to(ls[i], x);
            assert(ls[i][0] == 'j');
        }
    }
    assert(placed_labels(ls) =~= Set::<Seq<char>>::empty());
    assert(jump_targets(ls) =~= Set::<Seq<char>>::empty());
}

/// The text of a local label ends in a digit.
proof fn lemma_label_name_facts(n: nat)
    ensures
        is_local_label(label_name(n)),
        label_name(n).last() != ':',
{
    reveal_strlit(".L");
    lemma_nat_text_last(n);
    assert(label_name(n).last() == nat_text(n).last());
}

/// A jump line jumps to its label alone and places none.
proof fn lemma_jump_line(kind: Seq<char>, target: Seq<char>)
    requires
        kind == "je "@ || kind == "jne "@ || kind == "jmp "@,
        target.len() > 0,
        target.last() != ':',
    ensures
        placed_labels(seq![kind + target]) == Set::<Seq<char>>::empty(),
        jump_targets(seq![kind + target]) == set![target],
{
    reveal_strlit("je ");
    reveal_strlit("jne ");
    reveal_strlit("jmp ");
    let l = kind + target;
    let ls = seq![l];
    assert(l.last() == target.last());
    assert(l[0] == 'j');
    assert forall|x: Seq<char>| !#[trigger] placed_labels(ls).contains(x) by {
        if placed_labels(ls).contains(x) {
            assert(ls[0] == label_line(x));
            assert(l.last() == ':');
        }
    }
    assert forall|x: Seq<char>| #[trigger] jump_targets(ls).contains(x) <==> x == target by {
        if x == target {
            assert(is_jump_to(ls[0], x));
        }
        if jump_targets(ls).contains(x) {
            let i = choose|i: int| 0 <= i < ls.len() && is_jump_to(ls[i], x);
            assert(i == 0);
            assert(l[1] == kind[1]);
            if l == "je "@ + x {
                assert(l[1] == 'e');
                assert(kind == "je "@);
                assert(target =~= l.subrange(3, l.len() as int));
                assert(x =~= l.subrange(3, l.len() as int));
            } else if l == "jne "@ + x {
                assert(l[1] == 'n');
                assert(kind == "jne "@);
                assert(target =~= l.subrange(4, l.len() as int));
                assert(x =~= l.subrange(4, l.len() as int));
            } else {
                assert(l[1] == 'm');
                assert(kind == "jmp "@);
                assert(target =~= l.subrange(4, l.len() as int));
                assert(x =~= l.subrange(4, l.len() as int));
            }
        }
    }
    assert(placed_labels(ls) =~= Set::<Seq<char>>::empty());
    assert(jump_targets(ls) =~= set![target]);
}

/// A label line places its label and jumps nowhere.
proof fn lemma_label_line(label: Seq<char>)
    requires
        is_local_label(label),
    ensures
        placed_labels(seq![label_line(label)]) == set![label],
        jump_targets(seq![label_line(label)]) == Set::<Seq<char>>::empty(),
{
    reveal_strlit("je ");
    reveal_strlit("jne ");
    reveal_strlit("jmp ");
    let l = label_line(label);
    let ls = seq![l];
    assert(l[0] == '.');
    assert forall|x: Seq<char>| #[trigger] placed_labels(ls).contains(x) <==> x == label by {
        if x == label {
            assert(ls[0] == label_line(x));
        }
        if placed_labels(ls).contains(x) {
            let i = choose|i: int| 0 <= i < ls.len() && ls[i] == label_line(x);
            assert(i == 0);
            assert(x =~= l.subrange(0, l.len() - 1));
            assert(label =~= l.subrange(0, l.len() - 1));
        }
    }
    assert forall|x: Seq<char>| !#[trigger] jump_targets(ls).contains(x) by {
        if jump_targets(ls).contains(x) {
            assert(is_jump_to(ls[0], x));
            assert(ls[0][0] == 'j');
        }
    }
    assert(placed_labels(ls) =~= set![label]);
    assert(jump_targets(ls) =~= Set::<Seq<char>>::empty());
}

/// The fixed lines of expressions, and moves, neither place labels nor jump.
proof fn lemma_fixed_inert(l: Seq<char>)
    requires
        is_fixed_expr_line(l) || l == "mov %rbp, %rsp"@ || l == "pop %rbp"@ || l == "ret"@ || l
            == "sub $4, %rsp"@ || l == "push %rbp"@ || l == "mov %rsp, %rbp"@,
    ensures
        is_inert(l),
{
    reveal_strlit("xor %rax, %rax");
    reveal_strlit("neg %rax");
    reveal_strlit("not %rax");
    reveal_strlit("cmp $0, %rax");
    reveal_strlit("mov $0, %rax");
    reveal_strlit("sete %al");
    reveal_strlit("mov $1, %rax");
    reveal_strlit("setne %al");
    reveal_strlit("push %rax");
    reveal_strlit("pop %rcx");
    reveal_strlit("add %rcx, %rax");
    reveal_strlit("sub %rcx, %rax");
    reveal_strlit("imul %rcx, %rax");
    reveal_strlit("cqo");
    reveal_strlit("idiv %rcx");
    reveal_strlit("cmp %rcx, %rax");
    reveal_strlit("setl %al");
    reveal_strlit("setg %al");
    reveal_strlit("setle %al");
    reveal_strlit("setge %al");
    reveal_strlit("mov %rbp, %rsp");
    reveal_strlit("pop %rbp");
    reveal_strlit("ret");
    reveal_strlit("sub $4, %rsp");
    reveal_strlit("push %rbp");
    reveal_strlit("mov %rsp, %rbp");
}

/// Moves of constants and of stack slots neither place labels nor jump.
proof fn lemma_moves_inert(n: int)
    ensures
        is_inert(imm_line(n)),
        is_inert(load_line(n)),
        is_inert(store_line(n)),
{
    reveal_strlit("mov $");
    reveal_strlit(", %rax");
    reveal_strlit("movl ");
    reveal_strlit("(%rbp), %eax");
    reveal_strlit("movl %eax, ");
    reveal_strlit("(%rbp)");
    assert(imm_line(n)[0] == 'm');
    assert(load_line(n)[0] == 'm');
    assert(store_line(n)[0] == 'm');
    assert(imm_line(n).last() == 'x');
    assert(load_line(n).last() == 'x');
    assert(store_line(n).last() == ')');
}

/// Fixed groups of lines contribute to neither set.
proof fn lemma_fixed_groups_inert(u: UnaryOperator, b: BinaryOperator)
    ensures
        placed_labels(unary_lines(u)) == Set::<Seq<char>>::empty(),
        jump_targets(unary_lines(u)) == Set::<Seq<char>>::empty(),
        placed_labels(arith_lines(b)) == Set::<Seq<char>>::empty(),
        jump_targets(arith_lines(b)) == Set::<Seq<char>>::empty(),
        placed_labels(return_lines()) == Set::<Seq<char>>::empty(),
        jump_targets(return_lines()) == Set::<Seq<char>>::empty(),
        placed_labels(fall_through_lines()) == Set::<Seq<char>>::empty(),
        jump_targets(fall_through_lines()) == Set::<Seq<char>>::empty(),
{
    let groups = seq![unary_lines(u), arith_lines(b), return_lines(), fall_through_lines()];
    assert forall|k: int| 0 <= k < 4 implies placed_labels(#[trigger] groups[k]) == Set::<
        Seq<char>,
    >::empty() && jump_targets(groups[k]) == Set::<Seq<char>>::empty() by {
        let g = groups[k];
        assert forall|i: int| 0 <= i < g.len() implies is_inert(#[trigger] g[i]) by {
            lemma_fixed_inert(g[i]);
        }
        lemma_inert_lines(g);
    }
    assert(groups[0] == unary_lines(u));
    assert(groups[1] == arith_lines(b));
    assert(groups[2] == return_lines());
    assert(groups[3] == fall_through_lines());
}

/// The lines between the operands of `||` or `&&` place the first fresh label and jump to
/// both; those after the right operand place the second.
proof fn lemma_short_circuit_groups(or_op: bool, n: nat)
    ensures
        placed_labels(decision_lines(or_op, label_name(n), label_name(n + 1))) == set![
            label_name(n),
        ],
        jump_targets(decision_lines(or_op, label_name(n), label_name(n + 1))) == set![
            label_name(n),
            label_name(n + 1),
        ],
        placed_labels(join_lines(label_name(n + 1))) == set![label_name(n + 1)],
        jump_targets(join_lines(label_name(n + 1))) == Set::<Seq<char>>::empty(),
{
    let second = label_name(n);
    let end = label_name(n + 1);
    lemma_label_name_facts(n);
    lemma_label_name_facts(n + 1);
    let (branch, decided) = if or_op {
        ("je "@, "mov $1, %rax"@)
    } else {
        ("jne "@, "mov $0, %rax"@)
    };
    let c = seq!["cmp $0, %rax"@];
    let dd = seq![decided];
    lemma_fixed_inert("cmp $0, %rax"@);
    lemma_fixed_inert(decided);
    assert forall|i: int| 0 <= i < c.len() implies is_inert(#[trigger] c[i]) by {}
    assert forall|i: int| 0 <= i < dd.len() implies is_inert(#[trigger] dd[i]) by {}
    lemma_inert_lines(c);
    lemma_inert_lines(dd);
    lemma_jump_line(branch, second);
    lemma_jump_line("jmp "@, end);
    lemma_label_line(second);
    lemma_label_line(end);
    let d1 = c + seq![branch + second];
    let d2 = d1 + dd;
    let d3 = d2 + seq!["jmp "@ + end];
    let d4 = d3 + seq![label_line(second)];
    assert(decision_lines(or_op, second, end) =~= d4);
    lemma_labels_concat(c, seq![branch + second]);
    lemma_labels_concat(d1, dd);
    lemma_labels_concat(d2, seq!["jmp "@ + end]);
    lemma_labels_concat(d3, seq![label_line(second)]);
    assert(placed_labels(d4) =~= set![second]);
    assert(jump_targets(d4) =~= set![second, end]);
    let fixed = seq!["cmp $0, %rax"@, "mov $0, %rax"@, "setne %al"@];
    assert forall|i: int| 0 <= i < fixed.len() implies is_inert(#[trigger] fixed[i]) by {
        lemma_fixed_inert(fixed[i]);
    }
    lemma_inert_lines(fixed);
    assert(join_lines(end) =~= fixed + seq![label_line(end)]);
    lemma_labels_concat(fixed, seq![label_line(end)]);
    assert(placed_labels(join_lines(end)) =~= set![end]);
    assert(jump_targets(join_lines(end)) =~= Set::<Seq<char>>::empty());
}

/// An expression's code jumps to exactly the local labels it places.
proof fn lemma_expr_labels(e: ExprV, sc: ScopeV, next: nat)
    requires
        expr_code(e, sc, next) is Ok,
    ensures
        placed_labels(expr_code(e, sc, next)->Ok_0.0) == jump_targets(expr_code(e, sc, next)->Ok_0.0),
    decreases e,
{
    let lines = expr_code(e, sc, next)->Ok_0.0;
    match e {
        ExprV::Int(n) => {
            lemma_moves_inert(n as int);
            assert forall|i: int| 0 <= i < lines.len() implies is_inert(#[trigger] lines[i]) by {}
            lemma_inert_lines(lines);
        },
        ExprV::Variable(name) => {
            let offset = crate::codegen::lookup(sc, name)->0;
            lemma_moves_inert(offset as int);
            lemma_fixed_inert("xor %rax, %rax"@);
            assert forall|i: int| 0 <= i < lines.len() implies is_inert(#[trigger] lines[i]) by {}
            lemma_inert_lines(lines);
        },
        ExprV::Unary(op, sub) => {
            lemma_expr_labels(*sub, sc, next);
            lemma_fixed_groups_inert(op, BinaryOperator::Plus);
            lemma_labels_concat(expr_code(*sub, sc, next)->Ok_0.0, unary_lines(op));
            assert(placed_labels(lines) =~= jump_targets(lines));
        },
        ExprV::Binary(lhs, op, rhs) => {
            if is_short_circuit(op) {
                let (left, n1) = expr_code(*lhs, sc, next + 2)->Ok_0;
                let right = expr_code(*rhs, sc, n1)->Ok_0.0;
                lemma_expr_labels(*lhs, sc, next + 2);
                lemma_expr_labels(*rhs, sc, n1);
                let d = decision_lines(op == BinaryOperator::LogicOr, label_name(next), label_name(next + 1));
                let j = join_lines(label_name(next + 1));
                lemma_short_circuit_groups(op == BinaryOperator::LogicOr, next);
                lemma_labels_concat(left, d);
                lemma_labels_concat(left + d, right);
                lemma_labels_concat(left + d + right, j);
                assert(placed_labels(lines) =~= jump_targets(lines));
            } else if op == BinaryOperator::Assign {
                let right = expr_code(*rhs, sc, next)->Ok_0.0;
                lemma_expr_labels(*rhs, sc, next);
                if let ExprV::Variable(name) = *lhs {
                    let offset = crate::codegen::lookup(sc, name)->0;
                    let st = seq![store_line(offset as int)];
                    lemma_moves_inert(offset as int);
                    assert forall|i: int| 0 <= i < st.len() implies is_inert(#[trigger] st[i]) by {}
                    lemma_inert_lines(st);
                    assert(lines =~= right + st);
                    lemma_labels_concat(right, st);
                    assert(placed_labels(lines) =~= jump_targets(lines));
                }
            } else {
                let (right, n1) = expr_code(*rhs, sc, next)->Ok_0;
                let left = expr_code(*lhs, sc, n1)->Ok_0.0;
                lemma_expr_labels(*rhs, sc, next);
                lemma_expr_labels(*lhs, sc, n1);
                let push = seq!["push %rax"@];
                let pop = seq!["pop %rcx"@];
                lemma_fixed_inert("push %rax"@);
                lemma_fixed_inert("pop %rcx"@);
                assert forall|i: int| 0 <= i < push.len() implies is_inert(#[trigger] push[i]) by {}
                assert forall|i: int| 0 <= i < pop.len() implies is_inert(#[trigger] pop[i]) by {}
                lemma_inert_lines(push);
                lemma_inert_lines(pop);
                lemma_fixed_groups_inert(UnaryOperator::Negation, op);
                lemma_labels_concat(right, push);
                lemma_labels_concat(right + push, left);
                lemma_labels_concat(right + push + left, pop);
                lemma_labels_concat(right + push + left + pop, arith_lines(op));
                assert(placed_labels(lines) =~= jump_targets(lines));
            }
        },
    }
}

/// A statement's code jumps to exactly the local labels it places.
proof fn lemma_stmt_labels(st: StmtV, sc: ScopeV, next: nat)
    requires
        stmt_code(st, sc, next) is Ok,
    ensures
        placed_labels(stmt_code(st, sc, next)->Ok_0.0) == jump_targets(stmt_code(st, sc, next)->Ok_0.0),
{
    let lines = stmt_code(st, sc, next)->Ok_0.0;
    lemma_fixed_groups_inert(UnaryOperator::Negation, BinaryOperator::Plus);
    match st {
        StmtV::Return(e) => {
            lemma_expr_labels(e, sc, next);
            lemma_labels_concat(expr_code(e, sc, next)->Ok_0.0, return_lines());
            assert(placed_labels(lines) =~= jump_targets(lines));
        },
        StmtV::Declare(name, None) => {
            lemma_fixed_inert("sub $4, %rsp"@);
            assert forall|i: int| 0 <= i < lines.len() implies is_inert(#[trigger] lines[i]) by {}
            lemma_inert_lines(lines);
        },
        StmtV::Declare(name, Some(e)) => {
            let sc2 = crate::codegen::declare(sc, name)->Ok_0;
            let body = expr_code(e, sc2, next)->Ok_0.0;
            lemma_expr_labels(e, sc2, next);
            let tail = seq!["sub $4, %rsp"@, store_line(sc.stack_index as int)];
            lemma_fixed_inert("sub $4, %rsp"@);
            lemma_moves_inert(sc.stack_index as int);
            assert forall|i: int| 0 <= i < tail.len() implies is_inert(#[trigger] tail[i]) by {}
            lemma_inert_lines(tail);
            lemma_labels_concat(body, tail);
            assert(placed_labels(lines) =~= jump_targets(lines));
        },
        StmtV::Expression(e) => {
            lemma_expr_labels(e, sc, next);
        },
    }
}

proof fn lemma_body_labels(ss: Seq<StmtV>, sc: ScopeV, next: nat)
    requires
        body_code(ss, sc, next) is Ok,
    ensures
        placed_labels(body_code(ss, sc, next)->Ok_0.0) == jump_targets(body_code(ss, sc, next)->Ok_0.0),
    decreases ss.len(),
{
    if ss.len() == 0 {
        lemma_inert_lines(Seq::<Seq<char>>::empty());
    } else {
        let (lines, sc1, n1) = body_code(ss.drop_last(), sc, next)->Ok_0;
        lemma_body_labels(ss.drop_last(), sc, next);
        lemma_stmt_labels(ss.last(), sc1, n1);
        lemma_labels_concat(lines, stmt_code(ss.last(), sc1, n1)->Ok_0.0);
        assert(placed_labels(body_code(ss, sc, next)->Ok_0.0) =~= jump_targets(
            body_code(ss, sc, next)->Ok_0.0,
        ));
    }
}

/// No dangling label or jump in a function: every local label its listing places is
/// jumped to, and every jump goes to a local label it places. The function's name is
/// identifier text.
pub proof fn lemma_function_labels_match_jumps(f: FunctionV, next: nat)
    requires
        function_code(f, next) is Ok,
        is_identifier_text(f.name),
    ensures
        placed_labels(function_code(f, next)->Ok_0.0) == jump_targets(function_code(f, next)->Ok_0.0),
{
    let body = body_code(f.body, function_scope(), next)->Ok_0.0;
    lemma_body_labels(f.body, function_scope(), next);
    lemma_fixed_groups_inert(UnaryOperator::Negation, BinaryOperator::Plus);
    let h = function_header(f.name);
    reveal_strlit(".globl ");
    let g = ".globl "@ + f.name;
    assert(g[0] == '.' && g[1] == 'g');
    assert forall|x: Seq<char>| !#[trigger] placed_labels(h).contains(x) by {
        if placed_labels(h).contains(x) {
            let i = choose|i: int| 0 <= i < h.len() && h[i] == label_line(x);
            if i == 0 {
                assert(h[0][1] == x[1]);
            } else if i == 1 {
                assert(h[1][0] == x[0]);
            } else {
                lemma_fixed_inert(h[i]);
                assert(h[i].last() == ':');
            }
        }
    }
    assert forall|x: Seq<char>| !#[trigger] jump_targets(h).contains(x) by {
        reveal_strlit("je ");
        reveal_strlit("jne ");
        reveal_strlit("jmp ");
        if jump_targets(h).contains(x) {
            let i = choose|i: int| 0 <= i < h.len() && is_jump_to(h[i], x);
            assert(h[i][0] == 'j');
            if i >= 2 {
                lemma_fixed_inert(h[i]);
            } else if i == 1 {
                let l = h[1];
                assert forall|k: int| 0 <= k < l.len() implies l[k] != ' ' by {
                    if k < f.name.len() {
                        assert(is_alphanumeric(f.name[k]));
                    }
                }
                if l == "je "@ + x {
                    assert(l[2] == ' ');
                } else if l == "jne "@ + x {
                    assert(l[3] == ' ');
                } else {
                    assert(l[3] == ' ');
                }
            }
        }
    }
    assert(placed_labels(h) =~= Set::<Seq<char>>::empty());
    assert(jump_targets(h) =~= Set::<Seq<char>>::empty());
    lemma_labels_concat(h, body);
    lemma_labels_concat(h + body, fall_through_lines());
    assert(placed_labels(function_code(f, next)->Ok_0.0) =~= jump_targets(
        function_code(f, next)->Ok_0.0,
    ));
}

/// No dangling label or jump in a whole program whose function names are identifier text:
/// the local labels placed and the labels jumped to are the same set.
pub proof fn lemma_program_labels_match_jumps(fs: Seq<FunctionV>, next: nat)
    requires
        program_code(fs, next) is Ok,
        forall|i: int| 0 <= i < fs.len() ==> is_identifier_text(#[trigger] fs[i].name),
    ensures
        placed_labels(program_code(fs, next)->Ok_0.0) == jump_targets(program_code(fs, next)->Ok_0.0),
    decreases fs.len(),
{
    if fs.len() == 0 {
        lemma_inert_lines(Seq::<Seq<char>>::empty());
    } else {
        let (lines, n1) = program_code(fs.drop_last(), next)->Ok_0;
        assert forall|i: int| 0 <= i < fs.drop_last().len() implies is_identifier_text(
            #[trigger] fs.drop_last()[i].name,
        ) by {
            assert(fs.drop_last()[i] == fs[i]);
        }
        lemma_program_labels_match_jumps(fs.drop_last(), next);
        lemma_function_labels_match_jumps(fs.last(), n1);
        lemma_labels_concat(lines, function_code(fs.last(), n1)->Ok_0.0);
        assert(placed_labels(program_code(fs, next)->Ok_0.0) =~= jump_targets(
            program_code(fs, next)->Ok_0.0,
        ));
    }
}

/// For every source that lexes and parses: each function's listing holds exactly one
/// `.globl` directive and one `push %rbp`, followed at once by `mov %rsp, %rbp`, and the
/// program's listing jumps to exactly the local labels it places.
pub proof fn lemma_source_listing(s: Seq<char>, next: nat)
    requires
        lex_spec(s) is Ok,
        spec_program(lex_spec(s)->Ok_0) is Ok,
    ensures
        ({
            let fs = spec_program(lex_spec(s)->Ok_0)->Ok_0;
            &&& forall|i: int, n: nat|
                0 <= i < fs.len() && #[trigger] function_code(fs[i], n) is Ok ==> {
                    let lines = function_code(fs[i], n)->Ok_0.0;
                    &&& count_globl(lines) == 1
                    &&& count_line(lines, "push %rbp"@) == 1
                    &&& lines[2] == "push %rbp"@
                    &&& lines[3] == "mov %rsp, %rbp"@
                }
            &&& program_code(fs, next) is Ok ==> placed_labels(program_code(fs, next)->Ok_0.0)
                == jump_targets(program_code(fs, next)->Ok_0.0)
        }),
{
    let t = lex_spec(s)->Ok_0;
    let fs = spec_program(t)->Ok_0;
    lemma_lexed_identifiers(s, 0);
    lemma_function_names_are_identifiers(t, 0);
    assert forall|i: int| 0 <= i < fs.len() implies is_identifier_text(#[trigger] fs[i].name) by {
        assert(names_identifier(t, fs[i].name));
        let k = choose|k: int| 0 <= k < t.len() && t[k] == TokenV::Identifier(fs[i].name);
        assert(t[k] matches TokenV::Identifier(w) ==> is_identifier_text(w));
    }
    assert forall|i: int, n: nat|
        0 <= i < fs.len() && #[trigger] function_code(fs[i], n) is Ok implies {
            let lines = function_code(fs[i], n)->Ok_0.0;
            &&& count_globl(lines) == 1
            &&& count_line(lines, "push %rbp"@) == 1
            &&& lines[2] == "push %rbp"@
            &&& lines[3] == "mov %rsp, %rbp"@
        } by {
        lemma_single_entry(fs[i], n);
    }
    if program_code(fs, next) is Ok {
        lemma_program_labels_match_jumps(fs, next);
    }
}

} // verus!
