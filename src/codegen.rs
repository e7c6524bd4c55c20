//! Syntax tree to x86-64 assembly in AT&T syntax.
use vstd::prelude::*;

use crate::ast::{
    BinaryOperator, ExprV, Expression, FunctionDeclaration, FunctionV, Program, Statement, StmtV,
    UnaryOperator, functions_view, statements_view,
};
use crate::scoping::{
    frame_names_unique, frame_ordered, lemma_frame_names_stay_unique, lemma_frame_stays_ordered,
};
use crate::text::{int_text, nat_text, push_char, push_int, push_nat};

verus! {

/// The text of a sequence of lines, each ended by a newline.
pub open spec fn lines_text(ls: Seq<Seq<char>>) -> Seq<char>
    decreases ls.len(),
{
    if ls.len() == 0 {
        seq![]
    } else {
        lines_text(ls.drop_last()) + ls.last().push('\n')
    }
}

/// The text of two runs of lines is the text of the first followed by that of the second.
pub proof fn lemma_lines_text_concat(a: Seq<Seq<char>>, b: Seq<Seq<char>>)
    ensures
        #[trigger] lines_text(a + b) == lines_text(a) + lines_text(b),
    decreases b.len(),
{
    if b.len() == 0 {
        assert(a + b =~= a);
        assert(lines_text(a) + lines_text(b) =~= lines_text(a));
    } else {
        assert((a + b).drop_last() =~= a + b.drop_last());
        lemma_lines_text_concat(a, b.drop_last());
        assert(lines_text(a + b) =~= lines_text(a) + lines_text(b));
    }
}

/// The text of a single line.
pub proof fn lemma_lines_text_single(l: Seq<char>)
    ensures
        lines_text(seq![l]) == l.push('\n'),
{
    assert(seq![l].drop_last() =~= Seq::<Seq<char>>::empty());
    assert(lines_text(Seq::<Seq<char>>::empty()) == Seq::<char>::empty());
    assert(Seq::<char>::empty() + l.push('\n') =~= l.push('\n'));
}

/// An append-only buffer of assembly text.
pub struct Code {
    code: String,
}

impl View for Code {
    type V = Seq<char>;

    closed spec fn view(&self) -> Seq<char> {
        self.code@
    }
}

impl Code {
    pub fn new() -> (r: Self)
        ensures
            r@ == Seq::<char>::empty(),
    {
        Code { code: String::new() }
    }

    /// Appends a fragment.
    pub fn add_asm(&mut self, fragment: &str)
        ensures
            final(self)@ == old(self)@ + fragment@,
    {
        self.code.append(fragment);
    }

    /// Appends a fragment and a newline.
    pub fn add_asm_line(&mut self, fragment: &str)
        ensures
            final(self)@ == old(self)@ + lines_text(seq![fragment@]),
    {
        self.add_asm(fragment);
        push_char(&mut self.code, '\n');
        proof {
            lemma_lines_text_single(fragment@);
            assert(old(self)@ + fragment@.push('\n') =~= old(self)@ + fragment@ + seq!['\n']);
        }
    }

    /// The text so far.
    pub fn to_string(&self) -> (r: String)
        ensures
            r@ == self@,
    {
        self.code.clone()
    }

    /// Appends the text of another buffer.
    pub fn append(&mut self, other: Self)
        ensures
            final(self)@ == old(self)@ + other@,
    {
        self.code.append(other.code.as_str());
    }

    /// Appends the line `label:`.
    pub fn add_label(&mut self, label: String)
        ensures
            final(self)@ == old(self)@ + lines_text(seq![label@ + seq![':']]),
    {
        self.add_asm(label.as_str());
        self.add_asm_line(":");
        proof {
            reveal_strlit(":");
            lemma_lines_text_single(label@ + seq![':']);
            lemma_lines_text_single(":"@);
            assert(old(self)@ + (label@ + seq![':']).push('\n') =~= old(self)@ + label@ + ":"@.push(
                '\n',
            ));
        }
    }
}

/// Why code generation stopped.
#[derive(Debug, PartialEq, Eq)]
pub enum CodegenError {
    /// The left side of an assignment is not a variable.
    InvalidAssignment,
    /// A variable is used that no enclosing scope declares.
    UndeclaredSymbol(String),
    /// A variable is declared again within its scope chain.
    DuplicateSymbol(String),
    /// A stack slot offset would fall below the range of `i64`.
    FrameOverflow,
    /// The label counter would pass the range of `usize`.
    LabelOverflow,
}

/// The mathematical form of a code generation error.
pub enum GenError {
    InvalidAssignment,
    UndeclaredSymbol(Seq<char>),
    DuplicateSymbol(Seq<char>),
    FrameOverflow,
    LabelOverflow,
}

impl View for CodegenError {
    type V = GenError;

    open spec fn view(&self) -> GenError {
        match self {
            CodegenError::InvalidAssignment => GenError::InvalidAssignment,
            CodegenError::UndeclaredSymbol(name) => GenError::UndeclaredSymbol(name@),
            CodegenError::DuplicateSymbol(name) => GenError::DuplicateSymbol(name@),
            CodegenError::FrameOverflow => GenError::FrameOverflow,
            CodegenError::LabelOverflow => GenError::LabelOverflow,
        }
    }
}

/// A lexical scope: its own symbols with their stack offsets, the next free offset, and the
/// enclosing scope.
pub struct Scope {
    pub parent: Option<Box<Scope>>,
    pub symbols: Vec<(String, i64)>,
    pub stack_index: i64,
}

/// The mathematical form of a scope chain.
pub struct ScopeV {
    pub parent: Option<Box<ScopeV>>,
    pub symbols: Seq<(Seq<char>, i64)>,
    pub stack_index: i64,
}

pub open spec fn symbols_view(syms: Seq<(String, i64)>) -> Seq<(Seq<char>, i64)> {
    syms.map_values(|e: (String, i64)| (e.0@, e.1))
}

pub open spec fn scope_view(s: &Scope) -> ScopeV
    decreases s,
{
    ScopeV {
        parent: match &s.parent {
            Some(p) => Some(Box::new(scope_view(&**p))),
            None => None,
        },
        symbols: symbols_view(s.symbols@),
        stack_index: s.stack_index,
    }
}

impl View for Scope {
    type V = ScopeV;

    open spec fn view(&self) -> ScopeV {
        scope_view(self)
    }
}

/// A fresh function scope with no symbols under `parent`.
pub open spec fn child_scope(parent: Option<Box<ScopeV>>) -> ScopeV {
    ScopeV { parent, symbols: seq![], stack_index: -4i64 }
}

/// The offset of the first entry named `name` in `syms`.
pub open spec fn local_offset(syms: Seq<(Seq<char>, i64)>, name: Seq<char>) -> Option<i64>
    decreases syms.len(),
{
    if syms.len() == 0 {
        None
    } else if syms[0].0 == name {
        Some(syms[0].1)
    } else {
        local_offset(syms.drop_first(), name)
    }
}

/// The offset of `name`, looked up from the innermost scope outward.
pub open spec fn lookup(s: ScopeV, name: Seq<char>) -> Option<i64>
    decreases s,
{
    match local_offset(s.symbols, name) {
        Some(offset) => Some(offset),
        None => match s.parent {
            Some(p) => lookup(*p, name),
            None => None,
        },
    }
}

/// Declares `name` in the innermost scope at its next free offset.
pub open spec fn declare(s: ScopeV, name: Seq<char>) -> Result<ScopeV, GenError> {
    if lookup(s, name) is Some {
        Err(GenError::DuplicateSymbol(name))
    } else if s.stack_index < i64::MIN + 4 {
        Err(GenError::FrameOverflow)
    } else {
        Ok(
            ScopeV {
                parent: s.parent,
                symbols: s.symbols.push((name, s.stack_index)),
                stack_index: (s.stack_index - 4) as i64,
            },
        )
    }
}

impl Clone for Scope {
    /// A deep copy of the scope chain.
    fn clone(&self) -> (r: Self)
        ensures
            r@ == self@,
        decreases self,
    {
        let parent = match &self.parent {
            Some(p) => Some(Box::new((**p).clone())),
            None => None,
        };
        let mut symbols: Vec<(String, i64)> = Vec::new();
        let mut i: usize = 0;
        while i < self.symbols.len()
            invariant
                i <= self.symbols@.len(),
                symbols_view(symbols@) =~= symbols_view(self.symbols@).take(i as int),
            decreases self.symbols@.len() - i,
        {
            let ghost before = symbols_view(symbols@);
            let entry = (self.symbols[i].0.clone(), self.symbols[i].1);
            symbols.push(entry);
            assert(symbols_view(symbols@) =~= before.push(symbols_view(self.symbols@)[i as int]));
            assert(symbols_view(self.symbols@).take(i + 1) =~= symbols_view(self.symbols@).take(
                i as int,
            ).push(symbols_view(self.symbols@)[i as int]));
            i += 1;
        }
        assert(symbols_view(self.symbols@).take(i as int) =~= symbols_view(self.symbols@));
        Scope { parent, symbols, stack_index: self.stack_index }
    }
}

impl Scope {
    /// An outermost scope with no symbols.
    pub fn new() -> (r: Self)
        ensures
            r@ == child_scope(None),
    {
        let r = Scope { parent: None, symbols: Vec::new(), stack_index: -4 };
        assert(symbols_view(r.symbols@) =~= Seq::<(Seq<char>, i64)>::empty());
        r
    }

    /// A scope with no symbols nested in `parent`.
    pub fn from_parent(parent: Scope) -> (r: Self)
        ensures
            r@ == child_scope(Some(Box::new(parent@))),
    {
        let r = Scope { parent: Some(Box::new(parent)), symbols: Vec::new(), stack_index: -4 };
        assert(symbols_view(r.symbols@) =~= Seq::<(Seq<char>, i64)>::empty());
        r
    }

    /// The offset of `name` among this scope's own symbols.
    fn local_symbol(&self, name: &String) -> (r: Option<i64>)
        ensures
            r == local_offset(symbols_view(self.symbols@), name@),
    {
        let ghost syms = symbols_view(self.symbols@);
        let mut i: usize = 0;
        assert(syms.skip(0) =~= syms);
        while i < self.symbols.len()
            invariant
                i <= self.symbols@.len(),
                syms == symbols_view(self.symbols@),
                local_offset(syms, name@) == local_offset(syms.skip(i as int), name@),
            decreases self.symbols@.len() - i,
        {
            assert(syms.skip(i as int).drop_first() =~= syms.skip(i + 1));
            if self.symbols[i].0 == *name {
                return Some(self.symbols[i].1);
            }
            i += 1;
        }
        assert(syms.skip(i as int) =~= Seq::<(Seq<char>, i64)>::empty());
        None
    }

    /// The offset of `name` in this scope or an enclosing one, innermost first.
    pub fn get_symbol(&self, name: &str) -> (r: Option<i64>)
        ensures
            r == lookup(self@, name@),
        decreases self,
    {
        let key = name.to_owned();
        match self.local_symbol(&key) {
            Some(offset) => Some(offset),
            None => match &self.parent {
                Some(p) => p.get_symbol(name),
                None => None,
            },
        }
    }

    /// Whether `name` is declared in this scope or an enclosing one.
    pub fn contains_symbol(&self, name: &str) -> (r: bool)
        ensures
            r == lookup(self@, name@) is Some,
    {
        self.get_symbol(name).is_some()
    }

    /// Declares `name` in this scope at the next free offset, refusing a name that the
    /// scope chain already holds.
    pub fn add_symbol(&mut self, name: String) -> (r: Result<(), CodegenError>)
        ensures
            match r {
                Ok(_) => declare(old(self)@, name@) == Ok::<ScopeV, GenError>(final(self)@),
                Err(e) => declare(old(self)@, name@) == Err::<ScopeV, GenError>(e@) && final(self)@
                    == old(self)@,
            },
            frame_names_unique(old(self)@) ==> frame_names_unique(final(self)@),
            frame_ordered(old(self)@) ==> frame_ordered(final(self)@),
    {
        proof {
            lemma_frame_names_stay_unique(old(self)@, name@, None);
            lemma_frame_stays_ordered(old(self)@, name@, None);
        }
        if self.contains_symbol(name.as_str()) {
            return Err(CodegenError::DuplicateSymbol(name));
        }
        if self.stack_index < i64::MIN + 4 {
            return Err(CodegenError::FrameOverflow);
        }
        let ghost before = symbols_view(self.symbols@);
        let entry = (name, self.stack_index);
        let ghost entry_view = (entry.0@, entry.1);
        self.symbols.push(entry);
        self.stack_index = self.stack_index - 4;
        assert(symbols_view(self.symbols@) =~= before.push(entry_view));
        Ok(())
    }
}


/// Lines of assembly, each without its newline.
pub type Lines = Seq<Seq<char>>;

/// `mov $n, %rax`.
pub open spec fn imm_line(n: int) -> Seq<char> {
    "mov $"@ + int_text(n) + ", %rax"@
}

/// `movl offset(%rbp), %eax`.
pub open spec fn load_line(offset: int) -> Seq<char> {
    "movl "@ + int_text(offset) + "(%rbp), %eax"@
}

/// `movl %eax, offset(%rbp)`.
pub open spec fn store_line(offset: int) -> Seq<char> {
    "movl %eax, "@ + int_text(offset) + "(%rbp)"@
}

/// The name of local label number `n`: `.L<n>`.
pub open spec fn label_name(n: nat) -> Seq<char> {
    ".L"@ + nat_text(n)
}

/// The line that places a label.
pub open spec fn label_line(label: Seq<char>) -> Seq<char> {
    label + seq![':']
}

/// What a unary operator applies to `%rax`.
pub open spec fn unary_lines(op: UnaryOperator) -> Lines {
    match op {
        UnaryOperator::Negation => seq!["neg %rax"@],
        UnaryOperator::BitwiseNot => seq!["not %rax"@],
        UnaryOperator::LogicNot => seq!["cmp $0, %rax"@, "mov $0, %rax"@, "sete %al"@],
    }
}

/// Compares `%rax` with `%rcx` and leaves the flag that `set` reads in `%rax`.
pub open spec fn compare_lines(set: Seq<char>) -> Lines {
    seq!["cmp %rcx, %rax"@, "mov $0, %rax"@, set]
}

/// What an arithmetic or comparison operator applies to `%rax` (left) and `%rcx` (right).
pub open spec fn arith_lines(op: BinaryOperator) -> Lines {
    match op {
        BinaryOperator::Plus => seq!["add %rcx, %rax"@],
        BinaryOperator::Minus => seq!["sub %rcx, %rax"@],
        BinaryOperator::Times => seq!["imul %rcx, %rax"@],
        BinaryOperator::Divide => seq!["cqo"@, "idiv %rcx"@],
        BinaryOperator::EQ => compare_lines("sete %al"@),
        BinaryOperator::NEQ => compare_lines("setne %al"@),
        BinaryOperator::LT => compare_lines("setl %al"@),
        BinaryOperator::GT => compare_lines("setg %al"@),
        BinaryOperator::LE => compare_lines("setle %al"@),
        BinaryOperator::GE => compare_lines("setge %al"@),
        _ => seq![],
    }
}

pub open spec fn is_short_circuit(op: BinaryOperator) -> bool {
    op == BinaryOperator::LogicOr || op == BinaryOperator::LogicAnd
}

/// After the left operand of `||` (`or_op`) or `&&`: jump to `second` unless the left
/// operand decides, else set the result and jump to `end`.
pub open spec fn decision_lines(or_op: bool, second: Seq<char>, end: Seq<char>) -> Lines {
    let (branch, decided) = if or_op {
        ("je "@, "mov $1, %rax"@)
    } else {
        ("jne "@, "mov $0, %rax"@)
    };
    seq!["cmp $0, %rax"@, branch + second, decided, "jmp "@ + end, label_line(second)]
}

/// After the right operand of `||` or `&&`: its truth value, then the label `end`.
pub open spec fn join_lines(end: Seq<char>) -> Lines {
    seq!["cmp $0, %rax"@, "mov $0, %rax"@, "setne %al"@, label_line(end)]
}

/// `a || b` and `a && b`: the left operand decides whether the right one runs.
pub open spec fn short_circuit_lines(
    op: BinaryOperator,
    left: Lines,
    right: Lines,
    second: Seq<char>,
    end: Seq<char>,
) -> Lines {
    left + decision_lines(op == BinaryOperator::LogicOr, second, end) + right + join_lines(end)
}

/// The lines of an expression, with `next` the first unused label number, and the label
/// number after them.
pub open spec fn expr_code(e: ExprV, sc: ScopeV, next: nat) -> Result<(Lines, nat), GenError>
    decreases e,
{
    match e {
        ExprV::Int(n) => Ok((seq![imm_line(n as int)], next)),
        ExprV::Variable(name) => match lookup(sc, name) {
            Some(offset) => Ok((seq!["xor %rax, %rax"@, load_line(offset as int)], next)),
            None => Err(GenError::UndeclaredSymbol(name)),
        },
        ExprV::Unary(op, sub) => match expr_code(*sub, sc, next) {
            Ok((lines, n)) => Ok((lines + unary_lines(op), n)),
            Err(err) => Err(err),
        },
        ExprV::Binary(lhs, op, rhs) => if is_short_circuit(op) {
            if next + 2 > usize::MAX {
                Err(GenError::LabelOverflow)
            } else {
                match expr_code(*lhs, sc, next + 2) {
                    Err(err) => Err(err),
                    Ok((left, n1)) => match expr_code(*rhs, sc, n1) {
                        Err(err) => Err(err),
                        Ok((right, n2)) => Ok(
                            (
                                short_circuit_lines(
                                    op,
                                    left,
                                    right,
                                    label_name(next),
                                    label_name(next + 1),
                                ),
                                n2,
                            ),
                        ),
                    },
                }
            }
        } else if op == BinaryOperator::Assign {
            match *lhs {
                ExprV::Variable(name) => match expr_code(*rhs, sc, next) {
                    Err(err) => Err(err),
                    Ok((right, n1)) => match lookup(sc, name) {
                        Some(offset) => Ok((right.push(store_line(offset as int)), n1)),
                        None => Err(GenError::UndeclaredSymbol(name)),
                    },
                },
                _ => Err(GenError::InvalidAssignment),
            }
        } else {
            match expr_code(*rhs, sc, next) {
                Err(err) => Err(err),
                Ok((right, n1)) => match expr_code(*lhs, sc, n1) {
                    Err(err) => Err(err),
                    Ok((left, n2)) => Ok(
                        (right + seq!["push %rax"@] + left + seq!["pop %rcx"@] + arith_lines(op), n2),
                    ),
                },
            }
        },
    }
}

/// The epilogue of a `return`.
pub open spec fn return_lines() -> Lines {
    seq!["mov %rbp, %rsp"@, "pop %rbp"@, "ret"@]
}

/// The lines of a statement, the scope after it, and the next unused label number.
pub open spec fn stmt_code(s: StmtV, sc: ScopeV, next: nat) -> Result<(Lines, ScopeV, nat), GenError> {
    match s {
        StmtV::Return(e) => match expr_code(e, sc, next) {
            Ok((lines, n)) => Ok((lines + return_lines(), sc, n)),
            Err(err) => Err(err),
        },
        StmtV::Declare(name, None) => match declare(sc, name) {
            Ok(sc2) => Ok((seq!["sub $4, %rsp"@], sc2, next)),
            Err(err) => Err(err),
        },
        StmtV::Declare(name, Some(e)) => match declare(sc, name) {
            Err(err) => Err(err),
            Ok(sc2) => match expr_code(e, sc2, next) {
                Ok((lines, n)) => Ok(
                    (lines + seq!["sub $4, %rsp"@, store_line(sc.stack_index as int)], sc2, n),
                ),
                Err(err) => Err(err),
            },
        },
        StmtV::Expression(e) => match expr_code(e, sc, next) {
            Ok((lines, n)) => Ok((lines, sc, n)),
            Err(err) => Err(err),
        },
    }
}

/// The lines of a run of statements, in order, threading the scope and the label counter.
/// Statements after a `return` are emitted too, though control never reaches them.
pub open spec fn body_code(ss: Seq<StmtV>, sc: ScopeV, next: nat) -> Result<
    (Lines, ScopeV, nat),
    GenError,
>
    decreases ss.len(),
{
    if ss.len() == 0 {
        Ok((seq![], sc, next))
    } else {
        match body_code(ss.drop_last(), sc, next) {
            Err(err) => Err(err),
            Ok((lines, sc1, n1)) => match stmt_code(ss.last(), sc1, n1) {
                Err(err) => Err(err),
                Ok((more, sc2, n2)) => Ok((lines + more, sc2, n2)),
            },
        }
    }
}

/// `.globl name`, `name:` and the prologue.
pub open spec fn function_header(name: Seq<char>) -> Lines {
    seq![".globl "@ + name, name + seq![':'], "push %rbp"@, "mov %rsp, %rbp"@]
}

/// The epilogue at the end of every function: it returns zero.
pub open spec fn fall_through_lines() -> Lines {
    seq!["xor %rax, %rax"@, "mov %rbp, %rsp"@, "pop %rbp"@, "ret"@]
}

/// The scope in which a function body starts: empty, under an empty outermost scope.
pub open spec fn function_scope() -> ScopeV {
    child_scope(Some(Box::new(child_scope(None))))
}

/// The lines of a function and the next unused label number.
pub open spec fn function_code(f: FunctionV, next: nat) -> Result<(Lines, nat), GenError> {
    match body_code(f.body, function_scope(), next) {
        Ok((lines, _, n)) => Ok((function_header(f.name) + lines + fall_through_lines(), n)),
        Err(err) => Err(err),
    }
}

/// The lines of a program's functions, in order, and the next unused label number.
pub open spec fn program_code(fs: Seq<FunctionV>, next: nat) -> Result<(Lines, nat), GenError>
    decreases fs.len(),
{
    if fs.len() == 0 {
        Ok((seq![], next))
    } else {
        match program_code(fs.drop_last(), next) {
            Err(err) => Err(err),
            Ok((lines, n1)) => match function_code(fs.last(), n1) {
                Err(err) => Err(err),
                Ok((more, n2)) => Ok((lines + more, n2)),
            },
        }
    }
}


/// A run of statements fails with the first failure of any of its prefixes.
pub proof fn lemma_body_code_failure(ss: Seq<StmtV>, sc: ScopeV, next: nat, j: int)
    requires
        0 <= j <= ss.len(),
        body_code(ss.take(j), sc, next) is Err,
    ensures
        body_code(ss, sc, next) == body_code(ss.take(j), sc, next),
    decreases ss.len() - j,
{
    if j == ss.len() {
        assert(ss.take(j) =~= ss);
    } else {
        assert(ss.take(j + 1).drop_last() =~= ss.take(j));
        lemma_body_code_failure(ss, sc, next, j + 1);
    }
}

/// A program fails with the first failure of any of its prefixes.
pub proof fn lemma_program_code_failure(fs: Seq<FunctionV>, next: nat, j: int)
    requires
        0 <= j <= fs.len(),
        program_code(fs.take(j), next) is Err,
    ensures
        program_code(fs, next) == program_code(fs.take(j), next),
    decreases fs.len() - j,
{
    if j == fs.len() {
        assert(fs.take(j) =~= fs);
    } else {
        assert(fs.take(j + 1).drop_last() =~= fs.take(j));
        lemma_program_code_failure(fs, next, j + 1);
    }
}

/// Appending the text of `more` lines after the text of `out` gives the text of both.
proof fn lemma_append_lines(start: Seq<char>, out: Lines, more: Lines)
    ensures
        start + lines_text(out) + lines_text(more) == start + lines_text(out + more),
{
    lemma_lines_text_concat(out, more);
    assert(start + lines_text(out) + lines_text(more) =~= start + (lines_text(out) + lines_text(
        more,
    )));
}

/// `prefix`, the decimal text of `n`, then `suffix`.
fn int_line(prefix: &str, n: i64, suffix: &str) -> (r: String)
    ensures
        r@ == prefix@ + int_text(n as int) + suffix@,
{
    let mut line = prefix.to_owned();
    push_int(&mut line, n);
    line.append(suffix);
    line
}

/// `a` followed by `b`.
fn joined(a: &str, b: &str) -> (r: String)
    ensures
        r@ == a@ + b@,
{
    let mut line = a.to_owned();
    line.append(b);
    line
}

/// Emits assembly text for a program, keeping the text so far and a counter of local labels.
pub struct CodeGenerator {
    pub code: Code,
    label_count: usize,
}

impl CodeGenerator {
    /// The number of the next local label.
    pub closed spec fn labels(&self) -> nat {
        self.label_count as nat
    }

    /// The text emitted so far.
    pub closed spec fn text(&self) -> Seq<char> {
        self.code@
    }

    pub fn new() -> (r: Self)
        ensures
            r.text() == Seq::<char>::empty(),
            r.labels() == 0,
    {
        CodeGenerator { code: Code::new(), label_count: 0 }
    }

    /// The text emitted so far.
    pub fn output(&self) -> (r: String)
        ensures
            r@ == self.text(),
    {
        self.code.to_string()
    }

    /// A fresh local label `.L<n>`; labels are never reused.
    pub fn get_label(&mut self) -> (r: String)
        requires
            old(self).labels() < usize::MAX,
        ensures
            r@ == label_name(old(self).labels()),
            final(self).labels() == old(self).labels() + 1,
            final(self).text() == old(self).text(),
    {
        let mut label = ".L".to_owned();
        push_nat(&mut label, self.label_count as u64);
        self.label_count = self.label_count + 1;
        label
    }

    /// Emits one line after the lines `out` emitted since the text was `start`.
    fn emit(&mut self, line: &str, Ghost(start): Ghost<Seq<char>>, Ghost(out): Ghost<Lines>)
        requires
            old(self).text() == start + lines_text(out),
        ensures
            final(self).text() == start + lines_text(out.push(line@)),
            final(self).labels() == old(self).labels(),
    {
        self.code.add_asm_line(line);
        proof {
            lemma_append_lines(start, out, seq![line@]);
            assert(out + seq![line@] =~= out.push(line@));
        }
    }

    /// Emits the line that places `label`.
    fn emit_label(&mut self, label: String, Ghost(start): Ghost<Seq<char>>, Ghost(out): Ghost<Lines>)
        requires
            old(self).text() == start + lines_text(out),
        ensures
            final(self).text() == start + lines_text(out.push(label_line(label@))),
            final(self).labels() == old(self).labels(),
    {
        let ghost text = label@;
        self.code.add_label(label);
        proof {
            lemma_append_lines(start, out, seq![label_line(text)]);
            assert(out + seq![label_line(text)] =~= out.push(label_line(text)));
        }
    }

    fn generate_expr(&mut self, scope: &Scope, expr: Expression) -> (r: Result<(), CodegenError>)
        ensures
            match r {
                Ok(_) => expr_code(expr@, scope@, old(self).labels()) matches Ok((lines, n))
                    && final(self).text() == old(self).text() + lines_text(lines) && final(self).labels()
                    == n,
                Err(e) => expr_code(expr@, scope@, old(self).labels()) == Err::<(Lines, nat), GenError>(
                    e@,
                ),
            },
        decreases expr, 1int,
    {
        let ghost start = self.text();
        let ghost mut out: Lines = seq![];
        assert(start + lines_text(out) =~= start);
        match expr {
            Expression::Int(x) => {
                let line = int_line("mov $", x as i64, ", %rax");
                self.emit(line.as_str(), Ghost(start), Ghost(out));
                proof {
                    out = out.push(line@);
                }
                assert(out =~= seq![imm_line(x as int)]);
                Ok(())
            },
            Expression::Variable(name) => {
                let offset = match scope.get_symbol(name.as_str()) {
                    Some(offset) => offset,
                    None => {
                        return Err(CodegenError::UndeclaredSymbol(name));
                    },
                };
                self.emit("xor %rax, %rax", Ghost(start), Ghost(out));
                proof {
                    out = out.push("xor %rax, %rax"@);
                }
                let line = int_line("movl ", offset, "(%rbp), %eax");
                self.emit(line.as_str(), Ghost(start), Ghost(out));
                proof {
                    out = out.push(line@);
                }
                assert(out =~= seq!["xor %rax, %rax"@, load_line(offset as int)]);
                Ok(())
            },
            Expression::UnaryOperation(op, sub) => {
                let ghost n0 = self.labels();
                let ghost sub_view = (*sub)@;
                match self.generate_expr(scope, *sub) {
                    Err(e) => {
                        return Err(e);
                    },
                    Ok(_) => {},
                }
                let ghost sub_lines = expr_code(sub_view, scope@, n0)->Ok_0.0;
                proof {
                    lemma_append_lines(start, out, sub_lines);
                    out = out + sub_lines;
                }
                match op {
                    UnaryOperator::Negation => {
                        self.emit("neg %rax", Ghost(start), Ghost(out));
                        proof {
                            out = out.push("neg %rax"@);
                        }
                    },
                    UnaryOperator::BitwiseNot => {
                        self.emit("not %rax", Ghost(start), Ghost(out));
                        proof {
                            out = out.push("not %rax"@);
                        }
                    },
                    UnaryOperator::LogicNot => {
                        self.emit("cmp $0, %rax", Ghost(start), Ghost(out));
                        proof {
                            out = out.push("cmp $0, %rax"@);
                        }
                        self.emit("mov $0, %rax", Ghost(start), Ghost(out));
                        proof {
                            out = out.push("mov $0, %rax"@);
                        }
                        self.emit("sete %al", Ghost(start), Ghost(out));
                        proof {
                            out = out.push("sete %al"@);
                        }
                    },
                }
                assert(out =~= sub_lines + unary_lines(op));
                Ok(())
            },
            Expression::BinaryOperation(_, op, _) => match op {
                BinaryOperator::LogicOr | BinaryOperator::LogicAnd => self.generate_short_circuit(scope, expr),
                BinaryOperator::Assign => self.generate_assign(scope, expr),
                _ => self.generate_arith(scope, expr),
            },
        }
    }

    /// `||` and `&&`: the right operand runs only when the left one does not decide.
    fn generate_short_circuit(&mut self, scope: &Scope, expr: Expression) -> (r: Result<(), CodegenError>)
        requires
            expr@ matches ExprV::Binary(_, op, _) && is_short_circuit(op),
        ensures
            match r {
                Ok(_) => expr_code(expr@, scope@, old(self).labels()) matches Ok((lines, n))
                    && final(self).text() == old(self).text() + lines_text(lines) && final(self).labels()
                    == n,
                Err(e) => expr_code(expr@, scope@, old(self).labels()) == Err::<(Lines, nat), GenError>(
                    e@,
                ),
            },
        decreases expr, 0int,
    {
        let ghost start = self.text();
        let ghost mut out: Lines = seq![];
        assert(start + lines_text(out) =~= start);
        let (lhs, op, rhs) = match expr {
            Expression::BinaryOperation(lhs, op, rhs) => (lhs, op, rhs),
            // Not reached: the caller passes a binary operation.
            _ => {
                return Err(CodegenError::InvalidAssignment);
            },
        };
        let ghost lhs_view = (*lhs)@;
        let ghost rhs_view = (*rhs)@;
        if self.label_count > usize::MAX - 2 {
            return Err(CodegenError::LabelOverflow);
        }
        let ghost n0 = self.labels();
        let second = self.get_label();
        let end = self.get_label();
        match self.generate_expr(scope, *lhs) {
            Err(e) => {
                return Err(e);
            },
            Ok(_) => {},
        }
        let ghost left_lines = expr_code(lhs_view, scope@, n0 + 2)->Ok_0.0;
        let ghost n1 = expr_code(lhs_view, scope@, n0 + 2)->Ok_0.1;
        proof {
            lemma_append_lines(start, out, left_lines);
            out = out + left_lines;
        }
        let is_or = match op {
            BinaryOperator::LogicOr => true,
            _ => false,
        };
        let ghost second_text = second@;
        self.emit_decision(is_or, second, &end, Ghost(start), Ghost(out));
        proof {
            out = out + decision_lines(is_or, second_text, end@);
        }
        match self.generate_expr(scope, *rhs) {
            Err(e) => {
                return Err(e);
            },
            Ok(_) => {},
        }
        let ghost right_lines = expr_code(rhs_view, scope@, n1)->Ok_0.0;
        proof {
            lemma_append_lines(start, out, right_lines);
            out = out + right_lines;
        }
        let ghost end_text = end@;
        self.emit_join(end, Ghost(start), Ghost(out));
        proof {
            out = out + join_lines(end_text);
        }
        assert(out =~= short_circuit_lines(
            op,
            left_lines,
            right_lines,
            label_name(n0),
            label_name(n0 + 1),
        ));
        Ok(())
    }

    /// An assignment to a variable, whose value stays in `%rax`.
    fn generate_assign(&mut self, scope: &Scope, expr: Expression) -> (r: Result<(), CodegenError>)
        requires
            expr@ matches ExprV::Binary(_, op, _) && op == BinaryOperator::Assign,
        ensures
            match r {
                Ok(_) => expr_code(expr@, scope@, old(self).labels()) matches Ok((lines, n))
                    && final(self).text() == old(self).text() + lines_text(lines) && final(self).labels()
                    == n,
                Err(e) => expr_code(expr@, scope@, old(self).labels()) == Err::<(Lines, nat), GenError>(
                    e@,
                ),
            },
        decreases expr, 0int,
    {
        let ghost start = self.text();
        let ghost mut out: Lines = seq![];
        assert(start + lines_text(out) =~= start);
        let (lhs, op, rhs) = match expr {
            Expression::BinaryOperation(lhs, op, rhs) => (lhs, op, rhs),
            // Not reached: the caller passes a binary operation.
            _ => {
                return Err(CodegenError::InvalidAssignment);
            },
        };
        let ghost lhs_view = (*lhs)@;
        let ghost rhs_view = (*rhs)@;
        let name = match *lhs {
            Expression::Variable(name) => name,
            _ => {
                return Err(CodegenError::InvalidAssignment);
            },
        };
        let ghost n0 = self.labels();
        match self.generate_expr(scope, *rhs) {
            Err(e) => {
                return Err(e);
            },
            Ok(_) => {},
        }
        let ghost right_lines = expr_code(rhs_view, scope@, n0)->Ok_0.0;
        proof {
            lemma_append_lines(start, out, right_lines);
            out = out + right_lines;
        }
        let offset = match scope.get_symbol(name.as_str()) {
            Some(offset) => offset,
            None => {
                return Err(CodegenError::UndeclaredSymbol(name));
            },
        };
        let line = int_line("movl %eax, ", offset, "(%rbp)");
        self.emit(line.as_str(), Ghost(start), Ghost(out));
        proof {
            out = out.push(line@);
        }
        assert(out =~= right_lines.push(store_line(offset as int)));
        Ok(())
    }

    /// Arithmetic and comparison: right operand first, then left, then the operator.
    fn generate_arith(&mut self, scope: &Scope, expr: Expression) -> (r: Result<(), CodegenError>)
        requires
            expr@ matches ExprV::Binary(_, op, _) && !is_short_circuit(op) && op != BinaryOperator::Assign,
        ensures
            match r {
                Ok(_) => expr_code(expr@, scope@, old(self).labels()) matches Ok((lines, n))
                    && final(self).text() == old(self).text() + lines_text(lines) && final(self).labels()
                    == n,
                Err(e) => expr_code(expr@, scope@, old(self).labels()) == Err::<(Lines, nat), GenError>(
                    e@,
                ),
            },
        decreases expr, 0int,
    {
        let ghost start = self.text();
        let ghost mut out: Lines = seq![];
        assert(start + lines_text(out) =~= start);
        let (lhs, op, rhs) = match expr {
            Expression::BinaryOperation(lhs, op, rhs) => (lhs, op, rhs),
            // Not reached: the caller passes a binary operation.
            _ => {
                return Err(CodegenError::InvalidAssignment);
            },
        };
        let ghost lhs_view = (*lhs)@;
        let ghost rhs_view = (*rhs)@;
        let ghost n0 = self.labels();
        match self.generate_expr(scope, *rhs) {
            Err(e) => {
                return Err(e);
            },
            Ok(_) => {},
        }
        let ghost right_lines = expr_code(rhs_view, scope@, n0)->Ok_0.0;
        let ghost n1 = expr_code(rhs_view, scope@, n0)->Ok_0.1;
        proof {
            lemma_append_lines(start, out, right_lines);
            out = out + right_lines;
        }
        self.emit("push %rax", Ghost(start), Ghost(out));
        proof {
            out = out.push("push %rax"@);
        }
        match self.generate_expr(scope, *lhs) {
            Err(e) => {
                return Err(e);
            },
            Ok(_) => {},
        }
        let ghost left_lines = expr_code(lhs_view, scope@, n1)->Ok_0.0;
        proof {
            lemma_append_lines(start, out, left_lines);
            out = out + left_lines;
        }
        self.emit("pop %rcx", Ghost(start), Ghost(out));
        proof {
            out = out.push("pop %rcx"@);
        }
        let ghost before_op = out;
        self.emit_operator(op, Ghost(start), Ghost(out));
        proof {
            out = out + arith_lines(op);
        }
        assert(out =~= right_lines + seq!["push %rax"@] + left_lines + seq![
            "pop %rcx"@,
        ] + arith_lines(op));
        Ok(())
    }

    /// Emits the lines between the two operands of `||` (`or_op`) or `&&`.
    fn emit_decision(
        &mut self,
        or_op: bool,
        second: String,
        end: &String,
        Ghost(start): Ghost<Seq<char>>,
        Ghost(out): Ghost<Lines>,
    )
        requires
            old(self).text() == start + lines_text(out),
        ensures
            final(self).text() == start + lines_text(out + decision_lines(or_op, second@, end@)),
            final(self).labels() == old(self).labels(),
    {
        let ghost mut acc = out;
        self.emit("cmp $0, %rax", Ghost(start), Ghost(acc));
        proof {
            acc = acc.push("cmp $0, %rax"@);
        }
        let branch = if or_op {
            joined("je ", second.as_str())
        } else {
            joined("jne ", second.as_str())
        };
        self.emit(branch.as_str(), Ghost(start), Ghost(acc));
        proof {
            acc = acc.push(branch@);
        }
        let decided = if or_op {
            "mov $1, %rax"
        } else {
            "mov $0, %rax"
        };
        self.emit(decided, Ghost(start), Ghost(acc));
        proof {
            acc = acc.push(decided@);
        }
        let jump = joined("jmp ", end.as_str());
        self.emit(jump.as_str(), Ghost(start), Ghost(acc));
        proof {
            acc = acc.push(jump@);
        }
        let ghost second_text = second@;
        self.emit_label(second, Ghost(start), Ghost(acc));
        proof {
            acc = acc.push(label_line(second_text));
        }
        assert(acc =~= out + decision_lines(or_op, second_text, end@));
    }

    /// Emits the lines after the right operand of `||` or `&&`.
    fn emit_join(&mut self, end: String, Ghost(start): Ghost<Seq<char>>, Ghost(out): Ghost<Lines>)
        requires
            old(self).text() == start + lines_text(out),
        ensures
            final(self).text() == start + lines_text(out + join_lines(end@)),
            final(self).labels() == old(self).labels(),
    {
        let ghost mut acc = out;
        self.emit("cmp $0, %rax", Ghost(start), Ghost(acc));
        proof {
            acc = acc.push("cmp $0, %rax"@);
        }
        self.emit("mov $0, %rax", Ghost(start), Ghost(acc));
        proof {
            acc = acc.push("mov $0, %rax"@);
        }
        self.emit("setne %al", Ghost(start), Ghost(acc));
        proof {
            acc = acc.push("setne %al"@);
        }
        let ghost end_text = end@;
        self.emit_label(end, Ghost(start), Ghost(acc));
        proof {
            acc = acc.push(label_line(end_text));
        }
        assert(acc =~= out + join_lines(end_text));
    }

    fn generate_stmt(&mut self, scope: &mut Scope, stmt: Statement) -> (r: Result<(), CodegenError>)
        ensures
            match r {
                Ok(_) => stmt_code(stmt@, old(scope)@, old(self).labels()) matches Ok((lines, sc, n))
                    && final(self).text() == old(self).text() + lines_text(lines) && final(scope)@ == sc
                    && final(self).labels() == n,
                Err(e) => stmt_code(stmt@, old(scope)@, old(self).labels()) == Err::<
                    (Lines, ScopeV, nat),
                    GenError,
                >(e@),
            },
    {
        let ghost start = self.text();
        let ghost scope0 = scope@;
        let ghost n0 = self.labels();
        let ghost mut out: Lines = seq![];
        assert(start + lines_text(out) =~= start);
        match stmt {
            Statement::Return(expr) => {
                let ghost e = expr@;
                match self.generate_expr(scope, expr) {
                    Err(err) => {
                        return Err(err);
                    },
                    Ok(_) => {},
                }
                proof {
                    out = expr_code(e, scope0, n0)->Ok_0.0;
                }
                self.emit("mov %rbp, %rsp", Ghost(start), Ghost(out));
                proof {
                    out = out.push("mov %rbp, %rsp"@);
                }
                self.emit("pop %rbp", Ghost(start), Ghost(out));
                proof {
                    out = out.push("pop %rbp"@);
                }
                self.emit("ret", Ghost(start), Ghost(out));
                proof {
                    out = out.push("ret"@);
                }
                assert(out =~= expr_code(e, scope0, n0)->Ok_0.0 + return_lines());
                Ok(())
            },
            Statement::Declare(name, None) => {
                self.emit("sub $4, %rsp", Ghost(start), Ghost(out));
                proof {
                    out = out.push("sub $4, %rsp"@);
                }
                match scope.add_symbol(name) {
                    Err(err) => {
                        return Err(err);
                    },
                    Ok(_) => {},
                }
                assert(out =~= seq!["sub $4, %rsp"@]);
                Ok(())
            },
            Statement::Declare(name, Some(expr)) => {
                let ghost e = expr@;
                let offset = scope.stack_index;
                match scope.add_symbol(name) {
                    Err(err) => {
                        return Err(err);
                    },
                    Ok(_) => {},
                }
                let ghost scope1 = scope@;
                match self.generate_expr(scope, expr) {
                    Err(err) => {
                        return Err(err);
                    },
                    Ok(_) => {},
                }
                proof {
                    out = expr_code(e, scope1, n0)->Ok_0.0;
                }
                self.emit("sub $4, %rsp", Ghost(start), Ghost(out));
                proof {
                    out = out.push("sub $4, %rsp"@);
                }
                let line = int_line("movl %eax, ", offset, "(%rbp)");
                self.emit(line.as_str(), Ghost(start), Ghost(out));
                proof {
                    out = out.push(line@);
                }
                assert(out =~= expr_code(e, scope1, n0)->Ok_0.0 + seq![
                    "sub $4, %rsp"@,
                    store_line(offset as int),
                ]);
                Ok(())
            },
            Statement::Expression(expr) => self.generate_expr(scope, expr),
        }
    }

    /// One function: header and prologue, its statements in a fresh scope under `parent`,
    /// then the epilogue that returns zero.
    fn generate_func_decl(&mut self, parent: Scope, func_decl: FunctionDeclaration) -> (r: Result<
        (),
        CodegenError,
    >)
        requires
            parent@ == child_scope(None),
        ensures
            match r {
                Ok(_) => function_code(func_decl@, old(self).labels()) matches Ok((lines, n))
                    && final(self).text() == old(self).text() + lines_text(lines) && final(self).labels()
                    == n,
                Err(e) => function_code(func_decl@, old(self).labels()) == Err::<(Lines, nat), GenError>(
                    e@,
                ),
            },
    {
        let ghost start = self.text();
        let ghost n0 = self.labels();
        let ghost f = func_decl@;
        let ghost mut out: Lines = seq![];
        assert(start + lines_text(out) =~= start);
        let mut scope = Scope::from_parent(parent);
        let name = func_decl.name;
        let body = func_decl.body;
        let globl = joined(".globl ", name.as_str());
        self.emit(globl.as_str(), Ghost(start), Ghost(out));
        proof {
            out = out.push(globl@);
        }
        let entry = joined(name.as_str(), ":");
        proof {
            reveal_strlit(":");
            assert(":"@ =~= seq![':']);
            assert(entry@ =~= f.name + seq![':']);
        }
        self.emit(entry.as_str(), Ghost(start), Ghost(out));
        proof {
            out = out.push(entry@);
        }
        self.emit("push %rbp", Ghost(start), Ghost(out));
        proof {
            out = out.push("push %rbp"@);
        }
        self.emit("mov %rsp, %rbp", Ghost(start), Ghost(out));
        proof {
            out = out.push("mov %rsp, %rbp"@);
        }
        let ghost header = out;
        assert(header =~= function_header(f.name));
        let ghost stmts = f.body;
        assert(body_code(stmts.take(0), function_scope(), n0) == Ok::<(Lines, ScopeV, nat), GenError>(
            (seq![], function_scope(), n0),
        )) by {
            assert(stmts.take(0) =~= Seq::<StmtV>::empty());
        }
        assert(header + Seq::<Seq<char>>::empty() =~= header);
        for stmt in it: body
            invariant
                stmts == statements_view(it.seq()),
                stmts == f.body,
                f == func_decl@,
                n0 == old(self).labels(),
                start == old(self).text(),
                body_code(stmts.take(it.index() as int), function_scope(), n0) matches Ok(
                    (lines, sc, n),
                ) && self.text() == start + lines_text(header + lines) && scope@ == sc
                    && self.labels() == n,
        {
            let ghost i = it.index() as int;
            let ghost prev = body_code(stmts.take(i), function_scope(), n0)->Ok_0;
            let ghost sv = stmt@;
            match self.generate_stmt(&mut scope, stmt) {
                Err(err) => {
                    assert(stmts.take(i + 1).drop_last() =~= stmts.take(i));
                    proof {
                        lemma_body_code_failure(stmts, function_scope(), n0, i + 1);
                    }
                    return Err(err);
                },
                Ok(_) => {},
            }
            proof {
                assert(stmts.take(i + 1).drop_last() =~= stmts.take(i));
                let more = stmt_code(sv, prev.1, prev.2)->Ok_0.0;
                lemma_append_lines(start, header + prev.0, more);
                assert(header + prev.0 + more =~= header + (prev.0 + more));
            }
        }
        assert(stmts.take(stmts.len() as int) =~= stmts);
        let ghost body_lines = body_code(stmts, function_scope(), n0)->Ok_0.0;
        proof {
            out = header + body_lines;
        }
        self.emit("xor %rax, %rax", Ghost(start), Ghost(out));
        proof {
            out = out.push("xor %rax, %rax"@);
        }
        self.emit("mov %rbp, %rsp", Ghost(start), Ghost(out));
        proof {
            out = out.push("mov %rbp, %rsp"@);
        }
        self.emit("pop %rbp", Ghost(start), Ghost(out));
        proof {
            out = out.push("pop %rbp"@);
        }
        self.emit("ret", Ghost(start), Ghost(out));
        proof {
            out = out.push("ret"@);
        }
        assert(out =~= function_header(f.name) + body_lines + fall_through_lines());
        Ok(())
    }

    /// Appends the assembly of every function of `program`, in order. Fails, with nothing
    /// promised of the text, on an invalid assignment, an undeclared or redeclared variable,
    /// or a frame or label counter out of range.
    pub fn generate(&mut self, program: Program) -> (r: Result<(), CodegenError>)
        ensures
            match r {
                Ok(_) => program_code(program@, old(self).labels()) matches Ok((lines, n))
                    && final(self).text() == old(self).text() + lines_text(lines) && final(self).labels()
                    == n,
                Err(e) => program_code(program@, old(self).labels()) == Err::<(Lines, nat), GenError>(
                    e@,
                ),
            },
    {
        let ghost start = self.text();
        let ghost n0 = self.labels();
        let ghost fs = program@;
        assert(program_code(fs.take(0), n0) == Ok::<(Lines, nat), GenError>((seq![], n0))) by {
            assert(fs.take(0) =~= Seq::<FunctionV>::empty());
        }
        assert(start + lines_text(Seq::<Seq<char>>::empty()) =~= start);
        for func_decl in it: program.declarations
            invariant
                fs == functions_view(it.seq()),
                fs == program@,
                n0 == old(self).labels(),
                start == old(self).text(),
                program_code(fs.take(it.index() as int), n0) matches Ok((lines, n)) && self.text()
                    == start + lines_text(lines) && self.labels() == n,
        {
            let ghost i = it.index() as int;
            let ghost prev = program_code(fs.take(i), n0)->Ok_0;
            let ghost fv = func_decl@;
            match self.generate_func_decl(Scope::new(), func_decl) {
                Err(err) => {
                    assert(fs.take(i + 1).drop_last() =~= fs.take(i));
                    proof {
                        lemma_program_code_failure(fs, n0, i + 1);
                    }
                    return Err(err);
                },
                Ok(_) => {},
            }
            proof {
                assert(fs.take(i + 1).drop_last() =~= fs.take(i));
                lemma_append_lines(start, prev.0, function_code(fv, prev.1)->Ok_0.0);
            }
        }
        assert(fs.take(fs.len() as int) =~= fs);
        Ok(())
    }

    /// Emits what an arithmetic or comparison operator applies to `%rax` and `%rcx`.
    fn emit_operator(&mut self, op: BinaryOperator, Ghost(start): Ghost<Seq<char>>, Ghost(out): Ghost<Lines>)
        requires
            old(self).text() == start + lines_text(out),
        ensures
            final(self).text() == start + lines_text(out + arith_lines(op)),
            final(self).labels() == old(self).labels(),
    {
        let ghost mut acc = out;
        let set = match op {
            BinaryOperator::Plus => {
                self.emit("add %rcx, %rax", Ghost(start), Ghost(acc));
                proof {
                    acc = acc.push("add %rcx, %rax"@);
                }
                assert(acc =~= out + arith_lines(op));
                return ;
            },
            BinaryOperator::Minus => {
                self.emit("sub %rcx, %rax", Ghost(start), Ghost(acc));
                proof {
                    acc = acc.push("sub %rcx, %rax"@);
                }
                assert(acc =~= out + arith_lines(op));
                return ;
            },
            BinaryOperator::Times => {
                self.emit("imul %rcx, %rax", Ghost(start), Ghost(acc));
                proof {
                    acc = acc.push("imul %rcx, %rax"@);
                }
                assert(acc =~= out + arith_lines(op));
                return ;
            },
            BinaryOperator::Divide => {
                self.emit("cqo", Ghost(start), Ghost(acc));
                proof {
                    acc = acc.push("cqo"@);
                }
                self.emit("idiv %rcx", Ghost(start), Ghost(acc));
                proof {
                    acc = acc.push("idiv %rcx"@);
                }
                assert(acc =~= out + arith_lines(op));
                return ;
            },
            BinaryOperator::EQ => "sete %al",
            BinaryOperator::NEQ => "setne %al",
            BinaryOperator::LT => "setl %al",
            BinaryOperator::GT => "setg %al",
            BinaryOperator::LE => "setle %al",
            BinaryOperator::GE => "setge %al",
            _ => {
                assert(out + arith_lines(op) =~= out);
                return ;
            },
        };
        self.emit("cmp %rcx, %rax", Ghost(start), Ghost(acc));
        proof {
            acc = acc.push("cmp %rcx, %rax"@);
        }
        self.emit("mov $0, %rax", Ghost(start), Ghost(acc));
        proof {
            acc = acc.push("mov $0, %rax"@);
        }
        self.emit(set, Ghost(start), Ghost(acc));
        proof {
            acc = acc.push(set@);
        }
        assert(acc =~= out + arith_lines(op));
    }
}

} // verus!
