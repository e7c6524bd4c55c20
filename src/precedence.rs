//! How the grammar groups operators: by binding strength, to the left within a level, and
//! assignment to the right.
use vstd::prelude::*;

use crate::ast::{BinaryOperator, ExprV};
use crate::lexer::TokenV;
use crate::parser::{
    binary_operator_of, constant_value, precedence, spec_binary, spec_binary_rest, spec_expr,
    spec_factor, spec_operand, ParseError,
};

verus! {

/// A token that is a whole factor by itself: an identifier, or a constant that fits `i32`.
pub open spec fn is_atom(t: TokenV) -> bool {
    match t {
        TokenV::Identifier(_) => true,
        TokenV::Constant(d) => constant_value(d) is Some,
        _ => false,
    }
}

/// The expression of an atom.
pub open spec fn atom_expr(t: TokenV) -> ExprV {
    match t {
        TokenV::Identifier(name) => ExprV::Variable(name),
        TokenV::Constant(d) => ExprV::Int(constant_value(d)->0),
        _ => ExprV::Int(0),
    }
}

/// The binary operator of a token that stands for one.
pub open spec fn operator_of(t: TokenV) -> BinaryOperator {
    binary_operator_of(t)->0
}

pub open spec fn binary(l: ExprV, op: BinaryOperator, r: ExprV) -> ExprV {
    ExprV::Binary(Box::new(l), op, Box::new(r))
}

/// Parsing at level `level` stops before position `q`: the tokens end there, or the token
/// there is no operator of that level or a tighter one.
pub open spec fn stops_before(t: Seq<TokenV>, q: nat, level: nat) -> bool {
    q >= t.len() || binary_operator_of(t[q as int]) is None || precedence(
        operator_of(t[q as int]),
    ) < level
}

/// An atom followed by a stop parses alone at every level from `level` to the tightest.
proof fn lemma_atom_alone(t: Seq<TokenV>, p: nat, level: nat)
    requires
        p < t.len(),
        is_atom(t[p as int]),
        1 <= level <= 6,
        stops_before(t, p + 1, level),
    ensures
        spec_operand(t, p, level) == Ok::<(ExprV, nat), ParseError>((atom_expr(t[p as int]), 1)),
        spec_binary(t, p, level) == Ok::<(ExprV, nat), ParseError>((atom_expr(t[p as int]), 1)),
    decreases 6 - level,
{
    assert(spec_factor(t, p) == Ok::<(ExprV, nat), ParseError>((atom_expr(t[p as int]), 1)));
    if level < 6 {
        lemma_atom_alone(t, p, level + 1);
    }
    assert(spec_binary_rest(t, atom_expr(t[p as int]), p + 1, level) == Ok::<
        (ExprV, nat),
        ParseError,
    >((atom_expr(t[p as int]), 0)));
}

/// `b hi c`, followed by the end of the tokens, parses as one group at every level from
/// `level` up to that of `hi`.
proof fn lemma_tight_group(t: Seq<TokenV>, p: nat, level: nat)
    requires
        t.len() == p + 3,
        is_atom(t[p as int]),
        binary_operator_of(t[p + 1int]) is Some,
        is_atom(t[p + 2int]),
        1 <= level <= precedence(operator_of(t[p + 1int])),
    ensures
        spec_binary(t, p, level) == Ok::<(ExprV, nat), ParseError>(
            (
                binary(atom_expr(t[p as int]), operator_of(t[p + 1int]), atom_expr(t[p + 2int])),
                3,
            ),
        ),
        level < precedence(operator_of(t[p + 1int])) ==> spec_operand(t, p, level) == Ok::<
            (ExprV, nat),
            ParseError,
        >(
            (
                binary(atom_expr(t[p as int]), operator_of(t[p + 1int]), atom_expr(t[p + 2int])),
                3,
            ),
        ),
    decreases precedence(operator_of(t[p + 1int])) - level,
{
    let j = precedence(operator_of(t[p + 1int]));
    let group = binary(atom_expr(t[p as int]), operator_of(t[p + 1int]), atom_expr(t[p + 2int]));
    assert(spec_binary_rest(t, group, p + 3, level) == Ok::<(ExprV, nat), ParseError>((group, 0)));
    if level == j {
        if level < 6 {
            lemma_atom_alone(t, p, level + 1);
            lemma_atom_alone(t, p + 2, level + 1);
        }
        assert(spec_operand(t, p, level) == Ok::<(ExprV, nat), ParseError>(
            (atom_expr(t[p as int]), 1),
        ));
        assert(spec_operand(t, p + 2, level) == Ok::<(ExprV, nat), ParseError>(
            (atom_expr(t[p + 2int]), 1),
        ));
        assert(spec_binary_rest(t, atom_expr(t[p as int]), p + 1, level) == Ok::<
            (ExprV, nat),
            ParseError,
        >((group, 2)));
    } else {
        lemma_tight_group(t, p, level + 1);
        assert(spec_operand(t, p, level) == Ok::<(ExprV, nat), ParseError>((group, 3)));
    }
}

/// `a lo b hi c` with `hi` binding tighter than `lo`, not assignment: at the levels from
/// `level` up to that of `lo`, it parses as `a lo (b hi c)`.
proof fn lemma_loose_then_tight(t: Seq<TokenV>, level: nat)
    requires
        t.len() == 5,
        is_atom(t[0]),
        is_atom(t[2]),
        is_atom(t[4]),
        binary_operator_of(t[1]) is Some,
        binary_operator_of(t[3]) is Some,
        1 <= level <= precedence(operator_of(t[1])),
        precedence(operator_of(t[1])) < precedence(operator_of(t[3])),
    ensures
        spec_binary(t, 0, level) == Ok::<(ExprV, nat), ParseError>(
            (
                binary(
                    atom_expr(t[0]),
                    operator_of(t[1]),
                    binary(atom_expr(t[2]), operator_of(t[3]), atom_expr(t[4])),
                ),
                5,
            ),
        ),
    decreases precedence(operator_of(t[1])) - level,
{
    let i = precedence(operator_of(t[1]));
    let right = binary(atom_expr(t[2]), operator_of(t[3]), atom_expr(t[4]));
    let whole = binary(atom_expr(t[0]), operator_of(t[1]), right);
    assert(spec_binary_rest(t, whole, 5, level) == Ok::<(ExprV, nat), ParseError>((whole, 0)));
    if level == i {
        lemma_atom_alone(t, 0, level + 1);
        lemma_tight_group(t, 2, level + 1);
        assert(spec_operand(t, 0, level) == Ok::<(ExprV, nat), ParseError>((atom_expr(t[0]), 1)));
        assert(spec_operand(t, 2, level) == Ok::<(ExprV, nat), ParseError>((right, 3)));
        assert(spec_binary_rest(t, atom_expr(t[0]), 1, level) == Ok::<(ExprV, nat), ParseError>(
            (whole, 4),
        ));
    } else {
        lemma_loose_then_tight(t, level + 1);
        assert(spec_operand(t, 0, level) == Ok::<(ExprV, nat), ParseError>((whole, 5)));
    }
}

/// An operator that binds tighter groups first: for atoms `a`, `b`, `c` and operators `lo`
/// and `hi` where `hi` binds tighter, `a lo b hi c` parses as `a lo (b hi c)`.
pub proof fn lemma_tighter_operator_groups_first(a: TokenV, lo: TokenV, b: TokenV, hi: TokenV, c: TokenV)
    requires
        is_atom(a),
        is_atom(b),
        is_atom(c),
        binary_operator_of(lo) is Some,
        binary_operator_of(hi) is Some,
        precedence(operator_of(lo)) < precedence(operator_of(hi)),
    ensures
        spec_expr(seq![a, lo, b, hi, c], 0) == Ok::<(ExprV, nat), ParseError>(
            (binary(atom_expr(a), operator_of(lo), binary(atom_expr(b), operator_of(hi), atom_expr(c))), 5),
        ),
{
    let t = seq![a, lo, b, hi, c];
    let whole = binary(atom_expr(a), operator_of(lo), binary(atom_expr(b), operator_of(hi), atom_expr(c)));
    if precedence(operator_of(lo)) == 0 {
        lemma_atom_alone(t, 0, 1);
        lemma_tight_group(t, 2, 1);
        assert(spec_expr(t, 2) == Ok::<(ExprV, nat), ParseError>(
            (binary(atom_expr(b), operator_of(hi), atom_expr(c)), 3),
        ));
        assert(operator_of(lo) == BinaryOperator::Assign);
    } else {
        lemma_loose_then_tight(t, 1);
    }
}

/// `a op1 b op2 c` with both operators of one level, not assignment: at the levels from
/// `level` up to theirs, it parses as `(a op1 b) op2 c`.
proof fn lemma_same_level(t: Seq<TokenV>, level: nat)
    requires
        t.len() == 5,
        is_atom(t[0]),
        is_atom(t[2]),
        is_atom(t[4]),
        binary_operator_of(t[1]) is Some,
        binary_operator_of(t[3]) is Some,
        1 <= level <= precedence(operator_of(t[1])),
        precedence(operator_of(t[1])) == precedence(operator_of(t[3])),
    ensures
        spec_binary(t, 0, level) == Ok::<(ExprV, nat), ParseError>(
            (
                binary(
                    binary(atom_expr(t[0]), operator_of(t[1]), atom_expr(t[2])),
                    operator_of(t[3]),
                    atom_expr(t[4]),
                ),
                5,
            ),
        ),
    decreases precedence(operator_of(t[1])) - level,
{
    let i = precedence(operator_of(t[1]));
    let first = binary(atom_expr(t[0]), operator_of(t[1]), atom_expr(t[2]));
    let whole = binary(first, operator_of(t[3]), atom_expr(t[4]));
    assert(spec_binary_rest(t, whole, 5, level) == Ok::<(ExprV, nat), ParseError>((whole, 0)));
    if level == i {
        if level < 6 {
            lemma_atom_alone(t, 0, level + 1);
            lemma_atom_alone(t, 2, level + 1);
            lemma_atom_alone(t, 4, level + 1);
        }
        assert(spec_operand(t, 0, level) == Ok::<(ExprV, nat), ParseError>((atom_expr(t[0]), 1)));
        assert(spec_operand(t, 2, level) == Ok::<(ExprV, nat), ParseError>((atom_expr(t[2]), 1)));
        assert(spec_operand(t, 4, level) == Ok::<(ExprV, nat), ParseError>((atom_expr(t[4]), 1)));
        assert(spec_binary_rest(t, first, 3, level) == Ok::<(ExprV, nat), ParseError>((whole, 2)));
        assert(spec_binary_rest(t, atom_expr(t[0]), 1, level) == Ok::<(ExprV, nat), ParseError>(
            (whole, 4),
        ));
    } else {
        lemma_same_level(t, level + 1);
        assert(spec_operand(t, 0, level) == Ok::<(ExprV, nat), ParseError>((whole, 5)));
    }
}

/// Operators of one level group to the left: for atoms `a`, `b`, `c` and operators `op1`
/// and `op2` of equal binding strength other than assignment, `a op1 b op2 c` parses as
/// `(a op1 b) op2 c`.
pub proof fn lemma_same_level_groups_left(a: TokenV, op1: TokenV, b: TokenV, op2: TokenV, c: TokenV)
    requires
        is_atom(a),
        is_atom(b),
        is_atom(c),
        binary_operator_of(op1) is Some,
        binary_operator_of(op2) is Some,
        precedence(operator_of(op1)) == precedence(operator_of(op2)),
        operator_of(op1) != BinaryOperator::Assign,
    ensures
        spec_expr(seq![a, op1, b, op2, c], 0) == Ok::<(ExprV, nat), ParseError>(
            (binary(binary(atom_expr(a), operator_of(op1), atom_expr(b)), operator_of(op2), atom_expr(c)), 5),
        ),
{
    let t = seq![a, op1, b, op2, c];
    lemma_same_level(t, 1);
}

/// Assignment groups to the right: for atoms `a`, `b`, `c`, `a = b = c` parses as
/// `a = (b = c)`.
pub proof fn lemma_assignment_groups_right(a: TokenV, b: TokenV, c: TokenV)
    requires
        is_atom(a),
        is_atom(b),
        is_atom(c),
    ensures
        spec_expr(seq![a, TokenV::Assign, b, TokenV::Assign, c], 0) == Ok::<(ExprV, nat), ParseError>(
            (
                binary(
                    atom_expr(a),
                    BinaryOperator::Assign,
                    binary(atom_expr(b), BinaryOperator::Assign, atom_expr(c)),
                ),
                5,
            ),
        ),
{
    let t = seq![a, TokenV::Assign, b, TokenV::Assign, c];
    lemma_atom_alone(t, 0, 1);
    lemma_atom_alone(t, 2, 1);
    lemma_atom_alone(t, 4, 1);
    assert(spec_expr(t, 4) == Ok::<(ExprV, nat), ParseError>((atom_expr(c), 1)));
    assert(spec_expr(t, 2) == Ok::<(ExprV, nat), ParseError>(
        (binary(atom_expr(b), BinaryOperator::Assign, atom_expr(c)), 3),
    ));
}

} // verus!
