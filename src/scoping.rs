//! Facts about declarations and the scope chain during code generation.
use vstd::prelude::*;

use crate::ast::StmtV;
use crate::codegen::{
    body_code, child_scope, declare, lookup, local_offset, stmt_code, GenError, ScopeV,
};

verus! {

/// The name a statement declares, if it is a declaration.
pub open spec fn declared_name(s: StmtV) -> Option<Seq<char>> {
    match s {
        StmtV::Declare(name, _) => Some(name),
        _ => None,
    }
}

proof fn lemma_local_offset_push(syms: Seq<(Seq<char>, i64)>, entry: (Seq<char>, i64), x: Seq<char>)
    ensures
        local_offset(syms.push(entry), x) is Some <==> (local_offset(syms, x) is Some || entry.0 == x),
    decreases syms.len(),
{
    if syms.len() > 0 {
        assert(syms.push(entry).drop_first() =~= syms.drop_first().push(entry));
        lemma_local_offset_push(syms.drop_first(), entry, x);
    } else {
        assert(syms.push(entry).drop_first() =~= Seq::<(Seq<char>, i64)>::empty());
        assert(local_offset(Seq::<(Seq<char>, i64)>::empty(), x) is None);
    }
}

/// After a declaration the chain holds exactly what it held before and the new name.
proof fn lemma_declare_holds(sc: ScopeV, name: Seq<char>, x: Seq<char>)
    requires
        declare(sc, name) is Ok,
    ensures
        lookup(declare(sc, name)->Ok_0, x) is Some <==> (lookup(sc, x) is Some || x == name),
{
    lemma_local_offset_push(sc.symbols, (name, sc.stack_index), x);
}

/// Declaring a name that the scope chain already holds is an error.
pub proof fn lemma_redeclaration_fails(sc: ScopeV, name: Seq<char>)
    requires
        lookup(sc, name) is Some,
    ensures
        declare(sc, name) == Err::<ScopeV, GenError>(GenError::DuplicateSymbol(name)),
{
}

/// A statement that generates keeps every name of the chain and adds the one it declares.
proof fn lemma_statement_scope(s: StmtV, sc: ScopeV, next: nat, x: Seq<char>)
    requires
        stmt_code(s, sc, next) is Ok,
    ensures
        lookup(stmt_code(s, sc, next)->Ok_0.1, x) is Some <==> (lookup(sc, x) is Some
            || declared_name(s) == Some(x)),
        declared_name(s) matches Some(name) ==> lookup(sc, name) is None,
{
    if let StmtV::Declare(name, _) = s {
        lemma_declare_holds(sc, name, x);
    }
}

/// When a run of statements generates without error, each name it declares was free in the
/// scope chain at its declaration: no two declarations share a name, and none takes a name
/// that the starting chain holds. After the run the chain holds the declared names.
pub proof fn lemma_declarations_unique(ss: Seq<StmtV>, sc: ScopeV, next: nat)
    requires
        body_code(ss, sc, next) is Ok,
    ensures
        forall|i: int, j: int|
            0 <= i < j < ss.len() && #[trigger] declared_name(ss[i]) is Some ==> declared_name(ss[i])
                != #[trigger] declared_name(ss[j]),
        forall|i: int|
            0 <= i < ss.len() && #[trigger] declared_name(ss[i]) is Some ==> lookup(
                sc,
                declared_name(ss[i])->0,
            ) is None,
        forall|i: int|
            0 <= i < ss.len() && #[trigger] declared_name(ss[i]) is Some ==> lookup(
                body_code(ss, sc, next)->Ok_0.1,
                declared_name(ss[i])->0,
            ) is Some,
        forall|x: Seq<char>|
            #[trigger] lookup(sc, x) is Some ==> lookup(body_code(ss, sc, next)->Ok_0.1, x) is Some,
    decreases ss.len(),
{
    if ss.len() > 0 {
        let init = ss.drop_last();
        lemma_declarations_unique(init, sc, next);
        let (lines, sc1, n1) = body_code(init, sc, next)->Ok_0;
        let last = ss.last();
        let sc2 = stmt_code(last, sc1, n1)->Ok_0.1;
        assert(body_code(ss, sc, next)->Ok_0.1 == sc2);
        assert forall|x: Seq<char>| #[trigger] lookup(sc, x) is Some implies lookup(sc2, x) is Some by {
            lemma_statement_scope(last, sc1, n1, x);
        }
        assert forall|i: int|
            0 <= i < ss.len() && #[trigger] declared_name(ss[i]) is Some implies lookup(
                sc2,
                declared_name(ss[i])->0,
            ) is Some by {
            lemma_statement_scope(last, sc1, n1, declared_name(ss[i])->0);
            if i < ss.len() - 1 {
                assert(ss[i] == init[i]);
            }
        }
        assert forall|i: int|
            0 <= i < ss.len() && #[trigger] declared_name(ss[i]) is Some implies lookup(
                sc,
                declared_name(ss[i])->0,
            ) is None by {
            if i < ss.len() - 1 {
                assert(ss[i] == init[i]);
            } else {
                lemma_statement_scope(last, sc1, n1, declared_name(ss[i])->0);
                if lookup(sc, declared_name(ss[i])->0) is Some {
                    assert(lookup(sc1, declared_name(ss[i])->0) is Some);
                }
            }
        }
        assert forall|i: int, j: int|
            0 <= i < j < ss.len() && #[trigger] declared_name(ss[i]) is Some implies declared_name(
                ss[i],
            ) != #[trigger] declared_name(ss[j]) by {
            assert(ss[i] == init[i]);
            if j < ss.len() - 1 {
                assert(ss[j] == init[j]);
            } else {
                lemma_statement_scope(last, sc1, n1, declared_name(ss[i])->0);
                assert(lookup(sc1, declared_name(ss[i])->0) is Some);
            }
        }
    }
}

/// The innermost frame is in order: the next free offset is a negative multiple of four,
/// and the offsets of its symbols, in declaration order, are strictly decreasing negative
/// multiples of four above it.
pub open spec fn frame_ordered(sc: ScopeV) -> bool {
    &&& sc.stack_index < 0
    &&& sc.stack_index % 4 == 0
    &&& forall|i: int|
        0 <= i < sc.symbols.len() ==> {
            let offset = #[trigger] sc.symbols[i].1;
            offset < 0 && offset % 4 == 0 && offset > sc.stack_index
        }
    &&& forall|i: int, j: int|
        0 <= i < j < sc.symbols.len() ==> #[trigger] sc.symbols[i].1 > #[trigger] sc.symbols[j].1
}

/// A fresh scope is in order, and declaring keeps it so.
pub proof fn lemma_frame_stays_ordered(sc: ScopeV, name: Seq<char>, parent: Option<Box<ScopeV>>)
    ensures
        frame_ordered(child_scope(parent)),
        frame_ordered(sc) && declare(sc, name) is Ok ==> frame_ordered(declare(sc, name)->Ok_0),
{
    if frame_ordered(sc) && declare(sc, name) is Ok {
        let next = declare(sc, name)->Ok_0;
        assert forall|i: int| 0 <= i < next.symbols.len() implies {
            let offset = #[trigger] next.symbols[i].1;
            offset < 0 && offset % 4 == 0 && offset > next.stack_index
        } by {
            if i < sc.symbols.len() {
                assert(next.symbols[i] == sc.symbols[i]);
            }
        }
        assert forall|i: int, j: int| 0 <= i < j < next.symbols.len() implies #[trigger] next.symbols[i].1
            > #[trigger] next.symbols[j].1 by {
            assert(next.symbols[i] == sc.symbols[i]);
            if j < sc.symbols.len() {
                assert(next.symbols[j] == sc.symbols[j]);
            }
        }
    }
}

/// Generating a run of statements keeps the innermost frame in order.
pub proof fn lemma_body_keeps_frame_ordered(ss: Seq<StmtV>, sc: ScopeV, next: nat)
    requires
        frame_ordered(sc),
        body_code(ss, sc, next) is Ok,
    ensures
        frame_ordered(body_code(ss, sc, next)->Ok_0.1),
    decreases ss.len(),
{
    if ss.len() > 0 {
        let (lines, sc1, n1) = body_code(ss.drop_last(), sc, next)->Ok_0;
        lemma_body_keeps_frame_ordered(ss.drop_last(), sc, next);
        if let StmtV::Declare(name, _) = ss.last() {
            lemma_frame_stays_ordered(sc1, name, None);
        }
    }
}

/// No two symbols of the innermost frame share a name.
pub open spec fn frame_names_unique(sc: ScopeV) -> bool {
    forall|i: int, j: int|
        0 <= i < j < sc.symbols.len() ==> #[trigger] sc.symbols[i].0 != #[trigger] sc.symbols[j].0
}

/// A name that a frame's first-match lookup does not find is the name of none of its entries.
proof fn lemma_local_offset_absent(syms: Seq<(Seq<char>, i64)>, name: Seq<char>)
    requires
        local_offset(syms, name) is None,
    ensures
        forall|i: int| 0 <= i < syms.len() ==> #[trigger] syms[i].0 != name,
    decreases syms.len(),
{
    if syms.len() > 0 {
        lemma_local_offset_absent(syms.drop_first(), name);
        assert forall|i: int| 0 <= i < syms.len() implies #[trigger] syms[i].0 != name by {
            if i > 0 {
                assert(syms[i] == syms.drop_first()[i - 1]);
            }
        }
    }
}

/// A fresh scope has unique names, and declaring keeps them unique.
pub proof fn lemma_frame_names_stay_unique(sc: ScopeV, name: Seq<char>, parent: Option<Box<ScopeV>>)
    ensures
        frame_names_unique(child_scope(parent)),
        frame_names_unique(sc) && declare(sc, name) is Ok ==> frame_names_unique(
            declare(sc, name)->Ok_0,
        ),
{
    if frame_names_unique(sc) && declare(sc, name) is Ok {
        let next = declare(sc, name)->Ok_0;
        lemma_local_offset_absent(sc.symbols, name);
        assert forall|i: int, j: int| 0 <= i < j < next.symbols.len() implies #[trigger] next.symbols[i].0
            != #[trigger] next.symbols[j].0 by {
            assert(next.symbols[i] == sc.symbols[i]);
            if j < sc.symbols.len() {
                assert(next.symbols[j] == sc.symbols[j]);
            }
        }
    }
}

} // verus!
