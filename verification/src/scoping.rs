//! What holds of names and scopes whatever program runs: blocks keep their
//! declarations to themselves, and a name declared in a block shadows the
//! same name outside without touching it.

use vstd::prelude::*;
use crate::interpret::{
    assign, declare, enter, evaluate_expression, execute, execute_all, leave, lookup, Scope, Value,
};
use crate::number::{Arithmetic, Text};
use crate::parse::{operands, ExpressionTree, Primary, Statement, Unary};

verus! {

/// Two stacks of scopes declare the same names, scope by scope.
pub open spec fn same_names(before: Seq<Scope>, after: Seq<Scope>) -> bool {
    &&& after.len() == before.len()
    &&& forall|i: int| 0 <= i < before.len() ==> (#[trigger] after[i]).dom() =~= before[i].dom()
}

/// The second stack is as deep as the first and declares the same names,
/// but that its innermost scope may declare more.
pub open spec fn same_names_but_innermost(before: Seq<Scope>, after: Seq<Scope>) -> bool {
    &&& after.len() == before.len()
    &&& forall|i: int|
        0 <= i < before.len() - 1 ==> (#[trigger] after[i]).dom() =~= before[i].dom()
    &&& before.len() > 0 ==> before.last().dom().subset_of(after.last().dom())
}

/// Some scope at or above the depth `from` declares `name`.
pub open spec fn declared_from(scopes: Seq<Scope>, from: int, name: Text) -> bool {
    exists|j: int| 0 <= j && from <= j < scopes.len() && (#[trigger] scopes[j]).contains_key(name)
}

/// Below the depth `from`, `name` has the same value in both stacks wherever
/// it is declared.
pub open spec fn same_value_below(
    before: Seq<Scope>,
    after: Seq<Scope>,
    from: int,
    name: Text,
) -> bool {
    forall|i: int|
        0 <= i < from && i < before.len() && i < after.len() && (#[trigger] before[i]).contains_key(
            name,
        ) ==> after[i][name] == before[i][name]
}

/// A name has no value exactly when no scope declares it.
pub proof fn lemma_lookup_none(scopes: Seq<Scope>, name: Text)
    ensures
        lookup(scopes, name) is None <==> forall|i: int|
            0 <= i < scopes.len() ==> !(#[trigger] scopes[i]).contains_key(name),
    decreases scopes.len(),
{
    if scopes.len() > 0 {
        lemma_lookup_none(scopes.drop_last(), name);
        if lookup(scopes, name) is None {
            assert forall|i: int| 0 <= i < scopes.len() implies !(#[trigger] scopes[i]).contains_key(
                name,
            ) by {
                if i < scopes.len() - 1 {
                    assert(scopes.drop_last()[i] == scopes[i]);
                }
            }
        } else {
            if !scopes.last().contains_key(name) {
                let outer = scopes.drop_last();
                let i = choose|i: int| 0 <= i < outer.len() && (#[trigger] outer[i]).contains_key(name);
                assert(scopes[i] == outer[i]);
            }
        }
    }
}

/// The value of a name depends only on which scopes declare it and on the
/// values it has in them.
pub proof fn lemma_lookup_same(before: Seq<Scope>, after: Seq<Scope>, name: Text)
    requires
        same_names(before, after),
        same_value_below(before, after, before.len() as int, name),
    ensures
        lookup(after, name) == lookup(before, name),
    decreases before.len(),
{
    if before.len() > 0 {
        let last = before.len() - 1;
        assert(after[last].dom() =~= before[last].dom());
        assert(before[last].contains_key(name) ==> after[last][name] == before[last][name]);
        let outer_before = before.drop_last();
        let outer_after = after.drop_last();
        assert forall|i: int| 0 <= i < outer_before.len() implies (#[trigger] outer_after[i]).dom()
            =~= outer_before[i].dom() by {
            assert(after[i].dom() =~= before[i].dom());
        }
        assert forall|i: int|
            0 <= i < outer_before.len() && (#[trigger] outer_before[i]).contains_key(
                name,
            ) implies outer_after[i][name] == outer_before[i][name] by {
            assert(before[i].contains_key(name));
        }
        lemma_lookup_same(outer_before, outer_after, name);
    }
}

/// An assignment declares nothing, and does not reach below the innermost
/// scope that declares the name it assigns to.
pub proof fn lemma_assign(
    scopes: Seq<Scope>,
    target: Text,
    value: Value<Text>,
    from: int,
    name: Text,
)
    ensures
        same_names(scopes, assign(scopes, target, value)),
        declared_from(scopes, from, name) ==> same_value_below(
            scopes,
            assign(scopes, target, value),
            from,
            name,
        ),
    decreases scopes.len(),
{
    let after = assign(scopes, target, value);
    if scopes.len() > 0 {
        let outer = scopes.drop_last();
        let last = scopes.len() - 1;
        if scopes.last().contains_key(target) {
            assert(after[last].dom() =~= scopes[last].dom());
            assert forall|i: int| 0 <= i < scopes.len() implies (#[trigger] after[i]).dom()
                =~= scopes[i].dom() by {}
            if declared_from(scopes, from, name) {
                assert forall|i: int|
                    0 <= i < from && i < scopes.len() && (#[trigger] scopes[i]).contains_key(
                        name,
                    ) implies after[i][name] == scopes[i][name] by {
                    if i == last {
                        // The innermost scope declares `target`; `name` is declared at or
                        // above `from`, which lies above `i`: so `name` is another name.
                        let j = choose|j: int|
                            0 <= j && from <= j < scopes.len() && (#[trigger] scopes[j]).contains_key(
                                name,
                            );
                        assert(j < scopes.len());
                        assert(false);
                    }
                }
            }
        } else {
            lemma_assign(outer, target, value, from, name);
            assert forall|i: int| 0 <= i < scopes.len() implies (#[trigger] after[i]).dom()
                =~= scopes[i].dom() by {
                if i < last {
                    assert(after[i] == assign(outer, target, value)[i]);
                    assert(outer[i] == scopes[i]);
                }
            }
            if declared_from(scopes, from, name) {
                assert forall|i: int|
                    0 <= i < from && i < scopes.len() && (#[trigger] scopes[i]).contains_key(
                        name,
                    ) implies after[i][name] == scopes[i][name] by {
                    if i < last {
                        let j = choose|j: int|
                            0 <= j && from <= j < scopes.len() && (#[trigger] scopes[j]).contains_key(
                                name,
                            );
                        assert(after[i] == assign(outer, target, value)[i]);
                        assert(outer[i] == scopes[i]);
                        if j < last {
                            assert(outer[j] == scopes[j]);
                            assert(declared_from(outer, from, name));
                        } else {
                            // `name` is declared in the innermost scope only, which does
                            // not declare `target`: the assignment is to another name,
                            // or `from` is the innermost scope and `i` lies below it.
                            lemma_assign_other(outer, target, value, name);
                        }
                    }
                }
            }
        }
    }
}

/// An assignment to one name leaves every other name as it is.
pub proof fn lemma_assign_other(scopes: Seq<Scope>, target: Text, value: Value<Text>, name: Text)
    requires
        target != name || forall|i: int|
            0 <= i < scopes.len() ==> !(#[trigger] scopes[i]).contains_key(name),
    ensures
        assign(scopes, target, value).len() == scopes.len(),
        same_value_below(scopes, assign(scopes, target, value), scopes.len() as int, name),
    decreases scopes.len(),
{
    if scopes.len() > 0 {
        let outer = scopes.drop_last();
        let after = assign(scopes, target, value);
        if !scopes.last().contains_key(target) {
            assert forall|i: int| 0 <= i < outer.len() implies !(target == name) || !(
            #[trigger] outer[i]).contains_key(name) by {
                assert(outer[i] == scopes[i]);
            }
            lemma_assign_other(outer, target, value, name);
            assert forall|i: int|
                0 <= i < scopes.len() && (#[trigger] scopes[i]).contains_key(
                    name,
                ) implies after[i][name] == scopes[i][name] by {
                if i < scopes.len() - 1 {
                    assert(after[i] == assign(outer, target, value)[i]);
                    assert(outer[i] == scopes[i]);
                }
            }
        }
    }
}

/// Two changes in a row, each of which declares nothing below the
/// innermost scope and keeps the outer values of `name`, do so together.
proof fn lemma_in_a_row(
    first: Seq<Scope>,
    second: Seq<Scope>,
    third: Seq<Scope>,
    from: int,
    name: Text,
)
    requires
        same_names_but_innermost(first, second),
        same_names_but_innermost(second, third),
        declared_from(first, from, name) ==> same_value_below(first, second, from, name),
        declared_from(second, from, name) ==> same_value_below(second, third, from, name),
    ensures
        same_names_but_innermost(first, third),
        same_names(first, second) && same_names(second, third) ==> same_names(first, third),
        declared_from(first, from, name) ==> declared_from(second, from, name),
        declared_from(first, from, name) ==> same_value_below(first, third, from, name),
{
    assert forall|i: int| 0 <= i < first.len() - 1 implies (#[trigger] third[i]).dom()
        =~= first[i].dom() by {
        assert(second[i].dom() =~= first[i].dom());
    }
    if same_names(first, second) && same_names(second, third) {
        assert forall|i: int| 0 <= i < first.len() implies (#[trigger] third[i]).dom()
            =~= first[i].dom() by {
            assert(second[i].dom() =~= first[i].dom());
        }
    }
    if declared_from(first, from, name) {
        let j = choose|j: int|
            0 <= j && from <= j < first.len() && (#[trigger] first[j]).contains_key(name);
        assert(second[j].contains_key(name)) by {
            if j < first.len() - 1 {
                assert(second[j].dom() =~= first[j].dom());
            }
        }
        assert forall|i: int|
            0 <= i < from && i < first.len() && i < third.len() && (#[trigger] first[i]).contains_key(
                name,
            ) implies third[i][name] == first[i][name] by {
            assert(second[i].dom() =~= first[i].dom());
            assert(second[i].contains_key(name));
        }
    }
}

/// Evaluating an expression declares nothing, and leaves `name` alone below
/// the depth `from` if a scope at or above that depth declares it.
pub proof fn lemma_evaluate_scopes(
    arith: spec_fn(Arithmetic) -> u64,
    scopes: Seq<Scope>,
    tree: ExpressionTree<Text>,
    from: int,
    name: Text,
)
    ensures
        same_names(scopes, evaluate_expression(arith, scopes, tree).scopes),
        declared_from(scopes, from, name) ==> same_value_below(
            scopes,
            evaluate_expression(arith, scopes, tree).scopes,
            from,
            name,
        ),
    decreases tree,
{
    match tree {
        ExpressionTree::Primary(Primary::Group(inner)) => {
            lemma_evaluate_scopes(arith, scopes, *inner, from, name);
        },
        ExpressionTree::Primary(_) => {},
        ExpressionTree::Unary(Unary::Bang(operand)) => {
            lemma_evaluate_scopes(arith, scopes, *operand, from, name);
        },
        ExpressionTree::Unary(Unary::Minus(operand)) => {
            lemma_evaluate_scopes(arith, scopes, *operand, from, name);
        },
        ExpressionTree::Assignment(target, value) => {
            if lookup(scopes, target) is Some {
                let inner = evaluate_expression(arith, scopes, *value);
                lemma_evaluate_scopes(arith, scopes, *value, from, name);
                if let Ok(assigned) = inner.result {
                    lemma_assign(inner.scopes, target, assigned, from, name);
                    lemma_in_a_row(
                        scopes,
                        inner.scopes,
                        assign(inner.scopes, target, assigned),
                        from,
                        name,
                    );
                }
            }
        },
        _ => {
            let (op, lhs, rhs) = operands(tree).unwrap();
            let left = evaluate_expression(arith, scopes, lhs);
            let right = evaluate_expression(arith, left.scopes, rhs);
            lemma_evaluate_scopes(arith, scopes, lhs, from, name);
            lemma_evaluate_scopes(arith, left.scopes, rhs, from, name);
            lemma_in_a_row(scopes, left.scopes, right.scopes, from, name);
        },
    }
}

/// Running a statement declares nothing but in the innermost scope, a block
/// declares nothing at all, and neither touches `name` below the depth `from`
/// if a scope at or above that depth declares it.
pub proof fn lemma_execute_scopes(
    arith: spec_fn(Arithmetic) -> u64,
    scopes: Seq<Scope>,
    statement: Statement,
    from: int,
    name: Text,
)
    requires
        scopes.len() >= 1,
    ensures
        same_names_but_innermost(scopes, execute(arith, scopes, statement).scopes),
        statement is Block ==> same_names(scopes, execute(arith, scopes, statement).scopes),
        declared_from(scopes, from, name) ==> same_value_below(
            scopes,
            execute(arith, scopes, statement).scopes,
            from,
            name,
        ),
    decreases statement,
{
    match statement {
        Statement::Print(tree) => {
            lemma_evaluate_scopes(arith, scopes, tree, from, name);
        },
        Statement::Expr(tree) => {
            lemma_evaluate_scopes(arith, scopes, tree, from, name);
        },
        Statement::VarDeclaration { ident, expr: Some(tree) } => {
            lemma_evaluate_scopes(arith, scopes, tree, from, name);
            let evaluated = evaluate_expression(arith, scopes, tree);
            if let Ok(value) = evaluated.result {
                let declared = declare(evaluated.scopes, ident, value);
                assert(same_names_but_innermost(evaluated.scopes, declared));
                if declared_from(evaluated.scopes, from, name) {
                    let j = choose|j: int|
                        0 <= j && from <= j < evaluated.scopes.len() && (
                        #[trigger] evaluated.scopes[j]).contains_key(name);
                    assert(same_value_below(evaluated.scopes, declared, from, name));
                }
                lemma_in_a_row(scopes, evaluated.scopes, declared, from, name);
            }
        },
        Statement::VarDeclaration { ident, expr: None } => {
            let declared = declare(scopes, ident, Value::Nil);
            assert(same_names_but_innermost(scopes, declared));
            if declared_from(scopes, from, name) {
                let j = choose|j: int|
                    0 <= j && from <= j < scopes.len() && (#[trigger] scopes[j]).contains_key(name);
                assert(same_value_below(scopes, declared, from, name));
            }
        },
        Statement::Block(statements) => {
            let inside = enter(scopes);
            let inner = execute_all(arith, inside, statements);
            lemma_execute_all_scopes(arith, inside, statements, from, name);
            let after = leave(inner.scopes);
            assert forall|i: int| 0 <= i < scopes.len() implies (#[trigger] after[i]).dom()
                =~= scopes[i].dom() by {
                assert(inner.scopes[i].dom() =~= inside[i].dom());
            }
            if declared_from(scopes, from, name) {
                let j = choose|j: int|
                    0 <= j && from <= j < scopes.len() && (#[trigger] scopes[j]).contains_key(name);
                assert(inside[j].contains_key(name));
                assert forall|i: int|
                    0 <= i < from && i < scopes.len() && i < after.len() && (
                    #[trigger] scopes[i]).contains_key(name) implies after[i][name]
                    == scopes[i][name] by {
                    assert(inside[i].contains_key(name));
                }
            }
        },
    }
}

/// Running statements declares nothing but in the innermost scope, and does
/// not touch `name` below the depth `from` if a scope at or above that depth
/// declares it.
pub proof fn lemma_execute_all_scopes(
    arith: spec_fn(Arithmetic) -> u64,
    scopes: Seq<Scope>,
    statements: Seq<Statement>,
    from: int,
    name: Text,
)
    requires
        scopes.len() >= 1,
    ensures
        same_names_but_innermost(scopes, execute_all(arith, scopes, statements).scopes),
        declared_from(scopes, from, name) ==> same_value_below(
            scopes,
            execute_all(arith, scopes, statements).scopes,
            from,
            name,
        ),
    decreases statements,
{
    if statements.len() > 0 {
        let first = execute(arith, scopes, statements[0]);
        lemma_execute_scopes(arith, scopes, statements[0], from, name);
        if first.result is Ok {
            let rest = execute_all(arith, first.scopes, statements.drop_first());
            lemma_execute_all_scopes(arith, first.scopes, statements.drop_first(), from, name);
            lemma_in_a_row(scopes, first.scopes, rest.scopes, from, name);
        }
    }
}

/// Scope isolation: a block declares nothing outside itself. Whatever its
/// statements are and however it ends, the scopes declare the same names
/// after it as before, so a name that had no value before the block has none
/// after it.
pub proof fn lemma_block_keeps_declarations(
    arith: spec_fn(Arithmetic) -> u64,
    scopes: Seq<Scope>,
    statements: Seq<Statement>,
    name: Text,
)
    requires
        scopes.len() >= 1,
    ensures
        same_names(scopes, execute(arith, scopes, Statement::Block(statements)).scopes),
        lookup(scopes, name) is None ==> lookup(
            execute(arith, scopes, Statement::Block(statements)).scopes,
            name,
        ) is None,
{
    let after = execute(arith, scopes, Statement::Block(statements)).scopes;
    lemma_execute_scopes(arith, scopes, Statement::Block(statements), 0, name);
    lemma_lookup_none(scopes, name);
    lemma_lookup_none(after, name);
    if lookup(scopes, name) is None {
        assert forall|i: int| 0 <= i < after.len() implies !(#[trigger] after[i]).contains_key(
            name,
        ) by {
            assert(after[i].dom() =~= scopes[i].dom());
            assert(!scopes[i].contains_key(name));
        }
    }
}

/// Shadowing on the scopes themselves: a name declared in a new scope reads
/// back as the value it was declared with, and once that scope is left the
/// scopes are what they were.
pub proof fn lemma_declaration_shadows(scopes: Seq<Scope>, name: Text, value: Value<Text>)
    requires
        scopes.len() >= 1,
    ensures
        lookup(declare(enter(scopes), name, value), name) == Some(value),
        leave(declare(enter(scopes), name, value)) == scopes,
{
    let inside = declare(enter(scopes), name, value);
    assert(inside.last().contains_key(name));
    assert(leave(inside) =~= scopes);
}

/// Shadowing in a program: where a block starts by declaring `name`, the
/// name reads back inside the block as the value it was declared with, and
/// nothing that the rest of the block does reaches the `name` of the scopes
/// outside: after the block, `name` has the value there that it had when the
/// block declared its own. Where the initializer changes no scope, that is
/// the value from before the block.
pub proof fn lemma_block_shadows(
    arith: spec_fn(Arithmetic) -> u64,
    scopes: Seq<Scope>,
    name: Text,
    initializer: ExpressionTree<Text>,
    rest: Seq<Statement>,
)
    requires
        scopes.len() >= 1,
    ensures
        ({
            let declaration = Statement::VarDeclaration { ident: name, expr: Some(initializer) };
            let initial = evaluate_expression(arith, enter(scopes), initializer);
            let inside = execute(arith, enter(scopes), declaration);
            let block = execute(arith, scopes, Statement::Block(seq![declaration] + rest));
            initial.result matches Ok(value) ==> {
                &&& lookup(inside.scopes, name) == Some(value)
                &&& lookup(block.scopes, name) == lookup(leave(initial.scopes), name)
                &&& initial.scopes == enter(scopes) ==> lookup(block.scopes, name) == lookup(
                    scopes,
                    name,
                )
            }
        }),
{
    let declaration = Statement::VarDeclaration { ident: name, expr: Some(initializer) };
    let initial = evaluate_expression(arith, enter(scopes), initializer);
    let inside = execute(arith, enter(scopes), declaration);
    let statements = seq![declaration] + rest;
    let block = execute(arith, scopes, Statement::Block(statements));
    if let Ok(value) = initial.result {
        let depth = scopes.len() as int;
        lemma_evaluate_scopes(arith, enter(scopes), initializer, depth, name);
        assert(inside.scopes == declare(initial.scopes, name, value));
        assert(inside.scopes.last().contains_key(name));
        assert(statements[0] == declaration);
        assert(statements.drop_first() =~= rest);
        let inner = execute_all(arith, enter(scopes), statements);
        let after = execute_all(arith, inside.scopes, rest);
        assert(inner.scopes == after.scopes);
        assert(declared_from(inside.scopes, depth, name)) by {
            assert(inside.scopes[depth].contains_key(name));
        }
        lemma_execute_all_scopes(arith, inside.scopes, rest, depth, name);
        let outside = leave(initial.scopes);
        assert(block.scopes == leave(after.scopes));
        assert forall|i: int| 0 <= i < outside.len() implies (#[trigger] block.scopes[i]).dom()
            =~= outside[i].dom() by {
            assert(after.scopes[i].dom() =~= inside.scopes[i].dom());
        }
        assert forall|i: int|
            0 <= i < outside.len() && (#[trigger] outside[i]).contains_key(
                name,
            ) implies block.scopes[i][name] == outside[i][name] by {
            assert(inside.scopes[i].contains_key(name));
        }
        lemma_lookup_same(outside, block.scopes, name);
        if initial.scopes == enter(scopes) {
            assert(leave(enter(scopes)) =~= scopes);
        }
    }
}

} // verus!
