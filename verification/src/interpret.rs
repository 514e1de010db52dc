//! The interpreter: a tree walk over statements and expressions against a
//! stack of scopes.

use vstd::pervasive::unreached;
use vstd::prelude::*;
use vstd::string::StringExecFns;
use crate::number::{
    arithmetic_ok, computes, formats, formatting_ok, less, less_or_same, negated, number_less,
    number_less_or_same, number_negated, number_same, same_number, Arithmetic, Text,
};
use crate::parse::{
    lemma_operands_model, lemma_statement_models, operands, operands_of, statement_models,
    BinaryOp, ExpressionTree, Primary, Statement, StatementTree, Unary,
};

verus! {

/// A value, produced by an expression. `S` is the type of the text of a
/// string: `String` in running code, `Seq<char>` in contracts.
#[derive(Debug, PartialEq)]
pub enum Value<S = String> {
    Boolean(bool),
    /// The encoding of the number.
    Number(u64),
    String(S),
    Nil,
}

impl View for Value<String> {
    type V = Value<Text>;

    open spec fn view(&self) -> Value<Text> {
        match *self {
            Value::Boolean(truth) => Value::Boolean(truth),
            Value::Number(bits) => Value::Number(bits),
            Value::String(text) => Value::String(text@),
            Value::Nil => Value::Nil,
        }
    }
}

impl Clone for Value<String> {
    fn clone(&self) -> (copy: Self)
        ensures
            copy == *self,
    {
        match self {
            Value::Boolean(truth) => Value::Boolean(*truth),
            Value::Number(bits) => Value::Number(*bits),
            Value::String(text) => Value::String(text.clone()),
            Value::Nil => Value::Nil,
        }
    }
}

/// Why an expression has no value.
#[derive(Debug, PartialEq)]
pub enum EvaluationError<S = String> {
    /// An operand of `-`, `*`, `/` or a comparison is no number.
    ExpectedNumber,
    /// An assignment to a name that no scope declares.
    UndeclaredVariable(S),
    /// A read of a name that no scope declares.
    UndefinedVariable(S),
    /// The operands of `+` are neither two numbers nor two strings.
    WrongPlusOperands,
}

impl View for EvaluationError<String> {
    type V = EvaluationError<Text>;

    open spec fn view(&self) -> EvaluationError<Text> {
        match *self {
            EvaluationError::ExpectedNumber => EvaluationError::ExpectedNumber,
            EvaluationError::UndeclaredVariable(name) => EvaluationError::UndeclaredVariable(name@),
            EvaluationError::UndefinedVariable(name) => EvaluationError::UndefinedVariable(name@),
            EvaluationError::WrongPlusOperands => EvaluationError::WrongPlusOperands,
        }
    }
}

/// One scope: the names it declares, each with its value.
pub type Scope = Map<Text, Value<Text>>;

/// The value of a name: that of the innermost scope that declares it.
pub open spec fn lookup(scopes: Seq<Scope>, name: Text) -> Option<Value<Text>>
    decreases scopes.len(),
{
    if scopes.len() == 0 {
        None
    } else if scopes.last().contains_key(name) {
        Some(scopes.last()[name])
    } else {
        lookup(scopes.drop_last(), name)
    }
}

/// The scopes after `name` got a new value in the innermost scope that
/// declares it. Where no scope declares it, nothing changes.
pub open spec fn assign(scopes: Seq<Scope>, name: Text, value: Value<Text>) -> Seq<Scope>
    decreases scopes.len(),
{
    if scopes.len() == 0 {
        scopes
    } else if scopes.last().contains_key(name) {
        scopes.drop_last().push(scopes.last().insert(name, value))
    } else {
        assign(scopes.drop_last(), name, value).push(scopes.last())
    }
}

/// The scopes after the innermost one declared `name`, anew or again.
pub open spec fn declare(scopes: Seq<Scope>, name: Text, value: Value<Text>) -> Seq<Scope> {
    if scopes.len() == 0 {
        scopes
    } else {
        scopes.drop_last().push(scopes.last().insert(name, value))
    }
}

/// The scopes with a new, empty innermost scope.
pub open spec fn enter(scopes: Seq<Scope>) -> Seq<Scope> {
    scopes.push(Map::empty())
}

/// The scopes without their innermost scope; the outermost scope stays.
pub open spec fn leave(scopes: Seq<Scope>) -> Seq<Scope> {
    if scopes.len() > 1 {
        scopes.drop_last()
    } else {
        scopes
    }
}

/// A name with its value.
struct Binding {
    name: String,
    value: Value,
}

/// The scope that a list of bindings stands for: of two bindings of one
/// name the first counts.
spec fn scope_of(bindings: Seq<Binding>) -> Scope
    decreases bindings.len(),
{
    if bindings.len() == 0 {
        Map::empty()
    } else {
        scope_of(bindings.drop_first()).insert(bindings[0].name@, bindings[0].value@)
    }
}

/// The place of the first binding of `name`, if there is one.
fn find(bindings: &Vec<Binding>, name: &String) -> (place: Option<usize>)
    ensures
        match place {
            Some(index) => index < bindings.len() && scope_of(bindings@).contains_key(name@)
                && scope_of(bindings@)[name@] == bindings[index as int].value@
                && bindings[index as int].name@ == name@
                && forall|i: int| 0 <= i < index ==> bindings[i].name@ != name@,
            None => !scope_of(bindings@).contains_key(name@)
                && forall|i: int| 0 <= i < bindings.len() ==> bindings[i].name@ != name@,
        },
{
    let mut index: usize = 0;
    while index < bindings.len()
        invariant
            index <= bindings.len(),
            forall|i: int| 0 <= i < index ==> bindings[i].name@ != name@,
        decreases bindings.len() - index,
    {
        if bindings[index].name == *name {
            proof {
                lemma_first_binding(bindings@, name@, index as int);
            }
            return Some(index);
        }
        index = index + 1;
    }
    proof {
        lemma_no_binding(bindings@, name@);
    }
    None
}

/// The first binding of a name gives the name's value in the scope.
proof fn lemma_first_binding(bindings: Seq<Binding>, name: Text, index: int)
    requires
        0 <= index < bindings.len(),
        bindings[index].name@ == name,
        forall|i: int| 0 <= i < index ==> bindings[i].name@ != name,
    ensures
        scope_of(bindings).contains_key(name),
        scope_of(bindings)[name] == bindings[index].value@,
    decreases bindings.len(),
{
    if index > 0 {
        let rest = bindings.drop_first();
        assert(forall|i: int| 0 <= i < index - 1 ==> rest[i] == bindings[i + 1]);
        lemma_first_binding(rest, name, index - 1);
    }
}

/// A name without a binding is not in the scope.
proof fn lemma_no_binding(bindings: Seq<Binding>, name: Text)
    requires
        forall|i: int| 0 <= i < bindings.len() ==> bindings[i].name@ != name,
    ensures
        !scope_of(bindings).contains_key(name),
    decreases bindings.len(),
{
    if bindings.len() > 0 {
        let rest = bindings.drop_first();
        assert(forall|i: int| 0 <= i < rest.len() ==> rest[i] == bindings[i + 1]);
        lemma_no_binding(rest, name);
    }
}

/// A new value for a bound name changes the scope at that name only.
proof fn lemma_rebind(bindings: Seq<Binding>, index: int, changed: Binding)
    requires
        0 <= index < bindings.len(),
        changed.name@ == bindings[index].name@,
        forall|i: int| 0 <= i < index ==> bindings[i].name@ != changed.name@,
    ensures
        scope_of(bindings.update(index, changed)) == scope_of(bindings).insert(
            changed.name@,
            changed.value@,
        ),
    decreases bindings.len(),
{
    let after = bindings.update(index, changed);
    if index == 0 {
        assert(after.drop_first() =~= bindings.drop_first());
        assert(scope_of(after) =~= scope_of(bindings).insert(changed.name@, changed.value@));
    } else {
        assert(after.drop_first() =~= bindings.drop_first().update(index - 1, changed));
        assert(forall|i: int| 0 <= i < index - 1 ==> bindings.drop_first()[i] == bindings[i + 1]);
        lemma_rebind(bindings.drop_first(), index - 1, changed);
        assert(scope_of(after) =~= scope_of(bindings).insert(changed.name@, changed.value@));
    }
}

/// A binding of a new name adds that name to the scope.
proof fn lemma_bind_new(bindings: Seq<Binding>, added: Binding)
    requires
        forall|i: int| 0 <= i < bindings.len() ==> bindings[i].name@ != added.name@,
    ensures
        scope_of(bindings.push(added)) == scope_of(bindings).insert(added.name@, added.value@),
    decreases bindings.len(),
{
    let after = bindings.push(added);
    if bindings.len() == 0 {
        assert(after.drop_first() =~= bindings);
        assert(scope_of(after) =~= scope_of(bindings).insert(added.name@, added.value@));
    } else {
        assert(after.drop_first() =~= bindings.drop_first().push(added));
        assert(forall|i: int|
            0 <= i < bindings.len() - 1 ==> bindings.drop_first()[i] == bindings[i + 1]);
        lemma_bind_new(bindings.drop_first(), added);
        assert(scope_of(after) =~= scope_of(bindings).insert(added.name@, added.value@));
    }
}

/// Gives `name` the value `value` in one scope, and hands back the value it
/// had there.
fn bind(bindings: &mut Vec<Binding>, name: String, value: Value) -> (previous: Option<Value>)
    ensures
        scope_of(final(bindings)@) == scope_of(old(bindings)@).insert(name@, value@),
        match previous {
            Some(previous) => scope_of(old(bindings)@).contains_key(name@) && scope_of(
                old(bindings)@,
            )[name@] == previous@,
            None => !scope_of(old(bindings)@).contains_key(name@),
        },
{
    match find(bindings, &name) {
        Some(index) => {
            let mut value = value;
            proof {
                lemma_rebind(
                    bindings@,
                    index as int,
                    Binding { name: bindings[index as int].name, value },
                );
            }
            std::mem::swap(&mut bindings[index].value, &mut value);
            Some(value)
        },
        None => {
            let added = Binding { name, value };
            proof {
                lemma_bind_new(bindings@, added);
            }
            bindings.push(added);
            None
        },
    }
}

/// Scopes that lack a name do not matter for its value nor for assigning to it.
proof fn lemma_undeclared_above(scopes: Seq<Scope>, below: int, name: Text, value: Value<Text>)
    requires
        0 <= below <= scopes.len(),
        forall|i: int| below <= i < scopes.len() ==> !(#[trigger] scopes[i]).contains_key(name),
    ensures
        lookup(scopes, name) == lookup(scopes.take(below), name),
        assign(scopes, name, value) == assign(scopes.take(below), name, value) + scopes.skip(below),
    decreases scopes.len(),
{
    if below == scopes.len() {
        assert(scopes.take(below) =~= scopes);
        assert(assign(scopes, name, value) + scopes.skip(below) =~= assign(scopes, name, value));
    } else {
        let outer = scopes.drop_last();
        lemma_undeclared_above(outer, below, name, value);
        assert(outer.take(below) =~= scopes.take(below));
        assert((assign(outer.take(below), name, value) + outer.skip(below)).push(scopes.last())
            =~= assign(scopes.take(below), name, value) + scopes.skip(below));
    }
}

/// The stack of scopes: the global scope, which is always there, and above
/// it the scopes of the blocks that are open, from the outermost to the
/// innermost.
pub struct Environments {
    globals: Vec<Binding>,
    locals: Vec<Vec<Binding>>,
}

impl View for Environments {
    type V = Seq<Scope>;

    closed spec fn view(&self) -> Seq<Scope> {
        Seq::new(
            (self.locals.len() + 1) as nat,
            |i: int|
                if i == 0 {
                    scope_of(self.globals@)
                } else {
                    scope_of(self.locals[i - 1]@)
                },
        )
    }
}

impl Environments {
    /// A stack that holds the global scope, empty, and nothing else.
    pub fn new() -> (environments: Self)
        ensures
            environments@ == seq![Map::<Text, Value<Text>>::empty()],
    {
        let environments = Environments { globals: Vec::new(), locals: Vec::new() };
        assert(environments@ =~= seq![Map::<Text, Value<Text>>::empty()]);
        environments
    }

    /// There is always a scope.
    pub proof fn lemma_never_empty(&self)
        ensures
            self@.len() >= 1,
    {
    }

    /// Opens a scope.
    pub fn push_block(&mut self)
        ensures
            final(self)@ == enter(old(self)@),
    {
        self.locals.push(Vec::new());
        assert(self@ =~= enter(old(self)@));
    }

    /// Closes the innermost scope, unless it is the global one.
    pub fn pop_block(&mut self)
        ensures
            final(self)@ == leave(old(self)@),
    {
        self.locals.pop();
        assert(self@ =~= leave(old(self)@));
    }

    /// The value of a name: that of the innermost scope that declares it.
    pub fn get(&self, ident: &String) -> (value: Option<&Value>)
        ensures
            match value {
                Some(value) => lookup(self@, ident@) == Some(value@),
                None => lookup(self@, ident@) is None,
            },
    {
        let mut above: usize = self.locals.len();
        assert(self@.take(above + 1) =~= self@);
        while above > 0
            invariant
                above <= self.locals.len(),
                lookup(self@, ident@) == lookup(self@.take(above + 1), ident@),
            decreases above,
        {
            above = above - 1;
            let ghost scopes = self@.take(above + 2);
            assert(scopes.last() == scope_of(self.locals[above as int]@));
            assert(scopes.drop_last() =~= self@.take(above + 1));
            match find(&self.locals[above], ident) {
                Some(index) => {
                    return Some(&self.locals[above][index].value);
                },
                None => {},
            }
        }
        let ghost scopes = self@.take(1);
        assert(scopes.last() == scope_of(self.globals@));
        assert(lookup(scopes.drop_last(), ident@) is None);
        match find(&self.globals, ident) {
            Some(index) => Some(&self.globals[index].value),
            None => None,
        }
    }

    /// The place of the value of a name, for writing: that of the innermost
    /// scope that declares it. What is written there is the value of the
    /// name from then on.
    pub fn get_mut(&mut self, ident: &String) -> (value: Option<&mut Value>)
        ensures
            match value {
                Some(value) => lookup(old(self)@, ident@) == Some(value@) && final(self)@ == assign(
                    old(self)@,
                    ident@,
                    final(value)@,
                ),
                None => lookup(old(self)@, ident@) is None && final(self)@ == old(self)@
                    && forall|written: Value<Text>|
                    assign(old(self)@, ident@, written) == old(self)@,
            },
    {
        let mut above: usize = self.locals.len();
        let mut found: Option<usize> = None;
        while above > 0 && found.is_none()
            invariant
                *self == *old(self),
                above <= self.locals.len(),
                forall|i: int| above + 1 < i < self@.len() ==> !(#[trigger] self@[i]).contains_key(ident@),
                match found {
                    Some(index) => above < self.locals.len() && index < self.locals[above as int].len()
                        && self.locals[above as int][index as int].name@ == ident@ && forall|i: int|
                        0 <= i < index ==> self.locals[above as int][i].name@ != ident@,
                    None => above + 1 < self@.len() ==> !self@[above + 1].contains_key(ident@),
                },
            decreases above,
        {
            above = above - 1;
            found = find(&self.locals[above], ident);
        }
        let ghost scopes = self@;
        match found {
            Some(index) => {
                let ghost here = above as int + 1;
                let ghost bindings = self.locals[above as int]@;
                let value = &mut self.locals[above][index].value;
                proof {
                    let written = *final(value);
                    lemma_undeclared_above(scopes, here + 1, ident@, written@);
                    lemma_first_binding(bindings, ident@, index as int);
                    lemma_rebind(
                        bindings,
                        index as int,
                        Binding { name: bindings[index as int].name, value: written },
                    );
                    assert(scopes.take(here + 1).last() == scopes[here]);
                    assert(scopes.take(here + 1).drop_last() =~= scopes.take(here));
                    assert(after_borrow(self)@ =~= assign(scopes, ident@, written@));
                }
                Some(value)
            },
            None => {
                proof {
                    assert(forall|i: int| 0 < i < scopes.len() ==> !(#[trigger] scopes[i]).contains_key(ident@));
                }
                match find(&self.globals, ident) {
                    Some(index) => {
                        let ghost bindings = self.globals@;
                        let value = &mut self.globals[index].value;
                        proof {
                            let written = *final(value);
                            lemma_undeclared_above(scopes, 1, ident@, written@);
                            lemma_rebind(
                                bindings,
                                index as int,
                                Binding { name: bindings[index as int].name, value: written },
                            );
                            assert(scopes.take(1).last() == scopes[0]);
                            assert(scopes.take(1).drop_last() =~= Seq::<Scope>::empty());
                            assert(after_borrow(self)@ =~= assign(scopes, ident@, written@));
                        }
                        Some(value)
                    },
                    None => {
                        proof {
                            assert(scopes.take(0) =~= Seq::<Scope>::empty());
                            lemma_undeclared_above(scopes, 0, ident@, Value::Nil);
                            assert forall|written: Value<Text>|
                                assign(scopes, ident@, written) == scopes by {
                                lemma_undeclared_above(scopes, 0, ident@, written);
                                assert(assign(scopes.take(0), ident@, written) + scopes.skip(0)
                                    =~= scopes);
                            }
                        }
                        None
                    },
                }
            },
        }
    }

    /// Declares a name in the innermost scope, anew or again, and hands back
    /// the value that the name had in that scope.
    pub fn insert(&mut self, ident: String, value: Value) -> (previous: Option<Value>)
        ensures
            final(self)@ == declare(old(self)@, ident@, value@),
            match previous {
                Some(previous) => old(self)@.last().contains_key(ident@) && old(self)@.last()[ident@]
                    == previous@,
                None => !old(self)@.last().contains_key(ident@),
            },
    {
        let innermost = self.locals.len();
        let previous = if innermost == 0 {
            bind(&mut self.globals, ident, value)
        } else {
            bind(&mut self.locals[innermost - 1], ident, value)
        };
        assert(self@ =~= declare(old(self)@, ident@, value@));
        previous
    }
}

/// What evaluating an expression gives: the scopes afterwards, and the
/// value or the error.
pub struct Evaluated {
    pub scopes: Seq<Scope>,
    pub result: Result<Value<Text>, EvaluationError<Text>>,
}

/// `nil` and `false` are falsy, every other value is truthy.
pub open spec fn truthy(value: Value<Text>) -> bool {
    match value {
        Value::Nil => false,
        Value::Boolean(truth) => truth,
        _ => true,
    }
}

/// Two values are equal when they are of one kind and equal within it:
/// numbers as IEEE-754 numbers, booleans and strings as themselves, `nil`
/// with `nil`.
pub open spec fn equal_values(a: Value<Text>, b: Value<Text>) -> bool {
    match (a, b) {
        (Value::Boolean(x), Value::Boolean(y)) => x == y,
        (Value::Number(x), Value::Number(y)) => same_number(x, y),
        (Value::String(x), Value::String(y)) => x == y,
        (Value::Nil, Value::Nil) => true,
        _ => false,
    }
}

/// The value of an infix operator on two numbers.
pub open spec fn on_numbers(arith: spec_fn(Arithmetic) -> u64, op: BinaryOp, x: u64, y: u64)
    -> Value<Text> {
    match op {
        BinaryOp::Star => Value::Number(arith(Arithmetic::Multiply(x, y))),
        BinaryOp::Slash => Value::Number(arith(Arithmetic::Divide(x, y))),
        BinaryOp::Plus => Value::Number(arith(Arithmetic::Add(x, y))),
        BinaryOp::Minus => Value::Number(arith(Arithmetic::Subtract(x, y))),
        BinaryOp::Less => Value::Boolean(less(x, y)),
        BinaryOp::LessEqual => Value::Boolean(less_or_same(x, y)),
        BinaryOp::Greater => Value::Boolean(less(y, x)),
        BinaryOp::GreaterEqual => Value::Boolean(less_or_same(y, x)),
        BinaryOp::EqualEqual => Value::Boolean(same_number(x, y)),
        BinaryOp::BangEqual => Value::Boolean(!same_number(x, y)),
    }
}

/// The value of an infix operator on two values, or the error if the
/// operator does not take them: `==` and `!=` take any two values, `+` two
/// numbers or two strings, every other operator two numbers.
pub open spec fn on_values(
    arith: spec_fn(Arithmetic) -> u64,
    op: BinaryOp,
    a: Value<Text>,
    b: Value<Text>,
) -> Result<Value<Text>, EvaluationError<Text>> {
    match op {
        BinaryOp::EqualEqual => Ok(Value::Boolean(equal_values(a, b))),
        BinaryOp::BangEqual => Ok(Value::Boolean(!equal_values(a, b))),
        BinaryOp::Plus => match (a, b) {
            (Value::Number(x), Value::Number(y)) => Ok(on_numbers(arith, op, x, y)),
            (Value::String(x), Value::String(y)) => Ok(Value::String(x + y)),
            _ => Err(EvaluationError::WrongPlusOperands),
        },
        _ => match (a, b) {
            (Value::Number(x), Value::Number(y)) => Ok(on_numbers(arith, op, x, y)),
            _ => Err(EvaluationError::ExpectedNumber),
        },
    }
}

/// Whether an operator looks at its left operand before its right operand
/// is evaluated: those that take numbers only do, and fail at once on
/// anything else.
pub open spec fn checks_left_first(op: BinaryOp) -> bool {
    !(op is Plus || op is EqualEqual || op is BangEqual)
}

/// The outcome of an infix operator, from the outcome `left` of its left
/// operand and the outcome `right` of its right operand, evaluated in the
/// scopes that the left operand left behind.
pub open spec fn on_operands(
    arith: spec_fn(Arithmetic) -> u64,
    op: BinaryOp,
    left: Evaluated,
    right: Evaluated,
) -> Evaluated {
    match left.result {
        Err(_) => left,
        Ok(a) => if checks_left_first(op) && !(a is Number) {
            Evaluated { scopes: left.scopes, result: Err(EvaluationError::ExpectedNumber) }
        } else {
            match right.result {
                Err(_) => right,
                Ok(b) => Evaluated { scopes: right.scopes, result: on_values(arith, op, a, b) },
            }
        },
    }
}

/// The outcome of evaluating `tree` in `scopes`, with `arith` as the
/// arithmetic on numbers.
pub open spec fn evaluate_expression(
    arith: spec_fn(Arithmetic) -> u64,
    scopes: Seq<Scope>,
    tree: ExpressionTree<Text>,
) -> Evaluated
    decreases tree,
{
    match tree {
        ExpressionTree::Primary(Primary::String(text)) => Evaluated {
            scopes,
            result: Ok(Value::String(text)),
        },
        ExpressionTree::Primary(Primary::Number(bits)) => Evaluated {
            scopes,
            result: Ok(Value::Number(bits)),
        },
        ExpressionTree::Primary(Primary::True) => Evaluated {
            scopes,
            result: Ok(Value::Boolean(true)),
        },
        ExpressionTree::Primary(Primary::False) => Evaluated {
            scopes,
            result: Ok(Value::Boolean(false)),
        },
        ExpressionTree::Primary(Primary::Nil) => Evaluated { scopes, result: Ok(Value::Nil) },
        ExpressionTree::Primary(Primary::Group(inner)) => evaluate_expression(
            arith,
            scopes,
            *inner,
        ),
        ExpressionTree::Primary(Primary::Identifier(name)) => Evaluated {
            scopes,
            result: match lookup(scopes, name) {
                Some(value) => Ok(value),
                None => Err(EvaluationError::UndefinedVariable(name)),
            },
        },
        ExpressionTree::Unary(Unary::Bang(operand)) => {
            let inner = evaluate_expression(arith, scopes, *operand);
            Evaluated {
                scopes: inner.scopes,
                result: match inner.result {
                    Ok(value) => Ok(Value::Boolean(!truthy(value))),
                    Err(error) => Err(error),
                },
            }
        },
        ExpressionTree::Unary(Unary::Minus(operand)) => {
            let inner = evaluate_expression(arith, scopes, *operand);
            Evaluated {
                scopes: inner.scopes,
                result: match inner.result {
                    Ok(Value::Number(bits)) => Ok(Value::Number(negated(bits))),
                    Ok(_) => Err(EvaluationError::ExpectedNumber),
                    Err(error) => Err(error),
                },
            }
        },
        ExpressionTree::Assignment(name, value) => {
            if lookup(scopes, name) is None {
                Evaluated { scopes, result: Err(EvaluationError::UndeclaredVariable(name)) }
            } else {
                let inner = evaluate_expression(arith, scopes, *value);
                match inner.result {
                    Err(_) => inner,
                    Ok(assigned) => Evaluated {
                        scopes: assign(inner.scopes, name, assigned),
                        result: Ok(assigned),
                    },
                }
            }
        },
        // Every other tree is made by an infix operator.
        _ => {
            let (op, lhs, rhs) = operands(tree).unwrap();
            let left = evaluate_expression(arith, scopes, lhs);
            on_operands(arith, op, left, evaluate_expression(arith, left.scopes, rhs))
        },
    }
}

/// What running statements gives: the scopes afterwards, the values printed
/// on the way, and whether the run ended in an error.
pub struct Run {
    pub scopes: Seq<Scope>,
    pub printed: Seq<Value<Text>>,
    pub result: Result<(), EvaluationError<Text>>,
}

/// A run followed by the run `rest`, which started in the scopes that the
/// first left behind. An error in the first run ends the whole.
pub open spec fn followed_by(first: Run, rest: Run) -> Run {
    match first.result {
        Err(_) => first,
        Ok(_) => Run {
            scopes: rest.scopes,
            printed: first.printed + rest.printed,
            result: rest.result,
        },
    }
}

/// The run of one statement in `scopes`. A block runs in a scope of its
/// own, which is closed again however the block ends.
pub open spec fn execute(arith: spec_fn(Arithmetic) -> u64, scopes: Seq<Scope>, statement: Statement)
    -> Run
    decreases statement,
{
    match statement {
        Statement::Print(tree) => {
            let evaluated = evaluate_expression(arith, scopes, tree);
            match evaluated.result {
                Ok(value) => Run { scopes: evaluated.scopes, printed: seq![value], result: Ok(()) },
                Err(error) => Run {
                    scopes: evaluated.scopes,
                    printed: Seq::empty(),
                    result: Err(error),
                },
            }
        },
        Statement::Expr(tree) => {
            let evaluated = evaluate_expression(arith, scopes, tree);
            Run {
                scopes: evaluated.scopes,
                printed: Seq::empty(),
                result: match evaluated.result {
                    Ok(_) => Ok(()),
                    Err(error) => Err(error),
                },
            }
        },
        Statement::VarDeclaration { ident, expr: Some(tree) } => {
            let evaluated = evaluate_expression(arith, scopes, tree);
            match evaluated.result {
                Ok(value) => Run {
                    scopes: declare(evaluated.scopes, ident, value),
                    printed: Seq::empty(),
                    result: Ok(()),
                },
                Err(error) => Run {
                    scopes: evaluated.scopes,
                    printed: Seq::empty(),
                    result: Err(error),
                },
            }
        },
        Statement::VarDeclaration { ident, expr: None } => Run {
            scopes: declare(scopes, ident, Value::Nil),
            printed: Seq::empty(),
            result: Ok(()),
        },
        Statement::Block(statements) => {
            let inner = execute_all(arith, enter(scopes), statements);
            Run { scopes: leave(inner.scopes), printed: inner.printed, result: inner.result }
        },
    }
}

/// The run of a list of statements, one after the other, up to the first
/// that ends in an error.
pub open spec fn execute_all(
    arith: spec_fn(Arithmetic) -> u64,
    scopes: Seq<Scope>,
    statements: Seq<Statement>,
) -> Run
    decreases statements,
{
    if statements.len() == 0 {
        Run { scopes, printed: Seq::empty(), result: Ok(()) }
    } else {
        let first = execute(arith, scopes, statements[0]);
        followed_by(first, execute_all(arith, first.scopes, statements.drop_first()))
    }
}

/// The end of a run as the contracts see it.
pub open spec fn end_model(result: Result<(), EvaluationError>) -> Result<
    (),
    EvaluationError<Text>,
> {
    match result {
        Ok(_) => Ok(()),
        Err(error) => Err(error@),
    }
}

/// The outcome of an evaluation as the contracts see it.
pub open spec fn outcome_model(result: Result<Value, EvaluationError>) -> Result<
    Value<Text>,
    EvaluationError<Text>,
> {
    match result {
        Ok(value) => Ok(value@),
        Err(error) => Err(error@),
    }
}

/// The values of a list, each as the contracts see it.
pub open spec fn value_models(values: Seq<Value>) -> Seq<Value<Text>> {
    Seq::new(values.len(), |i: int| values[i]@)
}

fn is_truthy(value: &Value) -> (truth: bool)
    ensures
        truth == truthy(value@),
{
    match value {
        Value::Nil => false,
        Value::Boolean(truth) => *truth,
        _ => true,
    }
}

fn values_are_equal(a: &Value, b: &Value) -> (equal: bool)
    ensures
        equal == equal_values(a@, b@),
{
    match (a, b) {
        (Value::Boolean(x), Value::Boolean(y)) => *x == *y,
        (Value::Number(x), Value::Number(y)) => number_same(*x, *y),
        (Value::String(x), Value::String(y)) => *x == *y,
        (Value::Nil, Value::Nil) => true,
        _ => false,
    }
}

fn compute<A: Fn(Arithmetic) -> u64>(op: BinaryOp, x: u64, y: u64, unit: &A) -> (value: Value)
    requires
        arithmetic_ok(*unit),
    ensures
        forall|arith: spec_fn(Arithmetic) -> u64| #[trigger]
            computes(*unit, arith) ==> value@ == on_numbers(arith, op, x, y),
{
    match op {
        BinaryOp::Star => Value::Number(unit(Arithmetic::Multiply(x, y))),
        BinaryOp::Slash => Value::Number(unit(Arithmetic::Divide(x, y))),
        BinaryOp::Plus => Value::Number(unit(Arithmetic::Add(x, y))),
        BinaryOp::Minus => Value::Number(unit(Arithmetic::Subtract(x, y))),
        BinaryOp::Less => Value::Boolean(number_less(x, y)),
        BinaryOp::LessEqual => Value::Boolean(number_less_or_same(x, y)),
        BinaryOp::Greater => Value::Boolean(number_less(y, x)),
        BinaryOp::GreaterEqual => Value::Boolean(number_less_or_same(y, x)),
        BinaryOp::EqualEqual => Value::Boolean(number_same(x, y)),
        BinaryOp::BangEqual => Value::Boolean(!number_same(x, y)),
    }
}

fn apply<A: Fn(Arithmetic) -> u64>(op: BinaryOp, a: Value, b: Value, unit: &A) -> (result: Result<
    Value,
    EvaluationError,
>)
    requires
        arithmetic_ok(*unit),
    ensures
        forall|arith: spec_fn(Arithmetic) -> u64| #[trigger]
            computes(*unit, arith) ==> outcome_model(result) == on_values(arith, op, a@, b@),
{
    match op {
        BinaryOp::EqualEqual => Ok(Value::Boolean(values_are_equal(&a, &b))),
        BinaryOp::BangEqual => Ok(Value::Boolean(!values_are_equal(&a, &b))),
        BinaryOp::Plus => match (a, b) {
            (Value::Number(x), Value::Number(y)) => Ok(compute(op, x, y, unit)),
            (Value::String(x), Value::String(y)) => Ok(Value::String(x.concat(y.as_str()))),
            _ => Err(EvaluationError::WrongPlusOperands),
        },
        _ => match (a, b) {
            (Value::Number(x), Value::Number(y)) => Ok(compute(op, x, y, unit)),
            _ => Err(EvaluationError::ExpectedNumber),
        },
    }
}

fn checks_left_first_of(op: BinaryOp) -> (first: bool)
    ensures
        first == checks_left_first(op),
{
    match op {
        BinaryOp::Plus | BinaryOp::EqualEqual | BinaryOp::BangEqual => false,
        _ => true,
    }
}

/// An interpreter: the scopes with their variables, and the values printed
/// so far.
pub struct Interpreter {
    /// Maps the variables to their values, scope by scope.
    environments: Environments,
    printed: Vec<Value>,
}

impl Interpreter {
    /// The scopes, from the global one to the innermost.
    pub closed spec fn scopes(&self) -> Seq<Scope> {
        self.environments@
    }

    /// The values that `print` statements have printed, in order.
    pub closed spec fn printed(&self) -> Seq<Value<Text>> {
        value_models(self.printed@)
    }

    /// There is always a scope: the global one.
    pub proof fn lemma_has_global_scope(&self)
        ensures
            self.scopes().len() >= 1,
    {
        self.environments.lemma_never_empty();
    }

    /// An interpreter with an empty global scope that has printed nothing.
    pub fn new() -> (interpreter: Self)
        ensures
            interpreter.scopes() == fresh_scopes(),
            interpreter.printed() == Seq::<Value<Text>>::empty(),
    {
        let interpreter = Interpreter { environments: Environments::new(), printed: Vec::new() };
        assert(interpreter.printed() =~= Seq::<Value<Text>>::empty());
        interpreter
    }

    /// Evaluates an expression by reference.
    fn evaluate_tree<A: Fn(Arithmetic) -> u64>(&mut self, tree: &ExpressionTree, unit: &A) -> (result:
        Result<Value, EvaluationError>)
        requires
            arithmetic_ok(*unit),
        ensures
            forall|arith: spec_fn(Arithmetic) -> u64| #[trigger]
                computes(*unit, arith) ==> {
                    let evaluated = evaluate_expression(arith, old(self).scopes(), tree@);
                    &&& final(self).scopes() == evaluated.scopes
                    &&& outcome_model(result) == evaluated.result
                },
            final(self).printed() == old(self).printed(),
        decreases tree,
    {
        match tree {
            ExpressionTree::Primary(Primary::String(text)) => Ok(Value::String(text.clone())),
            ExpressionTree::Primary(Primary::Number(bits)) => Ok(Value::Number(*bits)),
            ExpressionTree::Primary(Primary::True) => Ok(Value::Boolean(true)),
            ExpressionTree::Primary(Primary::False) => Ok(Value::Boolean(false)),
            ExpressionTree::Primary(Primary::Nil) => Ok(Value::Nil),
            ExpressionTree::Primary(Primary::Group(inner)) => self.evaluate_tree(inner, unit),
            ExpressionTree::Primary(Primary::Identifier(name)) => {
                match self.environments.get(name) {
                    Some(value) => Ok(value.clone()),
                    None => Err(EvaluationError::UndefinedVariable(name.clone())),
                }
            },
            ExpressionTree::Unary(Unary::Bang(operand)) => {
                match self.evaluate_tree(operand, unit) {
                    Ok(value) => Ok(Value::Boolean(!is_truthy(&value))),
                    Err(error) => Err(error),
                }
            },
            ExpressionTree::Unary(Unary::Minus(operand)) => {
                match self.evaluate_tree(operand, unit) {
                    Ok(Value::Number(bits)) => Ok(Value::Number(number_negated(bits))),
                    Ok(_) => Err(EvaluationError::ExpectedNumber),
                    Err(error) => Err(error),
                }
            },
            ExpressionTree::Assignment(name, value) => {
                let declared = match self.environments.get(name) {
                    Some(_) => true,
                    None => false,
                };
                if !declared {
                    return Err(EvaluationError::UndeclaredVariable(name.clone()));
                }
                match self.evaluate_tree(value, unit) {
                    Err(error) => Err(error),
                    Ok(assigned) => {
                        match self.environments.get_mut(name) {
                            Some(place) => {
                                *place = assigned.clone();
                            },
                            None => {},
                        }
                        Ok(assigned)
                    },
                }
            },
            _ => {
                let (op, lhs, rhs) = match operands_of(tree) {
                    Some(parts) => parts,
                    None => unreached(),
                };
                proof {
                    lemma_operands_model(*tree);
                }
                let a = match self.evaluate_tree(lhs, unit) {
                    Err(error) => {
                        return Err(error);
                    },
                    Ok(value) => value,
                };
                let a_is_number = match a {
                    Value::Number(_) => true,
                    _ => false,
                };
                if checks_left_first_of(op) && !a_is_number {
                    return Err(EvaluationError::ExpectedNumber);
                }
                let b = match self.evaluate_tree(rhs, unit) {
                    Err(error) => {
                        return Err(error);
                    },
                    Ok(value) => value,
                };
                apply(op, a, b, unit)
            },
        }
    }

    /// Evaluates an expression: what `evaluate_expression` describes, with
    /// the function that `unit` computes. The scopes change where the
    /// expression assigns.
    pub fn evaluate_expr<A: Fn(Arithmetic) -> u64>(
        &mut self,
        token_tree: ExpressionTree,
        unit: &A,
    ) -> (result: Result<Value, EvaluationError>)
        requires
            arithmetic_ok(*unit),
        ensures
            forall|arith: spec_fn(Arithmetic) -> u64| #[trigger]
                computes(*unit, arith) ==> {
                    let evaluated = evaluate_expression(arith, old(self).scopes(), token_tree@);
                    &&& final(self).scopes() == evaluated.scopes
                    &&& outcome_model(result) == evaluated.result
                },
            final(self).printed() == old(self).printed(),
    {
        self.evaluate_tree(&token_tree, unit)
    }

    /// Runs one statement.
    fn run_statement<A: Fn(Arithmetic) -> u64>(&mut self, statement: &StatementTree, unit: &A) -> (result:
        Result<(), EvaluationError>)
        requires
            arithmetic_ok(*unit),
        ensures
            old(self).printed().is_prefix_of(final(self).printed()),
            forall|arith: spec_fn(Arithmetic) -> u64| #[trigger]
                computes(*unit, arith) ==> {
                    let run = execute(arith, old(self).scopes(), statement@);
                    &&& final(self).scopes() == run.scopes
                    &&& final(self).printed() == old(self).printed() + run.printed
                    &&& end_model(result) == run.result
                },
        decreases statement,
    {
        match statement {
            StatementTree::Print(expr) => {
                match self.evaluate_tree(expr, unit) {
                    Ok(value) => {
                        assert(value_models(self.printed@.push(value)) =~= value_models(
                            self.printed@,
                        ) + seq![value@]);
                        self.printed.push(value);
                        Ok(())
                    },
                    Err(error) => {
                        assert(self.printed() + Seq::<Value<Text>>::empty() =~= self.printed());
                        Err(error)
                    },
                }
            },
            StatementTree::Expr(expr) => {
                assert(self.printed() + Seq::<Value<Text>>::empty() =~= self.printed());
                match self.evaluate_tree(expr, unit) {
                    Ok(_) => Ok(()),
                    Err(error) => Err(error),
                }
            },
            StatementTree::VarDeclaration { ident, expr } => {
                assert(self.printed() + Seq::<Value<Text>>::empty() =~= self.printed());
                match expr {
                    Some(expr) => {
                        match self.evaluate_tree(expr, unit) {
                            Ok(value) => {
                                self.environments.insert(ident.clone(), value);
                                Ok(())
                            },
                            Err(error) => Err(error),
                        }
                    },
                    None => {
                        self.environments.insert(ident.clone(), Value::Nil);
                        Ok(())
                    },
                }
            },
            StatementTree::Block(statements) => {
                self.environments.push_block();
                let result = self.run_statements(statements, unit);
                self.environments.pop_block();
                result
            },
        }
    }

    /// Runs the statements of a list, one after the other.
    fn run_statements<A: Fn(Arithmetic) -> u64>(
        &mut self,
        statements: &Vec<StatementTree>,
        unit: &A,
    ) -> (result: Result<(), EvaluationError>)
        requires
            arithmetic_ok(*unit),
        ensures
            old(self).printed().is_prefix_of(final(self).printed()),
            forall|arith: spec_fn(Arithmetic) -> u64| #[trigger]
                computes(*unit, arith) ==> {
                    let run = execute_all(
                        arith,
                        old(self).scopes(),
                        statement_models(statements@),
                    );
                    &&& final(self).scopes() == run.scopes
                    &&& final(self).printed() == old(self).printed() + run.printed
                    &&& end_model(result) == run.result
                },
        decreases statements,
    {
        let ghost models = statement_models(statements@);
        let ghost start = self.printed().len() as int;
        proof {
            lemma_statement_models(statements@);
            assert(models.skip(0) =~= models);
            assert forall|arith: spec_fn(Arithmetic) -> u64| #[trigger]
                computes(*unit, arith) implies followed_by(
                Run { scopes: self.scopes(), printed: self.printed().skip(start), result: Ok(()) },
                execute_all(arith, self.scopes(), models.skip(0)),
            ) == execute_all(arith, self.scopes(), models) by {
                let goal = execute_all(arith, self.scopes(), models);
                assert(self.printed().skip(start) + goal.printed =~= goal.printed);
            }
        }
        let mut index: usize = 0;
        while index < statements.len()
            invariant
                arithmetic_ok(*unit),
                models == statement_models(statements@),
                models.len() == statements.len(),
                forall|i: int| 0 <= i < statements.len() ==> (#[trigger] models[i]) == statements[i]@,
                index <= statements.len(),
                start == old(self).printed().len(),
                old(self).printed().is_prefix_of(self.printed()),
                forall|arith: spec_fn(Arithmetic) -> u64| #[trigger]
                    computes(*unit, arith) ==> followed_by(
                        Run {
                            scopes: self.scopes(),
                            printed: self.printed().skip(start),
                            result: Ok(()),
                        },
                        execute_all(arith, self.scopes(), models.skip(index as int)),
                    ) == execute_all(arith, old(self).scopes(), models),
            decreases statements.len() - index,
        {
            let ghost before = self.scopes();
            let ghost shown = self.printed();
            let ghost rest = models.skip(index as int);
            proof {
                assert(rest[0] == statements[index as int]@);
                assert(rest.drop_first() =~= models.skip(index + 1));
            }
            match self.run_statement(&statements[index], unit) {
                Err(error) => {
                    proof {
                        assert forall|arith: spec_fn(Arithmetic) -> u64| #[trigger]
                            computes(*unit, arith) implies ({
                            let run = execute_all(arith, old(self).scopes(), models);
                            &&& self.scopes() == run.scopes
                            &&& self.printed() == old(self).printed() + run.printed
                            &&& end_model(Err::<(), EvaluationError>(error)) == run.result
                        }) by {
                            let step = execute(arith, before, rest[0]);
                            let run = execute_all(arith, old(self).scopes(), models);
                            assert(shown =~= old(self).printed() + shown.skip(start));
                            assert(run.printed =~= shown.skip(start) + step.printed);
                            assert(self.printed() =~= old(self).printed() + run.printed);
                        }
                    }
                    return Err(error);
                },
                Ok(_) => {
                    proof {
                        assert forall|arith: spec_fn(Arithmetic) -> u64| #[trigger]
                            computes(*unit, arith) implies followed_by(
                            Run {
                                scopes: self.scopes(),
                                printed: self.printed().skip(start),
                                result: Ok(()),
                            },
                            execute_all(arith, self.scopes(), models.skip(index + 1)),
                        ) == execute_all(arith, old(self).scopes(), models) by {
                            let step = execute(arith, before, rest[0]);
                            let after = execute_all(arith, step.scopes, models.skip(index + 1));
                            assert(shown =~= old(self).printed() + shown.skip(start));
                            assert(self.printed().skip(start) =~= shown.skip(start) + step.printed);
                            assert(shown.skip(start) + (step.printed + after.printed) =~= (
                            shown.skip(start) + step.printed) + after.printed);
                        }
                    }
                },
            }
            index = index + 1;
        }
        proof {
            assert(models.skip(index as int) =~= Seq::<Statement>::empty());
            assert forall|arith: spec_fn(Arithmetic) -> u64| #[trigger]
                computes(*unit, arith) implies ({
                let run = execute_all(arith, old(self).scopes(), models);
                &&& self.scopes() == run.scopes
                &&& self.printed() == old(self).printed() + run.printed
                &&& end_model(Ok::<(), EvaluationError>(())) == run.result
            }) by {
                let run = execute_all(arith, old(self).scopes(), models);
                assert(self.printed().skip(start) + Seq::<Value<Text>>::empty()
                    =~= self.printed().skip(start));
                assert(self.printed() =~= old(self).printed() + self.printed().skip(start));
            }
        }
        Ok(())
    }

    /// Runs a program: what `execute_all` describes, with the function
    /// that `unit` computes. The values that its `print` statements print are
    /// appended to the printed values, also where the program ends in an
    /// error.
    pub fn evaluate<A: Fn(Arithmetic) -> u64>(
        &mut self,
        token_tree: Vec<StatementTree>,
        unit: &A,
    ) -> (result: Result<(), EvaluationError>)
        requires
            arithmetic_ok(*unit),
        ensures
            old(self).printed().is_prefix_of(final(self).printed()),
            forall|arith: spec_fn(Arithmetic) -> u64| #[trigger]
                computes(*unit, arith) ==> {
                    let run = execute_all(
                        arith,
                        old(self).scopes(),
                        statement_models(token_tree@),
                    );
                    &&& final(self).scopes() == run.scopes
                    &&& final(self).printed() == old(self).printed() + run.printed
                    &&& end_model(result) == run.result
                },
    {
        self.run_statements(&token_tree, unit)
    }

    /// The values printed so far.
    pub fn output(&self) -> (values: &Vec<Value>)
        ensures
            value_models(values@) == self.printed(),
    {
        &self.printed
    }
}

/// The scopes of a fresh interpreter: the global scope, empty.
pub open spec fn fresh_scopes() -> Seq<Scope> {
    seq![Map::empty()]
}

/// Evaluates an expression on its own, with no variable declared.
pub fn evaluate_expr<A: Fn(Arithmetic) -> u64>(token_tree: ExpressionTree, unit: &A) -> (result:
    Result<Value, EvaluationError>)
    requires
        arithmetic_ok(*unit),
    ensures
        forall|arith: spec_fn(Arithmetic) -> u64| #[trigger]
            computes(*unit, arith) ==> outcome_model(result) == evaluate_expression(
                arith,
                fresh_scopes(),
                token_tree@,
            ).result,
{
    let mut interpreter = Interpreter::new();
    interpreter.evaluate_expr(token_tree, unit)
}

/// A value as `print` shows it. `format` renders a number.
pub open spec fn value_text(format: spec_fn(u64) -> Text, value: Value<Text>) -> Text {
    match value {
        Value::Boolean(truth) => if truth {
            "true"@
        } else {
            "false"@
        },
        Value::Number(bits) => format(bits),
        Value::String(text) => text,
        Value::Nil => "nil"@,
    }
}

impl Value<String> {
    /// This value as `print` shows it.
    pub fn to_text<F: Fn(u64) -> String>(&self, format: &F) -> (text: String)
        requires
            formatting_ok(*format),
        ensures
            forall|render: spec_fn(u64) -> Text| #[trigger]
                formats(*format, render) ==> text@ == value_text(render, self@),
    {
        match self {
            Value::Boolean(truth) => if *truth {
                "true".to_owned()
            } else {
                "false".to_owned()
            },
            Value::Number(bits) => format(*bits),
            Value::String(text) => text.clone(),
            Value::Nil => "nil".to_owned(),
        }
    }
}

/// The message of an evaluation error.
pub open spec fn evaluation_error_text(error: EvaluationError<Text>) -> Text {
    match error {
        EvaluationError::ExpectedNumber => "Operand must be a number."@,
        EvaluationError::WrongPlusOperands => "Operands must be two numbers or two strings."@,
        EvaluationError::UndefinedVariable(name) => "Undefined variable '"@ + name + "'."@,
        EvaluationError::UndeclaredVariable(name) => "Undeclared variable '"@ + name + "'."@,
    }
}

impl EvaluationError<String> {
    /// The message of this error.
    pub fn to_text(&self) -> (text: String)
        ensures
            text@ == evaluation_error_text(self@),
    {
        match self {
            EvaluationError::ExpectedNumber => "Operand must be a number.".to_owned(),
            EvaluationError::WrongPlusOperands => {
                "Operands must be two numbers or two strings.".to_owned()
            },
            EvaluationError::UndefinedVariable(name) => {
                let mut text = "Undefined variable '".to_owned();
                text.append(name.as_str());
                text.append("'.");
                text
            },
            EvaluationError::UndeclaredVariable(name) => {
                let mut text = "Undeclared variable '".to_owned();
                text.append(name.as_str());
                text.append("'.");
                text
            },
        }
    }
}

} // verus!
