//! The tree-walking evaluator: reduces a statement tree to a single value,
//! resolving names through the supplied environment.
//!
//! The evaluator never interprets numeric payloads itself. The caller hands
//! it an arithmetic — a function from [`NumberOp`] to a 64-bit payload — that
//! injects literals and applies the five binary operators; the evaluator is
//! verified against every arithmetic the caller may choose. A session that
//! wants IEEE-754 doubles supplies a closure over their bit patterns; a test
//! that wants plain integers supplies integer operations.

use vstd::prelude::*;

use crate::frontend::ast::Expression;
use crate::frontend::ast::ExpressionView;
use crate::frontend::ast::Statement;
use crate::frontend::ast::StatementView;
use crate::frontend::ast::lemma_views_of_statements_index;
use crate::frontend::ast::views_of_statements;
use crate::runtime::environment::Environment;
use crate::runtime::environment::ScopeView;
use crate::runtime::environment::spec_declare_scope;
use crate::runtime::environment::spec_lookup;
use crate::runtime::values::RuntimeError;
use crate::runtime::values::RuntimeErrorView;
use crate::runtime::values::RuntimeValue;

verus! {

broadcast use vstd::seq::group_seq_axioms, vstd::std_specs::vec::group_vec_axioms;

/// One request to the caller-supplied arithmetic: inject a scanned literal,
/// or apply a binary operator to two numeric payloads.
#[derive(Clone, Copy, Debug, PartialEq, Eq, Structural)]
pub enum NumberOp {
    /// The integer value of a numeric literal's digit run.
    Literal(u64),
    /// An operator from `{+,-,*,/,%}` and the payloads of its two operands.
    Binary(char, u64, u64),
}

/// The supplied arithmetic accepts every request.
pub open spec fn arith_total<F: Fn(NumberOp) -> u64>(arith: F) -> bool {
    forall|op: NumberOp| #[trigger] call_requires(arith, (op,))
}

/// The supplied arithmetic agrees with the mathematical function `f`: every
/// value it may return for a request is `f` of that request.
pub open spec fn arith_model<F: Fn(NumberOp) -> u64>(arith: F, f: spec_fn(NumberOp) -> u64) -> bool {
    forall|op: NumberOp, r: u64| #[trigger] call_ensures(arith, (op,), r) ==> r == f(op)
}

/// The value of an expression under an arithmetic `f`: literals and binary
/// operators go to `f`; identifiers are resolved in the scope chain; both
/// operands of a binary expression must be numbers, the left evaluated first.
pub open spec fn spec_eval_expression(
    e: ExpressionView,
    scopes: Seq<ScopeView>,
    f: spec_fn(NumberOp) -> u64,
) -> Result<RuntimeValue, RuntimeErrorView>
    decreases e,
{
    match e {
        ExpressionView::NumericLiteral(n) => Ok(RuntimeValue::Number(f(NumberOp::Literal(n)))),
        ExpressionView::Identifier(name) => match spec_lookup(scopes, name) {
            Some(v) => Ok(v),
            None => Err(RuntimeErrorView::UndeclaredVariable(name)),
        },
        ExpressionView::BinaryExpression { left, operator, right } => match spec_eval_expression(
            *left,
            scopes,
            f,
        ) {
            Ok(left_value) => match spec_eval_expression(*right, scopes, f) {
                Ok(right_value) => match (left_value, right_value) {
                    (RuntimeValue::Number(a), RuntimeValue::Number(b)) => Ok(
                        RuntimeValue::Number(f(NumberOp::Binary(operator, a, b))),
                    ),
                    _ => Err(RuntimeErrorView::NonNumericOperands),
                },
                Err(e) => Err(e),
            },
            Err(e) => Err(e),
        },
    }
}

/// The value of a statement under an arithmetic `f`, with the scope chain it
/// leaves behind — also on an error, since evaluation stops where the error
/// was raised.
pub open spec fn spec_eval_statement(
    s: StatementView,
    scopes: Seq<ScopeView>,
    f: spec_fn(NumberOp) -> u64,
) -> Result<(RuntimeValue, Seq<ScopeView>), (RuntimeErrorView, Seq<ScopeView>)>
    decreases s,
{
    match s {
        StatementView::Expression(e) => match spec_eval_expression(e, scopes, f) {
            Ok(v) => Ok((v, scopes)),
            Err(err) => Err((err, scopes)),
        },
        StatementView::Program(p) => spec_eval_statements(p.body, scopes, RuntimeValue::Null, f),
        StatementView::VariableDeclaration { constant, identifier, value } => {
            let initial = match value {
                Some(e) => spec_eval_expression(e, scopes, f),
                None => Ok(RuntimeValue::Null),
            };
            match initial {
                Ok(v) => match spec_declare_scope(scopes[0], identifier, v, constant) {
                    Ok(scope) => Ok((v, scopes.update(0, scope))),
                    Err(err) => Err((err, scopes)),
                },
                Err(err) => Err((err, scopes)),
            }
        },
    }
}

/// Statements evaluated in order; the value of the whole run is the value of
/// its last statement, `last` when no statement is left.
pub open spec fn spec_eval_statements(
    stmts: Seq<StatementView>,
    scopes: Seq<ScopeView>,
    last: RuntimeValue,
    f: spec_fn(NumberOp) -> u64,
) -> Result<(RuntimeValue, Seq<ScopeView>), (RuntimeErrorView, Seq<ScopeView>)>
    decreases stmts,
{
    if stmts.len() == 0 {
        Ok((last, scopes))
    } else {
        match spec_eval_statement(stmts[0], scopes, f) {
            Ok((v, next)) => spec_eval_statements(
                stmts.subrange(1, stmts.len() as int),
                next,
                v,
                f,
            ),
            Err(e) => Err(e),
        }
    }
}

/// Asks the supplied arithmetic for one payload.
fn apply_arith<F: Fn(NumberOp) -> u64>(arith: &F, op: NumberOp) -> (r: u64)
    requires
        arith_total(*arith),
    ensures
        forall|f: spec_fn(NumberOp) -> u64| #[trigger] arith_model(*arith, f) ==> r == f(op),
{
    (*arith)(op)
}

/// Evaluates one expression. Expressions never mutate the environment: the
/// language has no assignment expression.
fn eval_expression<F: Fn(NumberOp) -> u64>(
    expression: &Expression,
    environment: &Environment,
    arith: &F,
) -> (r: Result<RuntimeValue, RuntimeError>)
    requires
        environment.wf(),
        expression@.wf(),
        arith_total(*arith),
    ensures
        forall|f: spec_fn(NumberOp) -> u64| #[trigger] arith_model(*arith, f)
            ==> match spec_eval_expression(expression@, environment@, f) {
            Ok(v) => r matches Ok(value) && value == v,
            Err(e) => r matches Err(err) && err@ == e,
        },
    decreases *expression,
{
    match expression {
        Expression::NumericLiteral(value) => {
            let n = apply_arith(arith, NumberOp::Literal(*value));
            Ok(RuntimeValue::Number(n))
        },
        Expression::Identifier(name) => environment.lookup_variable(name.as_str()),
        Expression::BinaryExpression { left, operator, right } => {
            let left_value = match eval_expression(&**left, environment, arith) {
                Ok(v) => v,
                Err(e) => {
                    return Err(e);
                },
            };
            let right_value = match eval_expression(&**right, environment, arith) {
                Ok(v) => v,
                Err(e) => {
                    return Err(e);
                },
            };
            match (left_value, right_value) {
                (RuntimeValue::Number(a), RuntimeValue::Number(b)) => {
                    let n = apply_arith(arith, NumberOp::Binary(*operator, a, b));
                    Ok(RuntimeValue::Number(n))
                },
                _ => Err(RuntimeError::NonNumericOperands),
            }
        },
    }
}

/// Evaluates one statement against the environment.
#[verifier::loop_isolation(false)]
fn eval_statement<F: Fn(NumberOp) -> u64>(
    statement: &Statement,
    environment: &mut Environment,
    arith: &F,
) -> (r: Result<RuntimeValue, RuntimeError>)
    requires
        old(environment).wf(),
        statement@.wf(),
        arith_total(*arith),
    ensures
        final(environment).wf(),
        forall|f: spec_fn(NumberOp) -> u64| #[trigger] arith_model(*arith, f)
            ==> match spec_eval_statement(statement@, old(environment)@, f) {
            Ok(p) => r matches Ok(v) && v == p.0 && final(environment)@ == p.1,
            Err(p) => r matches Err(err) && err@ == p.0 && final(environment)@ == p.1,
        },
    decreases *statement,
{
    match statement {
        Statement::Expression(expression) => eval_expression(expression, environment, arith),
        Statement::Program(program) => {
            let ghost body_views = views_of_statements(program.body@);
            proof {
                lemma_views_of_statements_index(program.body@);
                assert(statement@ == StatementView::Program(program.to_view()));
                assert(program.to_view().body == body_views);
                assert(body_views.subrange(0, body_views.len() as int) =~= body_views);
                assert(program.to_view().wf());
                assert forall|k: int| 0 <= k < body_views.len() implies #[trigger] body_views[k].wf() by {
                    reveal_with_fuel(crate::frontend::ast::ProgramView::wf, 2);
                    let pv = program.to_view();
                    assert(pv.wf());
                    assert(0 <= k < pv.body.len());
                    assert(pv.body[k] == body_views[k]);
                    assert(pv.body[k].wf());
                }
            }
            let mut last = RuntimeValue::Null;
            let mut i: usize = 0;
            while i < program.body.len()
                invariant
                    i <= program.body@.len(),
                    environment.wf(),
                    statement@.wf(),
                    arith_total(*arith),
                    body_views == views_of_statements(program.body@),
                    body_views.len() == program.body@.len(),
                    forall|k: int|
                        0 <= k < program.body@.len() ==> #[trigger] body_views[k]
                            == program.body@[k].to_view(),
                    forall|f: spec_fn(NumberOp) -> u64| #[trigger] arith_model(*arith, f)
                        ==> spec_eval_statements(body_views, old(environment)@, RuntimeValue::Null, f)
                        == spec_eval_statements(
                        body_views.subrange(i as int, body_views.len() as int),
                        environment@,
                        last,
                        f,
                    ),
                decreases program.body@.len() - i,
            {
                let ghost scopes_before = environment@;
                let ghost last_before = last;
                proof {
                    assert(decreases_to!(program.body => program.body[i as int]));
                    assert(body_views[i as int].wf());
                }
                let result = eval_statement(&program.body[i], environment, arith);
                match result {
                    Ok(v) => {
                        last = v;
                    },
                    Err(e) => {
                        proof {
                            assert forall|f: spec_fn(NumberOp) -> u64|
                                #[trigger] arith_model(*arith, f) implies spec_eval_statement(
                                statement@,
                                old(environment)@,
                                f,
                            ) matches Err(p) && e@ == p.0 && environment@ == p.1 by {
                                assert(body_views.subrange(i as int, body_views.len() as int)[0]
                                    == body_views[i as int]);
                                assert(spec_eval_statements(
                                    body_views.subrange(i as int, body_views.len() as int),
                                    scopes_before,
                                    last_before,
                                    f,
                                ) == Err::<(RuntimeValue, Seq<ScopeView>), _>((e@, environment@)));
                            }
                        }
                        return Err(e);
                    },
                }
                i += 1;
                proof {
                    assert forall|f: spec_fn(NumberOp) -> u64|
                        #[trigger] arith_model(*arith, f) implies spec_eval_statements(
                        body_views,
                        old(environment)@,
                        RuntimeValue::Null,
                        f,
                    ) == spec_eval_statements(
                        body_views.subrange(i as int, body_views.len() as int),
                        environment@,
                        last,
                        f,
                    ) by {
                        let tail = body_views.subrange(i - 1, body_views.len() as int);
                        assert(tail[0] == body_views[i - 1]);
                        assert(tail.subrange(1, tail.len() as int) =~= body_views.subrange(
                            i as int,
                            body_views.len() as int,
                        ));
                    }
                }
            }
            proof {
                assert(body_views.subrange(
                    body_views.len() as int,
                    body_views.len() as int,
                ) =~= Seq::<StatementView>::empty());
            }
            Ok(last)
        },
        Statement::VariableDeclaration { constant, identifier, value } => {
            let initial = match value {
                Some(expression) => {
                    match eval_expression(expression, environment, arith) {
                        Ok(v) => v,
                        Err(e) => {
                            return Err(e);
                        },
                    }
                },
                None => RuntimeValue::Null,
            };
            environment.declare_variable(identifier.clone(), initial, *constant)
        },
    }
}

/// Evaluates one statement — commonly a whole program — against the
/// environment, with the arithmetic that interprets numeric payloads supplied
/// by the caller.
///
/// For every mathematical function `f` the supplied arithmetic agrees with,
/// the result and the final scope chain are exactly those of the mathematical
/// evaluation under `f`; a caller that supplies a deterministic arithmetic
/// therefore knows the outcome exactly.
pub fn evaluate<F: Fn(NumberOp) -> u64>(
    ast_node: Statement,
    environment: &mut Environment,
    arith: &F,
) -> (r: Result<RuntimeValue, RuntimeError>)
    requires
        old(environment).wf(),
        ast_node@.wf(),
        arith_total(*arith),
    ensures
        final(environment).wf(),
        forall|f: spec_fn(NumberOp) -> u64| #[trigger] arith_model(*arith, f)
            ==> match spec_eval_statement(ast_node@, old(environment)@, f) {
            Ok(p) => r matches Ok(v) && v == p.0 && final(environment)@ == p.1,
            Err(p) => r matches Err(err) && err@ == p.0 && final(environment)@ == p.1,
        },
{
    eval_statement(&ast_node, environment, arith)
}

/// Declaring a name and then evaluating that identifier in the environment
/// the declaration left behind yields the declared value.
pub proof fn lemma_declare_then_evaluate(
    name: Seq<char>,
    e: ExpressionView,
    scopes: Seq<ScopeView>,
    constant: bool,
    f: spec_fn(NumberOp) -> u64,
)
    requires
        scopes.len() > 0,
        !scopes[0].bindings.contains_key(name),
        spec_eval_expression(e, scopes, f) is Ok,
    ensures
        ({
            let v = spec_eval_expression(e, scopes, f)->Ok_0;
            let declaration = StatementView::VariableDeclaration {
                constant,
                identifier: name,
                value: Some(e),
            };
            spec_eval_statement(declaration, scopes, f) matches Ok(p) && p.0 == v
                && spec_eval_expression(ExpressionView::Identifier(name), p.1, f) == Ok::<
                RuntimeValue,
                RuntimeErrorView,
            >(v)
        }),
{
    let v = spec_eval_expression(e, scopes, f)->Ok_0;
    crate::runtime::environment::lemma_declare_then_lookup(scopes, name, v, constant);
}

/// Evaluating `a op b` over two numeric literals yields a number: the
/// supplied arithmetic's result for `op` on the payloads it gave the two
/// literals, whatever the environment.
pub proof fn lemma_binary_literals_apply_arithmetic(
    a: u64,
    op: char,
    b: u64,
    scopes: Seq<ScopeView>,
    f: spec_fn(NumberOp) -> u64,
)
    ensures
        spec_eval_expression(
            ExpressionView::BinaryExpression {
                left: Box::new(ExpressionView::NumericLiteral(a)),
                operator: op,
                right: Box::new(ExpressionView::NumericLiteral(b)),
            },
            scopes,
            f,
        ) == Ok::<RuntimeValue, RuntimeErrorView>(
            RuntimeValue::Number(
                f(NumberOp::Binary(op, f(NumberOp::Literal(a)), f(NumberOp::Literal(b)))),
            ),
        ),
{
    assert(spec_eval_expression(ExpressionView::NumericLiteral(a), scopes, f)
        == Ok::<RuntimeValue, RuntimeErrorView>(RuntimeValue::Number(f(NumberOp::Literal(a)))));
    assert(spec_eval_expression(ExpressionView::NumericLiteral(b), scopes, f)
        == Ok::<RuntimeValue, RuntimeErrorView>(RuntimeValue::Number(f(NumberOp::Literal(b)))));
}

} // verus!
