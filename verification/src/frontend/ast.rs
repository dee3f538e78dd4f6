//! The abstract syntax tree shared by the parser and the evaluator.

use vstd::prelude::*;

verus! {

broadcast use vstd::std_specs::vec::group_vec_axioms, vstd::seq::group_seq_axioms;

/// The mathematical form of an expression.
pub enum ExpressionView {
    BinaryExpression { left: Box<ExpressionView>, operator: char, right: Box<ExpressionView> },
    Identifier(Seq<char>),
    NumericLiteral(u64),
}

/// The mathematical form of a statement.
pub enum StatementView {
    Expression(ExpressionView),
    Program(ProgramView),
    VariableDeclaration { constant: bool, identifier: Seq<char>, value: Option<ExpressionView> },
}

/// The mathematical form of a program: its statements in source order.
pub struct ProgramView {
    pub body: Seq<StatementView>,
}

/// One of the five binary operator characters.
pub open spec fn is_binary_operator(operator: char) -> bool {
    operator == '+' || operator == '-' || operator == '*' || operator == '/' || operator == '%'
}

impl ExpressionView {
    /// Every operator in the tree is one of the five binary operators.
    pub open spec fn wf(self) -> bool
        decreases self,
    {
        match self {
            ExpressionView::BinaryExpression { left, operator, right } => {
                is_binary_operator(operator) && left.wf() && right.wf()
            },
            ExpressionView::Identifier(_) => true,
            ExpressionView::NumericLiteral(_) => true,
        }
    }
}

impl StatementView {
    /// Every expression held by the statement is well formed.
    pub open spec fn wf(self) -> bool
        decreases self,
    {
        match self {
            StatementView::Expression(e) => e.wf(),
            StatementView::Program(p) => p.wf(),
            StatementView::VariableDeclaration { constant, identifier, value } => match value {
                Some(e) => e.wf(),
                None => !constant,
            },
        }
    }
}

impl ProgramView {
    /// Every statement of the program is well formed.
    pub open spec fn wf(self) -> bool
        decreases self,
    {
        forall|i: int| 0 <= i < self.body.len() ==> (#[trigger] self.body[i]).wf()
    }
}

/// An expression: a numeric literal, an identifier, or a binary expression
/// over two owned operands.
///
/// A numeric literal holds the scanned digit run as an unsigned integer; what
/// number that word denotes is decided by the arithmetic handed to the
/// evaluator.
#[derive(Debug)]
pub enum Expression {
    BinaryExpression { left: Box<Expression>, operator: char, right: Box<Expression> },
    Identifier(String),
    NumericLiteral(u64),
}

/// A statement: a bare expression, a variable declaration, or a whole program
/// treated as one unit.
#[derive(Debug)]
pub enum Statement {
    Expression(Expression),
    Program(Program),
    VariableDeclaration { constant: bool, identifier: String, value: Option<Expression> },
}

/// An ordered sequence of statements; the order is evaluation order.
#[derive(Debug)]
pub struct Program {
    pub body: Vec<Statement>,
}

impl Expression {
    /// The mathematical form of this expression.
    pub open spec fn to_view(self) -> ExpressionView
        decreases self,
    {
        match self {
            Expression::BinaryExpression { left, operator, right } => {
                ExpressionView::BinaryExpression {
                    left: Box::new(left.to_view()),
                    operator,
                    right: Box::new(right.to_view()),
                }
            },
            Expression::Identifier(name) => ExpressionView::Identifier(name@),
            Expression::NumericLiteral(value) => ExpressionView::NumericLiteral(value),
        }
    }
}

impl View for Expression {
    type V = ExpressionView;

    open spec fn view(&self) -> ExpressionView {
        self.to_view()
    }
}

impl Statement {
    /// The mathematical form of this statement.
    pub open spec fn to_view(self) -> StatementView
        decreases self,
    {
        match self {
            Statement::Expression(e) => StatementView::Expression(e.to_view()),
            Statement::Program(p) => StatementView::Program(p.to_view()),
            Statement::VariableDeclaration { constant, identifier, value } => {
                StatementView::VariableDeclaration {
                    constant,
                    identifier: identifier@,
                    value: match value {
                        Some(e) => Some(e.to_view()),
                        None => None,
                    },
                }
            },
        }
    }
}

impl View for Statement {
    type V = StatementView;

    open spec fn view(&self) -> StatementView {
        self.to_view()
    }
}

/// The mathematical forms of a sequence of statements, in order.
pub open spec fn views_of_statements(stmts: Seq<Statement>) -> Seq<StatementView>
    decreases stmts,
{
    if stmts.len() == 0 {
        Seq::empty()
    } else {
        views_of_statements(stmts.subrange(0, stmts.len() - 1)).push(
            stmts[stmts.len() - 1].to_view(),
        )
    }
}

impl Program {
    /// The mathematical form of this program.
    pub open spec fn to_view(self) -> ProgramView
        decreases self,
    {
        ProgramView { body: views_of_statements(self.body@) }
    }
}

/// Compares two expressions by structure.
fn expression_eq(a: &Expression, b: &Expression) -> (r: bool)
    ensures
        r == (a@ == b@),
    decreases *a,
{
    match (a, b) {
        (Expression::NumericLiteral(x), Expression::NumericLiteral(y)) => x == y,
        (Expression::Identifier(x), Expression::Identifier(y)) => crate::text::str_eq(
            x.as_str(),
            y.as_str(),
        ),
        (
            Expression::BinaryExpression { left: left_a, operator: op_a, right: right_a },
            Expression::BinaryExpression { left: left_b, operator: op_b, right: right_b },
        ) => {
            if *op_a == *op_b {
                expression_eq(&**left_a, &**left_b) && expression_eq(&**right_a, &**right_b)
            } else {
                false
            }
        },
        _ => false,
    }
}

/// Compares two statements by structure.
fn statement_eq(a: &Statement, b: &Statement) -> (r: bool)
    ensures
        r == (a@ == b@),
    decreases *a,
{
    match (a, b) {
        (Statement::Expression(x), Statement::Expression(y)) => expression_eq(x, y),
        (Statement::Program(x), Statement::Program(y)) => program_eq(x, y),
        (
            Statement::VariableDeclaration { constant: c_a, identifier: i_a, value: v_a },
            Statement::VariableDeclaration { constant: c_b, identifier: i_b, value: v_b },
        ) => {
            if *c_a == *c_b && crate::text::str_eq(i_a.as_str(), i_b.as_str()) {
                match (v_a, v_b) {
                    (Some(e_a), Some(e_b)) => expression_eq(e_a, e_b),
                    (None, None) => true,
                    _ => false,
                }
            } else {
                false
            }
        },
        _ => false,
    }
}

/// Compares two programs by structure.
fn program_eq(a: &Program, b: &Program) -> (r: bool)
    ensures
        r == (a@ == b@),
    decreases *a,
{
    proof {
        lemma_views_of_statements_index(a.body@);
        lemma_views_of_statements_index(b.body@);
    }
    if a.body.len() != b.body.len() {
        proof {
            assert(a@.body == views_of_statements(a.body@));
            assert(b@.body == views_of_statements(b.body@));
            assert(a@.body.len() != b@.body.len());
        }
        return false;
    }
    let mut i: usize = 0;
    while i < a.body.len()
        invariant
            i <= a.body@.len(),
            a.body@.len() == b.body@.len(),
            forall|k: int|
                0 <= k < i ==> #[trigger] views_of_statements(a.body@)[k] == views_of_statements(
                    b.body@,
                )[k],
            forall|k: int|
                0 <= k < a.body@.len() ==> #[trigger] views_of_statements(a.body@)[k]
                    == a.body@[k].to_view(),
            forall|k: int|
                0 <= k < b.body@.len() ==> #[trigger] views_of_statements(b.body@)[k]
                    == b.body@[k].to_view(),
            views_of_statements(a.body@).len() == a.body@.len(),
            views_of_statements(b.body@).len() == b.body@.len(),
        decreases a.body@.len() - i,
    {
        proof {
            assert(decreases_to!(a.body => a.body[i as int]));
        }
        if !statement_eq(&a.body[i], &b.body[i]) {
            proof {
                assert(a@.body == views_of_statements(a.body@));
                assert(b@.body == views_of_statements(b.body@));
                assert(a@.body[i as int] != b@.body[i as int]);
            }
            return false;
        }
        i += 1;
    }
    proof {
        assert(views_of_statements(a.body@) =~= views_of_statements(b.body@));
        assert(a@.body == views_of_statements(a.body@));
        assert(b@.body == views_of_statements(b.body@));
        assert(a@ == b@);
    }
    true
}

impl PartialEq for Expression {
    /// Structural equality: two expressions are equal when their mathematical
    /// forms are.
    fn eq(&self, other: &Expression) -> (r: bool) {
        expression_eq(self, other)
    }
}

impl vstd::std_specs::cmp::PartialEqSpecImpl for Expression {
    open spec fn obeys_eq_spec() -> bool {
        true
    }

    open spec fn eq_spec(&self, other: &Expression) -> bool {
        self@ == other@
    }
}

impl PartialEq for Statement {
    /// Structural equality: two statements are equal when their mathematical
    /// forms are.
    fn eq(&self, other: &Statement) -> (r: bool) {
        statement_eq(self, other)
    }
}

impl vstd::std_specs::cmp::PartialEqSpecImpl for Statement {
    open spec fn obeys_eq_spec() -> bool {
        true
    }

    open spec fn eq_spec(&self, other: &Statement) -> bool {
        self@ == other@
    }
}

impl PartialEq for Program {
    /// Structural equality: two programs are equal when their mathematical
    /// forms are.
    fn eq(&self, other: &Program) -> (r: bool) {
        program_eq(self, other)
    }
}

impl vstd::std_specs::cmp::PartialEqSpecImpl for Program {
    open spec fn obeys_eq_spec() -> bool {
        true
    }

    open spec fn eq_spec(&self, other: &Program) -> bool {
        self@ == other@
    }
}

/// The mathematical forms line up with the statements, index by index.
pub proof fn lemma_views_of_statements_index(stmts: Seq<Statement>)
    ensures
        views_of_statements(stmts).len() == stmts.len(),
        forall|i: int|
            0 <= i < stmts.len() ==> #[trigger] views_of_statements(stmts)[i] == stmts[i].to_view(),
    decreases stmts.len(),
{
    if stmts.len() > 0 {
        lemma_views_of_statements_index(stmts.subrange(0, stmts.len() - 1));
        assert forall|i: int| 0 <= i < stmts.len() implies #[trigger] views_of_statements(stmts)[i]
            == stmts[i].to_view() by {
            if i < stmts.len() - 1 {
                assert(stmts.subrange(0, stmts.len() - 1)[i] == stmts[i]);
            }
        }
    }
}

/// Appending one statement appends its mathematical form.
pub proof fn lemma_views_of_statements_push(stmts: Seq<Statement>, stmt: Statement)
    ensures
        views_of_statements(stmts.push(stmt)) == views_of_statements(stmts).push(stmt.to_view()),
{
    assert(stmts.push(stmt).subrange(0, stmts.len() as int) =~= stmts);
    assert(views_of_statements(stmts.push(stmt)) =~= views_of_statements(stmts).push(
        stmt.to_view(),
    ));
}

impl View for Program {
    type V = ProgramView;

    open spec fn view(&self) -> ProgramView {
        self.to_view()
    }
}

} // verus!
