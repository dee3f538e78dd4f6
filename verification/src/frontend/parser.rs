//! The recursive-descent parser: tokenizes once, then consumes the token
//! stream through a single-token-lookahead cursor, building statements in
//! source order. Precedence is explicit in the grammar: additive expressions
//! are built over multiplicative ones, which are built over primary ones, and
//! repetition folds to the left, so `a - b - c` parses as `(a - b) - c`.

use vstd::prelude::*;

use crate::frontend::ast::Expression;
use crate::frontend::ast::ExpressionView;
use crate::frontend::ast::Program;
use crate::frontend::ast::ProgramView;
use crate::frontend::ast::Statement;
use crate::frontend::ast::StatementView;
use crate::frontend::ast::lemma_views_of_statements_push;
use crate::frontend::ast::views_of_statements;
use crate::frontend::lexer::LexicalError;
use crate::frontend::lexer::Token;
use crate::frontend::lexer::TokenView;
use crate::frontend::lexer::is_digit_char;
use crate::frontend::lexer::spec_tokenize;
use crate::frontend::lexer::tokenize;
use crate::frontend::lexer::views_of_tokens;

verus! {

broadcast use vstd::seq::group_seq_axioms;

/// Why a parse stopped: the mathematical form that contracts speak of.
pub enum ParseErrorView {
    /// The source held a character outside the language.
    UnsupportedCharacter(char),
    /// No rule for the token in primary position.
    UnexpectedToken(TokenView),
    /// A parenthesized expression was not closed; the token found instead.
    ExpectedCloseParen(TokenView),
    /// A declaration keyword was not followed by an identifier.
    ExpectedIdentifier(TokenView),
    /// A declared identifier was followed by neither `;` nor `=`.
    ExpectedSemicolonOrEquals(TokenView),
    /// A constant declaration had no initializer.
    ConstantWithoutValue,
    /// A numeric literal does not fit the literal payload.
    NumberTooLarge(Seq<char>),
}

/// Why a parse stopped. Each variant that concerns a token carries the
/// offending token.
#[derive(Debug)]
pub enum ParseError {
    UnsupportedCharacter(char),
    UnexpectedToken(Token),
    ExpectedCloseParen(Token),
    ExpectedIdentifier(Token),
    ExpectedSemicolonOrEquals(Token),
    ConstantWithoutValue,
    NumberTooLarge(String),
}

impl View for ParseError {
    type V = ParseErrorView;

    open spec fn view(&self) -> ParseErrorView {
        match self {
            ParseError::UnsupportedCharacter(c) => ParseErrorView::UnsupportedCharacter(*c),
            ParseError::UnexpectedToken(t) => ParseErrorView::UnexpectedToken(t@),
            ParseError::ExpectedCloseParen(t) => ParseErrorView::ExpectedCloseParen(t@),
            ParseError::ExpectedIdentifier(t) => ParseErrorView::ExpectedIdentifier(t@),
            ParseError::ExpectedSemicolonOrEquals(t) => ParseErrorView::ExpectedSemicolonOrEquals(
                t@,
            ),
            ParseError::ConstantWithoutValue => ParseErrorView::ConstantWithoutValue,
            ParseError::NumberTooLarge(d) => ParseErrorView::NumberTooLarge(d@),
        }
    }
}

/// The token the cursor rests on; past the end it rests on end-of-input.
pub open spec fn token_at(t: Seq<TokenView>, pos: int) -> TokenView {
    if 0 <= pos < t.len() {
        t[pos]
    } else {
        TokenView::EndOfFile
    }
}

/// The numeric value of one digit character.
pub open spec fn digit_of(c: char) -> int {
    if is_digit_char(c) {
        c as u32 - '0' as u32
    } else {
        0
    }
}

/// The numeric value of a run of digits, read in base ten.
pub open spec fn digits_value(digits: Seq<char>) -> int
    decreases digits.len(),
{
    if digits.len() == 0 {
        0
    } else {
        digits_value(digits.drop_last()) * 10 + digit_of(digits.last())
    }
}

/// A primary expression: a numeric literal, an identifier, or a parenthesized
/// expression, which must be closed.
pub open spec fn spec_parse_primary(t: Seq<TokenView>, pos: int) -> Result<
    (ExpressionView, int),
    ParseErrorView,
>
    decreases t.len() - pos, 0int,
{
    match token_at(t, pos) {
        TokenView::Identifier(name) => Ok((ExpressionView::Identifier(name), pos + 1)),
        TokenView::Number(digits) => {
            if digits_value(digits) <= u64::MAX {
                Ok((ExpressionView::NumericLiteral(digits_value(digits) as u64), pos + 1))
            } else {
                Err(ParseErrorView::NumberTooLarge(digits))
            }
        },
        TokenView::OpenParen => match spec_parse_expression(t, pos + 1) {
            Ok((inner, after)) => {
                if token_at(t, after) is CloseParen {
                    Ok((inner, after + 1))
                } else {
                    Err(ParseErrorView::ExpectedCloseParen(token_at(t, after)))
                }
            },
            Err(e) => Err(e),
        },
        token => Err(ParseErrorView::UnexpectedToken(token)),
    }
}

/// Folds further `* / %` operands onto `left`, left-associatively.
pub open spec fn spec_parse_mult_rest(t: Seq<TokenView>, left: ExpressionView, pos: int) -> Result<
    (ExpressionView, int),
    ParseErrorView,
>
    decreases t.len() - pos, 1int,
{
    match token_at(t, pos) {
        TokenView::BinaryOperator(op) => {
            if op == '*' || op == '/' || op == '%' {
                match spec_parse_primary(t, pos + 1) {
                    Ok((right, after)) => {
                        if pos < after && after <= t.len() {
                            spec_parse_mult_rest(
                                t,
                                ExpressionView::BinaryExpression {
                                    left: Box::new(left),
                                    operator: op,
                                    right: Box::new(right),
                                },
                                after,
                            )
                        } else {
                            Err(ParseErrorView::UnexpectedToken(token_at(t, pos)))
                        }
                    },
                    Err(e) => Err(e),
                }
            } else {
                Ok((left, pos))
            }
        },
        _ => Ok((left, pos)),
    }
}

/// A multiplicative expression: primary operands under `* / %`.
pub open spec fn spec_parse_multiplicative(t: Seq<TokenView>, pos: int) -> Result<
    (ExpressionView, int),
    ParseErrorView,
>
    decreases t.len() - pos, 2int,
{
    match spec_parse_primary(t, pos) {
        Ok((left, after)) => {
            if pos <= after && after <= t.len() {
                spec_parse_mult_rest(t, left, after)
            } else {
                Err(ParseErrorView::UnexpectedToken(token_at(t, pos)))
            }
        },
        Err(e) => Err(e),
    }
}

/// Folds further `+ -` operands onto `left`, left-associatively.
pub open spec fn spec_parse_add_rest(t: Seq<TokenView>, left: ExpressionView, pos: int) -> Result<
    (ExpressionView, int),
    ParseErrorView,
>
    decreases t.len() - pos, 3int,
{
    match token_at(t, pos) {
        TokenView::BinaryOperator(op) => {
            if op == '+' || op == '-' {
                match spec_parse_multiplicative(t, pos + 1) {
                    Ok((right, after)) => {
                        if pos < after && after <= t.len() {
                            spec_parse_add_rest(
                                t,
                                ExpressionView::BinaryExpression {
                                    left: Box::new(left),
                                    operator: op,
                                    right: Box::new(right),
                                },
                                after,
                            )
                        } else {
                            Err(ParseErrorView::UnexpectedToken(token_at(t, pos)))
                        }
                    },
                    Err(e) => Err(e),
                }
            } else {
                Ok((left, pos))
            }
        },
        _ => Ok((left, pos)),
    }
}

/// An additive expression: multiplicative operands under `+ -`.
pub open spec fn spec_parse_additive(t: Seq<TokenView>, pos: int) -> Result<
    (ExpressionView, int),
    ParseErrorView,
>
    decreases t.len() - pos, 4int,
{
    match spec_parse_multiplicative(t, pos) {
        Ok((left, after)) => {
            if pos <= after && after <= t.len() {
                spec_parse_add_rest(t, left, after)
            } else {
                Err(ParseErrorView::UnexpectedToken(token_at(t, pos)))
            }
        },
        Err(e) => Err(e),
    }
}

/// An expression: the lowest-precedence level is additive.
pub open spec fn spec_parse_expression(t: Seq<TokenView>, pos: int) -> Result<
    (ExpressionView, int),
    ParseErrorView,
>
    decreases t.len() - pos, 5int,
{
    spec_parse_additive(t, pos)
}

/// A variable declaration: `let`/`const`, an identifier, then either an
/// immediate terminator (refused for constants) or `=` and an initializer
/// with an optional trailing terminator.
pub open spec fn spec_parse_variable_declaration(t: Seq<TokenView>, pos: int) -> Result<
    (StatementView, int),
    ParseErrorView,
>
    decreases t.len() - pos, 6int,
{
    let constant = token_at(t, pos) is Const;
    match token_at(t, pos + 1) {
        TokenView::Identifier(name) => match token_at(t, pos + 2) {
            TokenView::Semicolon => {
                if constant {
                    Err(ParseErrorView::ConstantWithoutValue)
                } else {
                    Ok(
                        (
                            StatementView::VariableDeclaration {
                                constant: false,
                                identifier: name,
                                value: None,
                            },
                            pos + 3,
                        ),
                    )
                }
            },
            TokenView::Equals => match spec_parse_expression(t, pos + 3) {
                Ok((init, after)) => {
                    let declaration = StatementView::VariableDeclaration {
                        constant,
                        identifier: name,
                        value: Some(init),
                    };
                    if token_at(t, after) is Semicolon {
                        Ok((declaration, after + 1))
                    } else {
                        Ok((declaration, after))
                    }
                },
                Err(e) => Err(e),
            },
            token => Err(ParseErrorView::ExpectedSemicolonOrEquals(token)),
        },
        token => Err(ParseErrorView::ExpectedIdentifier(token)),
    }
}

/// A statement: a variable declaration after `let`/`const`, otherwise an
/// expression statement.
pub open spec fn spec_parse_statement(t: Seq<TokenView>, pos: int) -> Result<
    (StatementView, int),
    ParseErrorView,
>
    decreases t.len() - pos, 7int,
{
    match token_at(t, pos) {
        TokenView::Let => spec_parse_variable_declaration(t, pos),
        TokenView::Const => spec_parse_variable_declaration(t, pos),
        _ => match spec_parse_expression(t, pos) {
            Ok((e, after)) => Ok((StatementView::Expression(e), after)),
            Err(e) => Err(e),
        },
    }
}

/// Statements in source order, until the end-of-input token.
pub open spec fn spec_parse_program_rest(t: Seq<TokenView>, pos: int) -> Result<
    (Seq<StatementView>, int),
    ParseErrorView,
>
    decreases t.len() - pos, 8int,
{
    if token_at(t, pos) is EndOfFile {
        Ok((Seq::empty(), pos))
    } else {
        match spec_parse_statement(t, pos) {
            Ok((stmt, after)) => {
                if pos < after && after <= t.len() {
                    match spec_parse_program_rest(t, after) {
                        Ok((rest, end)) => Ok((seq![stmt] + rest, end)),
                        Err(e) => Err(e),
                    }
                } else {
                    Err(ParseErrorView::UnexpectedToken(token_at(t, pos)))
                }
            },
            Err(e) => Err(e),
        }
    }
}

/// A whole program parsed from a token sequence.
pub open spec fn spec_parse_program(t: Seq<TokenView>) -> Result<ProgramView, ParseErrorView> {
    match spec_parse_program_rest(t, 0) {
        Ok((body, _)) => Ok(ProgramView { body }),
        Err(e) => Err(e),
    }
}

/// A whole program parsed from source text: scan, then parse. A function of
/// the source text alone, so parsing the same text twice yields the same
/// program.
pub open spec fn spec_parse(source: Seq<char>) -> Result<ProgramView, ParseErrorView> {
    match spec_tokenize(source) {
        Ok(tokens) => spec_parse_program(tokens),
        Err(c) => Err(ParseErrorView::UnsupportedCharacter(c)),
    }
}

/// A primary expression the parser accepts is well formed.
pub proof fn lemma_parse_primary_wf(t: Seq<TokenView>, pos: int)
    ensures
        spec_parse_primary(t, pos) matches Ok(p) ==> p.0.wf(),
    decreases t.len() - pos, 0int,
{
    if token_at(t, pos) is OpenParen {
        lemma_parse_expression_wf(t, pos + 1);
    }
}

/// Folding well-formed `* / %` operands onto a well-formed operand stays
/// well formed.
pub proof fn lemma_parse_mult_rest_wf(t: Seq<TokenView>, left: ExpressionView, pos: int)
    requires
        left.wf(),
    ensures
        spec_parse_mult_rest(t, left, pos) matches Ok(p) ==> p.0.wf(),
    decreases t.len() - pos, 1int,
{
    match token_at(t, pos) {
        TokenView::BinaryOperator(op) => {
            if op == '*' || op == '/' || op == '%' {
                lemma_parse_primary_wf(t, pos + 1);
                match spec_parse_primary(t, pos + 1) {
                    Ok((right, after)) => {
                        if pos < after && after <= t.len() {
                            lemma_parse_mult_rest_wf(
                                t,
                                ExpressionView::BinaryExpression {
                                    left: Box::new(left),
                                    operator: op,
                                    right: Box::new(right),
                                },
                                after,
                            );
                        }
                    },
                    Err(_) => {},
                }
            }
        },
        _ => {},
    }
}

/// A multiplicative expression the parser accepts is well formed.
pub proof fn lemma_parse_multiplicative_wf(t: Seq<TokenView>, pos: int)
    ensures
        spec_parse_multiplicative(t, pos) matches Ok(p) ==> p.0.wf(),
    decreases t.len() - pos, 2int,
{
    lemma_parse_primary_wf(t, pos);
    match spec_parse_primary(t, pos) {
        Ok((left, after)) => {
            if pos <= after && after <= t.len() {
                lemma_parse_mult_rest_wf(t, left, after);
            }
        },
        Err(_) => {},
    }
}

/// Folding well-formed `+ -` operands onto a well-formed operand stays well
/// formed.
pub proof fn lemma_parse_add_rest_wf(t: Seq<TokenView>, left: ExpressionView, pos: int)
    requires
        left.wf(),
    ensures
        spec_parse_add_rest(t, left, pos) matches Ok(p) ==> p.0.wf(),
    decreases t.len() - pos, 3int,
{
    match token_at(t, pos) {
        TokenView::BinaryOperator(op) => {
            if op == '+' || op == '-' {
                lemma_parse_multiplicative_wf(t, pos + 1);
                match spec_parse_multiplicative(t, pos + 1) {
                    Ok((right, after)) => {
                        if pos < after && after <= t.len() {
                            lemma_parse_add_rest_wf(
                                t,
                                ExpressionView::BinaryExpression {
                                    left: Box::new(left),
                                    operator: op,
                                    right: Box::new(right),
                                },
                                after,
                            );
                        }
                    },
                    Err(_) => {},
                }
            }
        },
        _ => {},
    }
}

/// An additive expression the parser accepts is well formed.
pub proof fn lemma_parse_additive_wf(t: Seq<TokenView>, pos: int)
    ensures
        spec_parse_additive(t, pos) matches Ok(p) ==> p.0.wf(),
    decreases t.len() - pos, 4int,
{
    lemma_parse_multiplicative_wf(t, pos);
    match spec_parse_multiplicative(t, pos) {
        Ok((left, after)) => {
            if pos <= after && after <= t.len() {
                lemma_parse_add_rest_wf(t, left, after);
            }
        },
        Err(_) => {},
    }
}

/// An expression the parser accepts is well formed.
pub proof fn lemma_parse_expression_wf(t: Seq<TokenView>, pos: int)
    ensures
        spec_parse_expression(t, pos) matches Ok(p) ==> p.0.wf(),
    decreases t.len() - pos, 5int,
{
    lemma_parse_additive_wf(t, pos);
}

/// A variable declaration the parser accepts is well formed: in particular a
/// constant declaration always has an initializer.
pub proof fn lemma_parse_variable_declaration_wf(t: Seq<TokenView>, pos: int)
    ensures
        spec_parse_variable_declaration(t, pos) matches Ok(p) ==> p.0.wf(),
    decreases t.len() - pos, 6int,
{
    if token_at(t, pos + 1) is Identifier && token_at(t, pos + 2) is Equals {
        lemma_parse_expression_wf(t, pos + 3);
    }
}

/// A statement the parser accepts is well formed.
pub proof fn lemma_parse_statement_wf(t: Seq<TokenView>, pos: int)
    ensures
        spec_parse_statement(t, pos) matches Ok(p) ==> p.0.wf(),
    decreases t.len() - pos, 7int,
{
    match token_at(t, pos) {
        TokenView::Let => lemma_parse_variable_declaration_wf(t, pos),
        TokenView::Const => lemma_parse_variable_declaration_wf(t, pos),
        _ => lemma_parse_expression_wf(t, pos),
    }
}

/// Every statement of a program the parser accepts is well formed.
pub proof fn lemma_parse_program_rest_wf(t: Seq<TokenView>, pos: int)
    ensures
        spec_parse_program_rest(t, pos) matches Ok(p) ==> forall|i: int|
            0 <= i < p.0.len() ==> (#[trigger] p.0[i]).wf(),
    decreases t.len() - pos, 8int,
{
    if !(token_at(t, pos) is EndOfFile) {
        lemma_parse_statement_wf(t, pos);
        match spec_parse_statement(t, pos) {
            Ok((stmt, after)) => {
                if pos < after && after <= t.len() {
                    lemma_parse_program_rest_wf(t, after);
                }
            },
            Err(_) => {},
        }
    }
}

/// Whatever the parser accepts is well formed: every operator in the tree is
/// one of the five binary operators, and every constant declaration carries
/// an initializer. A program obtained from [`Parser::produce_ast`] therefore
/// meets the evaluator's demands.
pub proof fn lemma_parse_program_wf(t: Seq<TokenView>)
    ensures
        spec_parse_program(t) matches Ok(p) ==> p.wf(),
{
    lemma_parse_program_rest_wf(t, 0);
}

/// The value of a digit run is never negative.
proof fn lemma_digits_value_nonneg(digits: Seq<char>)
    ensures
        digits_value(digits) >= 0,
    decreases digits.len(),
{
    if digits.len() > 0 {
        lemma_digits_value_nonneg(digits.drop_last());
    }
}

/// The value of a prefix of a digit run never exceeds the value of the run.
proof fn lemma_digits_value_prefix(digits: Seq<char>, i: int)
    requires
        0 <= i <= digits.len(),
    ensures
        digits_value(digits.subrange(0, i)) <= digits_value(digits),
    decreases digits.len() - i,
{
    if i < digits.len() {
        assert(digits.subrange(0, i + 1).drop_last() =~= digits.subrange(0, i));
        assert(digits.subrange(0, i + 1).last() == digits[i]);
        lemma_digits_value_nonneg(digits.subrange(0, i));
        lemma_digits_value_prefix(digits, i + 1);
    } else {
        assert(digits.subrange(0, i) =~= digits);
    }
}

/// Reads a digit run in base ten, refusing values that do not fit the
/// literal payload.
fn digits_to_u64(digits: &String) -> (r: Option<u64>)
    ensures
        match r {
            Some(v) => v == digits_value(digits@) && digits_value(digits@) <= u64::MAX,
            None => digits_value(digits@) > u64::MAX,
        },
{
    let slice = digits.as_str();
    let length = slice.unicode_len();
    let mut acc: u64 = 0;
    let mut i: usize = 0;
    while i < length
        invariant
            slice@ == digits@,
            length == digits@.len(),
            i <= length,
            acc == digits_value(digits@.subrange(0, i as int)),
        decreases length - i,
    {
        let c = slice.get_char(i);
        let code = c as u32;
        let digit: u32 = if code >= 48 && code <= 57 {
            code - 48
        } else {
            0
        };
        proof {
            assert(digits@.subrange(0, i + 1).drop_last() =~= digits@.subrange(0, i as int));
            assert(digits@.subrange(0, i + 1).last() == digits@[i as int]);
            assert(digit == digit_of(digits@[i as int]));
        }
        if acc > (u64::MAX - digit as u64) / 10 {
            proof {
                lemma_digits_value_nonneg(digits@.subrange(0, i as int));
                assert(digits_value(digits@.subrange(0, i + 1)) > u64::MAX) by (nonlinear_arith)
                    requires
                        digits_value(digits@.subrange(0, i + 1)) == digits_value(
                            digits@.subrange(0, i as int),
                        ) * 10 + digit_of(digits@[i as int]),
                        digit_of(digits@[i as int]) == digit as int,
                        digits_value(digits@.subrange(0, i as int)) == acc as int,
                        acc > (u64::MAX - digit as u64) / 10,
                        0 <= digit < 10,
                        acc >= 0,
                ;
                lemma_digits_value_prefix(digits@, i + 1);
            }
            return None;
        }
        proof {
            assert(acc * 10 + digit <= u64::MAX) by (nonlinear_arith)
                requires
                    acc <= (u64::MAX - digit as u64) / 10,
                    0 <= digit < 10,
                    0 <= acc,
            ;
        }
        acc = acc * 10 + digit as u64;
        i += 1;
    }
    proof {
        assert(digits@.subrange(0, length as int) =~= digits@);
    }
    Some(acc)
}

/// Copies one token.
fn clone_token(token: &Token) -> (r: Token)
    ensures
        r@ == token@,
{
    match token {
        Token::Number(digits) => Token::Number(digits.clone()),
        Token::Identifier(name) => Token::Identifier(name.clone()),
        Token::Equals => Token::Equals,
        Token::Let => Token::Let,
        Token::Const => Token::Const,
        Token::OpenParen => Token::OpenParen,
        Token::CloseParen => Token::CloseParen,
        Token::BinaryOperator(op) => Token::BinaryOperator(*op),
        Token::EndOfFile => Token::EndOfFile,
        Token::Semicolon => Token::Semicolon,
    }
}

/// A single-token-lookahead cursor over a scanned token sequence.
#[derive(Debug)]
pub struct Parser {
    tokens: Vec<Token>,
    position: usize,
}

impl Parser {
    /// The scanned tokens, in their mathematical form.
    pub closed spec fn toks(self) -> Seq<TokenView> {
        views_of_tokens(self.tokens@)
    }

    /// The cursor's position in the token sequence.
    pub closed spec fn cursor(self) -> int {
        self.position as int
    }

    /// The cursor never leaves the token sequence.
    pub closed spec fn wf(self) -> bool {
        self.position <= self.tokens@.len()
    }

    /// Scans the source text once; the parser then owns its tokens.
    pub fn new(source_code: &str) -> (r: Result<Parser, ParseError>)
        ensures
            match r {
                Ok(parser) => {
                    &&& parser.wf()
                    &&& parser.cursor() == 0
                    &&& spec_tokenize(source_code@) == Ok::<Seq<TokenView>, char>(parser.toks())
                },
                Err(e) => spec_tokenize(source_code@) matches Err(c) && e@
                    == ParseErrorView::UnsupportedCharacter(c),
            },
    {
        match tokenize(source_code) {
            Ok(tokens) => Ok(Parser { tokens, position: 0 }),
            Err(LexicalError::UnsupportedCharacter(c)) => Err(
                ParseError::UnsupportedCharacter(c),
            ),
        }
    }

    /// The token under the cursor, copied out.
    fn current_token(&self) -> (r: Token)
        requires
            self.wf(),
        ensures
            r@ == token_at(self.toks(), self.cursor()),
            !(r@ is EndOfFile) ==> self.cursor() < self.tokens@.len(),
            self.toks().len() == self.tokens@.len(),
    {
        if self.position < self.tokens.len() {
            clone_token(&self.tokens[self.position])
        } else {
            Token::EndOfFile
        }
    }

    /// Moves the cursor past the token it rests on.
    fn advance(&mut self)
        requires
            old(self).wf(),
            old(self).cursor() < old(self).tokens@.len(),
        ensures
            final(self).wf(),
            final(self).tokens@ == old(self).tokens@,
            final(self).toks() == old(self).toks(),
            final(self).cursor() == old(self).cursor() + 1,
    {
        // Reading the length gives the verifier a machine bound for the cursor.
        let _length = self.tokens.len();
        self.position += 1;
    }

    /// Parses one primary expression.
    fn parse_primary_expression(&mut self) -> (r: Result<Expression, ParseError>)
        requires
            old(self).wf(),
        ensures
            final(self).wf(),
            final(self).toks() == old(self).toks(),
            match r {
                Ok(expr) => {
                    &&& spec_parse_primary(old(self).toks(), old(self).cursor()) == Ok::<
                        (ExpressionView, int),
                        ParseErrorView,
                    >((expr@, final(self).cursor()))
                    &&& old(self).cursor() < final(self).cursor()
                },
                Err(e) => spec_parse_primary(old(self).toks(), old(self).cursor()) == Err::<
                    (ExpressionView, int),
                    ParseErrorView,
                >(e@),
            },
        decreases old(self).tokens@.len() - old(self).position, 0int,
    {
        let token = self.current_token();
        match token {
            Token::Identifier(name) => {
                self.advance();
                Ok(Expression::Identifier(name))
            },
            Token::Number(digits) => {
                self.advance();
                match digits_to_u64(&digits) {
                    Some(value) => Ok(Expression::NumericLiteral(value)),
                    None => Err(ParseError::NumberTooLarge(digits)),
                }
            },
            Token::OpenParen => {
                self.advance();
                let inner = match self.parse_expression() {
                    Ok(e) => e,
                    Err(e) => {
                        return Err(e);
                    },
                };
                let close = self.current_token();
                match close {
                    Token::CloseParen => {
                        self.advance();
                        Ok(inner)
                    },
                    _ => Err(ParseError::ExpectedCloseParen(close)),
                }
            },
            _ => Err(ParseError::UnexpectedToken(token)),
        }
    }

    /// Parses one multiplicative expression, folding `* / %` to the left.
    fn parse_multiplicative_expression(&mut self) -> (r: Result<Expression, ParseError>)
        requires
            old(self).wf(),
        ensures
            final(self).wf(),
            final(self).toks() == old(self).toks(),
            match r {
                Ok(expr) => {
                    &&& spec_parse_multiplicative(old(self).toks(), old(self).cursor()) == Ok::<
                        (ExpressionView, int),
                        ParseErrorView,
                    >((expr@, final(self).cursor()))
                    &&& old(self).cursor() < final(self).cursor()
                },
                Err(e) => spec_parse_multiplicative(old(self).toks(), old(self).cursor()) == Err::<
                    (ExpressionView, int),
                    ParseErrorView,
                >(e@),
            },
        decreases old(self).tokens@.len() - old(self).position, 2int,
    {
        let mut left = match self.parse_primary_expression() {
            Ok(e) => e,
            Err(e) => {
                return Err(e);
            },
        };
        loop
            invariant_except_break
                self.wf(),
                self.toks() == old(self).toks(),
                old(self).cursor() < self.cursor(),
                spec_parse_multiplicative(old(self).toks(), old(self).cursor())
                    == spec_parse_mult_rest(self.toks(), left@, self.cursor()),
            ensures
                self.wf(),
                self.toks() == old(self).toks(),
                old(self).cursor() < self.cursor(),
                spec_parse_multiplicative(old(self).toks(), old(self).cursor()) == Ok::<
                    (ExpressionView, int),
                    ParseErrorView,
                >((left@, self.cursor())),
            decreases self.tokens@.len() - self.position,
        {
            let ghost c = self.cursor();
            let token = self.current_token();
            match token {
                Token::BinaryOperator(op) => {
                    if op == '*' || op == '/' || op == '%' {
                        self.advance();
                        let right = match self.parse_primary_expression() {
                            Ok(e) => e,
                            Err(e) => {
                                return Err(e);
                            },
                        };
                        let ghost left_view = left@;
                        let ghost right_view = right@;
                        left = Expression::BinaryExpression {
                            left: Box::new(left),
                            operator: op,
                            right: Box::new(right),
                        };
                        proof {
                            assert(left@ == ExpressionView::BinaryExpression {
                                left: Box::new(left_view),
                                operator: op,
                                right: Box::new(right_view),
                            });
                        }
                    } else {
                        break;
                    }
                },
                _ => {
                    break;
                },
            }
        }
        Ok(left)
    }

    /// Parses one additive expression, folding `+ -` to the left.
    fn parse_additive_expression(&mut self) -> (r: Result<Expression, ParseError>)
        requires
            old(self).wf(),
        ensures
            final(self).wf(),
            final(self).toks() == old(self).toks(),
            match r {
                Ok(expr) => {
                    &&& spec_parse_additive(old(self).toks(), old(self).cursor()) == Ok::<
                        (ExpressionView, int),
                        ParseErrorView,
                    >((expr@, final(self).cursor()))
                    &&& old(self).cursor() < final(self).cursor()
                },
                Err(e) => spec_parse_additive(old(self).toks(), old(self).cursor()) == Err::<
                    (ExpressionView, int),
                    ParseErrorView,
                >(e@),
            },
        decreases old(self).tokens@.len() - old(self).position, 4int,
    {
        let mut left = match self.parse_multiplicative_expression() {
            Ok(e) => e,
            Err(e) => {
                return Err(e);
            },
        };
        loop
            invariant_except_break
                self.wf(),
                self.toks() == old(self).toks(),
                old(self).cursor() < self.cursor(),
                spec_parse_additive(old(self).toks(), old(self).cursor())
                    == spec_parse_add_rest(self.toks(), left@, self.cursor()),
            ensures
                self.wf(),
                self.toks() == old(self).toks(),
                old(self).cursor() < self.cursor(),
                spec_parse_additive(old(self).toks(), old(self).cursor()) == Ok::<
                    (ExpressionView, int),
                    ParseErrorView,
                >((left@, self.cursor())),
            decreases self.tokens@.len() - self.position,
        {
            let ghost c = self.cursor();
            let token = self.current_token();
            match token {
                Token::BinaryOperator(op) => {
                    if op == '+' || op == '-' {
                        self.advance();
                        let right = match self.parse_multiplicative_expression() {
                            Ok(e) => e,
                            Err(e) => {
                                return Err(e);
                            },
                        };
                        let ghost left_view = left@;
                        let ghost right_view = right@;
                        left = Expression::BinaryExpression {
                            left: Box::new(left),
                            operator: op,
                            right: Box::new(right),
                        };
                        proof {
                            assert(left@ == ExpressionView::BinaryExpression {
                                left: Box::new(left_view),
                                operator: op,
                                right: Box::new(right_view),
                            });
                        }
                    } else {
                        break;
                    }
                },
                _ => {
                    break;
                },
            }
        }
        Ok(left)
    }

    /// Parses one expression; the lowest-precedence level is additive.
    fn parse_expression(&mut self) -> (r: Result<Expression, ParseError>)
        requires
            old(self).wf(),
        ensures
            final(self).wf(),
            final(self).toks() == old(self).toks(),
            match r {
                Ok(expr) => {
                    &&& spec_parse_expression(old(self).toks(), old(self).cursor()) == Ok::<
                        (ExpressionView, int),
                        ParseErrorView,
                    >((expr@, final(self).cursor()))
                    &&& old(self).cursor() < final(self).cursor()
                },
                Err(e) => spec_parse_expression(old(self).toks(), old(self).cursor()) == Err::<
                    (ExpressionView, int),
                    ParseErrorView,
                >(e@),
            },
        decreases old(self).tokens@.len() - old(self).position, 5int,
    {
        self.parse_additive_expression()
    }

    /// Parses one variable declaration, the cursor resting on its keyword.
    fn parse_variable_declaration(&mut self) -> (r: Result<Statement, ParseError>)
        requires
            old(self).wf(),
            token_at(old(self).toks(), old(self).cursor()) is Let || token_at(
                old(self).toks(),
                old(self).cursor(),
            ) is Const,
        ensures
            final(self).wf(),
            final(self).toks() == old(self).toks(),
            match r {
                Ok(stmt) => {
                    &&& spec_parse_variable_declaration(old(self).toks(), old(self).cursor())
                        == Ok::<(StatementView, int), ParseErrorView>((stmt@, final(self).cursor()))
                    &&& old(self).cursor() < final(self).cursor()
                },
                Err(e) => spec_parse_variable_declaration(old(self).toks(), old(self).cursor())
                    == Err::<(StatementView, int), ParseErrorView>(e@),
            },
        decreases old(self).tokens@.len() - old(self).position, 6int,
    {
        let keyword = self.current_token();
        let is_constant = match keyword {
            Token::Const => true,
            _ => false,
        };
        self.advance();
        let name_token = self.current_token();
        let name = match name_token {
            Token::Identifier(name) => name,
            _ => {
                return Err(ParseError::ExpectedIdentifier(name_token));
            },
        };
        self.advance();
        let next = self.current_token();
        match next {
            Token::Semicolon => {
                if is_constant {
                    Err(ParseError::ConstantWithoutValue)
                } else {
                    self.advance();
                    Ok(
                        Statement::VariableDeclaration {
                            constant: false,
                            identifier: name,
                            value: None,
                        },
                    )
                }
            },
            Token::Equals => {
                self.advance();
                let init = match self.parse_expression() {
                    Ok(e) => e,
                    Err(e) => {
                        return Err(e);
                    },
                };
                let declaration = Statement::VariableDeclaration {
                    constant: is_constant,
                    identifier: name,
                    value: Some(init),
                };
                let trailing = self.current_token();
                match trailing {
                    Token::Semicolon => {
                        self.advance();
                        Ok(declaration)
                    },
                    _ => Ok(declaration),
                }
            },
            _ => Err(ParseError::ExpectedSemicolonOrEquals(next)),
        }
    }

    /// Parses one statement.
    fn parse_statement(&mut self) -> (r: Result<Statement, ParseError>)
        requires
            old(self).wf(),
        ensures
            final(self).wf(),
            final(self).toks() == old(self).toks(),
            match r {
                Ok(stmt) => {
                    &&& spec_parse_statement(old(self).toks(), old(self).cursor()) == Ok::<
                        (StatementView, int),
                        ParseErrorView,
                    >((stmt@, final(self).cursor()))
                    &&& old(self).cursor() < final(self).cursor()
                },
                Err(e) => spec_parse_statement(old(self).toks(), old(self).cursor()) == Err::<
                    (StatementView, int),
                    ParseErrorView,
                >(e@),
            },
        decreases old(self).tokens@.len() - old(self).position, 7int,
    {
        let token = self.current_token();
        match token {
            Token::Let => self.parse_variable_declaration(),
            Token::Const => self.parse_variable_declaration(),
            _ => match self.parse_expression() {
                Ok(e) => Ok(Statement::Expression(e)),
                Err(e) => Err(e),
            },
        }
    }

    /// Parses statements in source order until the end-of-input token, and
    /// returns them as one program.
    pub fn produce_ast(&mut self) -> (r: Result<Program, ParseError>)
        requires
            old(self).wf(),
        ensures
            final(self).wf(),
            final(self).toks() == old(self).toks(),
            match r {
                Ok(program) => spec_parse_program_rest(old(self).toks(), old(self).cursor())
                    == Ok::<(Seq<StatementView>, int), ParseErrorView>(
                    (program@.body, final(self).cursor()),
                ),
                Err(e) => spec_parse_program_rest(old(self).toks(), old(self).cursor()) == Err::<
                    (Seq<StatementView>, int),
                    ParseErrorView,
                >(e@),
            },
    {
        let mut body: Vec<Statement> = Vec::new();
        loop
            invariant_except_break
                self.wf(),
                self.toks() == old(self).toks(),
                old(self).cursor() <= self.cursor(),
                spec_parse_program_rest(old(self).toks(), old(self).cursor()) == (
                match spec_parse_program_rest(self.toks(), self.cursor()) {
                    Ok(p) => Ok::<(Seq<StatementView>, int), ParseErrorView>(
                        (views_of_statements(body@) + p.0, p.1),
                    ),
                    Err(e) => Err::<(Seq<StatementView>, int), ParseErrorView>(e),
                }),
            ensures
                self.wf(),
                self.toks() == old(self).toks(),
                spec_parse_program_rest(old(self).toks(), old(self).cursor()) == Ok::<
                    (Seq<StatementView>, int),
                    ParseErrorView,
                >((views_of_statements(body@), self.cursor())),
            decreases self.tokens@.len() - self.position,
        {
            let token = self.current_token();
            match token {
                Token::EndOfFile => {
                    proof {
                        assert(spec_parse_program_rest(self.toks(), self.cursor()) == Ok::<
                            (Seq<StatementView>, int),
                            ParseErrorView,
                        >((Seq::empty(), self.cursor())));
                        assert(views_of_statements(body@) + Seq::<StatementView>::empty()
                            =~= views_of_statements(body@));
                    }
                    break;
                },
                _ => {
                    let ghost c = self.cursor();
                    let stmt = match self.parse_statement() {
                        Ok(s) => s,
                        Err(e) => {
                            return Err(e);
                        },
                    };
                    let ghost prev = body@;
                    let ghost stmt_view = stmt@;
                    body.push(stmt);
                    proof {
                        lemma_views_of_statements_push(prev, body@.last());
                        if spec_parse_program_rest(self.toks(), self.cursor()) is Ok {
                            let p = spec_parse_program_rest(self.toks(), self.cursor())->Ok_0;
                            assert(views_of_statements(prev) + (seq![stmt_view] + p.0)
                                =~= views_of_statements(body@) + p.0);
                        }
                    }
                },
            }
        }
        Ok(Program { body })
    }
}

} // verus!
