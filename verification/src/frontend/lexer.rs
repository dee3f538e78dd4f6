//! The scanner: one left-to-right pass over the source text, producing a
//! token stream that always ends with an end-of-input marker.
//!
//! Structural characters, operator characters and the assignment sign become
//! single fixed tokens; whitespace is skipped; a digit starts a maximal run of
//! digits kept as its raw substring; an alphabetic character starts a maximal
//! run of letters, matched against the reserved keywords. Any other character
//! stops the scan with an unsupported-character error.

use vstd::prelude::*;

use crate::text::str_eq;

verus! {

broadcast use vstd::seq::group_seq_axioms;

/// One lexical unit of source text. Numeric literals and identifiers keep
/// their exact source substring.
#[derive(Debug)]
pub enum Token {
    Number(String),
    Identifier(String),
    Equals,
    Let,
    Const,
    OpenParen,
    CloseParen,
    BinaryOperator(char),
    EndOfFile,
    Semicolon,
}

/// The mathematical form of a token.
pub enum TokenView {
    Number(Seq<char>),
    Identifier(Seq<char>),
    Equals,
    Let,
    Const,
    OpenParen,
    CloseParen,
    BinaryOperator(char),
    EndOfFile,
    Semicolon,
}

impl View for Token {
    type V = TokenView;

    open spec fn view(&self) -> TokenView {
        match self {
            Token::Number(digits) => TokenView::Number(digits@),
            Token::Identifier(name) => TokenView::Identifier(name@),
            Token::Equals => TokenView::Equals,
            Token::Let => TokenView::Let,
            Token::Const => TokenView::Const,
            Token::OpenParen => TokenView::OpenParen,
            Token::CloseParen => TokenView::CloseParen,
            Token::BinaryOperator(operator) => TokenView::BinaryOperator(*operator),
            Token::EndOfFile => TokenView::EndOfFile,
            Token::Semicolon => TokenView::Semicolon,
        }
    }
}

/// The mathematical forms of a sequence of tokens, in order.
pub open spec fn views_of_tokens(tokens: Seq<Token>) -> Seq<TokenView> {
    tokens.map_values(|t: Token| t@)
}

/// A character the scanner skips.
pub open spec fn is_whitespace_char(c: char) -> bool {
    c == ' ' || c == '\n' || c == '\t'
}

/// A decimal digit.
pub open spec fn is_digit_char(c: char) -> bool {
    '0' as u32 <= c as u32 && c as u32 <= '9' as u32
}

/// An ASCII letter.
pub open spec fn is_alpha_char(c: char) -> bool {
    ('a' as u32 <= c as u32 && c as u32 <= 'z' as u32) || ('A' as u32 <= c as u32 && c as u32
        <= 'Z' as u32)
}

/// One of the five binary operator characters.
pub open spec fn is_operator_char(c: char) -> bool {
    c == '+' || c == '-' || c == '*' || c == '/' || c == '%'
}

/// The end of the maximal run of digits that starts at `i`.
pub open spec fn digit_run_end(s: Seq<char>, i: int) -> int
    decreases s.len() - i,
{
    if 0 <= i < s.len() && is_digit_char(s[i]) {
        digit_run_end(s, i + 1)
    } else {
        i
    }
}

/// The end of the maximal run of letters that starts at `i`.
pub open spec fn alpha_run_end(s: Seq<char>, i: int) -> int
    decreases s.len() - i,
{
    if 0 <= i < s.len() && is_alpha_char(s[i]) {
        alpha_run_end(s, i + 1)
    } else {
        i
    }
}

/// The token a maximal run of letters denotes: a reserved keyword or an
/// identifier.
pub open spec fn keyword_or_identifier(word: Seq<char>) -> TokenView {
    if word == "let"@ {
        TokenView::Let
    } else if word == "const"@ {
        TokenView::Const
    } else {
        TokenView::Identifier(word)
    }
}

/// Prepends one token to a scan result, keeping an error as it is.
pub open spec fn prepend_token(token: TokenView, rest: Result<Seq<TokenView>, char>) -> Result<
    Seq<TokenView>,
    char,
> {
    match rest {
        Ok(tokens) => Ok(seq![token] + tokens),
        Err(c) => Err(c),
    }
}

/// The tokens of the source text from position `i` on, or the first
/// unsupported character at or after `i`.
pub open spec fn spec_tokenize_from(s: Seq<char>, i: int) -> Result<Seq<TokenView>, char>
    decreases s.len() - i,
{
    if !(0 <= i < s.len()) {
        Ok(seq![TokenView::EndOfFile])
    } else {
        let c = s[i];
        if c == '(' {
            prepend_token(TokenView::OpenParen, spec_tokenize_from(s, i + 1))
        } else if c == ')' {
            prepend_token(TokenView::CloseParen, spec_tokenize_from(s, i + 1))
        } else if c == ';' {
            prepend_token(TokenView::Semicolon, spec_tokenize_from(s, i + 1))
        } else if is_operator_char(c) {
            prepend_token(TokenView::BinaryOperator(c), spec_tokenize_from(s, i + 1))
        } else if c == '=' {
            prepend_token(TokenView::Equals, spec_tokenize_from(s, i + 1))
        } else if is_whitespace_char(c) {
            spec_tokenize_from(s, i + 1)
        } else if is_digit_char(c) {
            let j = digit_run_end(s, i);
            if i < j <= s.len() {
                prepend_token(TokenView::Number(s.subrange(i, j)), spec_tokenize_from(s, j))
            } else {
                Err(c)
            }
        } else if is_alpha_char(c) {
            let j = alpha_run_end(s, i);
            if i < j <= s.len() {
                prepend_token(keyword_or_identifier(s.subrange(i, j)), spec_tokenize_from(s, j))
            } else {
                Err(c)
            }
        } else {
            Err(c)
        }
    }
}

/// The tokens of the whole source text, or its first unsupported character.
pub open spec fn spec_tokenize(s: Seq<char>) -> Result<Seq<TokenView>, char> {
    spec_tokenize_from(s, 0)
}

/// The end of a digit run lies between its start and the end of the text.
proof fn lemma_digit_run_end_bounds(s: Seq<char>, i: int)
    requires
        0 <= i <= s.len(),
    ensures
        i <= digit_run_end(s, i) <= s.len(),
    decreases s.len() - i,
{
    if i < s.len() && is_digit_char(s[i]) {
        lemma_digit_run_end_bounds(s, i + 1);
    }
}

/// The end of a letter run lies between its start and the end of the text.
proof fn lemma_alpha_run_end_bounds(s: Seq<char>, i: int)
    requires
        0 <= i <= s.len(),
    ensures
        i <= alpha_run_end(s, i) <= s.len(),
    decreases s.len() - i,
{
    if i < s.len() && is_alpha_char(s[i]) {
        lemma_alpha_run_end_bounds(s, i + 1);
    }
}

/// Why a scan stopped: the source held a character outside the language.
#[derive(Debug)]
pub enum LexicalError {
    UnsupportedCharacter(char),
}

impl View for LexicalError {
    type V = char;

    open spec fn view(&self) -> char {
        match self {
            LexicalError::UnsupportedCharacter(c) => *c,
        }
    }
}

/// One scan step: consuming the token that starts at `i` and ends at `j`
/// carries the running equation of the scan loop from `i` to `j`.
proof fn lemma_scan_step(
    s: Seq<char>,
    i: int,
    j: int,
    token: TokenView,
    prev: Seq<TokenView>,
    cur: Seq<TokenView>,
)
    requires
        spec_tokenize_from(s, i) == prepend_token(token, spec_tokenize_from(s, j)),
        cur =~= prev.push(token),
    ensures
        (match spec_tokenize_from(s, i) {
            Ok(rest) => Ok::<Seq<TokenView>, char>(prev + rest),
            Err(c) => Err::<Seq<TokenView>, char>(c),
        }) == (match spec_tokenize_from(s, j) {
            Ok(rest) => Ok::<Seq<TokenView>, char>(cur + rest),
            Err(c) => Err::<Seq<TokenView>, char>(c),
        }),
{
    match spec_tokenize_from(s, j) {
        Ok(rest) => {
            assert(prev + (seq![token] + rest) =~= cur + rest);
        },
        Err(_) => {},
    }
}

/// Scans the source text into its token sequence, always terminated by the
/// end-of-input token; stops at the first unsupported character.
pub fn tokenize(source: &str) -> (r: Result<Vec<Token>, LexicalError>)
    ensures
        match r {
            Ok(tokens) => spec_tokenize(source@) == Ok::<Seq<TokenView>, char>(
                views_of_tokens(tokens@),
            ),
            Err(e) => spec_tokenize(source@) == Err::<Seq<TokenView>, char>(e@),
        },
{
    let mut tokens: Vec<Token> = Vec::new();
    let length = source.unicode_len();
    let mut i: usize = 0;
    while i < length
        invariant
            length == source@.len(),
            i <= length,
            spec_tokenize(source@) == (match spec_tokenize_from(source@, i as int) {
                Ok(rest) => Ok::<Seq<TokenView>, char>(views_of_tokens(tokens@) + rest),
                Err(c) => Err::<Seq<TokenView>, char>(c),
            }),
        decreases length - i,
    {
        let ghost prev = views_of_tokens(tokens@);
        let ghost i0 = i as int;
        let c = source.get_char(i);
        let code = c as u32;
        if c == '(' {
            tokens.push(Token::OpenParen);
            i += 1;
            proof {
                assert(views_of_tokens(tokens@) =~= prev.push(TokenView::OpenParen));
                lemma_scan_step(
                    source@,
                    i0,
                    i as int,
                    TokenView::OpenParen,
                    prev,
                    views_of_tokens(tokens@),
                );
            }
        } else if c == ')' {
            tokens.push(Token::CloseParen);
            i += 1;
            proof {
                assert(views_of_tokens(tokens@) =~= prev.push(TokenView::CloseParen));
                lemma_scan_step(
                    source@,
                    i0,
                    i as int,
                    TokenView::CloseParen,
                    prev,
                    views_of_tokens(tokens@),
                );
            }
        } else if c == ';' {
            tokens.push(Token::Semicolon);
            i += 1;
            proof {
                assert(views_of_tokens(tokens@) =~= prev.push(TokenView::Semicolon));
                lemma_scan_step(
                    source@,
                    i0,
                    i as int,
                    TokenView::Semicolon,
                    prev,
                    views_of_tokens(tokens@),
                );
            }
        } else if c == '+' || c == '-' || c == '*' || c == '/' || c == '%' {
            tokens.push(Token::BinaryOperator(c));
            i += 1;
            proof {
                assert(views_of_tokens(tokens@) =~= prev.push(TokenView::BinaryOperator(c)));
                lemma_scan_step(
                    source@,
                    i0,
                    i as int,
                    TokenView::BinaryOperator(c),
                    prev,
                    views_of_tokens(tokens@),
                );
            }
        } else if c == '=' {
            tokens.push(Token::Equals);
            i += 1;
            proof {
                assert(views_of_tokens(tokens@) =~= prev.push(TokenView::Equals));
                lemma_scan_step(
                    source@,
                    i0,
                    i as int,
                    TokenView::Equals,
                    prev,
                    views_of_tokens(tokens@),
                );
            }
        } else if c == ' ' || c == '\n' || c == '\t' {
            i += 1;
            proof {
                assert(spec_tokenize_from(source@, i0) == spec_tokenize_from(source@, i as int));
            }
        } else if code >= '0' as u32 && code <= '9' as u32 {
            let start = i;
            i += 1;
            while i < length
                invariant_except_break
                    length == source@.len(),
                    start < i <= length,
                    digit_run_end(source@, start as int) == digit_run_end(source@, i as int),
                ensures
                    length == source@.len(),
                    start < i <= length,
                    digit_run_end(source@, start as int) == i,
                decreases length - i,
            {
                let d = source.get_char(i) as u32;
                if !(d >= '0' as u32 && d <= '9' as u32) {
                    proof {
                        assert(digit_run_end(source@, i as int) == i);
                    }
                    break;
                }
                i += 1;
            }
            proof {
                lemma_digit_run_end_bounds(source@, start as int);
            }
            let word = source.substring_char(start, i);
            tokens.push(Token::Number(word.to_owned()));
            proof {
                let token = TokenView::Number(source@.subrange(i0, i as int));
                assert(views_of_tokens(tokens@) =~= prev.push(token));
                lemma_scan_step(source@, i0, i as int, token, prev, views_of_tokens(tokens@));
            }
        } else if (code >= 'a' as u32 && code <= 'z' as u32) || (code >= 'A' as u32 && code
            <= 'Z' as u32) {
            let start = i;
            i += 1;
            while i < length
                invariant_except_break
                    length == source@.len(),
                    start < i <= length,
                    alpha_run_end(source@, start as int) == alpha_run_end(source@, i as int),
                ensures
                    length == source@.len(),
                    start < i <= length,
                    alpha_run_end(source@, start as int) == i,
                decreases length - i,
            {
                let d = source.get_char(i) as u32;
                if !((d >= 'a' as u32 && d <= 'z' as u32) || (d >= 'A' as u32 && d <= 'Z' as u32)) {
                    proof {
                        assert(alpha_run_end(source@, i as int) == i);
                    }
                    break;
                }
                i += 1;
            }
            proof {
                lemma_alpha_run_end_bounds(source@, start as int);
            }
            let word = source.substring_char(start, i);
            if str_eq(word, "let") {
                tokens.push(Token::Let);
            } else if str_eq(word, "const") {
                tokens.push(Token::Const);
            } else {
                tokens.push(Token::Identifier(word.to_owned()));
            }
            proof {
                let token = keyword_or_identifier(source@.subrange(i0, i as int));
                assert(views_of_tokens(tokens@) =~= prev.push(token));
                lemma_scan_step(source@, i0, i as int, token, prev, views_of_tokens(tokens@));
            }
        } else {
            proof {
                assert(spec_tokenize_from(source@, i as int) == Err::<Seq<TokenView>, char>(c));
            }
            return Err(LexicalError::UnsupportedCharacter(c));
        }
    }
    let ghost before = tokens@;
    tokens.push(Token::EndOfFile);
    proof {
        assert(spec_tokenize_from(source@, i as int) == Ok::<Seq<TokenView>, char>(
            seq![TokenView::EndOfFile],
        ));
        assert(views_of_tokens(tokens@) =~= views_of_tokens(before) + seq![TokenView::EndOfFile]);
    }
    Ok(tokens)
}

} // verus!
