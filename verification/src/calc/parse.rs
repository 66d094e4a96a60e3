//! Lexing and parsing of expression text.
//!
//! The lexer splits the text into number literals, duration literals, the
//! four operators and parentheses, skipping whitespace.  A numeric run is a
//! duration exactly when it carries a `:` or `s` mark; otherwise it is a
//! plain number.  The parser is recursive descent with the usual precedence:
//! addition and subtraction bind loosest, then multiplication and division,
//! then unary negation, then literals and parentheses.

use vstd::prelude::*;
use crate::dec::{is_digit_char, all_digits, Decimal, spec_from_str};
use crate::time::Time;
use crate::time::parse::{parse_time, spec_parse_time, parse_result_view};
use vstd::seq_lib::lemma_seq_skip_of_skip;

verus! {

/// A lexical unit of expression text.
#[derive(PartialEq, Eq, Debug)]
pub enum Token {
    Time(String),
    Number(String),
    Plus,
    Hyphen,
    Slash,
    Asterisk,
    LeftParen,
    RightParen,
}

/// The mathematical shape of a [`Token`].
pub enum TokenView {
    Time(Seq<char>),
    Number(Seq<char>),
    Plus,
    Hyphen,
    Slash,
    Asterisk,
    LeftParen,
    RightParen,
}

impl View for Token {
    type V = TokenView;

    open spec fn view(&self) -> TokenView {
        match self {
            Token::Time(t) => TokenView::Time(t@),
            Token::Number(n) => TokenView::Number(n@),
            Token::Plus => TokenView::Plus,
            Token::Hyphen => TokenView::Hyphen,
            Token::Slash => TokenView::Slash,
            Token::Asterisk => TokenView::Asterisk,
            Token::LeftParen => TokenView::LeftParen,
            Token::RightParen => TokenView::RightParen,
        }
    }
}

impl DeepView for Token {
    type V = TokenView;

    open spec fn deep_view(&self) -> TokenView {
        self.view()
    }
}

impl Clone for Token {
    /// An identical token.
    fn clone(&self) -> (r: Token)
        ensures
            r@ == self@,
    {
        match self {
            Token::Time(t) => Token::Time(t.clone()),
            Token::Number(n) => Token::Number(n.clone()),
            Token::Plus => Token::Plus,
            Token::Hyphen => Token::Hyphen,
            Token::Slash => Token::Slash,
            Token::Asterisk => Token::Asterisk,
            Token::LeftParen => Token::LeftParen,
            Token::RightParen => Token::RightParen,
        }
    }
}

/// A failure to recognise a character of expression text.
#[derive(PartialEq, Eq, Debug)]
pub enum LexError {
    UnexpectedCharacter(char),
    EndOfInput,
}

/// Whether the character has Unicode's White_Space property, as the lexer
/// skips it.
pub open spec fn is_whitespace_char(c: char) -> bool {
    let u = c as u32;
    u == 0x20 || (0x9 <= u && u <= 0xD) || u == 0x85 || u == 0xA0 || u == 0x1680 || (0x2000 <= u
        && u <= 0x200A) || u == 0x2028 || u == 0x2029 || u == 0x202F || u == 0x205F || u == 0x3000
}

/// Whether the character can continue a numeric run.
pub open spec fn is_numeric_run_char(c: char) -> bool {
    is_digit_char(c) || c == '.' || c == ':' || c == 's'
}

/// Whether the character marks a numeric run as a duration.
pub open spec fn is_time_mark_char(c: char) -> bool {
    c == ':' || c == 's'
}

/// The length of the leading run of numeric-run characters.
pub open spec fn num_run_len(s: Seq<char>) -> nat
    decreases s.len(),
{
    if s.len() > 0 && is_numeric_run_char(s[0]) {
        1 + num_run_len(s.drop_first())
    } else {
        0
    }
}

/// The numeric run never reaches past the end of the text.
pub proof fn lemma_num_run_le_len(s: Seq<char>)
    ensures
        num_run_len(s) <= s.len(),
    decreases s.len(),
{
    if s.len() > 0 && is_numeric_run_char(s[0]) {
        lemma_num_run_le_len(s.drop_first());
    }
}

/// The numeric run is exactly the maximal numeric prefix.
pub proof fn lemma_num_run_exact(s: Seq<char>, n: int)
    requires
        0 <= n <= s.len(),
        forall|i: int| 0 <= i < n ==> is_numeric_run_char(#[trigger] s[i]),
        n == s.len() || !is_numeric_run_char(s[n]),
    ensures
        num_run_len(s) == n,
    decreases s.len(),
{
    if n > 0 {
        lemma_num_run_exact(s.drop_first(), n - 1);
    }
}

/// Whether a numeric run is duration-shaped: it carries a `:` or `s` mark.
pub open spec fn has_time_mark(s: Seq<char>) -> bool {
    exists|i: int| 0 <= i < s.len() && is_time_mark_char(#[trigger] s[i])
}

/// The token for one numeric run.
pub open spec fn num_token(s: Seq<char>) -> TokenView {
    if has_time_mark(s) {
        TokenView::Time(s)
    } else {
        TokenView::Number(s)
    }
}

/// The token for a single non-numeric, non-whitespace character, if it is
/// one the grammar knows.
pub open spec fn char_token(c: char) -> Option<TokenView> {
    if c == '+' {
        Some(TokenView::Plus)
    } else if c == '-' {
        Some(TokenView::Hyphen)
    } else if c == '/' {
        Some(TokenView::Slash)
    } else if c == '*' {
        Some(TokenView::Asterisk)
    } else if c == '(' {
        Some(TokenView::LeftParen)
    } else if c == ')' {
        Some(TokenView::RightParen)
    } else {
        None
    }
}

/// What scanning expression text produces: the token sequence, and every
/// lexical error found.
pub open spec fn spec_scan(s: Seq<char>) -> (Seq<TokenView>, Seq<LexError>)
    decreases s.len(),
    via spec_scan_decreases
{
    if s.len() == 0 {
        (Seq::empty(), Seq::empty())
    } else if is_digit_char(s[0]) {
        let n = num_run_len(s) as int;
        let rest = spec_scan(s.skip(n));
        (seq![num_token(s.take(n))] + rest.0, rest.1)
    } else {
        let rest = spec_scan(s.skip(1));
        if is_whitespace_char(s[0]) {
            rest
        } else {
            match char_token(s[0]) {
                Some(t) => (seq![t] + rest.0, rest.1),
                None => (rest.0, seq![LexError::UnexpectedCharacter(s[0])] + rest.1),
            }
        }
    }
}

#[via_fn]
proof fn spec_scan_decreases(s: Seq<char>) {
    if s.len() > 0 && is_digit_char(s[0]) {
        lemma_num_run_le_len(s);
    }
}

/// Whether the character is whitespace the lexer skips.
fn whitespace_char(c: char) -> (r: bool)
    ensures
        r == is_whitespace_char(c),
{
    let u = c as u32;
    u == 0x20 || (0x9 <= u && u <= 0xD) || u == 0x85 || u == 0xA0 || u == 0x1680 || (0x2000 <= u
        && u <= 0x200A) || u == 0x2028 || u == 0x2029 || u == 0x202F || u == 0x205F || u == 0x3000
}

/// A lexer over expression text.
pub struct Lexer<'a> {
    input: &'a str,
    pos: usize,
    tokens: Vec<Token>,
    scan_complete: bool,
}

impl<'a> Lexer<'a> {
    /// The text being scanned.
    pub closed spec fn spec_input(self) -> Seq<char> {
        self.input@
    }

    /// Whether the lexer is freshly created and has not scanned yet.
    pub closed spec fn fresh(self) -> bool {
        self.pos == 0 && self.tokens@ =~= Seq::<Token>::empty() && !self.scan_complete
    }

    /// Returns a lexer over the given text.
    pub fn new(input: &'a str) -> (r: Lexer<'a>)
        ensures
            r.spec_input() == input@,
            r.fresh(),
    {
        Lexer { input, pos: 0, tokens: Vec::new(), scan_complete: false }
    }

    /// Scans the whole text, returning its tokens, or every lexical error
    /// found if there was at least one.
    pub fn scan(&mut self) -> (r: Result<Vec<Token>, Vec<LexError>>)
        requires
            old(self).fresh(),
        ensures
            match r {
                Ok(tokens) => tokens.deep_view() == spec_scan(old(self).spec_input()).0 && spec_scan(
                    old(self).spec_input(),
                ).1.len() == 0,
                Err(errors) => errors@ == spec_scan(old(self).spec_input()).1 && errors@.len() > 0,
            },
    {
        let ghost s = self.input@;
        let ghost inp = self.input;
        let mut errors: Vec<LexError> = Vec::new();
        let n = self.input.unicode_len();
        proof {
            assert(s.skip(0) =~= s);
        }
        while self.pos < n
            invariant
                self.input == inp,
                self.input@ == s,
                n == s.len(),
                self.pos <= n,
                spec_scan(s).0 =~= self.tokens.deep_view() + spec_scan(s.skip(self.pos as int)).0,
                spec_scan(s).1 =~= errors@ + spec_scan(s.skip(self.pos as int)).1,
            decreases n - self.pos,
        {
            let ghost rest = s.skip(self.pos as int);
            let ghost pos0 = self.pos as int;
            let ghost tokens0 = self.tokens.deep_view();
            let c = self.input.get_char(self.pos);
            assert(c == rest[0]);
            if c >= '0' && c <= '9' {
                self.scan_number();
                proof {
                    let k = num_run_len(rest) as int;
                    lemma_num_run_le_len(rest);
                    lemma_seq_skip_of_skip(s, pos0, k);
                    assert(spec_scan(s).0 =~= self.tokens.deep_view() + spec_scan(
                        s.skip(self.pos as int),
                    ).0);
                    assert(spec_scan(s).1 =~= errors@ + spec_scan(s.skip(self.pos as int)).1);
                }
            } else {
                self.pos = self.pos + 1;
                proof {
                    lemma_seq_skip_of_skip(s, pos0, 1);
                }
                if whitespace_char(c) {
                    // skip whitespace
                } else if c == '+' {
                    self.tokens.push(Token::Plus);
                } else if c == '-' {
                    self.tokens.push(Token::Hyphen);
                } else if c == '/' {
                    self.tokens.push(Token::Slash);
                } else if c == '*' {
                    self.tokens.push(Token::Asterisk);
                } else if c == '(' {
                    self.tokens.push(Token::LeftParen);
                } else if c == ')' {
                    self.tokens.push(Token::RightParen);
                } else {
                    errors.push(LexError::UnexpectedCharacter(c));
                }
                proof {
                    if !is_whitespace_char(c) {
                        assert(self.tokens.deep_view() =~= match char_token(c) {
                            Some(t) => tokens0 + seq![t],
                            None => tokens0,
                        });
                    }
                    assert(spec_scan(s).0 =~= self.tokens.deep_view() + spec_scan(
                        s.skip(self.pos as int),
                    ).0);
                    assert(spec_scan(s).1 =~= errors@ + spec_scan(s.skip(self.pos as int)).1);
                }
            }
        }
        proof {
            assert(s.skip(n as int) =~= Seq::<char>::empty());
            assert(spec_scan(s).0 =~= self.tokens.deep_view());
            assert(spec_scan(s).1 =~= errors@);
        }
        self.scan_complete = true;
        if errors.len() == 0 {
            let mut out: Vec<Token> = Vec::new();
            std::mem::swap(&mut out, &mut self.tokens);
            Ok(out)
        } else {
            Err(errors)
        }
    }

    /// Scans one maximal numeric run, classifying it as a duration when it
    /// carries a `:` or `s` mark and as a plain number otherwise.
    fn scan_number(&mut self)
        requires
            old(self).pos < old(self).spec_input().len(),
            is_digit_char(old(self).spec_input()[old(self).pos as int]),
        ensures
            final(self).input == old(self).input,
            final(self).scan_complete == old(self).scan_complete,
            final(self).pos == old(self).pos + num_run_len(
                old(self).spec_input().skip(old(self).pos as int),
            ),
            final(self).tokens.deep_view() =~= old(self).tokens.deep_view() + seq![
                num_token(
                    old(self).spec_input().skip(old(self).pos as int).take(
                        num_run_len(old(self).spec_input().skip(old(self).pos as int)) as int,
                    ),
                ),
            ],
    {
        let ghost s = self.input@;
        let start = self.pos;
        let n = self.input.unicode_len();
        let mut is_time = false;
        while self.pos < n
            invariant
                self.input == old(self).input,
                self.input@ == s,
                n == s.len(),
                start <= self.pos <= n,
                self.tokens == old(self).tokens,
                self.scan_complete == old(self).scan_complete,
                start == old(self).pos,
                forall|i: int| start <= i < self.pos ==> is_numeric_run_char(#[trigger] s[i]),
                is_time == (exists|i: int|
                    start <= i < self.pos && is_time_mark_char(#[trigger] s[i])),
            ensures
                self.pos == n || !is_numeric_run_char(s[self.pos as int]),
            decreases n - self.pos,
        {
            let c = self.input.get_char(self.pos);
            if (c >= '0' && c <= '9') || c == '.' {
                self.pos = self.pos + 1;
            } else if c == ':' || c == 's' {
                is_time = true;
                self.pos = self.pos + 1;
            } else {
                break;
            }
        }
        proof {
            let rest = s.skip(start as int);
            lemma_num_run_exact(rest, self.pos - start);
            assert(rest.take(self.pos - start) =~= s.subrange(start as int, self.pos as int));
            assert(is_time == has_time_mark(rest.take(self.pos - start))) by {
                if is_time {
                    let i = choose|i: int|
                        start <= i < self.pos && is_time_mark_char(#[trigger] s[i]);
                    assert(rest.take(self.pos - start)[i - start] == s[i]);
                } else {
                    assert forall|i: int|
                        0 <= i < self.pos - start implies !is_time_mark_char(
                        #[trigger] rest.take(self.pos - start)[i],
                    ) by {
                        assert(rest.take(self.pos - start)[i] == s[start + i]);
                    }
                }
            }
        }
        let text = self.input.substring_char(start, self.pos);
        if is_time {
            self.tokens.push(Token::Time(text.to_owned()));
        } else {
            self.tokens.push(Token::Number(text.to_owned()));
        }
    }
}


/// A parsed expression: a literal, a unary negation, or a binary operation.
#[derive(PartialEq, Debug)]
pub enum Expr {
    Literal(Literal),
    Binary(Box<Expr>, BinaryOp, Box<Expr>),
    Unary(UnaryOp, Box<Expr>),
}

/// A literal value: a plain number or a duration.
#[derive(PartialEq, Debug)]
pub enum Literal {
    Number(Decimal),
    Time(Time),
}

/// The unary operator.
#[derive(Clone, Copy, PartialEq, Eq, Structural, Debug)]
pub enum UnaryOp {
    Negative,
}

/// The binary operators.
#[derive(Clone, Copy, PartialEq, Eq, Structural, Debug)]
pub enum BinaryOp {
    Add,
    Subtract,
    Multiply,
    Divide,
}

/// A failure to parse expression tokens.
#[derive(Debug)]
pub enum ParseError {
    LexError(Vec<LexError>),
    LeftoverTokens(Vec<Token>),
    ExpectedRightParen(Option<Token>),
    ExpectedLiteral(Option<Token>),
    InvalidNumber(String),
    InvalidTime(crate::time::parse::ParseError),
}

/// The mathematical shape of a [`ParseError`].
pub enum ParseErrorView {
    LexError(Seq<LexError>),
    LeftoverTokens(Seq<TokenView>),
    ExpectedRightParen(Option<TokenView>),
    ExpectedLiteral(Option<TokenView>),
    InvalidNumber(Seq<char>),
    InvalidTime(crate::time::parse::ParseErrorView),
}

impl View for ParseError {
    type V = ParseErrorView;

    open spec fn view(&self) -> ParseErrorView {
        match self {
            ParseError::LexError(errs) => ParseErrorView::LexError(errs@),
            ParseError::LeftoverTokens(toks) => ParseErrorView::LeftoverTokens(toks.deep_view()),
            ParseError::ExpectedRightParen(t) => ParseErrorView::ExpectedRightParen(t.deep_view()),
            ParseError::ExpectedLiteral(t) => ParseErrorView::ExpectedLiteral(t.deep_view()),
            ParseError::InvalidNumber(n) => ParseErrorView::InvalidNumber(n@),
            ParseError::InvalidTime(e) => ParseErrorView::InvalidTime(e@),
        }
    }
}

/// A literal or parenthesised expression, and the index just after it; an
/// error also carries the index the parser stopped at.
pub open spec fn spec_value(toks: Seq<TokenView>, i: int) -> Result<
    (Expr, int),
    (ParseErrorView, int),
>
    decreases toks.len() - i, 0nat,
{
    if i < 0 || i >= toks.len() {
        Err((ParseErrorView::ExpectedLiteral(None), i))
    } else {
        match toks[i] {
            TokenView::Number(n) => match spec_from_str(n) {
                Some(d) => Ok((Expr::Literal(Literal::Number(d)), i + 1)),
                None => Err((ParseErrorView::InvalidNumber(n), i + 1)),
            },
            TokenView::Time(t) => match spec_parse_time(t) {
                Ok(tm) => Ok((Expr::Literal(Literal::Time(tm)), i + 1)),
                Err(e) => Err((ParseErrorView::InvalidTime(e), i + 1)),
            },
            TokenView::LeftParen => match spec_addition(toks, i + 1) {
                Ok((e, j)) => if 0 <= j < toks.len() && toks[j] is RightParen {
                    Ok((e, j + 1))
                } else if 0 <= j < toks.len() {
                    Err((ParseErrorView::ExpectedRightParen(Some(toks[j])), j + 1))
                } else {
                    Err((ParseErrorView::ExpectedRightParen(None), j))
                },
                Err(e) => Err(e),
            },
            t => Err((ParseErrorView::ExpectedLiteral(Some(t)), i + 1)),
        }
    }
}

/// A value with an optional leading negation.
pub open spec fn spec_unary(toks: Seq<TokenView>, i: int) -> Result<
    (Expr, int),
    (ParseErrorView, int),
>
    decreases toks.len() - i, 1nat,
{
    if 0 <= i < toks.len() && toks[i] is Hyphen {
        match spec_value(toks, i + 1) {
            Ok((e, j)) => Ok((Expr::Unary(UnaryOp::Negative, Box::new(e)), j)),
            Err(e) => Err(e),
        }
    } else {
        spec_value(toks, i)
    }
}

/// Left-folds further `*` and `/` operands onto an expression.
pub open spec fn spec_mul_tail(toks: Seq<TokenView>, i: int, acc: Expr) -> Result<
    (Expr, int),
    (ParseErrorView, int),
>
    decreases toks.len() - i, 2nat,
{
    if 0 <= i < toks.len() && (toks[i] is Asterisk || toks[i] is Slash) {
        let op = if toks[i] is Asterisk {
            BinaryOp::Multiply
        } else {
            BinaryOp::Divide
        };
        match spec_unary(toks, i + 1) {
            // a successful operand always moves forward (`lemma_parse_progress`),
            // so the bound check only keeps the recursion visibly decreasing
            Ok((e2, j)) => if i < j <= toks.len() {
                spec_mul_tail(toks, j, Expr::Binary(Box::new(acc), op, Box::new(e2)))
            } else {
                Err((ParseErrorView::ExpectedLiteral(None), j))
            },
            Err(e) => Err(e),
        }
    } else {
        Ok((acc, i))
    }
}

/// A product: unary operands folded left-to-right under `*` and `/`.
pub open spec fn spec_multiplication(toks: Seq<TokenView>, i: int) -> Result<
    (Expr, int),
    (ParseErrorView, int),
>
    decreases toks.len() - i, 3nat,
{
    match spec_unary(toks, i) {
        Ok((e, j)) => if i <= j <= toks.len() {
            spec_mul_tail(toks, j, e)
        } else {
            Err((ParseErrorView::ExpectedLiteral(None), j))
        },
        Err(e) => Err(e),
    }
}

/// Left-folds further `+` and `-` operands onto an expression.
pub open spec fn spec_add_tail(toks: Seq<TokenView>, i: int, acc: Expr) -> Result<
    (Expr, int),
    (ParseErrorView, int),
>
    decreases toks.len() - i, 4nat,
{
    if 0 <= i < toks.len() && (toks[i] is Plus || toks[i] is Hyphen) {
        let op = if toks[i] is Plus {
            BinaryOp::Add
        } else {
            BinaryOp::Subtract
        };
        match spec_multiplication(toks, i + 1) {
            Ok((e2, j)) => if i < j <= toks.len() {
                spec_add_tail(toks, j, Expr::Binary(Box::new(acc), op, Box::new(e2)))
            } else {
                Err((ParseErrorView::ExpectedLiteral(None), j))
            },
            Err(e) => Err(e),
        }
    } else {
        Ok((acc, i))
    }
}

/// A sum: products folded left-to-right under `+` and `-`.
pub open spec fn spec_addition(toks: Seq<TokenView>, i: int) -> Result<
    (Expr, int),
    (ParseErrorView, int),
>
    decreases toks.len() - i, 5nat,
{
    match spec_multiplication(toks, i) {
        Ok((e, j)) => if i <= j <= toks.len() {
            spec_add_tail(toks, j, e)
        } else {
            Err((ParseErrorView::ExpectedLiteral(None), j))
        },
        Err(e) => Err(e),
    }
}

/// A successful parse always consumes at least one token and never runs
/// past the end, so the defensive branches in the spec parser are idle.
/// `rank` selects the grammar level the statement is about.
pub proof fn lemma_parse_progress(toks: Seq<TokenView>, i: int, acc: Expr, rank: int)
    requires
        0 <= rank <= 5,
    ensures
        rank == 0 ==> (spec_value(toks, i) matches Ok(p) ==> i < p.1 <= toks.len()),
        rank == 1 ==> (spec_unary(toks, i) matches Ok(p) ==> i < p.1 <= toks.len()),
        rank == 2 ==> (spec_mul_tail(toks, i, acc) matches Ok(p) ==> (0 <= i <= toks.len() ==> i
            <= p.1 <= toks.len())),
        rank == 3 ==> (spec_multiplication(toks, i) matches Ok(p) ==> i < p.1 <= toks.len()),
        rank == 4 ==> (spec_add_tail(toks, i, acc) matches Ok(p) ==> (0 <= i <= toks.len() ==> i
            <= p.1 <= toks.len())),
        rank == 5 ==> (spec_addition(toks, i) matches Ok(p) ==> i < p.1 <= toks.len()),
    decreases toks.len() - i, rank,
{
    if rank == 0 {
        if 0 <= i < toks.len() && toks[i] is LeftParen {
            lemma_parse_progress(toks, i + 1, acc, 5);
        }
    } else if rank == 1 {
        if 0 <= i < toks.len() && toks[i] is Hyphen {
            lemma_parse_progress(toks, i + 1, acc, 0);
        } else {
            lemma_parse_progress(toks, i, acc, 0);
        }
    } else if rank == 2 {
        if 0 <= i < toks.len() && (toks[i] is Asterisk || toks[i] is Slash) {
            lemma_parse_progress(toks, i + 1, acc, 1);
            let op = if toks[i] is Asterisk {
                BinaryOp::Multiply
            } else {
                BinaryOp::Divide
            };
            match spec_unary(toks, i + 1) {
                Ok((e2, j)) => {
                    lemma_parse_progress(toks, j, Expr::Binary(Box::new(acc), op, Box::new(e2)), 2);
                },
                Err(_) => {},
            }
        }
    } else if rank == 3 {
        lemma_parse_progress(toks, i, acc, 1);
        match spec_unary(toks, i) {
            Ok((e, j)) => {
                lemma_parse_progress(toks, j, e, 2);
            },
            Err(_) => {},
        }
    } else if rank == 4 {
        if 0 <= i < toks.len() && (toks[i] is Plus || toks[i] is Hyphen) {
            lemma_parse_progress(toks, i + 1, acc, 3);
            let op = if toks[i] is Plus {
                BinaryOp::Add
            } else {
                BinaryOp::Subtract
            };
            match spec_multiplication(toks, i + 1) {
                Ok((e2, j)) => {
                    lemma_parse_progress(toks, j, Expr::Binary(Box::new(acc), op, Box::new(e2)), 4);
                },
                Err(_) => {},
            }
        }
    } else {
        lemma_parse_progress(toks, i, acc, 3);
        match spec_multiplication(toks, i) {
            Ok((e, j)) => {
                lemma_parse_progress(toks, j, e, 4);
            },
            Err(_) => {},
        }
    }
}

/// What parsing the whole token sequence produces: the expression, unless
/// tokens are left over or a parse error struck first.
pub open spec fn spec_parse_tokens(toks: Seq<TokenView>) -> Result<Expr, ParseErrorView> {
    match spec_addition(toks, 0) {
        Ok((e, j)) => if j < toks.len() {
            Err(ParseErrorView::LeftoverTokens(toks.skip(j)))
        } else {
            Ok(e)
        },
        Err((e, j)) => if j < toks.len() {
            Err(ParseErrorView::LeftoverTokens(toks.skip(j)))
        } else {
            Err(e)
        },
    }
}

/// What parsing expression text produces: the lexical errors if there were
/// any, otherwise the parse of the tokens.
pub open spec fn spec_parse_expression(s: Seq<char>) -> Result<Expr, ParseErrorView> {
    let (toks, errs) = spec_scan(s);
    if errs.len() > 0 {
        Err(ParseErrorView::LexError(errs))
    } else {
        spec_parse_tokens(toks)
    }
}



/// Well-formedness of the values inside an expression: every decimal
/// literal is representable and every time literal canonically encoded.
pub open spec fn expr_wf(e: Expr) -> bool
    decreases e,
{
    match e {
        Expr::Literal(Literal::Number(n)) => n.valid(),
        Expr::Literal(Literal::Time(t)) => t.inv(),
        Expr::Unary(_, inner) => expr_wf(*inner),
        Expr::Binary(l, _, r) => expr_wf(*l) && expr_wf(*r),
    }
}

/// The parse outcome with its payloads abstracted to sequences.
pub open spec fn expr_result_view(r: Result<Expr, ParseError>) -> Result<Expr, ParseErrorView> {
    match r {
        Ok(e) => Ok(e),
        Err(pe) => Err(pe@),
    }
}

/// A recursive-descent parser over expression tokens.
pub struct Parser<'a> {
    tokens: &'a Vec<Token>,
    pos: usize,
}

impl<'a> Parser<'a> {
    /// The token sequence being parsed.
    pub closed spec fn toks(self) -> Seq<TokenView> {
        self.tokens.deep_view()
    }

    /// The current position in the token sequence.
    pub closed spec fn spec_pos(self) -> int {
        self.pos as int
    }

    /// Returns a parser at the start of the given tokens.
    pub fn new(tokens: &'a Vec<Token>) -> (r: Parser<'a>)
        ensures
            r.toks() == tokens.deep_view(),
            r.spec_pos() == 0,
    {
        Parser { tokens, pos: 0 }
    }

    /// The next token, without consuming it.
    fn peek(&self) -> (r: Option<&Token>)
        ensures
            match r {
                Some(t) => self.spec_pos() < self.toks().len() && t@ == self.toks()[self.spec_pos()],
                None => self.spec_pos() >= self.toks().len(),
            },
    {
        if self.pos < self.tokens.len() {
            Some(&self.tokens[self.pos])
        } else {
            None
        }
    }

    /// The next token, consuming it.
    fn next(&mut self) -> (r: Option<&'a Token>)
        ensures
            final(self).toks() == old(self).toks(),
            match r {
                Some(t) => old(self).spec_pos() < old(self).toks().len() && t@ == old(self).toks()[
                    old(self).spec_pos()
                ] && final(self).spec_pos() == old(self).spec_pos() + 1,
                None => old(self).spec_pos() >= old(self).toks().len() && final(self).spec_pos()
                    == old(self).spec_pos(),
            },
    {
        if self.pos < self.tokens.len() {
            let t = &self.tokens[self.pos];
            self.pos = self.pos + 1;
            Some(t)
        } else {
            None
        }
    }

    /// All tokens left, consumed and cloned.
    fn remaining_tokens(&mut self) -> (r: Vec<Token>)
        requires
            old(self).spec_pos() <= old(self).toks().len(),
        ensures
            final(self).toks() == old(self).toks(),
            r.deep_view() == old(self).toks().skip(old(self).spec_pos()),
    {
        let ghost toks = self.toks();
        let ghost start = self.spec_pos();
        let n = self.tokens.len();
        proof {
            assert(n == toks.len());
        }
        let mut result: Vec<Token> = Vec::new();
        proof {
            assert(result.deep_view() =~= toks.skip(start).take(0));
        }
        while self.pos < n
            invariant
                self.tokens == old(self).tokens,
                toks == self.toks(),
                n == toks.len(),
                n == self.tokens@.len(),
                0 <= start <= self.pos as int <= toks.len(),
                result.deep_view() =~= toks.skip(start).take(self.pos - start),
            decreases toks.len() - self.pos,
        {
            let ghost prev = result.deep_view();
            let ghost k = self.pos as int;
            result.push(self.tokens[self.pos].clone());
            self.pos = self.pos + 1;
            proof {
                assert(result.deep_view() =~= prev.push(toks[k]));
                assert(0 <= start <= k < toks.len());
                assert(toks.skip(start).len() == toks.len() - start);
                assert(toks.skip(start)[k - start] == toks[k]);
                assert(result.deep_view() =~= toks.skip(start).take(self.pos - start));
            }
        }
        proof {
            assert(toks.skip(start).take(self.pos - start) =~= toks.skip(start));
        }
        result
    }

    /// Parses a whole expression and rejects leftover tokens.
    pub fn parse(&mut self) -> (r: Result<Expr, ParseError>)
        requires
            old(self).spec_pos() == 0,
        ensures
            expr_result_view(r) == spec_parse_tokens(old(self).toks()),
            r matches Ok(e) ==> expr_wf(e),
    {
        let expr = self.expression();
        if self.pos < self.tokens.len() {
            let rem = self.remaining_tokens();
            return Err(ParseError::LeftoverTokens(rem));
        }
        expr
    }

    /// An expression: a sum.
    fn expression(&mut self) -> (r: Result<Expr, ParseError>)
        requires
            old(self).spec_pos() <= old(self).toks().len(),
        ensures
            final(self).toks() == old(self).toks(),
            old(self).spec_pos() <= final(self).spec_pos() <= old(self).toks().len(),
            match r {
                Ok(e) => spec_addition(old(self).toks(), old(self).spec_pos()) == Ok::<
                    (Expr, int),
                    (ParseErrorView, int),
                >((e, final(self).spec_pos())),
                Err(pe) => spec_addition(old(self).toks(), old(self).spec_pos()) == Err::<
                    (Expr, int),
                    (ParseErrorView, int),
                >((pe@, final(self).spec_pos())),
            },
            r matches Ok(e) ==> expr_wf(e),
        decreases self.toks().len() - self.spec_pos(), 6int,
    {
        self.addition()
    }

    /// A sum: products folded left-to-right under `+` and `-`.
    fn addition(&mut self) -> (r: Result<Expr, ParseError>)
        requires
            old(self).spec_pos() <= old(self).toks().len(),
        ensures
            final(self).toks() == old(self).toks(),
            old(self).spec_pos() <= final(self).spec_pos() <= old(self).toks().len(),
            match r {
                Ok(e) => spec_addition(old(self).toks(), old(self).spec_pos()) == Ok::<
                    (Expr, int),
                    (ParseErrorView, int),
                >((e, final(self).spec_pos())),
                Err(pe) => spec_addition(old(self).toks(), old(self).spec_pos()) == Err::<
                    (Expr, int),
                    (ParseErrorView, int),
                >((pe@, final(self).spec_pos())),
            },
            r matches Ok(e) ==> expr_wf(e),
        decreases self.toks().len() - self.spec_pos(), 5int,
    {
        match self.multiplication() {
            Ok(e) => self.add_tail(e),
            Err(pe) => Err(pe),
        }
    }

    /// Folds further `+` and `-` operands onto an expression.
    fn add_tail(&mut self, acc: Expr) -> (r: Result<Expr, ParseError>)
        requires
            old(self).spec_pos() <= old(self).toks().len(),
            expr_wf(acc),
        ensures
            final(self).toks() == old(self).toks(),
            old(self).spec_pos() <= final(self).spec_pos() <= old(self).toks().len(),
            match r {
                Ok(e) => spec_add_tail(old(self).toks(), old(self).spec_pos(), acc) == Ok::<
                    (Expr, int),
                    (ParseErrorView, int),
                >((e, final(self).spec_pos())),
                Err(pe) => spec_add_tail(old(self).toks(), old(self).spec_pos(), acc) == Err::<
                    (Expr, int),
                    (ParseErrorView, int),
                >((pe@, final(self).spec_pos())),
            },
            r matches Ok(e) ==> expr_wf(e),
        decreases self.toks().len() - self.spec_pos(), 4int,
    {
        let is_plus = match self.peek() {
            Some(t) => matches!(t, Token::Plus),
            None => false,
        };
        let is_minus = match self.peek() {
            Some(t) => matches!(t, Token::Hyphen),
            None => false,
        };
        if is_plus || is_minus {
            self.next();
            match self.multiplication() {
                Ok(e2) => {
                    let op = if is_plus {
                        BinaryOp::Add
                    } else {
                        BinaryOp::Subtract
                    };
                    self.add_tail(Expr::Binary(Box::new(acc), op, Box::new(e2)))
                },
                Err(pe) => Err(pe),
            }
        } else {
            Ok(acc)
        }
    }

    /// A product: unary operands folded left-to-right under `*` and `/`.
    fn multiplication(&mut self) -> (r: Result<Expr, ParseError>)
        requires
            old(self).spec_pos() <= old(self).toks().len(),
        ensures
            final(self).toks() == old(self).toks(),
            old(self).spec_pos() <= final(self).spec_pos() <= old(self).toks().len(),
            match r {
                Ok(e) => spec_multiplication(old(self).toks(), old(self).spec_pos()) == Ok::<
                    (Expr, int),
                    (ParseErrorView, int),
                >((e, final(self).spec_pos())),
                Err(pe) => spec_multiplication(old(self).toks(), old(self).spec_pos()) == Err::<
                    (Expr, int),
                    (ParseErrorView, int),
                >((pe@, final(self).spec_pos())),
            },
            r matches Ok(e) ==> expr_wf(e),
        decreases self.toks().len() - self.spec_pos(), 3int,
    {
        match self.unary() {
            Ok(e) => self.mul_tail(e),
            Err(pe) => Err(pe),
        }
    }

    /// Folds further `*` and `/` operands onto an expression.
    fn mul_tail(&mut self, acc: Expr) -> (r: Result<Expr, ParseError>)
        requires
            old(self).spec_pos() <= old(self).toks().len(),
            expr_wf(acc),
        ensures
            final(self).toks() == old(self).toks(),
            old(self).spec_pos() <= final(self).spec_pos() <= old(self).toks().len(),
            match r {
                Ok(e) => spec_mul_tail(old(self).toks(), old(self).spec_pos(), acc) == Ok::<
                    (Expr, int),
                    (ParseErrorView, int),
                >((e, final(self).spec_pos())),
                Err(pe) => spec_mul_tail(old(self).toks(), old(self).spec_pos(), acc) == Err::<
                    (Expr, int),
                    (ParseErrorView, int),
                >((pe@, final(self).spec_pos())),
            },
            r matches Ok(e) ==> expr_wf(e),
        decreases self.toks().len() - self.spec_pos(), 2int,
    {
        let is_mul = match self.peek() {
            Some(t) => matches!(t, Token::Asterisk),
            None => false,
        };
        let is_div = match self.peek() {
            Some(t) => matches!(t, Token::Slash),
            None => false,
        };
        if is_mul || is_div {
            self.next();
            match self.unary() {
                Ok(e2) => {
                    let op = if is_mul {
                        BinaryOp::Multiply
                    } else {
                        BinaryOp::Divide
                    };
                    self.mul_tail(Expr::Binary(Box::new(acc), op, Box::new(e2)))
                },
                Err(pe) => Err(pe),
            }
        } else {
            Ok(acc)
        }
    }

    /// A value with an optional leading negation.
    fn unary(&mut self) -> (r: Result<Expr, ParseError>)
        requires
            old(self).spec_pos() <= old(self).toks().len(),
        ensures
            final(self).toks() == old(self).toks(),
            old(self).spec_pos() <= final(self).spec_pos() <= old(self).toks().len(),
            match r {
                Ok(e) => spec_unary(old(self).toks(), old(self).spec_pos()) == Ok::<
                    (Expr, int),
                    (ParseErrorView, int),
                >((e, final(self).spec_pos())),
                Err(pe) => spec_unary(old(self).toks(), old(self).spec_pos()) == Err::<
                    (Expr, int),
                    (ParseErrorView, int),
                >((pe@, final(self).spec_pos())),
            },
            r matches Ok(e) ==> expr_wf(e),
        decreases self.toks().len() - self.spec_pos(), 1int,
    {
        let is_hyphen = match self.peek() {
            Some(t) => matches!(t, Token::Hyphen),
            None => false,
        };
        if is_hyphen {
            self.next();
            match self.value() {
                Ok(e) => Ok(Expr::Unary(UnaryOp::Negative, Box::new(e))),
                Err(pe) => Err(pe),
            }
        } else {
            self.value()
        }
    }

    /// A literal or a parenthesised expression.
    fn value(&mut self) -> (r: Result<Expr, ParseError>)
        requires
            old(self).spec_pos() <= old(self).toks().len(),
        ensures
            final(self).toks() == old(self).toks(),
            old(self).spec_pos() <= final(self).spec_pos() <= old(self).toks().len(),
            match r {
                Ok(e) => spec_value(old(self).toks(), old(self).spec_pos()) == Ok::<
                    (Expr, int),
                    (ParseErrorView, int),
                >((e, final(self).spec_pos())),
                Err(pe) => spec_value(old(self).toks(), old(self).spec_pos()) == Err::<
                    (Expr, int),
                    (ParseErrorView, int),
                >((pe@, final(self).spec_pos())),
            },
            r matches Ok(e) ==> expr_wf(e),
        decreases self.toks().len() - self.spec_pos(), 0int,
    {
        let ghost toks = self.toks();
        match self.next() {
            Some(t) => {
                match t {
                    Token::Number(n) => {
                        match Decimal::parse(n.as_str()) {
                            Some(d) => {
                                proof {
                                    broadcast use crate::dec::lemma_from_parts;

                                    crate::dec::lemma_opt_parts_inj(
                                        Some(d),
                                        spec_from_str(n@),
                                    );
                                }
                                Ok(Expr::Literal(Literal::Number(d)))
                            },
                            None => {
                                proof {
                                    broadcast use crate::dec::lemma_from_parts;

                                    crate::dec::lemma_opt_parts_inj(
                                        None::<Decimal>,
                                        spec_from_str(n@),
                                    );
                                }
                                Err(ParseError::InvalidNumber(n.clone()))
                            },
                        }
                    },
                    Token::Time(ttext) => {
                        match parse_time(ttext.as_str()) {
                            Ok(tm) => Ok(Expr::Literal(Literal::Time(tm))),
                            Err(e) => Err(ParseError::InvalidTime(e)),
                        }
                    },
                    Token::LeftParen => {
                        let e = match self.expression() {
                            Ok(e) => e,
                            Err(pe) => {
                                return Err(pe);
                            },
                        };
                        match self.next() {
                            Some(t2) => {
                                if matches!(t2, Token::RightParen) {
                                    Ok(e)
                                } else {
                                    Err(ParseError::ExpectedRightParen(Some(t2.clone())))
                                }
                            },
                            None => Err(ParseError::ExpectedRightParen(None)),
                        }
                    },
                    other => Err(ParseError::ExpectedLiteral(Some(other.clone()))),
                }
            },
            None => Err(ParseError::ExpectedLiteral(None)),
        }
    }
}

/// Parses expression text into an expression tree.
pub fn parse_expression(expr: &str) -> (r: Result<Expr, ParseError>)
    ensures
        expr_result_view(r) == spec_parse_expression(expr@),
        r matches Ok(e) ==> expr_wf(e),
{
    let mut lexer = Lexer::new(expr);
    match lexer.scan() {
        Ok(tokens) => {
            let mut parser = Parser::new(&tokens);
            parser.parse()
        },
        Err(errors) => Err(ParseError::LexError(errors)),
    }
}

} // verus!
