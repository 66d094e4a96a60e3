//! Parsing of duration text such as `1:23:45.678`, `12:34` or `-2.5s`.
//!
//! A small lexer splits the text into digit runs and the punctuation marks
//! `-`, `:`, `.` and `s`; a parser then assembles hour, minute, second and
//! fractional components, enforcing the two-digit rule for every component
//! after the first and the component ranges, and builds the [`Time`].

use vstd::prelude::*;
use crate::dec::{is_digit_char, all_digits, digits_value, pow10, pow10_u128};
use crate::time::{Time, from_nanos, MAX_TIME_HOURS, MAX_TIME_MINUTES, MAX_TIME_SECONDS, MAX_NANOS};
use vstd::arithmetic::div_mod::lemma_fundamental_div_mod;
use vstd::seq_lib::lemma_seq_skip_of_skip;

verus! {

/// A lexical unit of duration text.
#[derive(PartialEq, Eq, Debug)]
pub enum Token {
    Hyphen,
    Number(String),
    Colon,
    FullStop,
    S,
}

/// The mathematical shape of a [`Token`]: its text as a character sequence.
pub enum TokenView {
    Hyphen,
    Number(Seq<char>),
    Colon,
    FullStop,
    S,
}

impl View for Token {
    type V = TokenView;

    open spec fn view(&self) -> TokenView {
        match self {
            Token::Hyphen => TokenView::Hyphen,
            Token::Number(n) => TokenView::Number(n@),
            Token::Colon => TokenView::Colon,
            Token::FullStop => TokenView::FullStop,
            Token::S => TokenView::S,
        }
    }
}

impl DeepView for Token {
    type V = TokenView;

    open spec fn deep_view(&self) -> TokenView {
        self.view()
    }
}

/// A failure to recognise a character of duration text.
#[derive(PartialEq, Eq, Debug)]
pub enum LexError {
    UnexpectedCharacter(char),
    EndOfInput,
}

/// The length of the leading run of digit characters.
pub open spec fn digit_run_len(s: Seq<char>) -> nat
    decreases s.len(),
{
    if s.len() > 0 && is_digit_char(s[0]) {
        1 + digit_run_len(s.drop_first())
    } else {
        0
    }
}

/// The digit run never reaches past the end of the text.
pub proof fn lemma_digit_run_le_len(s: Seq<char>)
    ensures
        digit_run_len(s) <= s.len(),
    decreases s.len(),
{
    if s.len() > 0 && is_digit_char(s[0]) {
        lemma_digit_run_le_len(s.drop_first());
    }
}

/// The digit run is exactly the maximal all-digit prefix.
pub proof fn lemma_digit_run_exact(s: Seq<char>, n: int)
    requires
        0 <= n <= s.len(),
        forall|i: int| 0 <= i < n ==> is_digit_char(#[trigger] s[i]),
        n == s.len() || !is_digit_char(s[n]),
    ensures
        digit_run_len(s) == n,
    decreases s.len(),
{
    if n > 0 {
        lemma_digit_run_exact(s.drop_first(), n - 1);
    }
}

/// The token for a single non-digit character, if it is one of the marks the
/// grammar knows.
pub open spec fn char_token(c: char) -> Option<TokenView> {
    if c == '-' {
        Some(TokenView::Hyphen)
    } else if c == ':' {
        Some(TokenView::Colon)
    } else if c == '.' {
        Some(TokenView::FullStop)
    } else if c == 's' {
        Some(TokenView::S)
    } else {
        None
    }
}

/// What scanning the text produces: the token sequence and every lexical
/// error found, in order.  Scanning fails whenever at least one error was
/// found.
pub open spec fn spec_scan(s: Seq<char>) -> (Seq<TokenView>, Seq<LexError>)
    decreases s.len(),
    via spec_scan_decreases
{
    if s.len() == 0 {
        (Seq::empty(), Seq::empty())
    } else if is_digit_char(s[0]) {
        let n = digit_run_len(s) as int;
        let rest = spec_scan(s.skip(n));
        (seq![TokenView::Number(s.take(n))] + rest.0, rest.1)
    } else {
        let rest = spec_scan(s.skip(1));
        match char_token(s[0]) {
            Some(t) => (seq![t] + rest.0, rest.1),
            None => (rest.0, seq![LexError::UnexpectedCharacter(s[0])] + rest.1),
        }
    }
}

#[via_fn]
proof fn spec_scan_decreases(s: Seq<char>) {
    if s.len() > 0 && is_digit_char(s[0]) {
        lemma_digit_run_le_len(s);
    }
}

/// A lexer over duration text.
pub struct Lexer<'a> {
    input: &'a str,
    pos: usize,
    tokens: Vec<Token>,
    scan_complete: bool,
}

impl<'a> Lexer<'a> {
    /// The text being scanned.
    pub closed spec fn spec_input(self) -> Seq<char> {
        self.input@
    }

    /// Whether the lexer is freshly created and has not scanned yet.
    pub closed spec fn fresh(self) -> bool {
        self.pos == 0 && self.tokens@ =~= Seq::<Token>::empty() && !self.scan_complete
    }

    /// Returns a lexer over the given text.
    pub fn new(input: &'a str) -> (r: Lexer<'a>)
        ensures
            r.spec_input() == input@,
            r.fresh(),
    {
        Lexer { input, pos: 0, tokens: Vec::new(), scan_complete: false }
    }

    /// Scans the whole text, returning its tokens, or every lexical error
    /// found if there was at least one.
    pub fn scan(&mut self) -> (r: Result<Vec<Token>, Vec<LexError>>)
        requires
            old(self).fresh(),
        ensures
            match r {
                Ok(tokens) => tokens.deep_view() == spec_scan(old(self).spec_input()).0 && spec_scan(
                    old(self).spec_input(),
                ).1.len() == 0,
                Err(errors) => errors@ == spec_scan(old(self).spec_input()).1 && errors@.len() > 0,
            },
    {
        let ghost s = self.input@;
        let ghost inp = self.input;
        let mut errors: Vec<LexError> = Vec::new();
        let n = self.input.unicode_len();
        proof {
            assert(s.skip(0) =~= s);
        }
        while self.pos < n
            invariant
                self.input == inp,
                self.input@ == s,
                n == s.len(),
                self.pos <= n,
                spec_scan(s).0 =~= self.tokens.deep_view() + spec_scan(s.skip(self.pos as int)).0,
                spec_scan(s).1 =~= errors@ + spec_scan(s.skip(self.pos as int)).1,
            decreases n - self.pos,
        {
            let ghost rest = s.skip(self.pos as int);
            let ghost pos0 = self.pos as int;
            let ghost tokens0 = self.tokens.deep_view();
            let c = self.input.get_char(self.pos);
            assert(c == rest[0]);
            if c >= '0' && c <= '9' {
                self.scan_number();
                proof {
                    let k = digit_run_len(rest) as int;
                    lemma_digit_run_le_len(rest);
                    lemma_seq_skip_of_skip(s, pos0, k);
                    assert(spec_scan(rest).0 =~= seq![TokenView::Number(rest.take(k))] + spec_scan(
                        s.skip(pos0 + k),
                    ).0);
                    assert(spec_scan(s).0 =~= self.tokens.deep_view() + spec_scan(
                        s.skip(self.pos as int),
                    ).0);
                    assert(spec_scan(s).1 =~= errors@ + spec_scan(s.skip(self.pos as int)).1);
                }
            } else {
                self.pos = self.pos + 1;
                proof {
                    lemma_seq_skip_of_skip(s, pos0, 1);
                }
                if c == '-' {
                    self.tokens.push(Token::Hyphen);
                } else if c == ':' {
                    self.tokens.push(Token::Colon);
                } else if c == '.' {
                    self.tokens.push(Token::FullStop);
                } else if c == 's' {
                    self.tokens.push(Token::S);
                } else {
                    errors.push(LexError::UnexpectedCharacter(c));
                }
                proof {
                    assert(self.tokens.deep_view() =~= match char_token(c) {
                        Some(t) => tokens0 + seq![t],
                        None => tokens0,
                    });
                    assert(spec_scan(s).0 =~= self.tokens.deep_view() + spec_scan(
                        s.skip(self.pos as int),
                    ).0);
                    assert(spec_scan(s).1 =~= errors@ + spec_scan(s.skip(self.pos as int)).1);
                }
            }
        }
        proof {
            assert(s.skip(n as int) =~= Seq::<char>::empty());
            assert(spec_scan(s).0 =~= self.tokens.deep_view());
            assert(spec_scan(s).1 =~= errors@);
        }
        self.scan_complete = true;
        if errors.len() == 0 {
            let mut out: Vec<Token> = Vec::new();
            std::mem::swap(&mut out, &mut self.tokens);
            Ok(out)
        } else {
            Err(errors)
        }
    }

    /// Scans one maximal run of digits into a number token.
    fn scan_number(&mut self)
        requires
            old(self).pos < old(self).spec_input().len(),
            is_digit_char(old(self).spec_input()[old(self).pos as int]),
        ensures
            final(self).input == old(self).input,
            final(self).scan_complete == old(self).scan_complete,
            final(self).pos == old(self).pos + digit_run_len(
                old(self).spec_input().skip(old(self).pos as int),
            ),
            final(self).tokens.deep_view() =~= old(self).tokens.deep_view() + seq![
                TokenView::Number(
                    old(self).spec_input().skip(old(self).pos as int).take(
                        digit_run_len(old(self).spec_input().skip(old(self).pos as int)) as int,
                    ),
                ),
            ],
    {
        let ghost s = self.input@;
        let start = self.pos;
        let n = self.input.unicode_len();
        while self.pos < n
            invariant
                self.input == old(self).input,
                self.input@ == s,
                n == s.len(),
                start <= self.pos <= n,
                self.tokens == old(self).tokens,
                self.scan_complete == old(self).scan_complete,
                start == old(self).pos,
                forall|i: int| start <= i < self.pos ==> is_digit_char(#[trigger] s[i]),
            ensures
                self.pos == n || !is_digit_char(s[self.pos as int]),
            decreases n - self.pos,
        {
            let c = self.input.get_char(self.pos);
            if c >= '0' && c <= '9' {
                self.pos = self.pos + 1;
            } else {
                break;
            }
        }
        proof {
            let rest = s.skip(start as int);
            lemma_digit_run_exact(rest, self.pos - start);
            assert(rest.take(self.pos - start) =~= s.subrange(start as int, self.pos as int));
        }
        let text = self.input.substring_char(start, self.pos);
        self.tokens.push(Token::Number(text.to_owned()));
    }
}


impl Clone for Token {
    /// An identical token.
    fn clone(&self) -> (r: Token)
        ensures
            r@ == self@,
    {
        match self {
            Token::Hyphen => Token::Hyphen,
            Token::Number(n) => Token::Number(n.clone()),
            Token::Colon => Token::Colon,
            Token::FullStop => Token::FullStop,
            Token::S => Token::S,
        }
    }
}

/// A failure to assemble duration text into a time.
#[derive(Debug)]
pub enum ParseError {
    LexError(Vec<LexError>),
    ExpectedNumber(Option<Token>),
    ExceededMaxComponents,
    ExpectedNumberAfterDecimal(Option<Token>),
    ExpectedSecondsIdentifier,
    UnexpectedSecondsIdentifier,
    ExpectedTwoDigitMinutes(String),
    ExpectedTwoDigitSeconds(String),
    SecondsOutOfRange(u8),
    MinutesOutOfRange(u8),
    FractionalSecondsTooLarge(String),
    ExpectedEndOfInput(Token),
    TimeOutOfRange,
}

/// The mathematical shape of a [`ParseError`].
pub enum ParseErrorView {
    LexError(Seq<LexError>),
    ExpectedNumber(Option<TokenView>),
    ExceededMaxComponents,
    ExpectedNumberAfterDecimal(Option<TokenView>),
    ExpectedSecondsIdentifier,
    UnexpectedSecondsIdentifier,
    ExpectedTwoDigitMinutes(Seq<char>),
    ExpectedTwoDigitSeconds(Seq<char>),
    SecondsOutOfRange(u8),
    MinutesOutOfRange(u8),
    FractionalSecondsTooLarge(Seq<char>),
    ExpectedEndOfInput(TokenView),
    TimeOutOfRange,
}

impl View for ParseError {
    type V = ParseErrorView;

    open spec fn view(&self) -> ParseErrorView {
        match self {
            ParseError::LexError(errs) => ParseErrorView::LexError(errs@),
            ParseError::ExpectedNumber(t) => ParseErrorView::ExpectedNumber(t.deep_view()),
            ParseError::ExceededMaxComponents => ParseErrorView::ExceededMaxComponents,
            ParseError::ExpectedNumberAfterDecimal(t) => ParseErrorView::ExpectedNumberAfterDecimal(
                t.deep_view(),
            ),
            ParseError::ExpectedSecondsIdentifier => ParseErrorView::ExpectedSecondsIdentifier,
            ParseError::UnexpectedSecondsIdentifier => ParseErrorView::UnexpectedSecondsIdentifier,
            ParseError::ExpectedTwoDigitMinutes(m) => ParseErrorView::ExpectedTwoDigitMinutes(m@),
            ParseError::ExpectedTwoDigitSeconds(s) => ParseErrorView::ExpectedTwoDigitSeconds(s@),
            ParseError::SecondsOutOfRange(v) => ParseErrorView::SecondsOutOfRange(*v),
            ParseError::MinutesOutOfRange(v) => ParseErrorView::MinutesOutOfRange(*v),
            ParseError::FractionalSecondsTooLarge(f) => ParseErrorView::FractionalSecondsTooLarge(
                f@,
            ),
            ParseError::ExpectedEndOfInput(t) => ParseErrorView::ExpectedEndOfInput(t@),
            ParseError::TimeOutOfRange => ParseErrorView::TimeOutOfRange,
        }
    }
}

/// The parse outcome with its payloads abstracted to sequences.
pub open spec fn parse_result_view(r: Result<Time, ParseError>) -> Result<Time, ParseErrorView> {
    match r {
        Ok(t) => Ok(t),
        Err(e) => Err(e@),
    }
}

/// The colon-separated digit components starting at token `i`, and the index
/// just after them.
pub open spec fn spec_components(toks: Seq<TokenView>, i: int) -> Result<
    (Seq<Seq<char>>, int),
    ParseErrorView,
>
    decreases toks.len() - i,
{
    if i < 0 || i >= toks.len() || !(toks[i] is Number) {
        Err(
            ParseErrorView::ExpectedNumber(
                if 0 <= i < toks.len() {
                    Some(toks[i])
                } else {
                    None
                },
            ),
        )
    } else {
        let num = toks[i]->Number_0;
        if i + 1 < toks.len() && toks[i + 1] is Colon {
            match spec_components(toks, i + 2) {
                Ok((cs, j)) => Ok((seq![num] + cs, j)),
                Err(e) => Err(e),
            }
        } else {
            Ok((seq![num], i + 1))
        }
    }
}

/// The seconds-out-of-range payload: the value, saturated to fit its field.
pub open spec fn clamp_u8(v: int) -> u8 {
    if v <= 255 {
        v as u8
    } else {
        255u8
    }
}

/// The time described by sign, components and fraction, with every component
/// range enforced.
pub open spec fn spec_build_time(
    neg: bool,
    comps: Seq<Seq<char>>,
    frac: Option<Seq<char>>,
    is_seconds: bool,
) -> Result<Time, ParseErrorView>
    recommends
        1 <= comps.len() <= 3,
{
    let hours_digits: Option<Seq<char>> = if comps.len() >= 3 {
        Some(comps[0])
    } else {
        None
    };
    let minutes_digits: Option<Seq<char>> = if comps.len() >= 2 {
        Some(
            comps[if comps.len() == 2 {
                0int
            } else {
                1int
            }],
        )
    } else {
        None
    };
    let seconds_digits = comps[if comps.len() == 1 {
        0int
    } else if comps.len() == 2 {
        1int
    } else {
        2int
    }];
    if hours_digits matches Some(h) && digits_value(h) > u64::MAX {
        Err(ParseErrorView::TimeOutOfRange)
    } else if minutes_digits matches Some(m) && m.len() != 2 {
        Err(ParseErrorView::ExpectedTwoDigitMinutes(minutes_digits->0))
    } else if minutes_digits matches Some(m) && digits_value(m) >= 60 {
        Err(ParseErrorView::MinutesOutOfRange(digits_value(minutes_digits->0) as u8))
    } else if seconds_digits.len() != 2 && !is_seconds {
        Err(ParseErrorView::ExpectedTwoDigitSeconds(seconds_digits))
    } else if digits_value(seconds_digits) >= 60 {
        Err(ParseErrorView::SecondsOutOfRange(clamp_u8(digits_value(seconds_digits))))
    } else if frac matches Some(f) && f.len() > 9 {
        Err(ParseErrorView::FractionalSecondsTooLarge(frac->0))
    } else {
        let hours: int = match hours_digits {
            Some(h) => digits_value(h),
            None => 0,
        };
        let minutes: int = match minutes_digits {
            Some(m) => digits_value(m),
            None => 0,
        };
        let seconds: int = digits_value(seconds_digits);
        let nanos: int = match frac {
            Some(f) => digits_value(f) * pow10((9 - f.len()) as nat),
            None => 0,
        };
        if hours > MAX_TIME_HOURS || (hours == MAX_TIME_HOURS && minutes > MAX_TIME_MINUTES) || (
        hours == MAX_TIME_HOURS && minutes == MAX_TIME_MINUTES && seconds > MAX_TIME_SECONDS) {
            Err(ParseErrorView::TimeOutOfRange)
        } else {
            let mag = (hours * 3600 + minutes * 60 + seconds) * 1_000_000_000 + nanos;
            Ok(
                from_nanos(
                    if neg {
                        -mag
                    } else {
                        mag
                    },
                ),
            )
        }
    }
}

/// What parsing a token sequence as duration text produces.
pub open spec fn spec_parse_tokens(toks: Seq<TokenView>) -> Result<Time, ParseErrorView> {
    let neg = toks.len() > 0 && toks[0] is Hyphen;
    let i0: int = if neg {
        1
    } else {
        0
    };
    match spec_components(toks, i0) {
        Err(e) => Err(e),
        Ok((comps, j)) => {
            if comps.len() > 3 {
                Err(ParseErrorView::ExceededMaxComponents)
            } else {
                let has_frac = j < toks.len() && toks[j] is FullStop;
                if has_frac && !(j + 1 < toks.len() && toks[j + 1] is Number) {
                    Err(
                        ParseErrorView::ExpectedNumberAfterDecimal(
                            if j + 1 < toks.len() {
                                Some(toks[j + 1])
                            } else {
                                None
                            },
                        ),
                    )
                } else {
                    let frac: Option<Seq<char>> = if has_frac {
                        Some(toks[j + 1]->Number_0)
                    } else {
                        None
                    };
                    let j2: int = if has_frac {
                        j + 2
                    } else {
                        j
                    };
                    let has_s = j2 < toks.len() && toks[j2] is S;
                    let j3: int = if has_s {
                        j2 + 1
                    } else {
                        j2
                    };
                    if j3 < toks.len() {
                        Err(ParseErrorView::ExpectedEndOfInput(toks[j3]))
                    } else if has_s && comps.len() != 1 {
                        Err(ParseErrorView::UnexpectedSecondsIdentifier)
                    } else if !has_s && comps.len() == 1 {
                        Err(ParseErrorView::ExpectedSecondsIdentifier)
                    } else {
                        spec_build_time(neg, comps, frac, has_s)
                    }
                }
            }
        },
    }
}

/// What parsing duration text produces: the lexical errors if there were
/// any, otherwise the parse of the tokens.
pub open spec fn spec_parse_time(s: Seq<char>) -> Result<Time, ParseErrorView> {
    let (toks, errs) = spec_scan(s);
    if errs.len() > 0 {
        Err(ParseErrorView::LexError(errs))
    } else {
        spec_parse_tokens(toks)
    }
}


/// Every character inside the leading digit run is a digit.
pub proof fn lemma_digit_run_digits(s: Seq<char>)
    ensures
        forall|i: int| 0 <= i < digit_run_len(s) ==> is_digit_char(#[trigger] s[i]),
    decreases s.len(),
{
    if s.len() > 0 && is_digit_char(s[0]) {
        lemma_digit_run_digits(s.drop_first());
        lemma_digit_run_le_len(s.drop_first());
        assert forall|i: int| 0 <= i < digit_run_len(s) implies is_digit_char(#[trigger] s[i]) by {
            if i > 0 {
                assert(s[i] == s.drop_first()[i - 1]);
            }
        }
    }
}

/// Whether every number token holds only digit characters, as the lexer
/// guarantees.
pub open spec fn tokens_wf(toks: Seq<TokenView>) -> bool {
    forall|k: int|
        0 <= k < toks.len() ==> ((#[trigger] toks[k]) matches TokenView::Number(d) ==> all_digits(
            d,
        ))
}

/// The lexer only produces well-formed number tokens.
pub proof fn lemma_scan_tokens_wf(s: Seq<char>)
    ensures
        tokens_wf(spec_scan(s).0),
    decreases s.len(),
{
    if s.len() == 0 {
    } else if is_digit_char(s[0]) {
        let n = digit_run_len(s) as int;
        lemma_digit_run_le_len(s);
        lemma_digit_run_digits(s);
        lemma_scan_tokens_wf(s.skip(n));
        assert(all_digits(s.take(n))) by {
            assert(forall|i: int| 0 <= i < n ==> #[trigger] s.take(n)[i] == s[i]);
        }
        assert forall|k: int|
            0 <= k < spec_scan(s).0.len() implies ((#[trigger] spec_scan(s).0[k]) matches
            TokenView::Number(d) ==> all_digits(d)) by {
            if k > 0 {
                assert(spec_scan(s).0[k] == spec_scan(s.skip(n)).0[k - 1]);
            }
        }
    } else {
        lemma_scan_tokens_wf(s.skip(1));
        assert forall|k: int|
            0 <= k < spec_scan(s).0.len() implies ((#[trigger] spec_scan(s).0[k]) matches
            TokenView::Number(d) ==> all_digits(d)) by {
            match char_token(s[0]) {
                Some(t) => {
                    if k > 0 {
                        assert(spec_scan(s).0[k] == spec_scan(s.skip(1)).0[k - 1]);
                    }
                },
                None => {
                    assert(spec_scan(s).0[k] == spec_scan(s.skip(1)).0[k]);
                },
            }
        }
    }
}

/// Reads the value of a run of digit characters, or `None` if it exceeds
/// `u64::MAX`.
fn parse_digits_u64(s: &str) -> (r: Option<u64>)
    requires
        all_digits(s@),
    ensures
        r matches Some(v) ==> v == digits_value(s@),
        r is None <==> digits_value(s@) > u64::MAX,
{
    let n = s.unicode_len();
    let mut acc: u64 = 0;
    let mut i: usize = 0;
    proof {
        assert(s@.take(0) =~= Seq::<char>::empty());
    }
    while i < n
        invariant
            all_digits(s@),
            n == s@.len(),
            i <= n,
            acc == digits_value(s@.take(i as int)),
        decreases n - i,
    {
        let c = s.get_char(i);
        assert(is_digit_char(c));
        let d: u64 = (c as u32 - 48) as u64;
        proof {
            crate::dec::lemma_digits_take_step(s@, i as int);
            lemma_fundamental_div_mod((u64::MAX - d) as int, 10);
            vstd::arithmetic::div_mod::lemma_mod_bound((u64::MAX - d) as int, 10);
        }
        if acc > (u64::MAX - d) / 10 {
            proof {
                crate::dec::lemma_digits_take_le(s@, i as int + 1);
            }
            return None;
        }
        acc = acc * 10 + d;
        i = i + 1;
    }
    proof {
        assert(s@.take(n as int) =~= s@);
    }
    Some(acc)
}


/// Components collected from well-formed tokens hold only digits.
proof fn lemma_components_digits(toks: Seq<TokenView>, i: int)
    requires
        tokens_wf(toks),
    ensures
        spec_components(toks, i) matches Ok(p) ==> forall|k: int|
            0 <= k < p.0.len() ==> all_digits(#[trigger] p.0[k]),
    decreases toks.len() - i,
{
    if i < 0 || i >= toks.len() || !(toks[i] is Number) {
    } else {
        if i + 1 < toks.len() && toks[i + 1] is Colon {
            lemma_components_digits(toks, i + 2);
            match spec_components(toks, i + 2) {
                Ok(p) => {
                    let whole = seq![toks[i]->Number_0] + p.0;
                    assert forall|k: int| 0 <= k < whole.len() implies all_digits(
                        #[trigger] whole[k],
                    ) by {
                        if k > 0 {
                            assert(whole[k] == p.0[k - 1]);
                        }
                    }
                },
                Err(_) => {},
            }
        }
    }
}

/// A parser over duration tokens.
pub struct Parser {
    tokens: Vec<Token>,
}

impl Parser {
    /// The token sequence being parsed.
    pub closed spec fn spec_tokens(self) -> Seq<TokenView> {
        self.tokens.deep_view()
    }

    /// Returns a parser over the given tokens.
    pub fn new(tokens: Vec<Token>) -> (r: Parser)
        ensures
            r.spec_tokens() == tokens.deep_view(),
    {
        Parser { tokens }
    }

    /// Parses the tokens as duration text and builds the time.
    pub fn parse(self) -> (r: Result<Time, ParseError>)
        requires
            tokens_wf(self.spec_tokens()),
        ensures
            parse_result_view(r) == spec_parse_tokens(self.spec_tokens()),
            r matches Ok(t) ==> t.inv(),
    {
        let ghost toks = self.tokens.deep_view();
        let n = self.tokens.len();
        let is_negative = n > 0 && matches!(self.tokens[0], Token::Hyphen);
        let mut i: usize = if is_negative {
            1
        } else {
            0
        };
        let ghost i0 = i as int;
        let mut comps: Vec<String> = Vec::new();
        proof {
            assert(comps.deep_view() =~= Seq::<Seq<char>>::empty());
        }
        loop
            invariant_except_break
                spec_components(toks, i0) == (match spec_components(toks, i as int) {
                    Ok(p) => Ok::<(Seq<Seq<char>>, int), ParseErrorView>(
                        (comps.deep_view() + p.0, p.1),
                    ),
                    Err(e) => Err::<(Seq<Seq<char>>, int), ParseErrorView>(e),
                }),
            invariant
                tokens_wf(toks),
                toks == self.tokens.deep_view(),
                n == self.tokens@.len(),
                n == toks.len(),
                0 <= i0 <= i <= n,
                is_negative == (toks.len() > 0 && toks[0] is Hyphen),
                i0 == if is_negative { 1int } else { 0int },
            ensures
                i <= n,
                spec_components(toks, i0) == Ok::<(Seq<Seq<char>>, int), ParseErrorView>(
                    (comps.deep_view(), i as int),
                ),
            decreases n - i,
        {
            let ghost iprev = i as int;
            let ghost comps0 = comps.deep_view();
            if i >= n {
                return Err(ParseError::ExpectedNumber(None));
            }
            match &self.tokens[i] {
                Token::Number(text) => {
                    comps.push(text.clone());
                },
                t => {
                    return Err(ParseError::ExpectedNumber(Some(t.clone())));
                },
            }
            proof {
                assert(comps.deep_view() =~= comps0 + seq![toks[iprev]->Number_0]);
            }
            if i + 1 < n && matches!(self.tokens[i + 1], Token::Colon) {
                i = i + 2;
                proof {
                    assert(spec_components(toks, i0) == (match spec_components(toks, i as int) {
                        Ok(p) => Ok::<(Seq<Seq<char>>, int), ParseErrorView>(
                            (comps.deep_view() + p.0, p.1),
                        ),
                        Err(e) => Err::<(Seq<Seq<char>>, int), ParseErrorView>(e),
                    })) by {
                        match spec_components(toks, i as int) {
                            Ok(p) => {
                                assert((comps0 + (seq![toks[iprev]->Number_0] + p.0)) =~= (comps0
                                    + seq![toks[iprev]->Number_0]) + p.0);
                            },
                            Err(e) => {},
                        }
                    }
                }
            } else {
                i = i + 1;
                proof {
                    assert(spec_components(toks, iprev) == Ok::<
                        (Seq<Seq<char>>, int),
                        ParseErrorView,
                    >((seq![toks[iprev]->Number_0], iprev + 1)));
                    assert((comps0 + seq![toks[iprev]->Number_0]) =~= comps.deep_view());
                }
                break;
            }
        }
        let j = i;
        proof {
            lemma_components_digits(toks, i0);
        }
        if comps.len() > 3 {
            return Err(ParseError::ExceededMaxComponents);
        }
        let has_frac = j < n && matches!(self.tokens[j], Token::FullStop);
        if has_frac && !(j + 1 < n && matches!(self.tokens[j + 1], Token::Number(_))) {
            if j + 1 < n {
                return Err(ParseError::ExpectedNumberAfterDecimal(Some(self.tokens[j + 1].clone())));
            } else {
                return Err(ParseError::ExpectedNumberAfterDecimal(None));
            }
        }
        let frac: Option<String> = if has_frac {
            match &self.tokens[j + 1] {
                Token::Number(f) => Some(f.clone()),
                _ => {
                    proof {
                        assert(false);
                    }
                    None
                },
            }
        } else {
            None
        };
        let j2 = if has_frac {
            j + 2
        } else {
            j
        };
        let has_s = j2 < n && matches!(self.tokens[j2], Token::S);
        let j3 = if has_s {
            j2 + 1
        } else {
            j2
        };
        if j3 < n {
            return Err(ParseError::ExpectedEndOfInput(self.tokens[j3].clone()));
        }
        if has_s && comps.len() != 1 {
            return Err(ParseError::UnexpectedSecondsIdentifier);
        }
        if !has_s && comps.len() == 1 {
            return Err(ParseError::ExpectedSecondsIdentifier);
        }
        proof {
            lemma_pow10_values_local();
        }
        // Hours.
        let mut hours: u64 = 0;
        if comps.len() >= 3 {
            match parse_digits_u64(comps[0].as_str()) {
                Some(v) => {
                    hours = v;
                },
                None => {
                    return Err(ParseError::TimeOutOfRange);
                },
            }
        }
        // Minutes.
        let mut minutes_val: u64 = 0;
        if comps.len() >= 2 {
            let idx: usize = if comps.len() == 2 {
                0
            } else {
                1
            };
            let m = &comps[idx];
            if m.unicode_len() != 2 {
                return Err(ParseError::ExpectedTwoDigitMinutes(m.clone()));
            }
            proof {
                crate::dec::lemma_digits_value_bound(m@);
            }
            let v = match parse_digits_u64(m.as_str()) {
                Some(v) => v,
                None => {
                    proof {
                        assert(false);
                    }
                    0
                },
            };
            if v >= 60 {
                return Err(ParseError::MinutesOutOfRange(v as u8));
            }
            minutes_val = v;
        }
        // Seconds.
        let sidx: usize = if comps.len() == 1 {
            0
        } else if comps.len() == 2 {
            1
        } else {
            2
        };
        let sstr = &comps[sidx];
        if sstr.unicode_len() != 2 && !has_s {
            return Err(ParseError::ExpectedTwoDigitSeconds(sstr.clone()));
        }
        let sval: u64 = match parse_digits_u64(sstr.as_str()) {
            Some(v) => {
                if v >= 60 {
                    let payload: u8 = if v <= 255 {
                        v as u8
                    } else {
                        255
                    };
                    return Err(ParseError::SecondsOutOfRange(payload));
                }
                v
            },
            None => {
                return Err(ParseError::SecondsOutOfRange(255));
            },
        };
        // Nanoseconds.
        let mut nanos_val: u32 = 0;
        match &frac {
            Some(f) => {
                let flen = f.unicode_len();
                if flen > 9 {
                    return Err(ParseError::FractionalSecondsTooLarge(f.clone()));
                }
                proof {
                    assert(all_digits(f@));
                    crate::dec::lemma_digits_value_bound(f@);
                    vstd::arithmetic::power::lemma_pow_increases(10, f@.len(), 9);
                    vstd::arithmetic::power::lemma_pow_increases(10, (9 - f@.len()) as nat, 9);
                }
                let v = match parse_digits_u64(f.as_str()) {
                    Some(v) => v,
                    None => {
                        proof {
                            assert(false);
                        }
                        0
                    },
                };
                let p: u64 = pow10_u128((9 - flen) as u32) as u64;
                proof {
                    vstd::arithmetic::power::lemma_pow_adds(10, f@.len(), (9 - f@.len()) as nat);
                    assert(v * p < 1_000_000_000) by (nonlinear_arith)
                        requires
                            0 <= v < pow10(f@.len()),
                            0 < p == pow10((9 - f@.len()) as nat),
                            pow10(f@.len()) * pow10((9 - f@.len()) as nat) == 1_000_000_000,
                    ;
                }
                nanos_val = (v * p) as u32;
            },
            None => {},
        }
        // Range of the whole magnitude.
        if hours > MAX_TIME_HOURS || (hours == MAX_TIME_HOURS && minutes_val > MAX_TIME_MINUTES
            as u64) || (hours == MAX_TIME_HOURS && minutes_val == MAX_TIME_MINUTES as u64 && sval
            > MAX_TIME_SECONDS as u64) {
            return Err(ParseError::TimeOutOfRange);
        }
        let b = Time::builder().hours(hours).minutes(minutes_val as u8).seconds(
            sval as u8,
        ).nanoseconds(nanos_val);
        let b2 = if is_negative {
            b.negative()
        } else {
            b
        };
        let t = b2.build();
        Ok(t)
    }
}

/// The handful of power-of-ten values the parser's range checks need.
proof fn lemma_pow10_values_local()
    ensures
        pow10(0) == 1,
        pow10(2) == 100,
        pow10(9) == 1_000_000_000,
{
    crate::dec::lemma_pow10_values();
}

/// Parses duration text into a time.
pub fn parse_time(time: &str) -> (r: Result<Time, ParseError>)
    ensures
        parse_result_view(r) == spec_parse_time(time@),
        r matches Ok(t) ==> t.inv(),
{
    let mut lexer = Lexer::new(time);
    match lexer.scan() {
        Ok(tokens) => {
            proof {
                lemma_scan_tokens_wf(time@);
            }
            Parser::new(tokens).parse()
        },
        Err(errors) => Err(ParseError::LexError(errors)),
    }
}


/// Scanning text that begins with one of the four marks produces that mark's
/// token and scans on.
proof fn lemma_scan_mark(c: char, rest: Seq<char>)
    requires
        char_token(c) is Some,
        !is_digit_char(c),
    ensures
        spec_scan(seq![c] + rest).0 =~= seq![char_token(c).unwrap()] + spec_scan(rest).0,
        spec_scan(seq![c] + rest).1 =~= spec_scan(rest).1,
{
    let s = seq![c] + rest;
    assert(s[0] == c);
    assert(s.skip(1) =~= rest);
}

/// Scanning text that begins with a maximal digit run produces one number
/// token holding the run and scans on.
proof fn lemma_scan_digits(d: Seq<char>, rest: Seq<char>)
    requires
        all_digits(d),
        d.len() >= 1,
        rest.len() == 0 || !is_digit_char(rest[0]),
    ensures
        spec_scan(d + rest).0 =~= seq![TokenView::Number(d)] + spec_scan(rest).0,
        spec_scan(d + rest).1 =~= spec_scan(rest).1,
{
    let s = d + rest;
    assert(is_digit_char(s[0]));
    assert(forall|i: int| 0 <= i < d.len() ==> s[i] == #[trigger] d[i]);
    lemma_digit_run_exact(s, d.len() as int);
    assert(s.take(d.len() as int) =~= d);
    assert(s.skip(d.len() as int) =~= rest);
}

/// The tokens of the fraction-and-marker tail of a written time.
spec fn tail_tokens(ns: int, with_s: bool) -> Seq<TokenView> {
    let frac: Seq<TokenView> = if ns > 0 {
        seq![TokenView::FullStop, TokenView::Number(crate::time::strip_zeros(crate::time::pad9(ns)))]
    } else {
        Seq::empty()
    };
    if with_s {
        frac + seq![TokenView::S]
    } else {
        frac
    }
}

/// The written fraction-and-marker tail scans to its tokens, without error.
proof fn lemma_scan_tail(ns: int, with_s: bool)
    requires
        0 < ns <= 999_999_999,
    ensures
        spec_scan(
            (seq!['.'] + crate::time::strip_zeros(crate::time::pad9(ns))) + (if with_s {
                seq!['s']
            } else {
                Seq::<char>::empty()
            }),
        ).0 =~= tail_tokens(ns, with_s),
        spec_scan(
            (seq!['.'] + crate::time::strip_zeros(crate::time::pad9(ns))) + (if with_s {
                seq!['s']
            } else {
                Seq::<char>::empty()
            }),
        ).1 =~= Seq::<LexError>::empty(),
{
    let f = crate::time::strip_zeros(crate::time::pad9(ns));
    crate::time::lemma_pad9_wf(ns);
    crate::time::lemma_strip_zeros_value(crate::time::pad9(ns));
    let sp: Seq<char> = if with_s {
        seq!['s']
    } else {
        Seq::empty()
    };
    let whole = (seq!['.'] + f) + sp;
    assert(whole =~= seq!['.'] + (f + sp));
    lemma_scan_mark('.', f + sp);
    assert(sp.len() == 0 || !is_digit_char(sp[0]));
    lemma_scan_digits(f, sp);
    if with_s {
        assert(sp =~= seq!['s'] + Seq::<char>::empty());
        lemma_scan_mark('s', Seq::empty());
        assert(spec_scan(Seq::<char>::empty()).0 =~= Seq::<TokenView>::empty());
    }
}


/// The tokens a written time scans to.
spec fn display_tokens(t: Time) -> Seq<TokenView> {
    let sgn: Seq<TokenView> = if t.nanos_value() < 0 {
        seq![TokenView::Hyphen]
    } else {
        Seq::empty()
    };
    let h = t.spec_hours();
    let m = t.spec_minutes();
    let s = t.spec_seconds_comp();
    let ns = t.spec_nanos_comp();
    let hours_toks: Seq<TokenView> = if h > 0 {
        seq![TokenView::Number(crate::time::spec_digits(h)), TokenView::Colon]
    } else {
        Seq::empty()
    };
    let ms_toks: Seq<TokenView> = if h > 0 || m > 0 {
        seq![
            TokenView::Number(crate::time::pad2(m)),
            TokenView::Colon,
            TokenView::Number(crate::time::pad2(s)),
        ]
    } else {
        seq![TokenView::Number(crate::time::spec_digits(s))]
    };
    sgn + hours_toks + ms_toks + tail_tokens(ns, h == 0 && m == 0)
}

/// The bounds of a well-formed time's clock components.
proof fn lemma_component_bounds(t: Time)
    requires
        t.inv(),
    ensures
        0 <= t.spec_minutes() <= 59,
        0 <= t.spec_seconds_comp() <= 59,
        0 <= t.spec_nanos_comp() <= 999_999_999,
        0 <= t.spec_hours(),
        0 <= t.whole_seconds_mag() <= i64::MAX,
        t.spec_seconds_comp() + 60 * t.spec_minutes() + 3600 * t.spec_hours()
            == t.whole_seconds_mag(),
        t.mag() == t.whole_seconds_mag() * 1_000_000_000 + t.spec_nanos_comp(),
        0 <= t.mag() <= MAX_NANOS,
{
    let w = t.whole_seconds_mag();
    vstd::arithmetic::div_mod::lemma_mod_bound(t.mag(), 1_000_000_000);
    vstd::arithmetic::div_mod::lemma_mod_bound(w, 3600);
    vstd::arithmetic::div_mod::lemma_mod_bound(w, 60);
    lemma_fundamental_div_mod(t.mag(), 1_000_000_000);
    vstd::arithmetic::div_mod::lemma_div_pos_is_pos(t.mag(), 1_000_000_000);
    vstd::arithmetic::div_mod::lemma_div_pos_is_pos(w, 3600);
    assert((w % 3600) / 60 <= 59) by (nonlinear_arith)
        requires
            0 <= w % 3600 < 3600,
    ;
    vstd::arithmetic::div_mod::lemma_div_pos_is_pos(w % 3600, 60);
    crate::time::lemma_components_compose(t);
    assert(w <= i64::MAX) by {
        vstd::arithmetic::div_mod::lemma_div_is_ordered(t.mag(), MAX_NANOS as int, 1_000_000_000);
    }
}

/// A written time scans to its tokens, without error.
#[verifier::rlimit(100)]
proof fn lemma_scan_display(t: Time)
    requires
        t.inv(),
    ensures
        spec_scan(crate::time::spec_display(t)).0 =~= display_tokens(t),
        spec_scan(crate::time::spec_display(t)).1 =~= Seq::<LexError>::empty(),
{
    lemma_component_bounds(t);
    let h = t.spec_hours();
    let m = t.spec_minutes();
    let s = t.spec_seconds_comp();
    let ns = t.spec_nanos_comp();
    crate::time::lemma_spec_digits_wf(s);
    crate::time::lemma_pad2_wf(m);
    crate::time::lemma_pad2_wf(s);
    // the written tail after the seconds digits, and its scan
    let marker = h == 0 && m == 0;
    let sp: Seq<char> = if marker {
        seq!['s']
    } else {
        Seq::empty()
    };
    let fp: Seq<char> = if ns > 0 {
        seq!['.'] + crate::time::strip_zeros(crate::time::pad9(ns))
    } else {
        Seq::empty()
    };
    let tail = fp + sp;
    assert(spec_scan(tail).0 =~= tail_tokens(ns, marker) && spec_scan(tail).1 =~= Seq::<
        LexError,
    >::empty()) by {
        if ns > 0 {
            lemma_scan_tail(ns, marker);
            assert(tail =~= (seq!['.'] + crate::time::strip_zeros(crate::time::pad9(ns))) + sp);
        } else {
            if marker {
                assert(tail =~= seq!['s'] + Seq::<char>::empty());
                lemma_scan_mark('s', Seq::empty());
            } else {
                assert(tail =~= Seq::<char>::empty());
            }
        }
    }
    assert(tail.len() == 0 || !is_digit_char(tail[0]));
    // seconds digits ahead of the tail
    let sec_digits: Seq<char> = if h > 0 || m > 0 {
        crate::time::pad2(s)
    } else {
        crate::time::spec_digits(s)
    };
    let sec_part = sec_digits + tail;
    lemma_scan_digits(sec_digits, tail);
    // minutes digits and colon ahead of that
    let ms_part: Seq<char> = if h > 0 || m > 0 {
        crate::time::pad2(m) + seq![':'] + sec_part
    } else {
        sec_part
    };
    if h > 0 || m > 0 {
        assert(ms_part =~= crate::time::pad2(m) + (seq![':'] + sec_part));
        lemma_scan_mark(':', sec_part);
        lemma_scan_digits(crate::time::pad2(m), seq![':'] + sec_part);
    }
    // hours digits and colon ahead of that
    let body: Seq<char> = if h > 0 {
        crate::time::spec_digits(h) + seq![':'] + ms_part
    } else {
        ms_part
    };
    if h > 0 {
        crate::time::lemma_spec_digits_wf(h);
        assert(body =~= crate::time::spec_digits(h) + (seq![':'] + ms_part));
        lemma_scan_mark(':', ms_part);
        lemma_scan_digits(crate::time::spec_digits(h), seq![':'] + ms_part);
    }
    // the sign ahead of everything
    let neg = t.nanos_value() < 0;
    if neg {
        assert(crate::time::spec_display(t) =~= seq!['-'] + body);
        lemma_scan_mark('-', body);
    } else {
        assert(crate::time::spec_display(t) =~= body);
    }
}


/// The tokens of a written time parse back to the very same time.
#[verifier::rlimit(100)]
proof fn lemma_parse_display_tokens(t: Time)
    requires
        t.inv(),
    ensures
        spec_parse_tokens(display_tokens(t)) == Ok::<Time, ParseErrorView>(t),
{
    lemma_component_bounds(t);
    let h = t.spec_hours();
    let m = t.spec_minutes();
    let s = t.spec_seconds_comp();
    let ns = t.spec_nanos_comp();
    let neg = t.nanos_value() < 0;
    let toks = display_tokens(t);
    let i0: int = if neg {
        1int
    } else {
        0int
    };
    crate::time::lemma_spec_digits_wf(h);
    crate::time::lemma_spec_digits_value(h);
    crate::time::lemma_spec_digits_wf(s);
    crate::time::lemma_spec_digits_value(s);
    crate::time::lemma_pad2_wf(m);
    crate::time::lemma_pad2_wf(s);
    crate::time::lemma_pad9_wf(ns);
    crate::time::lemma_strip_zeros_value(crate::time::pad9(ns));
    let strip = crate::time::strip_zeros(crate::time::pad9(ns));
    let frac_v: Option<Seq<char>> = if ns > 0 {
        Some(strip)
    } else {
        None
    };
    let nanos_parsed: int = match frac_v {
        Some(f) => crate::dec::digits_value(f) * crate::dec::pow10((9 - f.len()) as nat),
        None => 0,
    };
    assert(nanos_parsed == ns);
    assert(h <= MAX_TIME_HOURS && (h == MAX_TIME_HOURS ==> m <= MAX_TIME_MINUTES as int) && (h
        == MAX_TIME_HOURS && m == MAX_TIME_MINUTES as int ==> s <= MAX_TIME_SECONDS as int)) by {
        assert(s + 60 * m + 3600 * h <= i64::MAX);
    }
    let mag = (h * 3600 + m * 60 + s) * 1_000_000_000 + ns;
    assert(mag == t.mag()) by {
        crate::time::lemma_components_compose(t);
    }
    let bv: int = if neg {
        -mag
    } else {
        mag
    };
    assert(bv == t.nanos_value());
    assert(from_nanos(bv) == t) by {
        crate::time::lemma_from_nanos(bv);
        crate::time::lemma_value_unique(from_nanos(bv), t);
    }
    let tail = tail_tokens(ns, h == 0 && m == 0);
    if h > 0 {
        let body = seq![
            TokenView::Number(crate::time::spec_digits(h)),
            TokenView::Colon,
            TokenView::Number(crate::time::pad2(m)),
            TokenView::Colon,
            TokenView::Number(crate::time::pad2(s)),
        ];
        let sgn: Seq<TokenView> = if neg {
            seq![TokenView::Hyphen]
        } else {
            Seq::empty()
        };
        assert(toks =~= sgn + body + tail);
        assert(toks[i0] == TokenView::Number(crate::time::spec_digits(h)));
        assert(toks[i0 + 1] == TokenView::Colon);
        assert(toks[i0 + 2] == TokenView::Number(crate::time::pad2(m)));
        assert(toks[i0 + 3] == TokenView::Colon);
        assert(toks[i0 + 4] == TokenView::Number(crate::time::pad2(s)));
        if ns > 0 {
            assert(toks[i0 + 5] == TokenView::FullStop);
            assert(toks[i0 + 6] == TokenView::Number(strip));
            assert(toks.len() == i0 + 7);
        } else {
            assert(toks.len() == i0 + 5);
        }
        assert(spec_components(toks, i0 + 4) == Ok::<(Seq<Seq<char>>, int), ParseErrorView>(
            (seq![crate::time::pad2(s)], i0 + 5),
        ));
        assert(spec_components(toks, i0 + 2) == Ok::<(Seq<Seq<char>>, int), ParseErrorView>(
            (seq![crate::time::pad2(m)] + seq![crate::time::pad2(s)], i0 + 5),
        ));
        assert(spec_components(toks, i0) == Ok::<(Seq<Seq<char>>, int), ParseErrorView>(
            (
                seq![crate::time::spec_digits(h)] + (seq![crate::time::pad2(m)] + seq![
                    crate::time::pad2(s),
                ]),
                i0 + 5,
            ),
        ));
        let comps = seq![crate::time::spec_digits(h)] + (seq![crate::time::pad2(m)] + seq![
            crate::time::pad2(s),
        ]);
        assert(comps.len() == 3);
        assert(comps[0] == crate::time::spec_digits(h));
        assert(comps[1] == crate::time::pad2(m));
        assert(comps[2] == crate::time::pad2(s));
        assert(spec_parse_tokens(toks) == spec_build_time(neg, comps, frac_v, false));
        assert(spec_build_time(neg, comps, frac_v, false) == Ok::<Time, ParseErrorView>(t));
    } else if m > 0 {
        let body = seq![
            TokenView::Number(crate::time::pad2(m)),
            TokenView::Colon,
            TokenView::Number(crate::time::pad2(s)),
        ];
        let sgn: Seq<TokenView> = if neg {
            seq![TokenView::Hyphen]
        } else {
            Seq::empty()
        };
        assert(toks =~= sgn + body + tail);
        assert(toks[i0] == TokenView::Number(crate::time::pad2(m)));
        assert(toks[i0 + 1] == TokenView::Colon);
        assert(toks[i0 + 2] == TokenView::Number(crate::time::pad2(s)));
        if ns > 0 {
            assert(toks[i0 + 3] == TokenView::FullStop);
            assert(toks[i0 + 4] == TokenView::Number(strip));
            assert(toks.len() == i0 + 5);
        } else {
            assert(toks.len() == i0 + 3);
        }
        assert(spec_components(toks, i0 + 2) == Ok::<(Seq<Seq<char>>, int), ParseErrorView>(
            (seq![crate::time::pad2(s)], i0 + 3),
        ));
        assert(spec_components(toks, i0) == Ok::<(Seq<Seq<char>>, int), ParseErrorView>(
            (seq![crate::time::pad2(m)] + seq![crate::time::pad2(s)], i0 + 3),
        ));
        let comps = seq![crate::time::pad2(m)] + seq![crate::time::pad2(s)];
        assert(comps.len() == 2);
        assert(comps[0] == crate::time::pad2(m));
        assert(comps[1] == crate::time::pad2(s));
        assert(spec_parse_tokens(toks) == spec_build_time(neg, comps, frac_v, false));
        assert(spec_build_time(neg, comps, frac_v, false) == Ok::<Time, ParseErrorView>(t));
    } else {
        let body = seq![TokenView::Number(crate::time::spec_digits(s))];
        let sgn: Seq<TokenView> = if neg {
            seq![TokenView::Hyphen]
        } else {
            Seq::empty()
        };
        assert(toks =~= sgn + body + tail);
        assert(toks[i0] == TokenView::Number(crate::time::spec_digits(s)));
        if ns > 0 {
            assert(toks[i0 + 1] == TokenView::FullStop);
            assert(toks[i0 + 2] == TokenView::Number(strip));
            assert(toks[i0 + 3] == TokenView::S);
            assert(toks.len() == i0 + 4);
        } else {
            assert(toks[i0 + 1] == TokenView::S);
            assert(toks.len() == i0 + 2);
        }
        assert(spec_components(toks, i0) == Ok::<(Seq<Seq<char>>, int), ParseErrorView>(
            (seq![crate::time::spec_digits(s)], i0 + 1),
        ));
        let comps = seq![crate::time::spec_digits(s)];
        assert(comps.len() == 1);
        assert(comps[0] == crate::time::spec_digits(s));
        assert(spec_parse_tokens(toks) == spec_build_time(neg, comps, frac_v, true));
        assert(spec_build_time(neg, comps, frac_v, true) == Ok::<Time, ParseErrorView>(t));
    }
}

/// Writing a time out and parsing the text back yields the very same time:
/// the canonical written form always round-trips.
pub proof fn lemma_display_round_trip(t: Time)
    requires
        t.inv(),
    ensures
        spec_parse_time(crate::time::spec_display(t)) == Ok::<Time, ParseErrorView>(t),
{
    lemma_scan_display(t);
    lemma_parse_display_tokens(t);
}

} // verus!
