//! The lexer: raw text to a token stream. Parentheses, double-quoted
//! strings (no escape processing; an unterminated string is an error),
//! integer literals, the reserved keywords and operators, and generic
//! symbols for everything else.
use vstd::prelude::*;
use vstd::string::StrSliceExecFns;
use vstd::string::StringExecFns;

use crate::object::{push_char, str_eq_str};

verus! {

#[derive(Debug, PartialEq)]
pub enum Token {
    Integer(i64),
    Symbol(String),
    Keyword(String),
    If,
    BinaryOp(String),
    Str(String),
    LParen,
    RParen,
}

/// Mathematical mirror of `Token`.
pub enum TokV {
    Integer(int),
    Symbol(Seq<char>),
    Keyword(Seq<char>),
    If,
    BinaryOp(Seq<char>),
    Str(Seq<char>),
    LParen,
    RParen,
}

pub open spec fn tok_view(t: Token) -> TokV {
    match t {
        Token::Integer(n) => TokV::Integer(n as int),
        Token::Symbol(s) => TokV::Symbol(s@),
        Token::Keyword(s) => TokV::Keyword(s@),
        Token::If => TokV::If,
        Token::BinaryOp(s) => TokV::BinaryOp(s@),
        Token::Str(s) => TokV::Str(s@),
        Token::LParen => TokV::LParen,
        Token::RParen => TokV::RParen,
    }
}

impl View for Token {
    type V = TokV;

    open spec fn view(&self) -> TokV {
        tok_view(*self)
    }
}

pub open spec fn toks_view(s: Seq<Token>) -> Seq<TokV> {
    Seq::new(s.len(), |i: int| tok_view(s[i]))
}

/// A lexing failure: an unterminated string literal.
#[derive(Debug)]
pub struct TokenError {
    pub err: String,
}

pub open spec fn is_ws(c: char) -> bool {
    c == ' ' || c == '\t' || c == '\n' || c == '\r'
}

pub open spec fn is_delim(c: char) -> bool {
    is_ws(c) || c == '(' || c == ')'
}

/// The end of the word starting at `i`: the first delimiter at or after
/// `i`, or the end of the input.
pub open spec fn scan_word(s: Seq<char>, i: int) -> int
    decreases s.len() - i,
{
    if i < 0 || i >= s.len() {
        s.len() as int
    } else if is_delim(s[i]) {
        i
    } else {
        scan_word(s, i + 1)
    }
}

/// The position of the closing quote at or after `i`, or the end of the
/// input if there is none.
pub open spec fn scan_str(s: Seq<char>, i: int) -> int
    decreases s.len() - i,
{
    if i < 0 || i >= s.len() {
        s.len() as int
    } else if s[i] == '"' {
        i
    } else {
        scan_str(s, i + 1)
    }
}

pub open spec fn is_digit(c: char) -> bool {
    '0' as u32 <= c as u32 && c as u32 <= '9' as u32
}

pub open spec fn digit_val(c: char) -> int {
    c as u32 - '0' as u32
}

pub open spec fn all_digits(s: Seq<char>) -> bool {
    forall|i: int| 0 <= i < s.len() ==> is_digit(#[trigger] s[i])
}

/// The value of a digit string appended to an accumulated value.
pub open spec fn digits_val(s: Seq<char>, acc: int) -> int
    decreases s,
{
    if s.len() == 0 {
        acc
    } else {
        digits_val(s.drop_first(), acc * 10 + digit_val(s[0]))
    }
}

/// The digits of an integer literal: the word with any leading sign
/// removed.
pub open spec fn int_body(w: Seq<char>) -> Seq<char> {
    if w.len() > 0 && (w[0] == '+' || w[0] == '-') {
        w.drop_first()
    } else {
        w
    }
}

/// The integer denoted by a word: an optional sign, then at least one
/// digit, and a value within the `i64` range; anything else is no integer.
pub open spec fn parse_int_spec(w: Seq<char>) -> Option<int> {
    let body = int_body(w);
    if body.len() == 0 || !all_digits(body) {
        Option::None
    } else {
        let v = digits_val(body, 0);
        let sv = if w.len() > 0 && w[0] == '-' {
            -v
        } else {
            v
        };
        if i64::MIN <= sv <= i64::MAX {
            Option::Some(sv)
        } else {
            Option::None
        }
    }
}

/// The token denoted by one word: an integer literal, a reserved keyword,
/// an operator, `if`, or a generic symbol.
pub open spec fn classify(w: Seq<char>) -> TokV {
    match parse_int_spec(w) {
        Option::Some(n) => TokV::Integer(n),
        Option::None => if w == "define"@ || w == "list"@ || w == "print"@ || w == "lambda"@ || w
            == "map"@ || w == "filter"@ || w == "reduce"@ {
            TokV::Keyword(w)
        } else if w == "+"@ || w == "-"@ || w == "*"@ || w == "/"@ || w == "%"@ || w == "<"@ || w
            == ">"@ || w == "="@ || w == "!="@ || w == "&"@ || w == "|"@ {
            TokV::BinaryOp(w)
        } else if w == "if"@ {
            TokV::If
        } else {
            TokV::Symbol(w)
        },
    }
}

/// The token stream of the input from position `i` on, appended to `acc`;
/// an unterminated string yields its partial text as the error.
pub open spec fn tokenize_spec(s: Seq<char>, i: int, acc: Seq<TokV>) -> Result<Seq<TokV>, Seq<char>>
    decreases s.len() - i,
{
    if i >= s.len() {
        Result::Ok(acc)
    } else if is_ws(s[i]) {
        tokenize_spec(s, i + 1, acc)
    } else if s[i] == '(' {
        tokenize_spec(s, i + 1, acc.push(TokV::LParen))
    } else if s[i] == ')' {
        tokenize_spec(s, i + 1, acc.push(TokV::RParen))
    } else if s[i] == '"' {
        let j = scan_str(s, i + 1);
        if j >= s.len() {
            Result::Err(s.subrange(i + 1, j))
        } else {
            if i + 1 <= j < s.len() {
                tokenize_spec(s, j + 1, acc.push(TokV::Str(s.subrange(i + 1, j))))
            } else {
                Result::Err(Seq::empty())
            }
        }
    } else {
        let j = scan_word(s, i);
        if i < j <= s.len() {
            tokenize_spec(s, j, acc.push(classify(s.subrange(i, j))))
        } else {
            Result::Err(Seq::empty())
        }
    }
}

/// The textual rendering of one token: literals and names as their text,
/// strings quoted.
pub open spec fn tok_render(t: TokV) -> Seq<char> {
    match t {
        TokV::Integer(n) => crate::object::int_dec(n),
        TokV::Symbol(s) => s,
        TokV::Keyword(s) => s,
        TokV::If => seq!['i', 'f'],
        TokV::BinaryOp(s) => s,
        TokV::Str(s) => seq!['"'] + s + seq!['"'],
        TokV::LParen => seq!['('],
        TokV::RParen => seq![')'],
    }
}

impl Token {
    /// Render one token as text.
    pub fn render(&self) -> (r: String)
        ensures
            r@ == tok_render(self@),
    {
        match self {
            Token::Integer(n) => crate::object::render_i64(*n),
            Token::Symbol(s) => s.clone(),
            Token::Keyword(s) => s.clone(),
            Token::If => {
                let r = String::from_str("if");
                proof {
                    reveal_strlit("if");
                    assert(r@ =~= tok_render(self@));
                }
                r
            }
            Token::BinaryOp(s) => s.clone(),
            Token::Str(s) => {
                let mut r = String::new();
                push_char(&mut r, '"');
                r.append(s.as_str());
                push_char(&mut r, '"');
                proof {
                    assert(r@ =~= tok_render(self@));
                }
                r
            }
            Token::LParen => {
                let mut r = String::new();
                push_char(&mut r, '(');
                proof {
                    assert(r@ =~= tok_render(self@));
                }
                r
            }
            Token::RParen => {
                let mut r = String::new();
                push_char(&mut r, ')');
                proof {
                    assert(r@ =~= tok_render(self@));
                }
                r
            }
        }
    }
}

impl TokenError {
    /// The failure as one line of text.
    pub fn message(&self) -> (r: String)
        ensures
            r@ == "unexpected character: "@ + self.err@,
    {
        String::from_str("unexpected character: ").concat(self.err.as_str())
    }
}

/// The characters of a string slice, in order.
pub fn chars_of(input: &str) -> (cs: Vec<char>)
    ensures
        cs@ == input@,
{
    let n = input.unicode_len();
    let mut cs: Vec<char> = Vec::new();
    let mut i: usize = 0;
    while i < n
        invariant
            i <= n,
            n == input@.len(),
            cs@.len() == i,
            forall|j: int| 0 <= j < i ==> cs@[j] == input@[j],
        decreases n - i,
    {
        cs.push(input.get_char(i));
        i = i + 1;
    }
    proof {
        assert(cs@ =~= input@);
    }
    cs
}

/// The text between positions `a` and `b`.
fn substring_vec(cs: &Vec<char>, a: usize, b: usize) -> (w: String)
    requires
        a <= b,
        b <= cs@.len(),
    ensures
        w@ == cs@.subrange(a as int, b as int),
{
    let mut w = String::new();
    let mut i: usize = a;
    while i < b
        invariant
            a <= i <= b,
            b <= cs@.len(),
            w@ == cs@.subrange(a as int, i as int),
        decreases b - i,
    {
        push_char(&mut w, cs[i]);
        i = i + 1;
        proof {
            assert(cs@.subrange(a as int, i as int) =~= cs@.subrange(a as int, i as int - 1).push(
                cs@[i as int - 1],
            ));
        }
    }
    proof {
        assert(cs@.subrange(a as int, a as int) =~= Seq::<char>::empty());
    }
    w
}

/// When the accumulated magnitude only grows, a digit string cannot come
/// back into range.
proof fn lemma_digits_val_grows(s: Seq<char>, acc: int)
    requires
        acc >= 0,
        all_digits(s),
    ensures
        digits_val(s, acc) >= acc,
    decreases s,
{
    if s.len() > 0 {
        assert(is_digit(s[0]));
        assert(forall|t: int|
            0 <= t < s.drop_first().len() ==> is_digit(#[trigger] s.drop_first()[t]));
        lemma_digits_val_grows(s.drop_first(), acc * 10 + digit_val(s[0]));
    }
}

/// Parse a word as a signed decimal integer, exactly when it denotes one
/// within the `i64` range.
#[verifier::loop_isolation(false)]
pub fn parse_int(w: &String) -> (r: Option<i64>)
    ensures
        match r {
            Option::Some(v) => parse_int_spec(w@) == Option::Some(v as int),
            Option::None => parse_int_spec(w@) is None,
        },
{
    let cs = chars_of(w.as_str());
    let n = cs.len();
    let mut start: usize = 0;
    let mut neg = false;
    if n > 0 {
        let c0 = cs[0];
        if c0 == '+' {
            start = 1;
        } else if c0 == '-' {
            start = 1;
            neg = true;
        }
    }
    let ghost body = int_body(w@);
    proof {
        assert(body =~= cs@.subrange(start as int, n as int));
        assert(body.skip(0) =~= body);
    }
    if start == n {
        return Option::None;
    }
    let mut acc: u128 = 0;
    let mut i: usize = start;
    while i < n
        invariant
            start <= i <= n,
            n == cs@.len(),
            cs@ == w@,
            body == cs@.subrange(start as int, n as int),
            acc <= 0x8000_0000_0000_0001u128,
            all_digits(body.take(i - start)),
            digits_val(body, 0) == digits_val(body.skip(i - start), acc as int),
        decreases n - i,
    {
        proof {
            assert(body.skip(i - start)[0] == body[i - start]);
            assert(body[i - start] == cs@[i as int]);
            assert(body.skip(i - start).drop_first() =~= body.skip(i - start + 1));
        }
        let c = cs[i];
        let cu = c as u32;
        if cu < '0' as u32 || cu > '9' as u32 {
            proof {
                assert(0 <= i - start < body.len());
                assert(!is_digit(body[i - start]));
                assert(!all_digits(body));
            }
            return Option::None;
        }
        let d: u128 = (cu - '0' as u32) as u128;
        if acc > 0x0CCC_CCCC_CCCC_CCCCu128 {
            // The magnitude already exceeds every in-range value after one
            // more digit, and it can only grow from here.
            proof {
                if all_digits(body) {
                    assert(is_digit(body[i - start]));
                    assert(digit_val(body[i - start]) == d as int);
                    assert(digits_val(body.skip(i - start), acc as int) == digits_val(
                        body.skip(i - start + 1),
                        acc as int * 10 + d as int,
                    ));
                    assert(forall|t: int|
                        0 <= t < body.skip(i - start + 1).len() ==> is_digit(
                            #[trigger] body.skip(i - start + 1)[t],
                        ));
                    assert(acc as int * 10 > 0x8000_0000_0000_0000) by (nonlinear_arith)
                        requires
                            acc > 0x0CCC_CCCC_CCCC_CCCCu128,
                    ;
                    lemma_digits_val_grows(body.skip(i - start + 1), acc as int * 10 + d as int);
                    assert(digits_val(body, 0) > 0x8000_0000_0000_0000);
                }
            }
            return Option::None;
        }
        acc = acc * 10 + d;
        i = i + 1;
        proof {
            assert(all_digits(body.take(i - start)));
        }
    }
    proof {
        assert(body.take(n - start) =~= body);
        assert(body.skip(n - start) =~= Seq::<char>::empty());
        assert(digits_val(body, 0) == acc as int);
    }
    if neg {
        if acc > 0x8000_0000_0000_0000u128 {
            return Option::None;
        }
        if acc == 0x8000_0000_0000_0000u128 {
            return Option::Some(i64::MIN);
        }
        let m = acc as i64;
        return Option::Some(-m);
    }
    if acc > i64::MAX as u128 {
        return Option::None;
    }
    Option::Some(acc as i64)
}

/// Turn one word into its token.
fn classify_word(w: String) -> (t: Token)
    ensures
        t@ == classify(w@),
{
    match parse_int(&w) {
        Option::Some(v) => Token::Integer(v),
        Option::None => {
            if str_eq_str(w.as_str(), "define") || str_eq_str(w.as_str(), "list") || str_eq_str(
                w.as_str(),
                "print",
            ) || str_eq_str(w.as_str(), "lambda") || str_eq_str(w.as_str(), "map") || str_eq_str(
                w.as_str(),
                "filter",
            ) || str_eq_str(w.as_str(), "reduce") {
                Token::Keyword(w)
            } else if str_eq_str(w.as_str(), "+") || str_eq_str(w.as_str(), "-") || str_eq_str(
                w.as_str(),
                "*",
            ) || str_eq_str(w.as_str(), "/") || str_eq_str(w.as_str(), "%") || str_eq_str(
                w.as_str(),
                "<",
            ) || str_eq_str(w.as_str(), ">") || str_eq_str(w.as_str(), "=") || str_eq_str(
                w.as_str(),
                "!=",
            ) || str_eq_str(w.as_str(), "&") || str_eq_str(w.as_str(), "|") {
                Token::BinaryOp(w)
            } else if str_eq_str(w.as_str(), "if") {
                Token::If
            } else {
                Token::Symbol(w)
            }
        }
    }
}

fn is_ws_exec(c: char) -> (r: bool)
    ensures
        r == is_ws(c),
{
    c == ' ' || c == '\t' || c == '\n' || c == '\r'
}

fn is_delim_exec(c: char) -> (r: bool)
    ensures
        r == is_delim(c),
{
    is_ws_exec(c) || c == '(' || c == ')'
}

/// Turn raw text into its token stream; the one failure is an
/// unterminated string literal.
#[verifier::loop_isolation(false)]
pub fn tokenize(input: &str) -> (r: Result<Vec<Token>, TokenError>)
    ensures
        ({
            let so = tokenize_spec(input@, 0, Seq::empty());
            match r {
                Result::Ok(ts) => so == Result::<Seq<TokV>, Seq<char>>::Ok(toks_view(ts@)),
                Result::Err(te) => so matches Result::Err(wv) && te.err@ == "Unterminated string: "@
                    + wv,
            }
        }),
{
    let cs = chars_of(input);
    let n = cs.len();
    let mut tokens: Vec<Token> = Vec::new();
    let mut i: usize = 0;
    proof {
        assert(toks_view(tokens@) =~= Seq::<TokV>::empty());
    }
    while i < n
        invariant
            i <= n,
            n == cs@.len(),
            cs@ == input@,
            tokenize_spec(input@, 0, Seq::empty()) == tokenize_spec(
                input@,
                i as int,
                toks_view(tokens@),
            ),
        decreases n - i,
    {
        let c = cs[i];
        let ghost pre_toks = toks_view(tokens@);
        if is_ws_exec(c) {
            i = i + 1;
        } else if c == '(' {
            tokens.push(Token::LParen);
            i = i + 1;
            proof {
                assert(toks_view(tokens@) =~= pre_toks.push(TokV::LParen));
            }
        } else if c == ')' {
            tokens.push(Token::RParen);
            i = i + 1;
            proof {
                assert(toks_view(tokens@) =~= pre_toks.push(TokV::RParen));
            }
        } else if c == '"' {
            let mut j: usize = i + 1;
            while j < n && cs[j] != '"'
                invariant
                    i + 1 <= j <= n,
                    scan_str(cs@, i as int + 1) == scan_str(cs@, j as int),
                decreases n - j,
            {
                j = j + 1;
            }
            if j >= n {
                proof {
                    assert(scan_str(cs@, j as int) == cs@.len());
                }
                let word = substring_vec(&cs, i + 1, j);
                let msg = String::from_str("Unterminated string: ").concat(word.as_str());
                return Result::Err(TokenError { err: msg });
            }
            proof {
                assert(scan_str(cs@, j as int) == j as int);
            }
            let word = substring_vec(&cs, i + 1, j);
            tokens.push(Token::Str(word));
            proof {
                assert(toks_view(tokens@) =~= pre_toks.push(
                    TokV::Str(cs@.subrange(i as int + 1, j as int)),
                ));
            }
            i = j + 1;
        } else {
            let mut j: usize = i;
            while j < n && !is_delim_exec(cs[j])
                invariant
                    i <= j <= n,
                    scan_word(cs@, i as int) == scan_word(cs@, j as int),
                decreases n - j,
            {
                j = j + 1;
            }
            proof {
                assert(scan_word(cs@, j as int) == j as int);
            }
            let word = substring_vec(&cs, i, j);
            let tok = classify_word(word);
            tokens.push(tok);
            proof {
                assert(toks_view(tokens@) =~= pre_toks.push(
                    classify(cs@.subrange(i as int, j as int)),
                ));
            }
            i = j;
        }
    }
    Result::Ok(tokens)
}

} // verus!
