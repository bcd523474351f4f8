//! The tokenizer of the surface syntax.
//!
//! Tokens are names, the punctuation of component definitions and
//! schedules, integer literals and scalar-op characters.  A name starts
//! with a letter or underscore and may continue with letters,
//! underscores and primes, so a loop-order entry such as `i'` is one
//! token.  The whole input is tokenized up front; `peek` shows the next
//! two tokens and `next` consumes one, with `EOF` beyond the end.

use vstd::prelude::*;
use vstd::string::StrSliceExecFns;
use vstd::string::StringExecFns;
use vstd::pervasive::VecAdditionalExecFns;

verus! {

#[derive(Debug, PartialEq)]
pub enum Token {
    Symbol(String),
    Colon,
    Dot,
    Squiggle,
    Bar,
    Comma,
    Int(usize),
    Operator(char),
    EOF,
}

/// The mathematical value of a token.
pub enum TokenV {
    Symbol(Seq<char>),
    Colon,
    Dot,
    Squiggle,
    Bar,
    Comma,
    Int(int),
    Operator(char),
    EOF,
}

impl View for Token {
    type V = TokenV;

    open spec fn view(&self) -> TokenV {
        match self {
            Token::Symbol(s) => TokenV::Symbol(s@),
            Token::Colon => TokenV::Colon,
            Token::Dot => TokenV::Dot,
            Token::Squiggle => TokenV::Squiggle,
            Token::Bar => TokenV::Bar,
            Token::Comma => TokenV::Comma,
            Token::Int(n) => TokenV::Int(*n as int),
            Token::Operator(c) => TokenV::Operator(*c),
            Token::EOF => TokenV::EOF,
        }
    }
}

/// Whitespace characters.
pub open spec fn is_space_char(c: char) -> bool {
    c == ' ' || c == '\t' || c == '\n' || c == '\r'
}

/// Characters that may start a name: ASCII letters and the underscore.
pub open spec fn is_sym_start_char(c: char) -> bool {
    ('a' as u32 <= c as u32 && c as u32 <= 'z' as u32)
    || ('A' as u32 <= c as u32 && c as u32 <= 'Z' as u32)
    || c == '_'
}

/// Characters that may continue a name; primes mark split loops.
pub open spec fn is_sym_char(c: char) -> bool {
    is_sym_start_char(c) || c == '\''
}

/// Decimal digits.
pub open spec fn is_digit_char(c: char) -> bool {
    '0' as u32 <= c as u32 && c as u32 <= '9' as u32
}

/// Scalar-op characters.
pub open spec fn is_op_char(c: char) -> bool {
    c == '+' || c == '*' || c == '>' || c == '-' || c == '/' || c == '^' || c == '$'
}

/// Punctuation of definitions and schedules.
pub open spec fn is_punct_char(c: char) -> bool {
    c == ':' || c == '.' || c == '~' || c == '|' || c == ','
}

/// The first position at or after `i` that holds no whitespace.
pub open spec fn skip_ws(s: Seq<char>, i: int) -> int
    decreases s.len() - i when 0 <= i <= s.len()
{
    if i >= s.len() {
        i
    } else if is_space_char(s[i]) {
        skip_ws(s, i + 1)
    } else {
        i
    }
}

/// The end of the name run that starts at `i`.
pub open spec fn sym_end(s: Seq<char>, i: int) -> int
    decreases s.len() - i when 0 <= i <= s.len()
{
    if i >= s.len() {
        i
    } else if is_sym_char(s[i]) {
        sym_end(s, i + 1)
    } else {
        i
    }
}

/// The end of the digit run that starts at `i`.
pub open spec fn digit_end(s: Seq<char>, i: int) -> int
    decreases s.len() - i when 0 <= i <= s.len()
{
    if i >= s.len() {
        i
    } else if is_digit_char(s[i]) {
        digit_end(s, i + 1)
    } else {
        i
    }
}

/// The numeric value of a digit character.
pub open spec fn digit_value(c: char) -> int {
    c as u32 - '0' as u32
}

/// The value of the digit run `s[i .. j]`.
pub open spec fn digits_value(s: Seq<char>, i: int, j: int) -> int
    decreases j - i when i <= j
{
    if j <= i {
        0
    } else {
        digits_value(s, i, j - 1) * 10 + digit_value(s[j - 1])
    }
}

/// The token of one punctuation or operator character.
pub open spec fn punct_token(c: char) -> TokenV {
    if c == ':' {
        TokenV::Colon
    } else if c == '.' {
        TokenV::Dot
    } else if c == '~' {
        TokenV::Squiggle
    } else if c == '|' {
        TokenV::Bar
    } else if c == ',' {
        TokenV::Comma
    } else {
        TokenV::Operator(c)
    }
}

/// The token stream of the input from position `i` on, or `None` when an
/// unexpected character occurs.  The stream carries no end marker.
pub open spec fn spec_tokenize_at(s: Seq<char>, i: int) -> Option<Seq<TokenV>>
    decreases s.len() - i when 0 <= i <= s.len() via spec_tokenize_at_decreases
{
    let k = skip_ws(s, i);
    if k >= s.len() {
        Some(Seq::empty())
    } else {
        let c = s[k];
        if is_sym_start_char(c) {
            let e = sym_end(s, k);
            match spec_tokenize_at(s, e) {
                Some(rest) => Some(seq![TokenV::Symbol(s.subrange(k, e))] + rest),
                None => None,
            }
        } else if is_digit_char(c) {
            let e = digit_end(s, k);
            match spec_tokenize_at(s, e) {
                Some(rest) => Some(seq![TokenV::Int(digits_value(s, k, e))] + rest),
                None => None,
            }
        } else if is_punct_char(c) || is_op_char(c) {
            match spec_tokenize_at(s, k + 1) {
                Some(rest) => Some(seq![punct_token(c)] + rest),
                None => None,
            }
        } else {
            None
        }
    }
}

#[via_fn]
proof fn spec_tokenize_at_decreases(s: Seq<char>, i: int) {
    if 0 <= i <= s.len() {
        lemma_skip_ws_in_range(s, i);
        let k = skip_ws(s, i);
        if k < s.len() {
            if is_sym_start_char(s[k]) {
                lemma_sym_end_in_range(s, k + 1);
                assert(sym_end(s, k) == sym_end(s, k + 1));
            } else if is_digit_char(s[k]) {
                lemma_digit_end_digits(s, k + 1);
                assert(digit_end(s, k) == digit_end(s, k + 1));
            }
        }
    }
}

/// The token stream of the whole input.
pub open spec fn spec_tokenize(s: Seq<char>) -> Option<Seq<TokenV>> {
    spec_tokenize_at(s, 0)
}

/// Skipping whitespace stays within the input.
proof fn lemma_skip_ws_in_range(s: Seq<char>, i: int)
    requires
        0 <= i <= s.len(),
    ensures
        i <= skip_ws(s, i) <= s.len(),
    decreases s.len() - i,
{
    if i < s.len() && is_space_char(s[i]) {
        lemma_skip_ws_in_range(s, i + 1);
    }
}

/// Every integer literal fits the machine word.
pub open spec fn tokens_fit(ts: Seq<TokenV>) -> bool {
    forall|i: int| 0 <= i < ts.len() ==> (match #[trigger] ts[i] {
        TokenV::Int(v) => v <= usize::MAX,
        _ => true,
    })
}

/// The views of a token vector.
pub open spec fn tokens_view(ts: Seq<Token>) -> Seq<TokenV> {
    Seq::new(ts.len(), |i: int| ts[i]@)
}

/// The token at position `i` of a stream, with `EOF` beyond its end.
pub open spec fn tok_at(ts: Seq<TokenV>, i: int) -> TokenV {
    if 0 <= i < ts.len() {
        ts[i]
    } else {
        TokenV::EOF
    }
}

/// The name run stays within the input.
proof fn lemma_sym_end_in_range(s: Seq<char>, i: int)
    requires
        0 <= i <= s.len(),
    ensures
        i <= sym_end(s, i) <= s.len(),
    decreases s.len() - i,
{
    if i < s.len() && is_sym_char(s[i]) {
        lemma_sym_end_in_range(s, i + 1);
    }
}

/// The digit run stays within the input and holds only digits.
proof fn lemma_digit_end_digits(s: Seq<char>, i: int)
    requires
        0 <= i <= s.len(),
    ensures
        i <= digit_end(s, i) <= s.len(),
        forall|p: int| i <= p < digit_end(s, i) ==> is_digit_char(#[trigger] s[p]),
    decreases s.len() - i,
{
    if i < s.len() && is_digit_char(s[i]) {
        lemma_digit_end_digits(s, i + 1);
    }
}

/// Digit values are non-negative and never shrink as the run extends.
proof fn lemma_digits_value_monotone(s: Seq<char>, i: int, a: int, b: int)
    requires
        i <= a <= b,
        forall|p: int| i <= p < b ==> is_digit_char(#[trigger] s[p]),
    ensures
        digits_value(s, i, a) >= 0,
        digits_value(s, i, b) >= digits_value(s, i, a),
    decreases b - i, b - a,
{
    if a > i {
        lemma_digits_value_monotone(s, i, a - 1, a - 1);
    }
    if b > a {
        lemma_digits_value_monotone(s, i, a, b - 1);
        let v = digits_value(s, i, b - 1);
        assert(is_digit_char(s[b - 1]));
        assert(digit_value(s[b - 1]) >= 0);
        assert(digits_value(s, i, b) == v * 10 + digit_value(s[b - 1]));
        assert(v * 10 >= v) by (nonlinear_arith)
            requires v >= 0;
    }
}

/// The characters of an input string.
fn str_chars(input: &str) -> (r: Vec<char>)
    ensures
        r@ == input@,
{
    let n: usize = input.unicode_len();
    let mut r: Vec<char> = Vec::new();
    let mut i: usize = 0;
    while i < n
        invariant
            i <= n,
            n == input@.len(),
            r@ == input@.subrange(0, i as int),
        decreases n - i,
    {
        r.push(input.get_char(i));
        i = i + 1;
        proof {
            assert(r@ =~= input@.subrange(0, i as int));
        }
    }
    proof {
        assert(r@ =~= input@);
    }
    r
}

/// Whether a name may continue with this character.
fn is_sym_c(c: char) -> (r: bool)
    ensures
        r == is_sym_char(c),
{
    (('a' as u32) <= (c as u32) && (c as u32) <= ('z' as u32))
    || (('A' as u32) <= (c as u32) && (c as u32) <= ('Z' as u32))
    || c == '_' || c == '\''
}

/// Whether this character is a decimal digit.
fn is_digit_c(c: char) -> (r: bool)
    ensures
        r == is_digit_char(c),
{
    ('0' as u32) <= (c as u32) && (c as u32) <= ('9' as u32)
}

pub struct Tokenizer {
    tokens: Vec<Token>,
    pos: usize,
    eof: Token,
}

impl Tokenizer {
    /// The token values still to come, current position first.
    pub closed spec fn stream(&self) -> Seq<TokenV> {
        tokens_view(self.tokens@).skip(self.pos as int)
    }

    /// The sentinel is the end marker and the position is in range.
    pub closed spec fn wf(&self) -> bool {
        self.eof@ == TokenV::EOF && self.pos <= self.tokens@.len()
    }

    /// Tokenizes the whole input.  Succeeds exactly when the input is a
    /// sequence of names, integer literals that fit the machine word,
    /// and the punctuation and operator characters of the grammar,
    /// separated by whitespace.
    pub fn new(input: &str) -> (r: Result<Tokenizer, String>)
        ensures
            match r {
                Ok(t) => t.wf() && spec_tokenize(input@) == Some(t.stream()),
                Err(_) => (spec_tokenize(input@) matches Some(ts) ==> !tokens_fit(ts)),
            },
    {
        let s = str_chars(input);
        let n = s.len();
        let ghost sv = input@;
        let mut tokens: Vec<Token> = Vec::new();
        let mut i: usize = 0;
        while i < n
            invariant
                n == s@.len(),
                sv == s@,
                sv == input@,
                i <= n,
                spec_tokenize_at(sv, 0) == (match spec_tokenize_at(sv, i as int) {
                    Some(rest) => Some(tokens_view(tokens@) + rest),
                    None => None::<Seq<TokenV>>,
                }),
            decreases n - i,
        {
            let c = s[i];
            if c == ' ' || c == '\t' || c == '\n' || c == '\r' {
                i = i + 1;
                proof {
                    assert(skip_ws(sv, i - 1) == skip_ws(sv, i as int));
                }
                continue;
            }
            proof {
                assert(skip_ws(sv, i as int) == i);
            }
            let ghost pre = tokens_view(tokens@);
            let ghost krest = spec_tokenize_at(sv, i as int);
            if (('a' as u32) <= (c as u32) && (c as u32) <= ('z' as u32))
                || (('A' as u32) <= (c as u32) && (c as u32) <= ('Z' as u32))
                || c == '_' {
                let start = i;
                let mut j = i;
                while j < n && is_sym_c(s[j])
                    invariant
                        n == s@.len(),
                        sv == s@,
                        start <= j <= n,
                        sym_end(sv, start as int) == sym_end(sv, j as int),
                    decreases n - j,
                {
                    j = j + 1;
                    proof {
                        assert(sym_end(sv, j - 1) == sym_end(sv, j as int));
                    }
                }
                proof {
                    assert(sym_end(sv, j as int) == j);
                    lemma_sym_end_in_range(sv, start as int);
                }
                let name_str = input.substring_char(start, j);
                let name = name_str.to_owned();
                tokens.push(Token::Symbol(name));
                i = j;
                proof {
                    assert(tokens_view(tokens@) =~= pre.push(TokenV::Symbol(
                        sv.subrange(start as int, sym_end(sv, start as int)),
                    )));
                    lemma_append_one(
                        sv,
                        pre,
                        TokenV::Symbol(sv.subrange(start as int, sym_end(sv, start as int))),
                        start as int,
                        j as int,
                    );
                }
            } else if ('0' as u32) <= (c as u32) && (c as u32) <= ('9' as u32) {
                let start = i;
                let mut j = i;
                let mut value: usize = 0;
                while j < n && is_digit_c(s[j])
                    invariant
                        n == s@.len(),
                        sv == s@,
                        sv == input@,
                        i == start,
                        start <= j <= n,
                        digit_end(sv, start as int) == digit_end(sv, j as int),
                        value == digits_value(sv, start as int, j as int),
                        tokens_view(tokens@) == pre,
                        spec_tokenize_at(sv, 0) == (match spec_tokenize_at(sv, i as int) {
                            Some(rest) => Some(pre + rest),
                            None => None::<Seq<TokenV>>,
                        }),
                        skip_ws(sv, i as int) == i,
                        is_digit_char(sv[i as int]),
                        i < n,
                    decreases n - j,
                {
                    let d = s[j];
                    let dv = (d as u32 - '0' as u32) as usize;
                    proof {
                        assert(dv as int == digit_value(d));
                    }
                    let next = match value.checked_mul(10) {
                        Some(v) => v.checked_add(dv),
                        None => None,
                    };
                    value = match next {
                        Some(v) => v,
                        None => {
                            proof {
                                lemma_oversized_literal(sv, start as int, j as int, pre);
                            }
                            return Err(number_too_large());
                        }
                    };
                    j = j + 1;
                    proof {
                        assert(digit_end(sv, j - 1) == digit_end(sv, j as int));
                    }
                }
                proof {
                    assert(digit_end(sv, j as int) == j);
                    lemma_digit_end_digits(sv, start as int);
                }
                tokens.push(Token::Int(value));
                i = j;
                proof {
                    assert(tokens_view(tokens@) =~= pre.push(TokenV::Int(
                        digits_value(sv, start as int, digit_end(sv, start as int)),
                    )));
                    lemma_append_one(
                        sv,
                        pre,
                        TokenV::Int(digits_value(sv, start as int, digit_end(sv, start as int))),
                        start as int,
                        j as int,
                    );
                }
            } else if c == ':' || c == '.' || c == '~' || c == '|' || c == ','
                || c == '+' || c == '*' || c == '>' || c == '-' || c == '/'
                || c == '^' || c == '$' {
                let t = if c == ':' {
                    Token::Colon
                } else if c == '.' {
                    Token::Dot
                } else if c == '~' {
                    Token::Squiggle
                } else if c == '|' {
                    Token::Bar
                } else if c == ',' {
                    Token::Comma
                } else {
                    Token::Operator(c)
                };
                proof {
                    assert(t@ == punct_token(c));
                }
                let ghost tv = t@;
                tokens.push(t);
                let ghost old_i = i as int;
                i = i + 1;
                proof {
                    assert(tokens_view(tokens@) =~= pre.push(tv));
                    lemma_append_one(sv, pre, tv, old_i, old_i + 1);
                }
            } else {
                proof {
                    assert(spec_tokenize_at(sv, i as int) == None::<Seq<TokenV>>);
                }
                return Err(unexpected_character());
            }
        }
        proof {
            assert(skip_ws(sv, i as int) == i);
            assert(spec_tokenize_at(sv, i as int) == Some(Seq::<TokenV>::empty()));
            assert(tokens_view(tokens@) + Seq::<TokenV>::empty() =~= tokens_view(tokens@));
        }
        let t = Tokenizer { tokens, pos: 0, eof: Token::EOF };
        proof {
            assert(t.stream() =~= tokens_view(t.tokens@));
        }
        Ok(t)
    }

    /// The two upcoming tokens of the stream.
    pub fn peek(&self) -> (r: (&Token, &Token))
        requires
            self.wf(),
        ensures
            r.0@ == tok_at(self.stream(), 0),
            r.1@ == tok_at(self.stream(), 1),
    {
        let a = if self.pos < self.tokens.len() {
            &self.tokens[self.pos]
        } else {
            &self.eof
        };
        let b = if self.pos < usize::MAX && self.pos + 1 < self.tokens.len() {
            &self.tokens[self.pos + 1]
        } else {
            &self.eof
        };
        (a, b)
    }

    /// Consumes and returns the next token of the stream.
    pub fn next(&mut self) -> (r: Token)
        requires
            old(self).wf(),
        ensures
            final(self).wf(),
            r@ == tok_at(old(self).stream(), 0),
            old(self).stream().len() > 0 ==>
                final(self).stream() == old(self).stream().skip(1),
            old(self).stream().len() == 0 ==> final(self).stream().len() == 0,
    {
        if self.pos < self.tokens.len() {
            let t = take_token(&mut self.tokens, self.pos);
            self.pos = self.pos + 1;
            proof {
                assert(self.stream() =~= old(self).stream().skip(1));
                assert(t@ == tok_at(old(self).stream(), 0));
            }
            t
        } else {
            Token::EOF
        }
    }
}

/// Stepping the invariant of the main tokenizer loop: with the token of
/// the run `s[start .. e]` appended, the stream equation moves from
/// `start` to `e`.
proof fn lemma_append_one(s: Seq<char>, pre: Seq<TokenV>, t: TokenV, start: int, e: int)
    requires
        0 <= start <= e <= s.len(),
        skip_ws(s, start) == start,
        start < s.len(),
        spec_tokenize_at(s, start) == (match spec_tokenize_at(s, e) {
            Some(rest) => Some(seq![t] + rest),
            None => None::<Seq<TokenV>>,
        }),
    ensures
        ((match spec_tokenize_at(s, start) {
            Some(rest) => Some(pre + rest),
            None => None::<Seq<TokenV>>,
        }) == (match spec_tokenize_at(s, e) {
            Some(rest) => Some(pre.push(t) + rest),
            None => None::<Seq<TokenV>>,
        })),
{
    match spec_tokenize_at(s, e) {
        Some(rest) => {
            assert(pre + (seq![t] + rest) =~= pre.push(t) + rest);
        }
        None => {}
    }
}

/// An overflowing digit prefix means the literal of the run does not
/// fit, so any successful tokenization of the input fails the fit
/// condition.
proof fn lemma_oversized_literal(s: Seq<char>, start: int, j: int, pre: Seq<TokenV>)
    requires
        0 <= start <= j < s.len(),
        skip_ws(s, start) == start,
        is_digit_char(s[start]),
        is_digit_char(s[j]),
        digit_end(s, start) == digit_end(s, j),
        digits_value(s, start, j) * 10 + digit_value(s[j]) > usize::MAX,
        spec_tokenize_at(s, 0) == (match spec_tokenize_at(s, start) {
            Some(rest) => Some(pre + rest),
            None => None::<Seq<TokenV>>,
        }),
    ensures
        (spec_tokenize(s) matches Some(ts) ==> !tokens_fit(ts)),
{
    let e = digit_end(s, start);
    lemma_digit_end_digits(s, start);
    lemma_digit_end_digits(s, j);
    lemma_digit_end_digits(s, j + 1);
    assert(digit_end(s, j) == digit_end(s, j + 1));
    assert(e >= j + 1);
    lemma_digits_value_monotone(s, start, j + 1, e);
    let big = digits_value(s, start, e);
    assert(digits_value(s, start, j + 1) > usize::MAX);
    assert(big > usize::MAX);
    match spec_tokenize_at(s, e) {
        Some(rest) => {
            let ts = pre + (seq![TokenV::Int(big)] + rest);
            assert(spec_tokenize_at(s, start) == Some(seq![TokenV::Int(big)] + rest));
            assert(spec_tokenize(s) == Some(ts));
            assert(ts[pre.len() as int] == TokenV::Int(big));
            assert(!tokens_fit(ts));
        }
        None => {
            assert(spec_tokenize_at(s, start) == None::<Seq<TokenV>>);
            assert(spec_tokenize(s) == None::<Seq<TokenV>>);
        }
    }
}

/// Moves the token at `t` out of the vector, leaving an end marker.
fn take_token(v: &mut Vec<Token>, t: usize) -> (r: Token)
    requires
        t < old(v)@.len(),
    ensures
        final(v)@.len() == old(v)@.len(),
        r == old(v)@[t as int],
        forall|j: int| 0 <= j < final(v)@.len() && j != t ==>
            #[trigger] final(v)@[j] == old(v)@[j],
{
    let mut tmp = Token::EOF;
    v.set_and_swap(t, &mut tmp);
    tmp
}

/// The message of an oversized integer literal.
fn number_too_large() -> (r: String)
{
    String::from_str("integer literal does not fit the machine word")
}

/// The message of a character outside the grammar.
fn unexpected_character() -> (r: String)
{
    String::from_str("unexpected character")
}

} // verus!
