use vstd::prelude::*;

use vstd::std_specs::iter::IteratorSpec;
use crate::number::{pow10, Decimal, FRACTION_DIGITS, MAX_LITERAL_UNITS, MAX_WHOLE, UNITS_PER_ONE};

verus! {

broadcast use {vstd::string::axiom_spec_iter, vstd::string::next_postcondition};

/// One lexeme of an equation.
#[derive(Debug, Clone, PartialEq)]
pub enum Token {
    Operator(char),
    Parenthesis(char),
    Number(Decimal),
    Identifier(String),
}

/// A token with the text of an identifier as a sequence of characters.
pub enum TokenView {
    Operator(char),
    Parenthesis(char),
    Number(Decimal),
    Identifier(Seq<char>),
}

impl View for Token {
    type V = TokenView;

    open spec fn view(&self) -> TokenView {
        match self {
            Token::Operator(c) => TokenView::Operator(*c),
            Token::Parenthesis(c) => TokenView::Parenthesis(*c),
            Token::Number(d) => TokenView::Number(*d),
            Token::Identifier(s) => TokenView::Identifier(s@),
        }
    }
}

/// Why a text could not be split into tokens.
#[derive(Debug, Clone, Copy, PartialEq, Eq, Structural)]
pub enum TokenizeError {
    UnexpectedCharacter(char),
}

pub open spec fn is_digit(c: char) -> bool {
    '0' <= c <= '9'
}

pub open spec fn is_letter(c: char) -> bool {
    ('a' <= c <= 'z') || ('A' <= c <= 'Z')
}

pub open spec fn is_operator(c: char) -> bool {
    c == '+' || c == '-' || c == '*' || c == '/' || c == '%' || c == '^' || c == '='
}

/// The white space characters of Unicode.
pub open spec fn is_space(c: char) -> bool {
    ('\u{09}' <= c <= '\u{0d}') || c == ' ' || c == '\u{85}' || c == '\u{a0}' || c == '\u{1680}'
        || ('\u{2000}' <= c <= '\u{200a}') || c == '\u{2028}' || c == '\u{2029}' || c == '\u{202f}'
        || c == '\u{205f}' || c == '\u{3000}'
}

pub open spec fn digit_value(c: char) -> nat {
    (c as u32 - '0' as u32) as nat
}

/// End of the identifier whose remaining letters and digits start at `i`.
pub open spec fn identifier_end(s: Seq<char>, i: int) -> int
    decreases s.len() - i,
{
    if 0 <= i < s.len() && (is_letter(s[i]) || is_digit(s[i])) {
        identifier_end(s, i + 1)
    } else {
        i
    }
}

/// End of the run of digits that starts at `i`.
pub open spec fn digits_end(s: Seq<char>, i: int) -> int
    decreases s.len() - i,
{
    if 0 <= i < s.len() && is_digit(s[i]) {
        digits_end(s, i + 1)
    } else {
        i
    }
}

/// End of the number literal that starts at `i`: digits, then, where a point
/// follows, the point and the digits after it.
pub open spec fn number_end(s: Seq<char>, i: int) -> int {
    let j = digits_end(s, i);
    if 0 <= j < s.len() && s[j] == '.' {
        digits_end(s, j + 1)
    } else {
        j
    }
}

/// The digits before the point of the number literal that starts at `i`.
pub open spec fn whole_digits(s: Seq<char>, i: int) -> Seq<char> {
    s.subrange(i, digits_end(s, i))
}

/// The digits after the point of the number literal that starts at `i`;
/// none where it has no point.
pub open spec fn fraction_digits(s: Seq<char>, i: int) -> Seq<char> {
    let j = digits_end(s, i);
    if 0 <= j < s.len() && s[j] == '.' {
        s.subrange(j + 1, digits_end(s, j + 1))
    } else {
        Seq::empty()
    }
}

/// Digits read as one integer.
pub open spec fn digits_value(s: Seq<char>) -> nat
    decreases s.len(),
{
    if s.len() == 0 {
        0
    } else {
        10 * digits_value(s.drop_last()) + digit_value(s.last())
    }
}

/// The value in units of the number literal with whole digits `w` and
/// fraction digits `f`. The fraction is rounded half up at its ninth digit,
/// and a value above `MAX_LITERAL_UNITS` is held as `MAX_LITERAL_UNITS`.
pub open spec fn literal_units(w: Seq<char>, f: Seq<char>) -> nat {
    let kept: nat = if f.len() <= FRACTION_DIGITS {
        f.len()
    } else {
        FRACTION_DIGITS as nat
    };
    let fraction = digits_value(f.subrange(0, kept as int)) * pow10((FRACTION_DIGITS - kept) as nat);
    let round: nat = if f.len() > FRACTION_DIGITS && digit_value(f[FRACTION_DIGITS as int]) >= 5 {
        1
    } else {
        0
    };
    let u = digits_value(w) * (UNITS_PER_ONE as nat) + fraction + round;
    if u <= MAX_LITERAL_UNITS {
        u
    } else {
        MAX_LITERAL_UNITS as nat
    }
}

pub open spec fn prepend(
    ts: Seq<TokenView>,
    r: Result<Seq<TokenView>, TokenizeError>,
) -> Result<Seq<TokenView>, TokenizeError> {
    match r {
        Ok(rest) => Ok(ts + rest),
        Err(e) => Err(e),
    }
}

/// The tokens of `s` from position `i` on.
pub open spec fn lex_from(s: Seq<char>, i: int) -> Result<Seq<TokenView>, TokenizeError>
    decreases s.len() - i,
{
    if i < 0 || i >= s.len() {
        Ok(Seq::empty())
    } else {
        let c = s[i];
        if c == '(' || c == ')' {
            prepend(seq![TokenView::Parenthesis(c)], lex_from(s, i + 1))
        } else if is_operator(c) {
            prepend(seq![TokenView::Operator(c)], lex_from(s, i + 1))
        } else if is_letter(c) {
            let j = identifier_end(s, i + 1);
            if i < j <= s.len() {
                prepend(seq![TokenView::Identifier(s.subrange(i, j))], lex_from(s, j))
            } else {
                Ok(Seq::empty())
            }
        } else if is_digit(c) {
            let j = number_end(s, i);
            if i < j <= s.len() {
                prepend(
                    seq![
                        TokenView::Number(
                            Decimal {
                                units: literal_units(whole_digits(s, i), fraction_digits(s, i)) as u128,
                            },
                        ),
                    ],
                    lex_from(s, j),
                )
            } else {
                Ok(Seq::empty())
            }
        } else if is_space(c) {
            lex_from(s, i + 1)
        } else {
            Err(TokenizeError::UnexpectedCharacter(c))
        }
    }
}

/// The tokens of the text `s`, or the reason it has none.
pub open spec fn lex(s: Seq<char>) -> Result<Seq<TokenView>, TokenizeError> {
    lex_from(s, 0)
}

pub open spec fn views(ts: Seq<Token>) -> Seq<TokenView> {
    ts.map_values(|t: Token| t@)
}

proof fn lemma_identifier_end(s: Seq<char>, i: int)
    requires
        0 <= i <= s.len(),
    ensures
        i <= identifier_end(s, i) <= s.len(),
    decreases s.len() - i,
{
    if i < s.len() && (is_letter(s[i]) || is_digit(s[i])) {
        lemma_identifier_end(s, i + 1);
    }
}

proof fn lemma_digits_end(s: Seq<char>, i: int)
    requires
        0 <= i <= s.len(),
    ensures
        i <= digits_end(s, i) <= s.len(),
        forall|m: int| i <= m < digits_end(s, i) ==> is_digit(#[trigger] s[m]),
    decreases s.len() - i,
{
    if i < s.len() && is_digit(s[i]) {
        lemma_digits_end(s, i + 1);
    }
}

proof fn lemma_number_end(s: Seq<char>, i: int)
    requires
        0 <= i < s.len(),
        is_digit(s[i]),
    ensures
        i < number_end(s, i) <= s.len(),
{
    lemma_digits_end(s, i + 1);
    lemma_digits_end(s, i);
    let j = digits_end(s, i);
    if j < s.len() && s[j] == '.' {
        lemma_digits_end(s, j + 1);
    }
}

proof fn lemma_pow10_small_bound(k: nat)
    requires
        k <= FRACTION_DIGITS,
    ensures
        pow10(k) <= 1_000_000_000,
        k < FRACTION_DIGITS ==> pow10(k) <= 100_000_000,
{
    reveal_with_fuel(pow10, 10);
}

fn is_space_char(c: char) -> (r: bool)
    ensures
        r == is_space(c),
{
    ('\u{09}' <= c && c <= '\u{0d}') || c == ' ' || c == '\u{85}' || c == '\u{a0}' || c == '\u{1680}'
        || ('\u{2000}' <= c && c <= '\u{200a}') || c == '\u{2028}' || c == '\u{2029}' || c == '\u{202f}'
        || c == '\u{205f}' || c == '\u{3000}'
}

fn is_digit_char(c: char) -> (r: bool)
    ensures
        r == is_digit(c),
{
    '0' <= c && c <= '9'
}

fn is_letter_char(c: char) -> (r: bool)
    ensures
        r == is_letter(c),
{
    ('a' <= c && c <= 'z') || ('A' <= c && c <= 'Z')
}

/// Relies on `FromIterator<char>` for `String`: the characters in order.
#[verifier::external_body]
pub(crate) fn string_from_chars(cs: &Vec<char>) -> (r: String)
    ensures
        r@ == cs@,
{
    cs.iter().collect()
}

/// Splits equation text into tokens.
#[derive(Debug, Clone, Copy, PartialEq, Eq, Structural)]
pub struct Tokenizer;

impl Tokenizer {
    pub fn new() -> (r: Tokenizer) {
        Tokenizer
    }

    /// The identifier that starts at `chars[start]`, and the index after it.
    fn get_identifier(&self, chars: &Vec<char>, start: usize) -> (r: (String, usize))
        requires
            start < chars.len(),
        ensures
            r.1 == identifier_end(chars@, start + 1),
            r.0@ == chars@.subrange(start as int, r.1 as int),
    {
        let mut i: usize = start + 1;
        let mut text: Vec<char> = Vec::new();
        text.push(chars[start]);
        while i < chars.len() && (is_letter_char(chars[i]) || is_digit_char(chars[i]))
            invariant
                start < i <= chars.len(),
                identifier_end(chars@, start + 1) == identifier_end(chars@, i as int),
                text@ == chars@.subrange(start as int, i as int),
            decreases chars.len() - i,
        {
            text.push(chars[i]);
            i = i + 1;
            assert(text@ =~= chars@.subrange(start as int, i as int));
        }
        let identifier = string_from_chars(&text);
        (identifier, i)
    }
}


proof fn lemma_prepend_push(ts: Seq<TokenView>, t: TokenView, r: Result<Seq<TokenView>, TokenizeError>)
    ensures
        prepend(ts, prepend(seq![t], r)) == prepend(ts.push(t), r),
{
    if let Ok(rest) = r {
        assert(ts + (seq![t] + rest) =~= ts.push(t) + rest);
    }
}

/// `10^n` for the few powers that a literal's scale needs.
fn pow10_small(n: u32) -> (r: u128)
    requires
        n <= FRACTION_DIGITS,
    ensures
        r == pow10(n as nat),
        1 <= r <= 1_000_000_000,
{
    reveal_with_fuel(pow10, 10);
    if n == 0 {
        1
    } else if n == 1 {
        10
    } else if n == 2 {
        100
    } else if n == 3 {
        1000
    } else if n == 4 {
        10_000
    } else if n == 5 {
        100_000
    } else if n == 6 {
        1_000_000
    } else if n == 7 {
        10_000_000
    } else if n == 8 {
        100_000_000
    } else {
        1_000_000_000
    }
}

/// The characters of `input`, in order.
pub(crate) fn chars_of(input: &str) -> (r: Vec<char>)
    ensures
        r@ == input@,
{
    let mut it = input.chars();
    let mut out: Vec<char> = Vec::new();
    loop
        invariant
            out@ + it.remaining() == input@,
            it.decrease() is Some,
        decreases it.decrease()->0,
    {
        match it.next() {
            Some(c) => {
                out.push(c);
            },
            None => {
                assert(out@ =~= input@);
                return out;
            },
        }
    }
}

impl Tokenizer {
    /// The number literal that starts at `chars[start]`, and the index after it.
    fn get_number(&self, chars: &Vec<char>, start: usize) -> (r: (Decimal, usize))
        requires
            start < chars.len(),
            is_digit(chars@[start as int]),
        ensures
            r.1 == number_end(chars@, start as int),
            r.0.units == literal_units(whole_digits(chars@, start as int), fraction_digits(chars@, start as int)),
    {
        let ghost s = chars@;
        proof {
            lemma_digits_end(s, start as int);
        }
        let mut i: usize = start;
        let mut whole: u128 = 0;
        let mut large = false;
        assert(s.subrange(start as int, start as int) =~= Seq::<char>::empty());
        while i < chars.len() && is_digit_char(chars[i])
            invariant
                start <= i <= chars.len(),
                s == chars@,
                digits_end(s, start as int) == digits_end(s, i as int),
                !large ==> whole == digits_value(s.subrange(start as int, i as int)) && whole <= MAX_WHOLE,
                large ==> digits_value(s.subrange(start as int, i as int)) > MAX_WHOLE,
            decreases chars.len() - i,
        {
            let d = (chars[i] as u32 - '0' as u32) as u128;
            assert(s.subrange(start as int, i + 1).drop_last() =~= s.subrange(start as int, i as int));
            if !large {
                if whole * 10 + d > MAX_WHOLE {
                    large = true;
                } else {
                    whole = whole * 10 + d;
                }
            }
            i = i + 1;
        }
        let whole_end = i;
        let ghost w = s.subrange(start as int, whole_end as int);
        assert(w == whole_digits(s, start as int));
        let mut fraction: u128 = 0;
        let mut kept: u32 = 0;
        let mut round: u128 = 0;
        if i < chars.len() && chars[i] == '.' {
            i = i + 1;
            let f0 = i;
            proof {
                lemma_digits_end(s, f0 as int);
                reveal_with_fuel(pow10, 10);
            }
            assert(s.subrange(f0 as int, f0 as int) =~= Seq::<char>::empty());
            while i < chars.len() && is_digit_char(chars[i])
                invariant
                    f0 <= i <= chars.len(),
                    f0 == whole_end + 1,
                    s == chars@,
                    digits_end(s, f0 as int) == digits_end(s, i as int),
                    forall|m: int| f0 <= m < digits_end(s, f0 as int) ==> is_digit(#[trigger] s[m]),
                    kept <= FRACTION_DIGITS,
                    kept == (if i - f0 <= FRACTION_DIGITS { (i - f0) as int } else { FRACTION_DIGITS as int }),
                    fraction == digits_value(s.subrange(f0 as int, f0 + kept)),
                    fraction < pow10(kept as nat),
                    round == (if i - f0 > FRACTION_DIGITS && digit_value(s[f0 + FRACTION_DIGITS]) >= 5 { 1int } else { 0int }),
                decreases chars.len() - i,
            {
                let d = (chars[i] as u32 - '0' as u32) as u128;
                if kept < FRACTION_DIGITS {
                    assert(s.subrange(f0 as int, f0 + kept + 1).drop_last() =~= s.subrange(f0 as int, f0 + kept));
                    assert(pow10((kept + 1) as nat) == 10 * pow10(kept as nat));
                    assert(pow10(kept as nat) <= 100_000_000) by {
                        lemma_pow10_small_bound(kept as nat);
                    }
                    fraction = fraction * 10 + d;
                    kept = kept + 1;
                } else if i - f0 == FRACTION_DIGITS as usize {
                    if d >= 5 {
                        round = 1;
                    }
                }
                i = i + 1;
            }
            let ghost f = s.subrange(f0 as int, i as int);
            assert(f == fraction_digits(s, start as int));
            assert(f.subrange(0, kept as int) =~= s.subrange(f0 as int, f0 + kept));
            proof {
                if f.len() > FRACTION_DIGITS {
                    assert(f[FRACTION_DIGITS as int] == s[f0 + FRACTION_DIGITS]);
                }
            }
        } else {
            assert(fraction_digits(s, start as int) =~= Seq::<char>::empty());
            assert(Seq::<char>::empty().subrange(0, 0) =~= Seq::<char>::empty());
        }
        assert(i == number_end(s, start as int));
        let units: u128;
        if large {
            assert(digits_value(w) * (UNITS_PER_ONE as nat) > MAX_LITERAL_UNITS) by (nonlinear_arith)
                requires digits_value(w) > MAX_WHOLE;
            units = MAX_LITERAL_UNITS;
        } else {
            let scale = pow10_small(FRACTION_DIGITS - kept);
            proof {
                lemma_pow10_small_bound(kept as nat);
            }
            assert(fraction * scale <= 1_000_000_000_000_000_000) by (nonlinear_arith)
                requires fraction < 1_000_000_000, scale <= 1_000_000_000;
            let u = whole * UNITS_PER_ONE + fraction * scale + round;
            units = if u <= MAX_LITERAL_UNITS { u } else { MAX_LITERAL_UNITS };
        }
        (Decimal { units }, i)
    }
}

impl Tokenizer {
    /// The tokens of `input`: each operator and parenthesis a token, a run of
    /// letters and digits that starts with a letter an identifier, a run of
    /// digits with at most one point a number; blanks are skipped.
    pub fn tokenize(&self, input: &str) -> (r: Result<Vec<Token>, TokenizeError>)
        ensures
            r matches Ok(v) ==> lex(input@) == Ok::<Seq<TokenView>, TokenizeError>(views(v@)),
            r matches Err(e) ==> lex(input@) == Err::<Seq<TokenView>, TokenizeError>(e),
    {
        let chars = chars_of(input);
        let ghost s = chars@;
        let mut tokens: Vec<Token> = Vec::new();
        let mut i: usize = 0;
        assert(views(tokens@) =~= Seq::<TokenView>::empty());
        assert(lex(s) == prepend(views(tokens@), lex_from(s, 0))) by {
            if let Ok(rest) = lex(s) {
                assert(Seq::<TokenView>::empty() + rest =~= rest);
            }
        }
        while i < chars.len()
            invariant
                i <= chars.len(),
                s == chars@,
                s == input@,
                lex(s) == prepend(views(tokens@), lex_from(s, i as int)),
            decreases chars.len() - i,
        {
            let c = chars[i];
            let ghost before = views(tokens@);
            if c == '(' || c == ')' {
                tokens.push(Token::Parenthesis(c));
                proof {
                    lemma_prepend_push(before, TokenView::Parenthesis(c), lex_from(s, i + 1));
                    assert(views(tokens@) =~= before.push(TokenView::Parenthesis(c)));
                }
                i = i + 1;
            } else if c == '+' || c == '-' || c == '*' || c == '/' || c == '%' || c == '^' || c == '=' {
                tokens.push(Token::Operator(c));
                proof {
                    lemma_prepend_push(before, TokenView::Operator(c), lex_from(s, i + 1));
                    assert(views(tokens@) =~= before.push(TokenView::Operator(c)));
                }
                i = i + 1;
            } else if is_letter_char(c) {
                let (identifier, next) = self.get_identifier(&chars, i);
                proof {
                    lemma_identifier_end(s, i + 1);
                    lemma_prepend_push(before, TokenView::Identifier(identifier@), lex_from(s, next as int));
                }
                tokens.push(Token::Identifier(identifier));
                assert(views(tokens@) =~= before.push(TokenView::Identifier(s.subrange(i as int, next as int))));
                i = next;
            } else if is_digit_char(c) {
                let (number, next) = self.get_number(&chars, i);
                proof {
                    lemma_number_end(s, i as int);
                    lemma_prepend_push(before, TokenView::Number(number), lex_from(s, next as int));
                }
                tokens.push(Token::Number(number));
                assert(views(tokens@) =~= before.push(TokenView::Number(number)));
                i = next;
            } else if is_space_char(c) {
                i = i + 1;
            } else {
                return Err(TokenizeError::UnexpectedCharacter(c));
            }
        }
        proof {
            assert(views(tokens@) + Seq::<TokenView>::empty() =~= views(tokens@));
        }
        Ok(tokens)
    }
}
} // verus!
