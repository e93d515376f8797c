use vstd::prelude::*;

use crate::number::{Decimal, UNITS_PER_ONE};
use crate::polynomial::{text_of, units_of, Polynomial, Term, TermView};
use crate::tokenizer::{chars_of, string_from_chars};

verus! {

pub open spec fn digit_char(d: nat) -> char {
    (('0' as u32) + d) as char
}

/// Decimal digits of `n`, without leading zeros.
pub open spec fn whole_text(n: nat) -> Seq<char>
    decreases n,
{
    if n < 10 {
        seq![digit_char(n)]
    } else {
        whole_text(n / 10).push(digit_char(n % 10))
    }
}

/// The last `k` decimal digits of `n`, with leading zeros.
pub open spec fn padded_text(n: nat, k: nat) -> Seq<char>
    decreases k,
{
    if k == 0 {
        Seq::empty()
    } else {
        padded_text(n / 10, (k - 1) as nat).push(digit_char(n % 10))
    }
}

/// `s` without its trailing zeros.
pub open spec fn strip_zeros(s: Seq<char>) -> Seq<char>
    decreases s.len(),
{
    if s.len() > 0 && s.last() == '0' {
        strip_zeros(s.drop_last())
    } else {
        s
    }
}

/// A number of units written in decimal: the whole part, then a point and
/// the fraction digits where the fraction is not zero, trailing zeros left out.
pub open spec fn decimal_text(units: nat) -> Seq<char> {
    let one = UNITS_PER_ONE as nat;
    let fraction = units % one;
    whole_text(units / one) + if fraction == 0 {
        Seq::<char>::empty()
    } else {
        seq!['.'] + strip_zeros(padded_text(fraction, 9))
    }
}

pub open spec fn coefficient_part(c: Option<nat>) -> Seq<char> {
    match c {
        Some(c) => decimal_text(c) + seq![' '],
        None => Seq::empty(),
    }
}

pub open spec fn operator_part(o: Option<char>) -> Seq<char> {
    match o {
        Some(o) => seq![o, ' '],
        None => Seq::empty(),
    }
}

pub open spec fn identifier_part(s: Option<Seq<char>>) -> Seq<char> {
    match s {
        Some(s) => s,
        None => Seq::empty(),
    }
}

pub open spec fn exponent_part(e: Option<nat>) -> Seq<char> {
    match e {
        Some(e) => seq!['^'] + decimal_text(e),
        None => Seq::empty(),
    }
}

/// A term written out: `coefficient operator identifier^exponent`, each part
/// only where present.
pub open spec fn term_text(t: TermView) -> Seq<char> {
    coefficient_part(t.coefficient) + operator_part(t.operator) + identifier_part(t.identifier)
        + exponent_part(t.exponent)
}

/// One term of a sum as written: the first shows only a minus sign, the
/// others `+` or `-`; each is followed by a blank.
pub open spec fn piece_text(t: TermView, first: bool) -> Seq<char> {
    (if first {
        if t.negative {
            seq!['-', ' ']
        } else {
            Seq::empty()
        }
    } else {
        seq![
            if t.negative {
                '-'
            } else {
                '+'
            },
            ' ',
        ]
    }) + term_text(t) + seq![' ']
}

/// The terms of `s` written one after the other.
pub open spec fn sum_text(s: Seq<TermView>) -> Seq<char>
    decreases s.len(),
{
    if s.len() == 0 {
        Seq::empty()
    } else {
        sum_text(s.drop_last()) + piece_text(s.last(), s.len() == 1)
    }
}

fn push_digit(out: &mut Vec<char>, d: u128)
    requires
        d < 10,
    ensures
        final(out)@ == old(out)@.push(digit_char(d as nat)),
{
    let c: char = if d == 0 {
        '0'
    } else if d == 1 {
        '1'
    } else if d == 2 {
        '2'
    } else if d == 3 {
        '3'
    } else if d == 4 {
        '4'
    } else if d == 5 {
        '5'
    } else if d == 6 {
        '6'
    } else if d == 7 {
        '7'
    } else if d == 8 {
        '8'
    } else {
        '9'
    };
    out.push(c);
}

fn push_whole(out: &mut Vec<char>, n: u128)
    ensures
        final(out)@ == old(out)@ + whole_text(n as nat),
    decreases n,
{
    if n < 10 {
        push_digit(out, n);
        assert(old(out)@.push(digit_char(n as nat)) =~= old(out)@ + seq![digit_char(n as nat)]);
    } else {
        push_whole(out, n / 10);
        push_digit(out, n % 10);
        assert(old(out)@ + whole_text((n / 10) as nat) + seq![digit_char((n % 10) as nat)] =~= old(out)@
            + whole_text(n as nat));
    }
}

fn push_padded(out: &mut Vec<char>, n: u128, k: u32)
    ensures
        final(out)@ == old(out)@ + padded_text(n as nat, k as nat),
    decreases k,
{
    if k == 0 {
        assert(old(out)@ + Seq::<char>::empty() =~= old(out)@);
    } else {
        push_padded(out, n / 10, k - 1);
        push_digit(out, n % 10);
        assert(old(out)@ + padded_text((n / 10) as nat, (k - 1) as nat) + seq![digit_char((n % 10) as nat)]
            =~= old(out)@ + padded_text(n as nat, k as nat));
    }
}

pub(crate) fn push_decimal(out: &mut Vec<char>, d: Decimal)
    ensures
        final(out)@ == old(out)@ + decimal_text(d.units as nat),
{
    push_whole(out, d.units / UNITS_PER_ONE);
    let fraction = d.units % UNITS_PER_ONE;
    if fraction == 0 {
        assert(old(out)@ + whole_text((d.units / UNITS_PER_ONE) as nat) =~= old(out)@ + decimal_text(d.units as nat));
    } else {
        out.push('.');
        let mut digits: Vec<char> = Vec::new();
        push_padded(&mut digits, fraction, 9);
        assert(digits@ =~= padded_text(fraction as nat, 9));
        let ghost padded = digits@;
        proof {
            reveal_with_fuel(padded_text, 10);
            reveal_with_fuel(strip_zeros, 10);
        }
        while digits.len() > 0 && digits[digits.len() - 1] == '0'
            invariant
                strip_zeros(padded) == strip_zeros(digits@),
            decreases digits.len(),
        {
            assert(digits@.drop_last() =~= digits@.remove(digits.len() - 1));
            digits.pop();
        }
        let mut i: usize = 0;
        let ghost mid = out@;
        while i < digits.len()
            invariant
                i <= digits.len(),
                out@ == mid + digits@.take(i as int),
            decreases digits.len() - i,
        {
            out.push(digits[i]);
            assert(digits@.take(i + 1) =~= digits@.take(i as int).push(digits@[i as int]));
            i = i + 1;
        }
        assert(digits@.take(i as int) =~= digits@);
        assert(strip_zeros(digits@) == digits@);
        assert(out@ =~= old(out)@ + decimal_text(d.units as nat));
    }
}

fn push_text(out: &mut Vec<char>, s: &Vec<char>)
    ensures
        final(out)@ == old(out)@ + s@,
{
    let mut i: usize = 0;
    while i < s.len()
        invariant
            i <= s.len(),
            out@ == old(out)@ + s@.take(i as int),
        decreases s.len() - i,
    {
        out.push(s[i]);
        assert(s@.take(i + 1) =~= s@.take(i as int).push(s@[i as int]));
        i = i + 1;
    }
    assert(s@.take(i as int) =~= s@);
}

fn push_coefficient_part(out: &mut Vec<char>, c: Option<Decimal>)
    ensures
        final(out)@ == old(out)@ + coefficient_part(units_of(c)),
{
    if let Some(c) = c {
        push_decimal(out, c);
        out.push(' ');
        assert(out@ =~= old(out)@ + coefficient_part(units_of(Some(c))));
    } else {
        assert(out@ =~= old(out)@ + coefficient_part(units_of(c)));
    }
}

fn push_operator_part(out: &mut Vec<char>, o: Option<char>)
    ensures
        final(out)@ == old(out)@ + operator_part(o),
{
    if let Some(o) = o {
        out.push(o);
        out.push(' ');
        assert(out@ =~= old(out)@ + operator_part(Some(o)));
    } else {
        assert(out@ =~= old(out)@ + operator_part(o));
    }
}

fn push_identifier_part(out: &mut Vec<char>, s: &Option<String>)
    ensures
        final(out)@ == old(out)@ + identifier_part(text_of(*s)),
{
    if let Some(s) = s {
        let cs = chars_of(s.as_str());
        push_text(out, &cs);
    } else {
        assert(out@ =~= old(out)@ + identifier_part(text_of(*s)));
    }
}

fn push_exponent_part(out: &mut Vec<char>, e: Option<Decimal>)
    ensures
        final(out)@ == old(out)@ + exponent_part(units_of(e)),
{
    if let Some(e) = e {
        out.push('^');
        push_decimal(out, e);
        assert(out@ =~= old(out)@ + exponent_part(units_of(Some(e))));
    } else {
        assert(out@ =~= old(out)@ + exponent_part(units_of(e)));
    }
}

impl Term {
    fn push_term(&self, out: &mut Vec<char>)
        ensures
            final(out)@ == old(out)@ + term_text(self@),
    {
        let ghost start = out@;
        push_coefficient_part(out, self.coefficient);
        push_operator_part(out, self.operator);
        push_identifier_part(out, &self.identifier);
        push_exponent_part(out, self.exponent);
        assert(out@ =~= start + term_text(self@));
    }

    /// The term written out: `coefficient operator identifier^exponent`,
    /// each part only where present.
    pub fn to_text(&self) -> (r: String)
        ensures
            r@ == term_text(self@),
    {
        let mut out: Vec<char> = Vec::new();
        self.push_term(&mut out);
        assert(out@ =~= term_text(self@));
        string_from_chars(&out)
    }
}

impl Polynomial {
    /// The terms written one after the other: the first with only a minus
    /// sign where negative, the others after `+` or `-`, each followed by a
    /// blank.
    pub fn to_text(&self) -> (r: String)
        ensures
            r@ == sum_text(self@),
    {
        let ghost s = self@;
        let mut out: Vec<char> = Vec::new();
        let mut i: usize = 0;
        assert(s.take(0) =~= Seq::<TermView>::empty());
        while i < self.0.len()
            invariant
                i <= self.0.len(),
                s == self@,
                out@ == sum_text(s.take(i as int)),
            decreases self.0.len() - i,
        {
            let t = &self.0[i];
            assert(s[i as int] == t@);
            let ghost before = out@;
            if i == 0 {
                if t.is_sign_negative {
                    out.push('-');
                    out.push(' ');
                }
            } else {
                out.push(if t.is_sign_negative { '-' } else { '+' });
                out.push(' ');
            }
            t.push_term(&mut out);
            out.push(' ');
            assert(s.take(i + 1).drop_last() =~= s.take(i as int));
            assert(out@ =~= before + piece_text(t@, i == 0));
            i = i + 1;
        }
        assert(s.take(i as int) =~= s);
        string_from_chars(&out)
    }
}

} // verus!
