use vstd::prelude::*;

use crate::number::{Decimal, UNITS_PER_ONE};
use crate::polynomial::{term_views, Polynomial, Term, TermView};
use crate::tokenizer::chars_of;

verus! {

/// Largest sum of coefficient magnitudes, in units, that reduction and
/// solving accept: every partial sum then fits in `i128`.
pub const MAX_TOTAL_UNITS: u128 = 100_000_000_000_000_000_000_000_000_000_000_000_000;

/// Lexicographic order on texts, by character code.
pub open spec fn text_lt(a: Seq<char>, b: Seq<char>) -> bool
    decreases a.len(),
{
    if a.len() == 0 {
        b.len() > 0
    } else if b.len() == 0 {
        false
    } else if a[0] != b[0] {
        a[0] < b[0]
    } else {
        text_lt(a.drop_first(), b.drop_first())
    }
}

/// Order on optional numbers: absent sorts low.
pub open spec fn number_lt(a: Option<nat>, b: Option<nat>) -> bool {
    match (a, b) {
        (None, Some(_)) => true,
        (Some(x), Some(y)) => x < y,
        _ => false,
    }
}

/// Order on optional texts: absent sorts low.
pub open spec fn name_lt(a: Option<Seq<char>>, b: Option<Seq<char>>) -> bool {
    match (a, b) {
        (None, Some(_)) => true,
        (Some(x), Some(y)) => text_lt(x, y),
        _ => false,
    }
}

/// Two terms are like terms: same exponent and same identifier.
pub open spec fn same_key(a: TermView, b: TermView) -> bool {
    a.exponent == b.exponent && a.identifier == b.identifier
}

/// Terms sort by exponent, then by identifier.
pub open spec fn key_lt(a: TermView, b: TermView) -> bool {
    number_lt(a.exponent, b.exponent) || (a.exponent == b.exponent && name_lt(a.identifier, b.identifier))
}

/// `s` with `x` placed after every term that does not sort above it.
pub open spec fn insert_term(x: TermView, s: Seq<TermView>) -> Seq<TermView>
    decreases s.len(),
{
    if s.len() == 0 {
        seq![x]
    } else if key_lt(x, s.last()) {
        insert_term(x, s.drop_last()).push(s.last())
    } else {
        s.push(x)
    }
}

/// `s` sorted by key; like terms keep their order.
pub open spec fn sort_terms(s: Seq<TermView>) -> Seq<TermView>
    decreases s.len(),
{
    if s.len() == 0 {
        s
    } else {
        insert_term(s.last(), sort_terms(s.drop_last()))
    }
}

/// Magnitude of a term's coefficient in units; an absent one is one.
pub open spec fn magnitude(t: TermView) -> nat {
    match t.coefficient {
        Some(c) => c,
        None => UNITS_PER_ONE as nat,
    }
}

/// Signed coefficient of a term in units.
pub open spec fn value(t: TermView) -> int {
    if t.negative {
        -magnitude(t)
    } else {
        magnitude(t) as int
    }
}

pub open spec fn abs(v: int) -> nat {
    if v < 0 {
        (-v) as nat
    } else {
        v as nat
    }
}

/// Sum of two like terms: the signed coefficients add, the key is the
/// first's, and the operator becomes `*` where neither has one.
pub open spec fn add_terms(a: TermView, b: TermView) -> TermView {
    let v = value(a) + value(b);
    TermView {
        negative: v < 0,
        coefficient: Some(abs(v)),
        operator: if a.operator is None && b.operator is None {
            Some('*')
        } else {
            a.operator
        },
        identifier: a.identifier,
        exponent: a.exponent,
    }
}

/// The terms of a run summed from the left; a single term stays as it is.
pub open spec fn fold_terms(g: Seq<TermView>) -> TermView
    decreases g.len(),
{
    if g.len() <= 1 {
        g[0]
    } else {
        add_terms(fold_terms(g.drop_last()), g.last())
    }
}

/// `a` and `b` cancel: opposite signs, equal coefficients and operators.
pub open spec fn cancels(a: TermView, b: TermView) -> bool {
    a.negative != b.negative && a.coefficient == b.coefficient && a.operator == b.operator
}

/// End of the run of terms like `s[0]` that continues at `i`.
pub open spec fn run_end(s: Seq<TermView>, i: int) -> int
    decreases s.len() - i,
{
    if 0 <= i < s.len() && same_key(s[i], s[0]) {
        run_end(s, i + 1)
    } else {
        i
    }
}

/// Each run of like terms of `s` replaced by its sum, except a run of two
/// terms that cancel, which goes.
pub open spec fn combine(s: Seq<TermView>) -> Seq<TermView>
    decreases s.len(),
{
    if s.len() == 0 {
        s
    } else {
        let n = run_end(s, 1);
        if 1 <= n <= s.len() {
            let rest = combine(s.skip(n));
            if n == 2 && cancels(s[0], s[1]) {
                rest
            } else {
                seq![fold_terms(s.take(n))] + rest
            }
        } else {
            s
        }
    }
}

/// The reduced form of `s`: sorted by key, like terms combined.
pub open spec fn reduced(s: Seq<TermView>) -> Seq<TermView> {
    combine(sort_terms(s))
}

/// Sum of the coefficient magnitudes of `s`, in units.
pub open spec fn total(s: Seq<TermView>) -> nat
    decreases s.len(),
{
    if s.len() == 0 {
        0
    } else {
        total(s.drop_last()) + magnitude(s.last())
    }
}

pub open spec fn sorted(s: Seq<TermView>) -> bool {
    forall|i: int, j: int| 0 <= i < j < s.len() ==> !key_lt(#[trigger] s[j], #[trigger] s[i])
}

pub open spec fn strictly_sorted(s: Seq<TermView>) -> bool {
    forall|i: int, j: int| 0 <= i < j < s.len() ==> key_lt(#[trigger] s[i], #[trigger] s[j])
}

// ---- order ----

pub proof fn lemma_text_lt_irreflexive(a: Seq<char>)
    ensures
        !text_lt(a, a),
    decreases a.len(),
{
    if a.len() > 0 {
        lemma_text_lt_irreflexive(a.drop_first());
    }
}

pub proof fn lemma_text_lt_total(a: Seq<char>, b: Seq<char>)
    ensures
        a != b ==> text_lt(a, b) || text_lt(b, a),
        !(text_lt(a, b) && text_lt(b, a)),
    decreases a.len(),
{
    if a.len() > 0 && b.len() > 0 {
        lemma_text_lt_total(a.drop_first(), b.drop_first());
        if a[0] == b[0] && a != b {
            assert(a.drop_first() != b.drop_first()) by {
                if a.drop_first() == b.drop_first() {
                    assert(a =~= seq![a[0]] + a.drop_first());
                    assert(b =~= seq![b[0]] + b.drop_first());
                }
            }
        }
    } else if a.len() == 0 && b.len() == 0 {
        assert(a =~= b);
    }
}

pub proof fn lemma_text_lt_transitive(a: Seq<char>, b: Seq<char>, c: Seq<char>)
    requires
        text_lt(a, b),
        text_lt(b, c),
    ensures
        text_lt(a, c),
    decreases a.len(),
{
    if a.len() > 0 && b.len() > 0 && c.len() > 0 && a[0] == b[0] && b[0] == c[0] {
        lemma_text_lt_transitive(a.drop_first(), b.drop_first(), c.drop_first());
    }
}

pub proof fn lemma_key_lt_facts(a: TermView, b: TermView, c: TermView)
    ensures
        !key_lt(a, a),
        key_lt(a, b) ==> !key_lt(b, a),
        key_lt(a, b) ==> !same_key(a, b),
        !key_lt(a, b) && !key_lt(b, a) ==> same_key(a, b),
        key_lt(a, b) && key_lt(b, c) ==> key_lt(a, c),
        !key_lt(b, a) && !key_lt(c, b) ==> !key_lt(c, a),
{
    if let Some(x) = a.identifier {
        lemma_text_lt_irreflexive(x);
    }
    match (a.identifier, b.identifier) {
        (Some(x), Some(y)) => lemma_text_lt_total(x, y),
        _ => {},
    }
    match (b.identifier, c.identifier) {
        (Some(x), Some(y)) => lemma_text_lt_total(x, y),
        _ => {},
    }
    match (a.identifier, c.identifier) {
        (Some(x), Some(y)) => lemma_text_lt_total(x, y),
        _ => {},
    }
    match (a.identifier, b.identifier, c.identifier) {
        (Some(x), Some(y), Some(z)) => {
            if text_lt(x, y) && text_lt(y, z) {
                lemma_text_lt_transitive(x, y, z);
            }
            if text_lt(z, y) && text_lt(y, x) {
                lemma_text_lt_transitive(z, y, x);
            }
            if text_lt(z, x) && text_lt(x, y) {
                lemma_text_lt_transitive(z, x, y);
            }
            if text_lt(y, z) && text_lt(z, x) {
                lemma_text_lt_transitive(y, z, x);
            }
        },
        _ => {},
    }
}

// ---- sorting ----

/// Inserting next to the terms that sort above `x`, from position `j` on.
pub proof fn lemma_insert_at(x: TermView, s: Seq<TermView>, j: int)
    requires
        0 <= j <= s.len(),
        j > 0 ==> !key_lt(x, s[j - 1]),
        forall|m: int| j <= m < s.len() ==> key_lt(x, #[trigger] s[m]),
    ensures
        insert_term(x, s) == s.take(j).push(x) + s.skip(j),
    decreases s.len(),
{
    if s.len() == j {
        assert(s.skip(j) =~= Seq::<TermView>::empty());
        if j == 0 {
            assert(s.take(j).push(x) + s.skip(j) =~= seq![x]);
        } else {
            assert(s.take(j) =~= s);
            assert(s.take(j).push(x) + s.skip(j) =~= s.push(x));
        }
    } else {
        lemma_insert_at(x, s.drop_last(), j);
        assert(s.drop_last().take(j) =~= s.take(j));
        assert(s.drop_last().skip(j).push(s.last()) =~= s.skip(j));
        assert((s.take(j).push(x) + s.drop_last().skip(j)).push(s.last()) =~= s.take(j).push(x)
            + s.skip(j));
    }
}

pub proof fn lemma_insert_sorted(x: TermView, s: Seq<TermView>)
    requires
        sorted(s),
    ensures
        sorted(insert_term(x, s)),
        insert_term(x, s).len() == s.len() + 1,
        forall|y: TermView| #[trigger] insert_term(x, s).contains(y) <==> (y == x || s.contains(y)),
    decreases s.len(),
{
    if s.len() == 0 {
        assert(insert_term(x, s) =~= seq![x]);
        assert forall|y: TermView| #[trigger] insert_term(x, s).contains(y) <==> (y == x || s.contains(y)) by {
            if insert_term(x, s).contains(y) {
                assert(insert_term(x, s)[0] == y);
            }
            if y == x {
                assert(insert_term(x, s)[0] == y);
            }
        }
    } else if key_lt(x, s.last()) {
        let d = s.drop_last();
        assert(sorted(d));
        lemma_insert_sorted(x, d);
        let r = insert_term(x, d);
        let l = s.last();
        assert forall|i: int, j: int| 0 <= i < j < r.push(l).len() implies !key_lt(
            #[trigger] r.push(l)[j],
            #[trigger] r.push(l)[i],
        ) by {
            if j == r.len() {
                let y = r[i];
                assert(r.contains(y));
                if y == x {
                    lemma_key_lt_facts(x, l, l);
                } else {
                    let k = choose|k: int| 0 <= k < d.len() && d[k] == y;
                    assert(s[k] == y);
                    assert(s[s.len() - 1] == l);
                }
            }
        }
        assert forall|y: TermView| #[trigger] r.push(l).contains(y) <==> (y == x || s.contains(y)) by {
            if r.push(l).contains(y) {
                let k = choose|k: int| 0 <= k < r.push(l).len() && r.push(l)[k] == y;
                if k < r.len() {
                    assert(r.contains(y));
                    if y != x {
                        let k2 = choose|k2: int| 0 <= k2 < d.len() && d[k2] == y;
                        assert(s[k2] == y);
                    }
                } else {
                    assert(s[s.len() - 1] == y);
                }
            }
            if y == x {
                assert(r.contains(x));
                let k = choose|k: int| 0 <= k < r.len() && r[k] == x;
                assert(r.push(l)[k] == x);
            }
            if s.contains(y) {
                let k = choose|k: int| 0 <= k < s.len() && s[k] == y;
                if k == s.len() - 1 {
                    assert(r.push(l)[r.len() as int] == y);
                } else {
                    assert(d[k] == y);
                    assert(r.contains(y));
                    let k2 = choose|k2: int| 0 <= k2 < r.len() && r[k2] == y;
                    assert(r.push(l)[k2] == y);
                }
            }
        }
    } else {
        let r = s.push(x);
        assert forall|i: int, j: int| 0 <= i < j < r.len() implies !key_lt(#[trigger] r[j], #[trigger] r[i]) by {
            if j == s.len() {
                lemma_key_lt_facts(s[i], s.last(), x);
            }
        }
        assert forall|y: TermView| #[trigger] r.contains(y) <==> (y == x || s.contains(y)) by {
            if r.contains(y) {
                let k = choose|k: int| 0 <= k < r.len() && r[k] == y;
                if k < s.len() {
                    assert(s[k] == y);
                }
            }
            if y == x {
                assert(r[s.len() as int] == y);
            }
            if s.contains(y) {
                let k = choose|k: int| 0 <= k < s.len() && s[k] == y;
                assert(r[k] == y);
            }
        }
    }
}

pub proof fn lemma_sort_sorted(s: Seq<TermView>)
    ensures
        sorted(sort_terms(s)),
        sort_terms(s).len() == s.len(),
        forall|y: TermView| #[trigger] sort_terms(s).contains(y) <==> s.contains(y),
    decreases s.len(),
{
    if s.len() > 0 {
        let d = s.drop_last();
        lemma_sort_sorted(d);
        lemma_insert_sorted(s.last(), sort_terms(d));
        assert forall|y: TermView| #[trigger] sort_terms(s).contains(y) <==> s.contains(y) by {
            if y == s.last() {
                assert(s[s.len() - 1] == y);
            }
            if d.contains(y) {
                let k = choose|k: int| 0 <= k < d.len() && d[k] == y;
                assert(s[k] == y);
            }
            if s.contains(y) && y != s.last() {
                let k = choose|k: int| 0 <= k < s.len() && s[k] == y;
                assert(d[k] == y);
            }
        }
    }
}

pub proof fn lemma_sort_of_sorted(s: Seq<TermView>)
    requires
        sorted(s),
    ensures
        sort_terms(s) == s,
    decreases s.len(),
{
    if s.len() > 0 {
        let d = s.drop_last();
        assert(sorted(d));
        lemma_sort_of_sorted(d);
        if d.len() > 0 {
            assert(s[d.len() - 1] == d.last());
        }
        assert(d.push(s.last()) =~= s);
    }
}

// ---- sums ----

pub proof fn lemma_total_concat(a: Seq<TermView>, b: Seq<TermView>)
    ensures
        total(a + b) == total(a) + total(b),
    decreases b.len(),
{
    if b.len() == 0 {
        assert(a + b =~= a);
    } else {
        lemma_total_concat(a, b.drop_last());
        assert((a + b).drop_last() =~= a + b.drop_last());
    }
}

pub proof fn lemma_total_insert(x: TermView, s: Seq<TermView>)
    ensures
        total(insert_term(x, s)) == total(s) + magnitude(x),
    decreases s.len(),
{
    if s.len() == 0 {
        assert(seq![x].drop_last() =~= Seq::<TermView>::empty());
        assert(seq![x].last() == x);
        assert(total(Seq::<TermView>::empty()) == 0);
    } else if key_lt(x, s.last()) {
        let r = insert_term(x, s.drop_last());
        lemma_total_insert(x, s.drop_last());
        assert(r.push(s.last()).drop_last() =~= r);
        assert(r.push(s.last()).last() == s.last());
        assert(insert_term(x, s) == r.push(s.last()));
    } else {
        assert(s.push(x).drop_last() =~= s);
        assert(s.push(x).last() == x);
    }
}

pub proof fn lemma_total_sort(s: Seq<TermView>)
    ensures
        total(sort_terms(s)) == total(s),
    decreases s.len(),
{
    if s.len() > 0 {
        lemma_total_sort(s.drop_last());
        lemma_total_insert(s.last(), sort_terms(s.drop_last()));
    }
}

pub proof fn lemma_total_prefix(s: Seq<TermView>, k: int)
    requires
        0 <= k <= s.len(),
    ensures
        total(s.take(k)) <= total(s),
        total(s.take(k)) + total(s.skip(k)) == total(s),
{
    lemma_total_concat(s.take(k), s.skip(k));
    assert(s.take(k) + s.skip(k) =~= s);
}

pub proof fn lemma_fold_key(g: Seq<TermView>)
    requires
        g.len() >= 1,
    ensures
        same_key(fold_terms(g), g[0]),
        magnitude(fold_terms(g)) <= total(g),
    decreases g.len(),
{
    if g.len() > 1 {
        lemma_fold_key(g.drop_last());
    } else {
        assert(g.drop_last() =~= Seq::<TermView>::empty());
    }
}

pub proof fn lemma_run_end(s: Seq<TermView>, i: int)
    requires
        s.len() >= 1,
        1 <= i <= s.len(),
    ensures
        i <= run_end(s, i) <= s.len(),
    decreases s.len() - i,
{
    if i < s.len() && same_key(s[i], s[0]) {
        lemma_run_end(s, i + 1);
    }
}

pub proof fn lemma_total_combine(s: Seq<TermView>)
    ensures
        total(combine(s)) <= total(s),
    decreases s.len(),
{
    if s.len() > 0 {
        let n = run_end(s, 1);
        lemma_run_end(s, 1);
        lemma_total_combine(s.skip(n));
        lemma_total_prefix(s, n);
        lemma_fold_key(s.take(n));
        let f = fold_terms(s.take(n));
        lemma_total_concat(seq![f], combine(s.skip(n)));
        assert(seq![f].drop_last() =~= Seq::<TermView>::empty());
        assert(seq![f].last() == f);
        assert(total(Seq::<TermView>::empty()) == 0);
        assert(total(seq![f]) == magnitude(f));
    }
}

/// Reduction never raises the sum of the coefficient magnitudes.
pub proof fn lemma_total_reduced(s: Seq<TermView>)
    ensures
        total(reduced(s)) <= total(s),
{
    lemma_total_sort(s);
    lemma_total_combine(sort_terms(s));
}


// ---- executable reduction ----

fn text_less(a: &String, b: &String) -> (r: bool)
    ensures
        r == text_lt(a@, b@),
{
    let ca = chars_of(a.as_str());
    let cb = chars_of(b.as_str());
    let mut i: usize = 0;
    assert(a@.skip(0) =~= a@);
    assert(b@.skip(0) =~= b@);
    while i < ca.len() && i < cb.len()
        invariant
            i <= ca.len(),
            i <= cb.len(),
            ca@ == a@,
            cb@ == b@,
            text_lt(a@, b@) == text_lt(a@.skip(i as int), b@.skip(i as int)),
        decreases ca.len() - i,
    {
        assert(a@.skip(i as int)[0] == a@[i as int]);
        assert(b@.skip(i as int)[0] == b@[i as int]);
        if ca[i] != cb[i] {
            return ca[i] < cb[i];
        }
        assert(a@.skip(i as int).drop_first() =~= a@.skip(i + 1));
        assert(b@.skip(i as int).drop_first() =~= b@.skip(i + 1));
        i = i + 1;
    }
    i == ca.len() && i < cb.len()
}

fn number_less(a: Option<Decimal>, b: Option<Decimal>) -> (r: bool)
    ensures
        r == number_lt(crate::polynomial::units_of(a), crate::polynomial::units_of(b)),
{
    match (a, b) {
        (None, Some(_)) => true,
        (Some(x), Some(y)) => x.units < y.units,
        _ => false,
    }
}

fn name_less(a: &Option<String>, b: &Option<String>) -> (r: bool)
    ensures
        r == name_lt(crate::polynomial::text_of(*a), crate::polynomial::text_of(*b)),
{
    match (a, b) {
        (None, Some(_)) => true,
        (Some(x), Some(y)) => text_less(x, y),
        _ => false,
    }
}

fn same_name(a: &Option<String>, b: &Option<String>) -> (r: bool)
    ensures
        r == (crate::polynomial::text_of(*a) == crate::polynomial::text_of(*b)),
{
    match (a, b) {
        (None, None) => true,
        (Some(x), Some(y)) => x.eq(y),
        _ => false,
    }
}

fn same_number(a: Option<Decimal>, b: Option<Decimal>) -> (r: bool)
    ensures
        r == (crate::polynomial::units_of(a) == crate::polynomial::units_of(b)),
{
    match (a, b) {
        (None, None) => true,
        (Some(x), Some(y)) => x.units == y.units,
        _ => false,
    }
}

fn same_operator(a: Option<char>, b: Option<char>) -> (r: bool)
    ensures
        r == (a == b),
{
    match (a, b) {
        (None, None) => true,
        (Some(x), Some(y)) => x == y,
        _ => false,
    }
}

impl Term {
    /// The terms sort by exponent, then by identifier; absent sorts low.
    pub fn key_less(&self, other: &Term) -> (r: bool)
        ensures
            r == key_lt(self@, other@),
    {
        number_less(self.exponent, other.exponent) || (same_number(self.exponent, other.exponent)
            && name_less(&self.identifier, &other.identifier))
    }

    /// Like terms: same exponent and same identifier.
    pub fn same_key(&self, other: &Term) -> (r: bool)
        ensures
            r == same_key(self@, other@),
    {
        same_number(self.exponent, other.exponent) && same_name(&self.identifier, &other.identifier)
    }

    /// The two terms cancel: opposite signs, equal coefficients and operators.
    pub fn cancels(&self, other: &Term) -> (r: bool)
        ensures
            r == cancels(self@, other@),
    {
        self.is_sign_negative != other.is_sign_negative && same_number(
            self.coefficient,
            other.coefficient,
        ) && same_operator(self.operator, other.operator)
    }

    /// Magnitude of the coefficient in units; an absent one is one.
    pub fn magnitude(&self) -> (r: u128)
        ensures
            r == magnitude(self@),
    {
        match self.coefficient {
            Some(c) => c.units,
            None => UNITS_PER_ONE,
        }
    }

    /// The signed coefficient in units; an absent one is one.
    pub fn coefficient(&self) -> (r: i128)
        requires
            magnitude(self@) <= i128::MAX,
        ensures
            r == value(self@),
    {
        let m = self.magnitude();
        if self.is_sign_negative {
            -(m as i128)
        } else {
            m as i128
        }
    }

    /// Sum of two like terms: signed coefficients add, the key is `self`'s.
    pub fn add(self, rhs: Term) -> (r: Term)
        requires
            magnitude(self@) + magnitude(rhs@) <= MAX_TOTAL_UNITS,
        ensures
            r@ == add_terms(self@, rhs@),
    {
        let ma = self.magnitude();
        let mb = rhs.magnitude();
        let negative: bool;
        let m: u128;
        if self.is_sign_negative == rhs.is_sign_negative {
            m = ma + mb;
            negative = self.is_sign_negative && m > 0;
        } else if ma >= mb {
            m = ma - mb;
            negative = self.is_sign_negative && m > 0;
        } else {
            m = mb - ma;
            negative = rhs.is_sign_negative;
        }
        let operator = if self.operator.is_none() && rhs.operator.is_none() {
            Some('*')
        } else {
            self.operator
        };
        Term {
            is_sign_negative: negative,
            coefficient: Some(Decimal { units: m }),
            operator,
            identifier: self.identifier,
            exponent: self.exponent,
        }
    }
}

/// Puts `x` into `v` after every term that does not sort above it.
fn insert_sorted(v: &mut Vec<Term>, x: Term)
    ensures
        term_views(final(v)@) == insert_term(x@, term_views(old(v)@)),
{
    let ghost s = term_views(v@);
    let mut j: usize = v.len();
    while j > 0 && x.key_less(&v[j - 1])
        invariant
            j <= v.len(),
            s == term_views(v@),
            forall|m: int| j <= m < s.len() ==> key_lt(x@, #[trigger] s[m]),
        decreases j,
    {
        j = j - 1;
    }
    proof {
        lemma_insert_at(x@, s, j as int);
    }
    v.insert(j, x);
    assert(term_views(v@) =~= s.take(j as int).push(x@) + s.skip(j as int));
}

impl Polynomial {
    /// Sum of the coefficient magnitudes is within `MAX_TOTAL_UNITS`.
    pub fn within_limits(&self) -> (r: bool)
        ensures
            r == (total(self@) <= MAX_TOTAL_UNITS),
    {
        let ghost s = self@;
        let mut sum: u128 = 0;
        let mut i: usize = 0;
        while i < self.0.len()
            invariant
                i <= self.0.len(),
                s == self@,
                sum == total(s.take(i as int)),
                sum <= MAX_TOTAL_UNITS,
            decreases self.0.len() - i,
        {
            let m = self.0[i].magnitude();
            assert(s.take(i + 1).drop_last() =~= s.take(i as int));
            if m > MAX_TOTAL_UNITS - sum {
                proof {
                    lemma_total_prefix(s, i + 1);
                }
                return false;
            }
            sum = sum + m;
            i = i + 1;
        }
        assert(s.take(i as int) =~= s);
        true
    }

    /// Sorts the terms by exponent, then identifier, and replaces each run of
    /// like terms by its sum; a run of two terms that cancel goes.
    pub fn reduce(&mut self)
        requires
            total(old(self)@) <= MAX_TOTAL_UNITS,
        ensures
            final(self)@ == reduced(old(self)@),
            total(final(self)@) <= total(old(self)@),
    {
        let ghost s0 = self@;
        let mut input: Vec<Term> = Vec::new();
        std::mem::swap(&mut input, &mut self.0);
        let mut sorted_terms: Vec<Term> = Vec::new();
        let ghost mut k: int = 0;
        assert(s0.take(0) =~= Seq::<TermView>::empty());
        assert(term_views(sorted_terms@) =~= Seq::<TermView>::empty());
        while input.len() > 0
            invariant
                0 <= k <= s0.len(),
                term_views(input@) == s0.skip(k),
                term_views(sorted_terms@) == sort_terms(s0.take(k)),
            decreases input.len(),
        {
            let ghost old_in = input@;
            let x = input.remove(0);
            assert(term_views(old_in).len() == old_in.len());
            assert(k < s0.len());
            assert(term_views(old_in)[0] == x@);
            assert(s0.skip(k)[0] == s0[k]);
            assert(x@ == s0[k]);
            assert(input@ =~= old_in.skip(1));
            assert(term_views(input@) =~= term_views(old_in).skip(1));
            assert(s0.take(k + 1).drop_last() =~= s0.take(k));
            assert(term_views(input@) =~= s0.skip(k + 1));
            insert_sorted(&mut sorted_terms, x);
            proof {
                k = k + 1;
            }
        }
        assert(s0.take(k) =~= s0);
        let ghost sv = sort_terms(s0);
        proof {
            lemma_total_sort(s0);
        }
        let mut rest = sorted_terms;
        let mut out: Vec<Term> = Vec::new();
        let ghost mut pos: int = 0;
        assert(sv.skip(0) =~= sv);
        assert(term_views(out@) + combine(sv) =~= combine(sv));
        while rest.len() > 0
            invariant
                0 <= pos <= sv.len(),
                term_views(rest@) == sv.skip(pos),
                combine(sv) == term_views(out@) + combine(sv.skip(pos)),
                total(sv) <= MAX_TOTAL_UNITS,
            decreases rest.len(),
        {
            let ghost cur = sv.skip(pos);
            proof {
                lemma_total_prefix(sv, pos);
            }
            let ghost old_rest = rest@;
            let first = rest.remove(0);
            assert(term_views(old_rest).len() == old_rest.len());
            assert(pos < sv.len());
            assert(term_views(old_rest)[0] == first@);
            assert(rest@ =~= old_rest.skip(1));
            assert(term_views(rest@) =~= term_views(old_rest).skip(1));
            assert(term_views(rest@) =~= cur.skip(1));
            let mut acc = first;
            let mut n: usize = 1;
            let mut cancel = false;
            assert(cur.take(1) =~= seq![cur[0]]);
            assert(cur.take(1).drop_last() =~= Seq::<TermView>::empty());
            while rest.len() > 0 && rest[0].same_key(&acc)
                invariant
                    1 <= n <= cur.len(),
                    cur.len() <= usize::MAX,
                    term_views(rest@) == cur.skip(n as int),
                    acc@ == fold_terms(cur.take(n as int)),
                    same_key(acc@, cur[0]),
                    run_end(cur, 1) == run_end(cur, n as int),
                    cancel == (n >= 2 && cancels(cur[0], cur[1])),
                    magnitude(acc@) <= total(cur.take(n as int)),
                    total(cur) <= MAX_TOTAL_UNITS,
                decreases rest.len(),
            {
                let ghost old_rest = rest@;
                let t = rest.remove(0);
                assert(term_views(old_rest).len() == old_rest.len());
                assert(n < cur.len());
                assert(term_views(old_rest)[0] == t@);
                assert(cur.skip(n as int)[0] == cur[n as int]);
                assert(t@ == cur[n as int]);
                assert(rest@ =~= old_rest.skip(1));
                assert(term_views(rest@) =~= term_views(old_rest).skip(1));
                assert(term_views(rest@) =~= cur.skip(n + 1));
                if n == 1 {
                    assert(cur.take(1)[0] == cur[0]);
                    cancel = acc.cancels(&t);
                }
                assert(cur.take(n + 1).drop_last() =~= cur.take(n as int));
                proof {
                    lemma_total_prefix(cur, n + 1);
                }
                acc = acc.add(t);
                n = n + 1;
            }
            proof {
                lemma_run_end(cur, 1);
                lemma_fold_key(cur.take(n as int));
                if rest.len() > 0 {
                    assert(term_views(rest@)[0] == rest@[0]@);
                    assert(cur.skip(n as int)[0] == cur[n as int]);
                }
            }
            assert(run_end(cur, 1) == n);
            assert(cur.skip(n as int) =~= sv.skip(pos + n));
            let ghost before = term_views(out@);
            if !(n == 2 && cancel) {
                out.push(acc);
                assert(term_views(out@) =~= before.push(fold_terms(cur.take(n as int))));
                assert(before + combine(cur) =~= term_views(out@) + combine(sv.skip(pos + n)));
            }
            proof {
                pos = pos + n;
            }
        }
        assert(sv.skip(pos) =~= Seq::<TermView>::empty());
        assert(term_views(out@) + Seq::<TermView>::empty() =~= term_views(out@));
        self.0 = out;
        proof {
            lemma_total_reduced(s0);
        }
    }
}
} // verus!
