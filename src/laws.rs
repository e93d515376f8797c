use vstd::prelude::*;

use crate::parser::{parse_text, ParseError};
use crate::node::Tree;
use crate::polynomial::TermView;
use crate::reduction::{
    cancels, combine, fold_terms, lemma_fold_key, lemma_key_lt_facts, lemma_run_end, lemma_sort_of_sorted,
    lemma_sort_sorted, insert_term, reduced, run_end, same_key, sort_terms, sorted, strictly_sorted, key_lt,
};
use crate::solver::{degree_of, term_degree};

verus! {

/// Tokenizing and parsing the same text twice gives structurally identical
/// results: the outcome depends on the characters of the text alone.
pub proof fn law_parse_deterministic(
    text: Seq<char>,
    first: Result<Tree, ParseError>,
    second: Result<Tree, ParseError>,
)
    requires
        first == parse_text(text),
        second == parse_text(text),
    ensures
        first == second,
{
}

/// Within a run, every term is like the first.
proof fn lemma_run_keys(t: Seq<TermView>, i: int)
    requires
        1 <= i <= t.len(),
        forall|m: int| 1 <= m < i ==> same_key(#[trigger] t[m], t[0]),
    ensures
        forall|m: int| 1 <= m < run_end(t, i) ==> same_key(#[trigger] t[m], t[0]),
    decreases t.len() - i,
{
    if i < t.len() && same_key(t[i], t[0]) {
        lemma_run_keys(t, i + 1);
    }
}

/// A run ends at the first term unlike the first one.
proof fn lemma_run_stop(t: Seq<TermView>, i: int)
    requires
        1 <= i <= t.len(),
    ensures
        run_end(t, i) < t.len() ==> !same_key(t[run_end(t, i)], t[0]),
    decreases t.len() - i,
{
    if i < t.len() && same_key(t[i], t[0]) {
        lemma_run_stop(t, i + 1);
    }
}

/// Combining a sorted sequence gives strictly increasing keys, none below
/// the first key of the input.
proof fn lemma_combine_strict(t: Seq<TermView>)
    requires
        sorted(t),
    ensures
        strictly_sorted(combine(t)),
        t.len() > 0 ==> forall|j: int| 0 <= j < combine(t).len() ==> !key_lt(#[trigger] combine(t)[j], t[0]),
    decreases t.len(),
{
    if t.len() > 0 {
        let n = run_end(t, 1);
        lemma_run_end(t, 1);
        let u = t.skip(n);
        assert(sorted(u));
        lemma_combine_strict(u);
        let rest = combine(u);
        let f = fold_terms(t.take(n));
        lemma_fold_key(t.take(n));
        lemma_key_lt_facts(f, f, f);
        if n < t.len() {
            lemma_run_stop(t, 1);
            lemma_key_lt_facts(t[0], t[n], t[n]);
            assert(!same_key(t[n], t[0]));
            assert(!key_lt(t[n], t[0]));
            assert(key_lt(t[0], t[n]));
        }
        assert forall|j: int| 0 <= j < rest.len() implies !key_lt(#[trigger] rest[j], t[0]) && key_lt(f, rest[j]) by {
            assert(u[0] == t[n]);
            let y = rest[j];
            lemma_key_lt_facts(t[0], t[n], y);
            lemma_key_lt_facts(t[n], y, t[0]);
        }
        if !(n == 2 && cancels(t[0], t[1])) {
            let c = seq![f] + rest;
            assert forall|i: int, j: int| 0 <= i < j < c.len() implies key_lt(#[trigger] c[i], #[trigger] c[j]) by {
                if i > 0 {
                    assert(c[i] == rest[i - 1]);
                    assert(c[j] == rest[j - 1]);
                } else {
                    assert(c[j] == rest[j - 1]);
                }
            }
            assert forall|j: int| 0 <= j < c.len() implies !key_lt(#[trigger] c[j], t[0]) by {
                if j > 0 {
                    assert(c[j] == rest[j - 1]);
                }
            }
        }
    }
}

/// Combining leaves a sequence with strictly increasing keys unchanged.
proof fn lemma_combine_of_strict(u: Seq<TermView>)
    requires
        strictly_sorted(u),
    ensures
        combine(u) == u,
    decreases u.len(),
{
    if u.len() > 0 {
        if u.len() > 1 {
            lemma_key_lt_facts(u[0], u[1], u[1]);
        }
        assert(run_end(u, 1) == 1);
        let v = u.skip(1);
        assert(strictly_sorted(v)) by {
            assert forall|i: int, j: int| 0 <= i < j < v.len() implies key_lt(#[trigger] v[i], #[trigger] v[j]) by {
                assert(v[i] == u[i + 1]);
                assert(v[j] == u[j + 1]);
            }
        }
        lemma_combine_of_strict(v);
        assert(u.take(1).len() == 1);
        assert(seq![u[0]] + v =~= u);
    }
}

/// After reduction no two terms are like terms, and the terms go by
/// increasing key.
pub proof fn law_reduced_terms_unlike(s: Seq<TermView>)
    ensures
        strictly_sorted(reduced(s)),
        forall|i: int, j: int|
            0 <= i < j < reduced(s).len() ==> !same_key(#[trigger] reduced(s)[i], #[trigger] reduced(s)[j]),
{
    lemma_sort_sorted(s);
    lemma_combine_strict(sort_terms(s));
    let r = reduced(s);
    assert forall|i: int, j: int| 0 <= i < j < r.len() implies !same_key(#[trigger] r[i], #[trigger] r[j]) by {
        lemma_key_lt_facts(r[i], r[j], r[j]);
    }
}

/// Reducing a reduced polynomial changes nothing.
pub proof fn law_reduce_idempotent(s: Seq<TermView>)
    ensures
        reduced(reduced(s)) == reduced(s),
{
    lemma_sort_sorted(s);
    let t = sort_terms(s);
    lemma_combine_strict(t);
    let r = combine(t);
    assert(sorted(r)) by {
        assert forall|i: int, j: int| 0 <= i < j < r.len() implies !key_lt(#[trigger] r[j], #[trigger] r[i]) by {
            lemma_key_lt_facts(r[i], r[j], r[j]);
        }
    }
    lemma_sort_of_sorted(r);
    lemma_combine_of_strict(r);
}

/// Two like terms with opposite signs and equal coefficients and operators
/// vanish on reduction.
pub proof fn law_sign_cancellation(a: TermView, b: TermView)
    requires
        same_key(a, b),
        a.negative != b.negative,
        a.coefficient == b.coefficient,
        a.operator == b.operator,
    ensures
        reduced(seq![a, b]) == Seq::<TermView>::empty(),
{
    let s = seq![a, b];
    lemma_key_lt_facts(a, b, b);
    lemma_key_lt_facts(b, a, a);
    assert(s.drop_last() =~= seq![a]);
    assert(seq![a].drop_last() =~= Seq::<TermView>::empty());
    assert(sort_terms(Seq::<TermView>::empty()) == Seq::<TermView>::empty());
    assert(seq![a].last() == a);
    assert(insert_term(a, Seq::<TermView>::empty()) == seq![a]);
    assert(sort_terms(seq![a]) =~= seq![a]);
    assert(s.last() == b);
    assert(!key_lt(b, a));
    assert(sort_terms(s) =~= s);
    assert(run_end(s, 2) == 2);
    assert(run_end(s, 1) == 2);
    assert(s.skip(2) =~= Seq::<TermView>::empty());
    assert(combine(Seq::<TermView>::empty()) == Seq::<TermView>::empty());
    assert(cancels(s[0], s[1]));
    assert(combine(s) == combine(s.skip(2)));
}

/// The degree is the largest whole exponent among the terms, and some term
/// has it.
pub proof fn law_degree_is_largest_exponent(s: Seq<TermView>)
    ensures
        forall|i: int| 0 <= i < s.len() ==> term_degree(#[trigger] s[i]) <= degree_of(s),
        s.len() > 0 ==> exists|i: int| 0 <= i < s.len() && term_degree(#[trigger] s[i]) == degree_of(s),
        s.len() == 0 ==> degree_of(s) == 0,
{
    assert forall|i: int| 0 <= i < s.len() implies term_degree(#[trigger] s[i]) <= degree_of(s) by {
        lemma_degree_member(s, i);
    }
    if s.len() > 0 {
        lemma_degree_attained(s);
    }
}

proof fn lemma_degree_member(s: Seq<TermView>, i: int)
    requires
        0 <= i < s.len(),
    ensures
        term_degree(s[i]) <= degree_of(s),
    decreases s.len(),
{
    if i < s.len() - 1 {
        lemma_degree_member(s.drop_last(), i);
    }
}

proof fn lemma_degree_bound(s: Seq<TermView>, d: nat)
    requires
        forall|i: int| 0 <= i < s.len() ==> term_degree(#[trigger] s[i]) <= d,
    ensures
        degree_of(s) <= d,
    decreases s.len(),
{
    if s.len() > 0 {
        lemma_degree_bound(s.drop_last(), d);
    }
}

proof fn lemma_degree_attained(s: Seq<TermView>)
    requires
        s.len() > 0,
    ensures
        exists|i: int| 0 <= i < s.len() && term_degree(#[trigger] s[i]) == degree_of(s),
    decreases s.len(),
{
    if s.len() == 1 {
        assert(s.drop_last().len() == 0);
        assert(degree_of(s.drop_last()) == 0);
        assert(s.last() == s[0]);
        assert(term_degree(s[0]) == degree_of(s));
    } else {
        lemma_degree_attained(s.drop_last());
        let i = choose|i: int| 0 <= i < s.drop_last().len() && term_degree(#[trigger] s.drop_last()[i]) == degree_of(s.drop_last());
        if term_degree(s.last()) > degree_of(s.drop_last()) {
            assert(term_degree(s[s.len() - 1]) == degree_of(s));
        } else {
            assert(term_degree(s[i]) == degree_of(s));
        }
    }
}

/// Every term that combining yields is like some term of the input.
proof fn lemma_combine_keys(t: Seq<TermView>)
    ensures
        forall|j: int| 0 <= j < combine(t).len() ==> exists|i: int| 0 <= i < t.len() && same_key(#[trigger] combine(t)[j], t[i]),
    decreases t.len(),
{
    if t.len() > 0 {
        let n = run_end(t, 1);
        lemma_run_end(t, 1);
        let u = t.skip(n);
        lemma_combine_keys(u);
        let rest = combine(u);
        lemma_fold_key(t.take(n));
        let f = fold_terms(t.take(n));
        assert forall|j: int| 0 <= j < rest.len() implies exists|i: int| 0 <= i < t.len() && same_key(#[trigger] rest[j], t[i]) by {
            let i = choose|i: int| 0 <= i < u.len() && same_key(rest[j], u[i]);
            assert(u[i] == t[i + n]);
        }
        if !(n == 2 && cancels(t[0], t[1])) {
            let c = seq![f] + rest;
            assert forall|j: int| 0 <= j < c.len() implies exists|i: int| 0 <= i < t.len() && same_key(#[trigger] c[j], t[i]) by {
                if j == 0 {
                    assert(same_key(c[0], t[0]));
                } else {
                    assert(c[j] == rest[j - 1]);
                }
            }
        }
    }
}

/// Where no two terms cancel, every term of the input has a like term in
/// what combining yields.
proof fn lemma_combine_keeps(t: Seq<TermView>, p: int)
    requires
        0 <= p < t.len(),
        forall|i: int, j: int| 0 <= i < j < t.len() ==> !cancels(#[trigger] t[i], #[trigger] t[j]),
    ensures
        exists|j: int| 0 <= j < combine(t).len() && same_key(#[trigger] combine(t)[j], t[p]),
    decreases t.len(),
{
    let n = run_end(t, 1);
    lemma_run_end(t, 1);
    let u = t.skip(n);
    let rest = combine(u);
    lemma_fold_key(t.take(n));
    let f = fold_terms(t.take(n));
    if n == 2 {
        assert(!cancels(t[0], t[1]));
    }
    let c = seq![f] + rest;
    assert(combine(t) == c);
    if p < n {
        lemma_run_keys(t, 1);
        if p > 0 {
            assert(same_key(t[p], t[0]));
        }
        assert(c[0] == f);
        assert(same_key(c[0], t[p]));
    } else {
        assert forall|i: int, j: int| 0 <= i < j < u.len() implies !cancels(#[trigger] u[i], #[trigger] u[j]) by {
            assert(u[i] == t[i + n]);
            assert(u[j] == t[j + n]);
        }
        lemma_combine_keeps(u, p - n);
        let j = choose|j: int| 0 <= j < rest.len() && same_key(#[trigger] rest[j], u[p - n]);
        assert(c[j + 1] == rest[j]);
        assert(u[p - n] == t[p]);
    }
}

/// Reduction never raises the degree; and where no two terms cancel each
/// other, the degree after reduction is the degree before.
pub proof fn law_degree_after_reduce(s: Seq<TermView>)
    ensures
        degree_of(reduced(s)) <= degree_of(s),
        (forall|i: int, j: int| 0 <= i < j < s.len() ==> !cancels(#[trigger] s[i], #[trigger] s[j]))
            ==> degree_of(reduced(s)) == degree_of(s),
{
    lemma_sort_sorted(s);
    let t = sort_terms(s);
    let r = combine(t);
    lemma_combine_keys(t);
    assert forall|j: int| 0 <= j < r.len() implies term_degree(#[trigger] r[j]) <= degree_of(s) by {
        let i = choose|i: int| 0 <= i < t.len() && same_key(r[j], t[i]);
        assert(t.contains(t[i]));
        assert(s.contains(t[i]));
        let k = choose|k: int| 0 <= k < s.len() && s[k] == t[i];
        lemma_degree_member(s, k);
    }
    lemma_degree_bound(r, degree_of(s));
    if (forall|i: int, j: int| 0 <= i < j < s.len() ==> !cancels(#[trigger] s[i], #[trigger] s[j])) && s.len() > 0 {
        assert forall|i: int, j: int| 0 <= i < j < t.len() implies !cancels(#[trigger] t[i], #[trigger] t[j]) by {
            assert(t.contains(t[i]));
            assert(t.contains(t[j]));
            let ki = choose|k: int| 0 <= k < s.len() && s[k] == t[i];
            let kj = choose|k: int| 0 <= k < s.len() && s[k] == t[j];
            if cancels(t[i], t[j]) {
                assert(ki != kj);
                if ki < kj {
                    assert(!cancels(s[ki], s[kj]));
                } else {
                    assert(!cancels(s[kj], s[ki]));
                }
            }
        }
        lemma_degree_attained(s);
        let i = choose|i: int| 0 <= i < s.len() && term_degree(#[trigger] s[i]) == degree_of(s);
        assert(s.contains(s[i]));
        assert(t.contains(s[i]));
        let p = choose|p: int| 0 <= p < t.len() && t[p] == s[i];
        lemma_combine_keeps(t, p);
        let j = choose|j: int| 0 <= j < r.len() && same_key(#[trigger] r[j], t[p]);
        lemma_degree_member(r, j);
    }
}


/// Count of the terms of `s` equal to `x`.
pub open spec fn occurrences(s: Seq<TermView>, x: TermView) -> nat
    decreases s.len(),
{
    if s.len() == 0 {
        0
    } else {
        occurrences(s.drop_last(), x) + if s.last() == x {
            1nat
        } else {
            0nat
        }
    }
}

/// Count of the terms of `s` like `x`.
pub open spec fn like_count(s: Seq<TermView>, x: TermView) -> nat
    decreases s.len(),
{
    if s.len() == 0 {
        0
    } else {
        like_count(s.drop_last(), x) + if same_key(s.last(), x) {
            1nat
        } else {
            0nat
        }
    }
}

proof fn lemma_counts_concat(p: Seq<TermView>, q: Seq<TermView>, x: TermView)
    ensures
        occurrences(p + q, x) == occurrences(p, x) + occurrences(q, x),
        like_count(p + q, x) == like_count(p, x) + like_count(q, x),
    decreases q.len(),
{
    if q.len() == 0 {
        assert(p + q =~= p);
    } else {
        lemma_counts_concat(p, q.drop_last(), x);
        assert((p + q).drop_last() =~= p + q.drop_last());
    }
}

proof fn lemma_counts_insert(y: TermView, s: Seq<TermView>, x: TermView)
    ensures
        occurrences(insert_term(y, s), x) == occurrences(s, x) + if y == x {
            1nat
        } else {
            0nat
        },
        like_count(insert_term(y, s), x) == like_count(s, x) + if same_key(y, x) {
            1nat
        } else {
            0nat
        },
    decreases s.len(),
{
    if s.len() == 0 {
        assert(seq![y].drop_last() =~= Seq::<TermView>::empty());
        assert(seq![y].last() == y);
        assert(occurrences(Seq::<TermView>::empty(), x) == 0);
        assert(like_count(Seq::<TermView>::empty(), x) == 0);
        assert(insert_term(y, s) == seq![y]);
    } else if key_lt(y, s.last()) {
        let r = insert_term(y, s.drop_last());
        lemma_counts_insert(y, s.drop_last(), x);
        assert(r.push(s.last()).drop_last() =~= r);
        assert(r.push(s.last()).last() == s.last());
        assert(insert_term(y, s) == r.push(s.last()));
    } else {
        assert(s.push(y).drop_last() =~= s);
        assert(s.push(y).last() == y);
    }
}

proof fn lemma_counts_sort(s: Seq<TermView>, x: TermView)
    ensures
        occurrences(sort_terms(s), x) == occurrences(s, x),
        like_count(sort_terms(s), x) == like_count(s, x),
    decreases s.len(),
{
    if s.len() > 0 {
        lemma_counts_sort(s.drop_last(), x);
        lemma_counts_insert(s.last(), sort_terms(s.drop_last()), x);
    }
}

proof fn lemma_occurs_at(s: Seq<TermView>, x: TermView)
    requires
        occurrences(s, x) > 0,
    ensures
        exists|i: int| 0 <= i < s.len() && s[i] == x,
    decreases s.len(),
{
    if s.last() != x {
        lemma_occurs_at(s.drop_last(), x);
        let i = choose|i: int| 0 <= i < s.drop_last().len() && s.drop_last()[i] == x;
        assert(s[i] == x);
    } else {
        assert(s[s.len() - 1] == x);
    }
}

/// No term of `s` is like `x`, or equal to it.
proof fn lemma_counts_none(s: Seq<TermView>, x: TermView)
    requires
        forall|i: int| 0 <= i < s.len() ==> !same_key(#[trigger] s[i], x),
    ensures
        like_count(s, x) == 0,
        occurrences(s, x) == 0,
    decreases s.len(),
{
    if s.len() > 0 {
        assert(!same_key(s[s.len() - 1], x));
        lemma_counts_none(s.drop_last(), x);
    }
}

/// Every term of `s` is like `x`.
proof fn lemma_counts_all(s: Seq<TermView>, x: TermView)
    requires
        forall|i: int| 0 <= i < s.len() ==> same_key(#[trigger] s[i], x),
    ensures
        like_count(s, x) == s.len(),
    decreases s.len(),
{
    if s.len() > 0 {
        assert(same_key(s[s.len() - 1], x));
        lemma_counts_all(s.drop_last(), x);
    }
}

/// In a sorted sequence, the terms after the first run are unlike its first
/// term.
proof fn lemma_after_run(t: Seq<TermView>)
    requires
        sorted(t),
        t.len() > 0,
    ensures
        forall|j: int| run_end(t, 1) <= j < t.len() ==> !same_key(#[trigger] t[j], t[0]),
{
    let n = run_end(t, 1);
    lemma_run_end(t, 1);
    lemma_run_stop(t, 1);
    assert forall|j: int| n <= j < t.len() implies !same_key(#[trigger] t[j], t[0]) by {
        if same_key(t[j], t[0]) && j > n {
            lemma_key_lt_facts(t[0], t[n], t[n]);
            assert(!key_lt(t[n], t[0]));
            assert(key_lt(t[0], t[n]));
            assert(key_lt(t[j], t[n]));
        }
    }
}

proof fn lemma_combine_drops(t: Seq<TermView>, a: TermView, b: TermView)
    requires
        sorted(t),
        same_key(a, b),
        cancels(a, b),
        like_count(t, a) == 2,
        occurrences(t, a) > 0,
        occurrences(t, b) > 0,
    ensures
        forall|j: int| 0 <= j < combine(t).len() ==> !same_key(#[trigger] combine(t)[j], a),
    decreases t.len(),
{
    if t.len() == 0 {
        return;
    }
    let n = run_end(t, 1);
    lemma_run_end(t, 1);
    lemma_run_keys(t, 1);
    lemma_after_run(t);
    let u = t.skip(n);
    assert(t =~= t.take(n) + u);
    lemma_counts_concat(t.take(n), u, a);
    lemma_counts_concat(t.take(n), u, b);
    lemma_fold_key(t.take(n));
    if same_key(t[0], a) {
        assert forall|j: int| 0 <= j < u.len() implies !same_key(#[trigger] u[j], a) by {
            assert(u[j] == t[j + n]);
        }
        lemma_counts_none(u, a);
        assert forall|j: int| 0 <= j < t.take(n).len() implies same_key(#[trigger] t.take(n)[j], a) by {
            if j > 0 {
                assert(same_key(t[j], t[0]));
            }
        }
        lemma_counts_all(t.take(n), a);
        assert(n == 2);
        lemma_occurs_at(t, a);
        lemma_occurs_at(t, b);
        let pa = choose|i: int| 0 <= i < t.len() && t[i] == a;
        let pb = choose|i: int| 0 <= i < t.len() && t[i] == b;
        assert(pa < 2);
        assert(pb < 2);
        assert(pa != pb);
        assert(cancels(t[0], t[1]));
        lemma_combine_keys(u);
        assert forall|j: int| 0 <= j < combine(t).len() implies !same_key(#[trigger] combine(t)[j], a) by {
            let i = choose|i: int| 0 <= i < u.len() && same_key(combine(u)[j], u[i]);
            assert(u[i] == t[i + n]);
        }
    } else {
        assert forall|j: int| 0 <= j < t.take(n).len() implies !same_key(#[trigger] t.take(n)[j], a) by {
            if j > 0 {
                assert(same_key(t[j], t[0]));
            }
        }
        lemma_counts_none(t.take(n), a);
        lemma_counts_none(t.take(n), b);
        assert(sorted(u));
        lemma_combine_drops(u, a, b);
        let rest = combine(u);
        if !(n == 2 && cancels(t[0], t[1])) {
            let c = seq![fold_terms(t.take(n))] + rest;
            assert forall|j: int| 0 <= j < c.len() implies !same_key(#[trigger] c[j], a) by {
                if j > 0 {
                    assert(c[j] == rest[j - 1]);
                }
            }
        }
    }
}

/// Two like terms with opposite signs and equal coefficients and operators,
/// with no other term like them, leave no term of their kind on reduction.
pub proof fn law_sign_cancellation_within(s: Seq<TermView>, a: TermView, b: TermView)
    requires
        occurrences(s, a) > 0,
        occurrences(s, b) > 0,
        like_count(s, a) == 2,
        same_key(a, b),
        a.negative != b.negative,
        a.coefficient == b.coefficient,
        a.operator == b.operator,
    ensures
        forall|j: int| 0 <= j < reduced(s).len() ==> !same_key(#[trigger] reduced(s)[j], a),
{
    lemma_sort_sorted(s);
    lemma_counts_sort(s, a);
    lemma_counts_sort(s, b);
    lemma_combine_drops(sort_terms(s), a, b);
}

/// The terms of `s` like `k`, in order.
pub open spec fn of_key(s: Seq<TermView>, k: TermView) -> Seq<TermView>
    decreases s.len(),
{
    if s.len() == 0 {
        s
    } else if same_key(s.last(), k) {
        of_key(s.drop_last(), k).push(s.last())
    } else {
        of_key(s.drop_last(), k)
    }
}

proof fn lemma_of_key_concat(p: Seq<TermView>, q: Seq<TermView>, k: TermView)
    ensures
        of_key(p + q, k) == of_key(p, k) + of_key(q, k),
    decreases q.len(),
{
    if q.len() == 0 {
        assert(p + q =~= p);
        assert(of_key(p, k) + of_key(q, k) =~= of_key(p, k));
    } else {
        lemma_of_key_concat(p, q.drop_last(), k);
        assert((p + q).drop_last() =~= p + q.drop_last());
        assert((p + q).last() == q.last());
        if same_key(q.last(), k) {
            assert(of_key(p, k) + of_key(q.drop_last(), k).push(q.last()) =~= (of_key(p, k) + of_key(
                q.drop_last(),
                k,
            )).push(q.last()));
        }
    }
}

proof fn lemma_of_key_none(s: Seq<TermView>, k: TermView)
    requires
        forall|i: int| 0 <= i < s.len() ==> !same_key(#[trigger] s[i], k),
    ensures
        of_key(s, k) == Seq::<TermView>::empty(),
    decreases s.len(),
{
    if s.len() > 0 {
        assert(!same_key(s[s.len() - 1], k));
        lemma_of_key_none(s.drop_last(), k);
    } else {
        assert(s =~= Seq::<TermView>::empty());
    }
}

proof fn lemma_of_key_all(s: Seq<TermView>, k: TermView)
    requires
        forall|i: int| 0 <= i < s.len() ==> same_key(#[trigger] s[i], k),
    ensures
        of_key(s, k) == s,
    decreases s.len(),
{
    if s.len() > 0 {
        assert(same_key(s[s.len() - 1], k));
        lemma_of_key_all(s.drop_last(), k);
        assert(s.drop_last().push(s.last()) =~= s);
    }
}

proof fn lemma_of_key_insert(x: TermView, t: Seq<TermView>, k: TermView)
    ensures
        of_key(insert_term(x, t), k) == if same_key(x, k) {
            of_key(t, k).push(x)
        } else {
            of_key(t, k)
        },
    decreases t.len(),
{
    if t.len() == 0 {
        assert(insert_term(x, t) == seq![x]);
        assert(seq![x].drop_last() =~= Seq::<TermView>::empty());
        assert(seq![x].last() == x);
        assert(of_key(Seq::<TermView>::empty(), k) == Seq::<TermView>::empty());
    } else if key_lt(x, t.last()) {
        let d = t.drop_last();
        let r = insert_term(x, d);
        lemma_of_key_insert(x, d, k);
        lemma_key_lt_facts(x, t.last(), t.last());
        assert(insert_term(x, t) == r.push(t.last()));
        assert(r.push(t.last()).drop_last() =~= r);
        assert(r.push(t.last()).last() == t.last());
        if same_key(x, k) && same_key(t.last(), k) {
            assert(same_key(x, t.last()));
        }
    } else {
        assert(insert_term(x, t) == t.push(x));
        assert(t.push(x).drop_last() =~= t);
        assert(t.push(x).last() == x);
    }
}

proof fn lemma_of_key_sort(s: Seq<TermView>, k: TermView)
    ensures
        of_key(sort_terms(s), k) == of_key(s, k),
    decreases s.len(),
{
    if s.len() > 0 {
        lemma_of_key_sort(s.drop_last(), k);
        lemma_of_key_insert(s.last(), sort_terms(s.drop_last()), k);
    }
}

/// A run that covers the whole sequence ends at its end.
proof fn lemma_run_end_all(t: Seq<TermView>, i: int)
    requires
        1 <= i <= t.len(),
        forall|m: int| 0 <= m < t.len() ==> same_key(#[trigger] t[m], t[0]),
    ensures
        run_end(t, i) == t.len(),
    decreases t.len() - i,
{
    if i < t.len() {
        assert(same_key(t[i], t[0]));
        lemma_run_end_all(t, i + 1);
    }
}

proof fn lemma_of_key_combine(t: Seq<TermView>, k: TermView)
    requires
        sorted(t),
    ensures
        of_key(combine(t), k) == combine(of_key(t, k)),
    decreases t.len(),
{
    if t.len() == 0 {
        assert(of_key(t, k) == t);
        return;
    }
    let n = run_end(t, 1);
    lemma_run_end(t, 1);
    lemma_run_keys(t, 1);
    lemma_after_run(t);
    let run = t.take(n);
    let u = t.skip(n);
    assert(t =~= run + u);
    lemma_of_key_concat(run, u, k);
    let f = fold_terms(run);
    lemma_fold_key(run);
    assert(sorted(u));
    let rest = combine(u);
    assert(seq![f].drop_last() =~= Seq::<TermView>::empty());
    assert(seq![f].last() == f);
    assert(of_key(Seq::<TermView>::empty(), k) == Seq::<TermView>::empty());
    assert(combine(Seq::<TermView>::empty()) == Seq::<TermView>::empty());
    if same_key(t[0], k) {
        assert forall|m: int| 0 <= m < run.len() implies same_key(#[trigger] run[m], k) by {
            if m > 0 {
                assert(same_key(t[m], t[0]));
            }
        }
        lemma_of_key_all(run, k);
        assert forall|m: int| 0 <= m < u.len() implies !same_key(#[trigger] u[m], k) by {
            assert(u[m] == t[m + n]);
        }
        lemma_of_key_none(u, k);
        lemma_combine_keys(u);
        assert forall|j: int| 0 <= j < rest.len() implies !same_key(#[trigger] rest[j], k) by {
            let i = choose|i: int| 0 <= i < u.len() && same_key(rest[j], u[i]);
            assert(!same_key(u[i], k));
        }
        lemma_of_key_none(rest, k);
        assert(of_key(t, k) =~= run);
        assert forall|m: int| 0 <= m < run.len() implies same_key(#[trigger] run[m], run[0]) by {
            if m > 0 {
                assert(same_key(t[m], t[0]));
            }
        }
        lemma_run_end_all(run, 1);
        assert(run.skip(n) =~= Seq::<TermView>::empty());
        assert(run.take(n) =~= run);
        lemma_of_key_concat(seq![f], rest, k);
        assert(of_key(seq![f], k) == seq![f]);
        assert(seq![f] + Seq::<TermView>::empty() =~= seq![f]);
    } else {
        assert forall|m: int| 0 <= m < run.len() implies !same_key(#[trigger] run[m], k) by {
            if m > 0 {
                assert(same_key(t[m], t[0]));
            }
        }
        lemma_of_key_none(run, k);
        assert(of_key(t, k) =~= of_key(u, k));
        lemma_of_key_combine(u, k);
        lemma_of_key_concat(seq![f], rest, k);
        assert(of_key(seq![f], k) == Seq::<TermView>::empty());
        assert(Seq::<TermView>::empty() + of_key(rest, k) =~= of_key(rest, k));
    }
}

/// Reduction treats each key apart: the reduced terms like `k` are what
/// combining the terms like `k` alone gives.
pub proof fn law_reduce_per_key(s: Seq<TermView>, k: TermView)
    ensures
        of_key(reduced(s), k) == combine(of_key(s, k)),
{
    lemma_sort_sorted(s);
    lemma_of_key_combine(sort_terms(s), k);
    lemma_of_key_sort(s, k);
}

/// A pair of terms that cancel leaves the terms of every other key as if
/// the pair were not there.
pub proof fn law_sign_cancellation_keeps_others(
    p: Seq<TermView>,
    m: Seq<TermView>,
    q: Seq<TermView>,
    a: TermView,
    b: TermView,
    k: TermView,
)
    requires
        same_key(a, b),
        !same_key(k, a),
    ensures
        of_key(reduced(p + seq![a] + m + seq![b] + q), k) == of_key(reduced(p + m + q), k),
{
    let one = seq![a];
    let two = seq![b];
    assert(one.drop_last() =~= Seq::<TermView>::empty());
    assert(two.drop_last() =~= Seq::<TermView>::empty());
    assert(one.last() == a);
    assert(two.last() == b);
    assert(of_key(Seq::<TermView>::empty(), k) == Seq::<TermView>::empty());
    assert(of_key(one, k) == Seq::<TermView>::empty());
    assert(of_key(two, k) == Seq::<TermView>::empty());
    lemma_of_key_concat(p, one, k);
    lemma_of_key_concat(p + one, m, k);
    lemma_of_key_concat(p + one + m, two, k);
    lemma_of_key_concat(p + one + m + two, q, k);
    lemma_of_key_concat(p, m, k);
    lemma_of_key_concat(p + m, q, k);
    assert(of_key(p, k) + Seq::<TermView>::empty() =~= of_key(p, k));
    assert(of_key(p + one + m, k) =~= of_key(p, k) + of_key(m, k));
    assert(of_key(p + one + m + two, k) =~= of_key(p, k) + of_key(m, k));
    law_reduce_per_key(p + one + m + two + q, k);
    law_reduce_per_key(p + m + q, k);
}
} // verus!
