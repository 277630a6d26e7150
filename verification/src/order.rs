//! The order of numbers by value, and what it makes of the aggregates: the
//! least is below all, the greatest above all, and sorting gives the same
//! numbers in ascending order.

use crate::aggregate::{ascending, greatest, least, placed};
use crate::number::{lemma_pow10_positive, pow10, Comparison, Decimal, Number};
use crate::semantics::compare_integers;
use vstd::prelude::*;
use vstd::seq_lib::to_multiset_insert;

verus! {

/// Whether `a` is not above `b`.
pub open spec fn at_most(a: Number, b: Number) -> bool {
    a.compare_spec(b) != Comparison::Greater
}

/// Whether no number comes before a number that is below it.
pub open spec fn ordered(s: Seq<Number>) -> bool {
    forall|i: int, j: int| 0 <= i < j < s.len() ==> at_most(s[i], s[j])
}

/// The position at which a number is put into ordered numbers: before the
/// numbers at the end that are above it.
pub open spec fn spot(sorted: Seq<Number>, x: Number) -> int
    decreases sorted.len(),
{
    if sorted.len() == 0 {
        0
    } else if x.compare_spec(sorted.last()) == Comparison::Less {
        spot(sorted.drop_last(), x)
    } else {
        sorted.len() as int
    }
}

/// Ten to a sum is the product of the powers.
pub proof fn lemma_pow10_add(a: nat, b: nat)
    ensures
        pow10(a + b) == pow10(a) * pow10(b),
    decreases a,
{
    if a == 0 {
        assert(pow10(0) == 1);
        assert(pow10(a) * pow10(b) == pow10(b)) by (nonlinear_arith)
            requires
                pow10(a) == 1,
        ;
    } else {
        lemma_pow10_add((a - 1) as nat, b);
        assert(pow10(a + b) == 10 * pow10((a + b - 1) as nat));
        assert(10 * (pow10((a - 1) as nat) * pow10(b)) == (10 * pow10((a - 1) as nat)) * pow10(b))
            by (nonlinear_arith);
    }
}

/// A decimal scaled to a lower base is the decimal scaled to a higher one,
/// times the power of ten between the two.
proof fn lemma_rescale(d: Decimal, high: int, low: int)
    requires
        low <= high <= d.exponent,
    ensures
        d.scaled(low) == d.scaled(high) * pow10((high - low) as nat),
{
    let up = (d.exponent - high) as nat;
    let step = (high - low) as nat;
    lemma_pow10_add(up, step);
    assert((d.exponent - low) as nat == up + step);
    assert(d.signed() * (pow10(up) * pow10(step)) == (d.signed() * pow10(up)) * pow10(step))
        by (nonlinear_arith);
}

/// Two decimals compare as the integers that they are at any base that is
/// not above either exponent.
pub proof fn lemma_compare_at(a: Decimal, b: Decimal, base: int)
    requires
        base <= a.exponent,
        base <= b.exponent,
    ensures
        a.compare_spec(b) == compare_integers(a.scaled(base), b.scaled(base)),
{
    let high = if a.exponent <= b.exponent {
        a.exponent as int
    } else {
        b.exponent as int
    };
    lemma_rescale(a, high, base);
    lemma_rescale(b, high, base);
    let p = pow10((high - base) as nat) as int;
    lemma_pow10_positive((high - base) as nat);
    let x = a.scaled(high);
    let y = b.scaled(high);
    assert(x < y <==> x * p < y * p) by (nonlinear_arith)
        requires
            p >= 1,
    ;
    assert(x == y <==> x * p == y * p) by (nonlinear_arith)
        requires
            p >= 1,
    ;
}

/// What is not above a number that is not above a third is not above the
/// third.
pub proof fn lemma_at_most_transitive(a: Number, b: Number, c: Number)
    requires
        at_most(a, b),
        at_most(b, c),
    ensures
        at_most(a, c),
{
    let x = a.as_decimal();
    let y = b.as_decimal();
    let z = c.as_decimal();
    let low = if x.exponent <= y.exponent && x.exponent <= z.exponent {
        x.exponent as int
    } else if y.exponent <= z.exponent {
        y.exponent as int
    } else {
        z.exponent as int
    };
    lemma_compare_at(x, y, low);
    lemma_compare_at(y, z, low);
    lemma_compare_at(x, z, low);
}

/// Of two numbers, one is not above the other.
pub proof fn lemma_at_most_total(a: Number, b: Number)
    ensures
        at_most(a, b) || at_most(b, a),
        a.compare_spec(b) != Comparison::Less ==> at_most(b, a),
{
}

/// The position at which a number is put in: every number from there on is
/// above it, and the one before is not.
proof fn lemma_spot(sorted: Seq<Number>, x: Number)
    ensures
        0 <= spot(sorted, x) <= sorted.len(),
        forall|k: int|
            spot(sorted, x) <= k < sorted.len() ==> x.compare_spec(sorted[k]) == Comparison::Less,
        spot(sorted, x) > 0 ==> x.compare_spec(sorted[spot(sorted, x) - 1]) != Comparison::Less,
        placed(sorted, x) == sorted.insert(spot(sorted, x), x),
    decreases sorted.len(),
{
    if sorted.len() == 0 {
        assert(seq![x] =~= sorted.insert(0, x));
    } else if x.compare_spec(sorted.last()) == Comparison::Less {
        let rest = sorted.drop_last();
        lemma_spot(rest, x);
        let p = spot(rest, x);
        assert forall|k: int| p <= k < sorted.len() implies x.compare_spec(sorted[k])
            == Comparison::Less by {
            if k < rest.len() {
                assert(sorted[k] == rest[k]);
            }
        }
        if p > 0 {
            assert(sorted[p - 1] == rest[p - 1]);
        }
        assert(rest.insert(p, x).push(sorted.last()) =~= sorted.insert(p, x));
    } else {
        assert(sorted.push(x) =~= sorted.insert(sorted.len() as int, x));
    }
}

/// Putting a number into ordered numbers leaves them ordered.
proof fn lemma_placed_ordered(sorted: Seq<Number>, x: Number)
    requires
        ordered(sorted),
    ensures
        ordered(placed(sorted, x)),
{
    lemma_spot(sorted, x);
    let p = spot(sorted, x);
    let out = sorted.insert(p, x);
    assert forall|i: int, j: int| 0 <= i < j < out.len() implies at_most(out[i], out[j]) by {
        if j < p {
            assert(out[i] == sorted[i] && out[j] == sorted[j]);
        } else if j == p {
            assert(out[i] == sorted[i]);
            lemma_at_most_total(x, sorted[p - 1]);
            if i < p - 1 {
                assert(at_most(sorted[i], sorted[p - 1]));
            }
            lemma_at_most_transitive(sorted[i], sorted[p - 1], x);
        } else if i < p {
            assert(out[i] == sorted[i] && out[j] == sorted[j - 1]);
            if i < j - 1 {
                assert(at_most(sorted[i], sorted[j - 1]));
            }
        } else if i == p {
            assert(out[j] == sorted[j - 1]);
        } else {
            assert(out[i] == sorted[i - 1] && out[j] == sorted[j - 1]);
        }
    }
}

/// Sorting gives numbers in ascending order: none comes before a number
/// that is below it.
pub proof fn law_sort_is_ordered(ns: Seq<Number>)
    ensures
        ordered(ascending(ns)),
    decreases ns.len(),
{
    if ns.len() > 0 {
        law_sort_is_ordered(ns.drop_last());
        lemma_placed_ordered(ascending(ns.drop_last()), ns.last());
    }
}

/// Sorting gives the same numbers, each as often as it was there.
pub proof fn law_sort_keeps_numbers(ns: Seq<Number>)
    ensures
        ascending(ns).to_multiset() == ns.to_multiset(),
        ascending(ns).len() == ns.len(),
    decreases ns.len(),
{
    broadcast use vstd::seq_lib::group_to_multiset_ensures;

    if ns.len() > 0 {
        let rest = ns.drop_last();
        law_sort_keeps_numbers(rest);
        lemma_spot(ascending(rest), ns.last());
        to_multiset_insert(ascending(rest), spot(ascending(rest), ns.last()), ns.last());
        assert(rest.push(ns.last()) =~= ns);
    } else {
        assert(ascending(ns) =~= ns);
    }
}

/// Whether a number has the same value as `x`.
pub open spec fn same_as(x: Number) -> spec_fn(Number) -> bool {
    |y: Number| y.compare_spec(x) == Comparison::Equal
}

/// Two numbers with the value of a third have the same value.
proof fn lemma_equal_values(a: Number, b: Number, c: Number)
    requires
        a.compare_spec(c) == Comparison::Equal,
        b.compare_spec(c) == Comparison::Equal,
    ensures
        a.compare_spec(b) == Comparison::Equal,
{
    let x = a.as_decimal();
    let y = b.as_decimal();
    let z = c.as_decimal();
    let low = if x.exponent <= y.exponent && x.exponent <= z.exponent {
        x.exponent as int
    } else if y.exponent <= z.exponent {
        y.exponent as int
    } else {
        z.exponent as int
    };
    lemma_compare_at(x, z, low);
    lemma_compare_at(y, z, low);
    lemma_compare_at(x, y, low);
}

/// Putting a number in leaves the numbers with the value of `x` as they
/// were, with the number after them where it has that value itself.
proof fn lemma_placed_among_equals(sorted: Seq<Number>, y: Number, x: Number)
    ensures
        placed(sorted, y).filter(same_as(x)) == (if same_as(x)(y) {
            sorted.filter(same_as(x)).push(y)
        } else {
            sorted.filter(same_as(x))
        }),
    decreases sorted.len(),
{
    let p = same_as(x);
    if sorted.len() == 0 {
        let one = seq![y];
        assert(one.drop_last() =~= sorted);
        assert(one.last() == y);
        lemma_filter_last(one, p);
        assert(sorted.filter(p) =~= sorted);
    } else if y.compare_spec(sorted.last()) == Comparison::Less {
        let rest = sorted.drop_last();
        let last = sorted.last();
        let out = placed(rest, y).push(last);
        lemma_placed_among_equals(rest, y, x);
        assert(out.drop_last() =~= placed(rest, y));
        assert(out.last() == last);
        lemma_filter_last(out, p);
        lemma_filter_last(sorted, p);
        if p(y) && p(last) {
            lemma_equal_values(y, last, x);
        }
    } else {
        let out = sorted.push(y);
        assert(out.drop_last() =~= sorted);
        assert(out.last() == y);
        lemma_filter_last(out, p);
    }
}

/// What is kept of a sequence that is not empty is what is kept of all but
/// its last element, and that element where it is kept.
proof fn lemma_filter_last(s: Seq<Number>, p: spec_fn(Number) -> bool)
    requires
        s.len() > 0,
    ensures
        s.filter(p) == (if p(s.last()) {
            s.drop_last().filter(p).push(s.last())
        } else {
            s.drop_last().filter(p)
        }),
{
    reveal(Seq::filter);
}

/// Sorting is stable: the numbers of any one value come out in the order in
/// which they went in.
pub proof fn law_sort_is_stable(ns: Seq<Number>, x: Number)
    ensures
        ascending(ns).filter(same_as(x)) == ns.filter(same_as(x)),
    decreases ns.len(),
{
    if ns.len() > 0 {
        law_sort_is_stable(ns.drop_last(), x);
        lemma_placed_among_equals(ascending(ns.drop_last()), ns.last(), x);
        lemma_filter_last(ns, same_as(x));
    } else {
        assert(ascending(ns) =~= ns);
    }
}

/// The least of the numbers is one of them and not above any of them.
pub proof fn law_least(ns: Seq<Number>)
    requires
        ns.len() > 0,
    ensures
        least(ns) matches Some(m) && (exists|i: int| 0 <= i < ns.len() && ns[i] == m)
            && forall|i: int| 0 <= i < ns.len() ==> at_most(m, #[trigger] ns[i]),
    decreases ns.len(),
{
    let rest = ns.drop_last();
    let x = ns.last();
    if rest.len() == 0 {
        assert(ns[0] == x);
        lemma_at_most_total(x, x);
    } else {
        law_least(rest);
        let before = least(rest)->0;
        let m = least(ns)->0;
        let at = choose|i: int| 0 <= i < rest.len() && rest[i] == before;
        assert(ns[at] == before);
        lemma_at_most_total(x, before);
        assert forall|i: int| 0 <= i < ns.len() implies at_most(m, #[trigger] ns[i]) by {
            if i < rest.len() {
                assert(ns[i] == rest[i]);
                assert(at_most(before, rest[i]));
                lemma_at_most_transitive(m, before, ns[i]);
            } else {
                lemma_at_most_total(x, x);
            }
        }
        if m == x {
            assert(ns[ns.len() - 1] == m);
        }
    }
}

/// The greatest of the numbers is one of them and not below any of them.
pub proof fn law_greatest(ns: Seq<Number>)
    requires
        ns.len() > 0,
    ensures
        greatest(ns) matches Some(m) && (exists|i: int| 0 <= i < ns.len() && ns[i] == m)
            && forall|i: int| 0 <= i < ns.len() ==> at_most(#[trigger] ns[i], m),
    decreases ns.len(),
{
    let rest = ns.drop_last();
    let x = ns.last();
    if rest.len() == 0 {
        assert(ns[0] == x);
        lemma_at_most_total(x, x);
    } else {
        law_greatest(rest);
        let before = greatest(rest)->0;
        let m = greatest(ns)->0;
        let at = choose|i: int| 0 <= i < rest.len() && rest[i] == before;
        assert(ns[at] == before);
        lemma_at_most_total(before, x);
        assert forall|i: int| 0 <= i < ns.len() implies at_most(#[trigger] ns[i], m) by {
            if i < rest.len() {
                assert(ns[i] == rest[i]);
                assert(at_most(rest[i], before));
                lemma_at_most_transitive(ns[i], before, m);
            } else {
                lemma_at_most_total(x, x);
            }
        }
        if m == x {
            assert(ns[ns.len() - 1] == m);
        }
    }
}

} // verus!
