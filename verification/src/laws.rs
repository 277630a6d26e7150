//! Laws of evaluation: what holds of every document and every query.

use crate::ast::Query;
use crate::number::Number;
use crate::semantics::{
    evaluate, filter, keep, keys_of, run_from, select, values_of, EvalError, Outcome,
};
use crate::value::Json;
use vstd::prelude::*;

verus! {

/// The outcome `first` followed by the steps `rest`: the steps are applied to
/// the value that `first` gave, and no result or an error is passed on.
pub open spec fn and_then(first: Outcome, rest: Seq<Query>) -> Outcome {
    match first {
        Ok(Some(v)) => evaluate(v, Query::Pipeline(rest)),
        other => other,
    }
}

/// Positions that all lie within an array select exactly the elements at
/// those positions, in listed order and with duplicates kept.
pub proof fn lemma_select_in_range(vs: Seq<Json>, idxs: Seq<usize>)
    requires
        forall|i: int| 0 <= i < idxs.len() ==> idxs[i] < vs.len(),
    ensures
        select(vs, idxs) == Seq::new(idxs.len(), |i: int| vs[idxs[i] as int]),
    decreases idxs.len(),
{
    if idxs.len() == 0 {
        assert(select(vs, idxs) =~= Seq::new(idxs.len(), |i: int| vs[idxs[i] as int]));
    } else {
        lemma_select_in_range(vs, idxs.drop_last());
        assert(select(vs, idxs) =~= Seq::new(idxs.len(), |i: int| vs[idxs[i] as int]));
    }
}

/// Index access on an array, with every position within the array: a single
/// position gives that element, and any other list gives the array of the
/// elements at the listed positions, in listed order, duplicates kept.
pub proof fn law_index_access(vs: Seq<Json>, idxs: Seq<usize>)
    requires
        forall|i: int| 0 <= i < idxs.len() ==> idxs[i] < vs.len(),
    ensures
        idxs.len() == 1 ==> evaluate(Json::Array(vs), Query::Index(idxs)) == Ok::<
            Option<Json>,
            EvalError,
        >(Some(vs[idxs[0] as int])),
        idxs.len() != 1 ==> evaluate(Json::Array(vs), Query::Index(idxs)) == Ok::<
            Option<Json>,
            EvalError,
        >(Some(Json::Array(Seq::new(idxs.len(), |i: int| vs[idxs[i] as int])))),
{
    lemma_select_in_range(vs, idxs);
}

/// The keys and the values of an object come out in the order of its
/// entries, and a count is the number of elements or entries.
pub proof fn law_introspection(vs: Seq<Json>, es: Seq<(Seq<char>, Json)>)
    ensures
        evaluate(Json::Object(es), Query::ListKeys) matches Ok(Some(Json::Array(ks)))
            && ks.len() == es.len() && forall|i: int|
            0 <= i < es.len() ==> ks[i] == Json::String(es[i].0),
        evaluate(Json::Object(es), Query::ListValues) matches Ok(Some(Json::Array(xs)))
            && xs.len() == es.len() && forall|i: int| 0 <= i < es.len() ==> xs[i] == es[i].1,
        es.len() <= i64::MAX ==> evaluate(Json::Object(es), Query::Count) == Ok::<
            Option<Json>,
            EvalError,
        >(Some(Json::Number(Number::Integral(es.len() as i64)))),
        vs.len() <= i64::MAX ==> evaluate(Json::Array(vs), Query::Count) == Ok::<
            Option<Json>,
            EvalError,
        >(Some(Json::Number(Number::Integral(vs.len() as i64)))),
{
    assert(keys_of(es).len() == es.len());
    assert(values_of(es).len() == es.len());
}

/// A filter applied to a candidate gives no result or the candidate itself,
/// unchanged, unless resolving its path fails.
pub proof fn law_filter_candidate(
    candidate: Json,
    path: Query,
    op: Seq<char>,
    literal: Seq<char>,
)
    ensures
        filter(candidate, path, op, literal) matches Ok(Some(kept)) ==> kept == candidate,
{
}

/// Evaluating a filter against anything but an array gives no result or the
/// input itself, unchanged, unless resolving its path fails.
pub proof fn law_filter_keeps_input(v: Json, path: Query, op: Seq<char>, literal: Seq<char>)
    requires
        !(v is Array),
    ensures
        evaluate(v, Query::Filter(Box::new(path), op, literal)) matches Ok(Some(kept)) ==> kept
            == v,
{
}

/// What a filter keeps of the first `n` elements are elements among them,
/// unchanged and in their order.
pub proof fn lemma_keep_elements(
    vs: Seq<Json>,
    path: Query,
    op: Seq<char>,
    literal: Seq<char>,
    n: nat,
)
    requires
        n <= vs.len(),
    ensures
        keep(vs, path, op, literal, n) matches Ok(xs) ==> xs.len() <= n && forall|i: int|
            0 <= i < xs.len() ==> exists|j: int| i <= j < n && #[trigger] xs[i] == vs[j],
    decreases n,
{
    if n > 0 {
        lemma_keep_elements(vs, path, op, literal, (n - 1) as nat);
        if let Ok(xs) = keep(vs, path, op, literal, n) {
            let before = keep(vs, path, op, literal, (n - 1) as nat)->Ok_0;
            match filter(vs[n - 1], path, op, literal) {
                Ok(Some(x)) => {
                    assert(x == vs[n - 1]);
                    assert(xs == before.push(x));
                },
                _ => {
                    assert(xs == before);
                },
            }
            assert forall|i: int| 0 <= i < xs.len() implies exists|j: int|
                i <= j < n && #[trigger] xs[i] == vs[j] by {
                if i < before.len() {
                    let j = choose|j: int| i <= j < n - 1 && before[i] == vs[j];
                    assert(xs[i] == vs[j]);
                } else {
                    assert(xs[i] == vs[n - 1]);
                }
            }
        }
    }
}

/// Evaluating a filter against an array gives an array whose elements are
/// elements of the input, unchanged and in their order.
pub proof fn law_filter_on_array(vs: Seq<Json>, path: Query, op: Seq<char>, literal: Seq<char>)
    ensures
        evaluate(Json::Array(vs), Query::Filter(Box::new(path), op, literal)) matches Ok(
            Some(r),
        ) ==> r matches Json::Array(xs) && xs.len() <= vs.len() && forall|i: int|
            0 <= i < xs.len() ==> exists|j: int| i <= j < vs.len() && #[trigger] xs[i] == vs[j],
{
    lemma_keep_elements(vs, path, op, literal, vs.len());
}

/// Past the steps `xs`, running `xs + ys` is running `ys`.
proof fn lemma_run_suffix(v: Json, xs: Seq<Query>, ys: Seq<Query>, j: int)
    requires
        0 <= j <= ys.len(),
    ensures
        run_from(v, xs + ys, xs.len() + j) == run_from(v, ys, j),
    decreases ys.len() - j,
{
    if j < ys.len() {
        assert((xs + ys)[xs.len() + j] == ys[j]);
        match evaluate(v, ys[j]) {
            Ok(Some(next)) => {
                lemma_run_suffix(next, xs, ys, j + 1);
            },
            _ => {},
        }
    }
}

/// Running `xs + ys` from a step of `xs` is running `xs` from there and then
/// `ys` on the value it gives.
proof fn lemma_run_split(v: Json, xs: Seq<Query>, ys: Seq<Query>, i: int)
    requires
        0 <= i <= xs.len(),
    ensures
        run_from(v, xs + ys, i) == and_then(run_from(v, xs, i), ys),
    decreases xs.len() - i,
{
    if i < xs.len() {
        assert((xs + ys)[i] == xs[i]);
        match evaluate(v, xs[i]) {
            Ok(Some(next)) => {
                lemma_run_split(next, xs, ys, i + 1);
            },
            _ => {},
        }
    } else {
        lemma_run_suffix(v, xs, ys, 0);
    }
}

/// A pipeline may be split at any point: evaluating `xs + ys` is evaluating
/// `xs` and then, where that gave a value, `ys` against that value.
pub proof fn law_pipeline_split(v: Json, xs: Seq<Query>, ys: Seq<Query>)
    ensures
        evaluate(v, Query::Pipeline(xs + ys)) == and_then(evaluate(v, Query::Pipeline(xs)), ys),
{
    lemma_run_split(v, xs, ys, 0);
}

/// A pipeline of two steps is the first step and then, where that gave a
/// value, the second step against that value.
pub proof fn law_pipeline_of_two(v: Json, a: Query, b: Query)
    ensures
        evaluate(v, Query::Pipeline(seq![a, b])) == (match evaluate(v, a) {
            Ok(Some(next)) => evaluate(next, b),
            other => other,
        }),
{
    let steps = seq![a, b];
    assert(steps[0] == a && steps[1] == b);
    reveal_with_fuel(run_from, 3);
    match evaluate(v, a) {
        Ok(Some(next)) => {
            assert(run_from(next, steps, 1) == (match evaluate(next, b) {
                Ok(Some(last)) => run_from(last, steps, 2),
                other => other,
            }));
        },
        _ => {},
    }
}

/// A value that is no array and no object passes through every node
/// unchanged.
pub proof fn law_scalar_passes(v: Json, q: Query)
    requires
        v.is_scalar(),
    ensures
        evaluate(v, q) == Ok::<Option<Json>, EvalError>(Some(v)),
    decreases q,
{
    if let Query::Pipeline(steps) = q {
        lemma_scalar_runs(v, steps, 0);
    }
}

/// A value that is no array and no object passes through every run of steps
/// unchanged.
proof fn lemma_scalar_runs(v: Json, steps: Seq<Query>, i: int)
    requires
        v.is_scalar(),
        0 <= i <= steps.len(),
    ensures
        run_from(v, steps, i) == Ok::<Option<Json>, EvalError>(Some(v)),
    decreases steps, steps.len() - i,
{
    if i < steps.len() {
        law_scalar_passes(v, steps[i]);
        lemma_scalar_runs(v, steps, i + 1);
    }
}

} // verus!
