//! Streaming and evaluating at once agree: for a query headed by a filter or
//! by an index access, running it over a stream of documents gives what
//! evaluating it against the array of those documents gives.

use crate::ast::Query;
use crate::grammar::index_range;
use crate::semantics::{broadcast, evaluate, filter, keep, run_from, select, EvalError, Outcome};
use crate::laws::law_pipeline_split;
use crate::stream::{
    apply_fusable, emitted, fused_from, lists, materializes, per_document, staged, stream, wanted,
};
use crate::value::Json;
use vstd::prelude::*;

verus! {

/// The results of `f` on each of the first `n` values; values without a
/// result are left out, and the first error ends it.
pub open spec fn each(xs: Seq<Json>, f: spec_fn(Json) -> Outcome, n: nat) -> Result<
    Seq<Json>,
    EvalError,
>
    decreases n,
{
    if n == 0 || n > xs.len() {
        Ok(Seq::empty())
    } else {
        match each(xs, f, (n - 1) as nat) {
            Err(e) => Err(e),
            Ok(ys) => match f(xs[n - 1]) {
                Err(e) => Err(e),
                Ok(None) => Ok(ys),
                Ok(Some(y)) => Ok(ys.push(y)),
            },
        }
    }
}

/// A sequence of results as the outcome of an evaluation: an array of them.
pub open spec fn as_array(r: Result<Seq<Json>, EvalError>) -> Outcome {
    match r {
        Ok(xs) => Ok(Some(Json::Array(xs))),
        Err(e) => Err(e),
    }
}

/// Whether each position is larger than the one before it.
pub open spec fn increasing(idxs: Seq<usize>) -> bool {
    forall|i: int, j: int| 0 <= i < j < idxs.len() ==> idxs[i] < idxs[j]
}

/// Whether every step from `i` on is a path or a filter.
pub open spec fn elementwise_from(steps: Seq<Query>, i: int) -> bool {
    forall|k: int| i <= k < steps.len() ==> ((#[trigger] steps[k]) is Keyword || steps[k] is Filter)
}

/// The results on the first `n` values depend on those values only.
proof fn lemma_each_prefix(xs: Seq<Json>, ys: Seq<Json>, f: spec_fn(Json) -> Outcome, n: nat)
    requires
        n <= xs.len(),
        n <= ys.len(),
        forall|i: int| 0 <= i < n ==> xs[i] == ys[i],
    ensures
        each(xs, f, n) == each(ys, f, n),
    decreases n,
{
    if n > 0 {
        lemma_each_prefix(xs, ys, f, (n - 1) as nat);
    }
}

/// A function that gives every value back gives the whole sequence back.
proof fn lemma_each_identity(xs: Seq<Json>, f: spec_fn(Json) -> Outcome, n: nat)
    requires
        n <= xs.len(),
        forall|v: Json| #[trigger] f(v) == Ok::<Option<Json>, EvalError>(Some(v)),
    ensures
        each(xs, f, n) == Ok::<Seq<Json>, EvalError>(xs.take(n as int)),
    decreases n,
{
    if n > 0 {
        lemma_each_identity(xs, f, (n - 1) as nat);
        assert(xs.take(n - 1).push(xs[n - 1]) =~= xs.take(n as int));
    } else {
        assert(xs.take(0) =~= Seq::<Json>::empty());
    }
}

/// Applying a node to each element is `each` of evaluating it.
proof fn lemma_broadcast_each(vs: Seq<Json>, q: Query, f: spec_fn(Json) -> Outcome, n: nat)
    requires
        forall|v: Json| #[trigger] f(v) == evaluate(v, q),
    ensures
        broadcast(vs, q, n) == each(vs, f, n),
    decreases n,
{
    if n > 0 && n <= vs.len() {
        lemma_broadcast_each(vs, q, f, (n - 1) as nat);
    }
}

/// Keeping what a filter keeps is `each` of applying the filter.
proof fn lemma_keep_each(
    vs: Seq<Json>,
    path: Query,
    op: Seq<char>,
    literal: Seq<char>,
    f: spec_fn(Json) -> Outcome,
    n: nat,
)
    requires
        forall|v: Json| #[trigger] f(v) == filter(v, path, op, literal),
    ensures
        keep(vs, path, op, literal, n) == each(vs, f, n),
    decreases n,
{
    if n > 0 && n <= vs.len() {
        lemma_keep_each(vs, path, op, literal, f, (n - 1) as nat);
    }
}

/// What a query that selects no positions emits is `each` of what it makes
/// of one document.
proof fn lemma_emitted_each(docs: Seq<Json>, q: Query, f: spec_fn(Json) -> Outcome, n: nat)
    requires
        wanted(q) is None,
        forall|v: Json| #[trigger] f(v) == per_document(v, q),
    ensures
        emitted(docs, q, n) == each(docs, f, n),
    decreases n,
{
    if n > 0 && n <= docs.len() {
        lemma_emitted_each(docs, q, f, (n - 1) as nat);
    }
}

/// With increasing positions, one more element is selected exactly when its
/// position is listed, and then it comes last.
proof fn lemma_select_push(vs: Seq<Json>, x: Json, idxs: Seq<usize>)
    requires
        increasing(idxs),
    ensures
        select(vs.push(x), idxs) == (if lists(idxs, vs.len()) {
            select(vs, idxs).push(x)
        } else {
            select(vs, idxs)
        }),
    decreases idxs.len(),
{
    if idxs.len() > 0 {
        let rest = idxs.drop_last();
        let j = idxs.last();
        assert(increasing(rest)) by {
            assert forall|a: int, b: int| 0 <= a < b < rest.len() implies rest[a] < rest[b] by {
                assert(idxs[a] < idxs[b]);
            }
        }
        lemma_select_push(vs, x, rest);
        assert forall|a: int| 0 <= a < rest.len() implies rest[a] < j by {
            assert(idxs[a] < idxs[idxs.len() - 1]);
        }
        if j < vs.len() {
            assert(!lists(rest, vs.len()));
            assert(!lists(idxs, vs.len())) by {
                if lists(idxs, vs.len()) {
                    let a = choose|a: int| 0 <= a < idxs.len() && idxs[a] == vs.len();
                    if a < rest.len() {
                        assert(rest[a] == idxs[a]);
                    }
                }
            }
            assert(vs.push(x)[j as int] == vs[j as int]);
        } else if j == vs.len() {
            assert(!lists(rest, vs.len()));
            assert(idxs[idxs.len() - 1] == vs.len());
            assert(lists(idxs, vs.len()));
            assert(vs.push(x)[j as int] == x);
        } else {
            assert(lists(idxs, vs.len()) == lists(rest, vs.len())) by {
                if lists(idxs, vs.len()) {
                    let a = choose|a: int| 0 <= a < idxs.len() && idxs[a] == vs.len();
                    assert(a < rest.len());
                    assert(rest[a] == vs.len());
                }
                if lists(rest, vs.len()) {
                    let a = choose|a: int| 0 <= a < rest.len() && rest[a] == vs.len();
                    assert(idxs[a] == vs.len());
                }
            }
        }
    } else {
        assert(!lists(idxs, vs.len()));
    }
}

/// What a query that selects increasing positions emits for the first `n`
/// documents is `each` of what it makes of the documents selected among them.
proof fn lemma_emitted_selected(
    docs: Seq<Json>,
    q: Query,
    idxs: Seq<usize>,
    f: spec_fn(Json) -> Outcome,
    n: nat,
)
    requires
        n <= docs.len(),
        wanted(q) == Some(idxs),
        increasing(idxs),
        forall|v: Json| #[trigger] f(v) == per_document(v, q),
    ensures
        emitted(docs, q, n) == each(
            select(docs.take(n as int), idxs),
            f,
            select(docs.take(n as int), idxs).len(),
        ),
    decreases n,
{
    if n == 0 {
        lemma_select_nothing(docs.take(0), idxs);
    } else {
        lemma_emitted_selected(docs, q, idxs, f, (n - 1) as nat);
        let before = docs.take(n - 1);
        let x = docs[n - 1];
        assert(before.push(x) =~= docs.take(n as int));
        lemma_select_push(before, x, idxs);
        let chosen = select(before, idxs);
        if lists(idxs, (n - 1) as nat) {
            lemma_each_prefix(chosen.push(x), chosen, f, chosen.len());
        }
    }
}

/// Nothing can be selected from no elements.
proof fn lemma_select_nothing(vs: Seq<Json>, idxs: Seq<usize>)
    requires
        vs.len() == 0,
    ensures
        select(vs, idxs) == Seq::<Json>::empty(),
    decreases idxs.len(),
{
    if idxs.len() > 0 {
        lemma_select_nothing(vs, idxs.drop_last());
    }
}

/// Where `h` is `f` and then `g`, and `h` works on each of the first `n`
/// values, `f` works on each of them too, and `g` on what `f` left gives what
/// `h` gave.
proof fn lemma_each_fuse(
    xs: Seq<Json>,
    f: spec_fn(Json) -> Outcome,
    g: spec_fn(Json) -> Outcome,
    h: spec_fn(Json) -> Outcome,
    n: nat,
)
    requires
        n <= xs.len(),
        each(xs, h, n) is Ok,
        forall|v: Json|
            #[trigger] h(v) == (match f(v) {
                Ok(Some(z)) => g(z),
                other => other,
            }),
    ensures
        each(xs, f, n) matches Ok(zs) && each(zs, g, zs.len()) == each(xs, h, n),
    decreases n,
{
    if n > 0 {
        lemma_each_fuse(xs, f, g, h, (n - 1) as nat);
        let zs = each(xs, f, (n - 1) as nat)->Ok_0;
        let x = xs[n - 1];
        assert(h(x) == (match f(x) {
            Ok(Some(z)) => g(z),
            other => other,
        }));
        match f(x) {
            Ok(Some(z)) => {
                lemma_each_prefix(zs.push(z), zs, g, zs.len());
            },
            _ => {},
        }
    }
}

/// A run of paths and filters over an array works element by element: where
/// taking each element through the steps works, the run gives the array of
/// what that gave.
proof fn lemma_run_elementwise(xs: Seq<Json>, steps: Seq<Query>, i: int, ys: Seq<Json>)
    requires
        0 <= i <= steps.len(),
        elementwise_from(steps, i),
        each(xs, |v: Json| fused_from(v, steps, i), xs.len()) == Ok::<Seq<Json>, EvalError>(ys),
    ensures
        run_from(Json::Array(xs), steps, i) == Ok::<Option<Json>, EvalError>(
            Some(Json::Array(ys)),
        ),
    decreases steps.len() - i,
{
    let h = |v: Json| fused_from(v, steps, i);
    if i == steps.len() {
        assert forall|v: Json| #[trigger] h(v) == Ok::<Option<Json>, EvalError>(Some(v)) by {}
        lemma_each_identity(xs, h, xs.len());
        assert(xs.take(xs.len() as int) =~= xs);
    } else {
        let s = steps[i];
        let f = |v: Json| apply_fusable(v, s);
        let g = |v: Json| fused_from(v, steps, i + 1);
        assert(s is Keyword || s is Filter);
        assert forall|v: Json|
            #[trigger] h(v) == (match f(v) {
                Ok(Some(z)) => g(z),
                other => other,
            }) by {}
        lemma_each_fuse(xs, f, g, h, xs.len());
        let zs = each(xs, f, xs.len())->Ok_0;
        assert(evaluate(Json::Array(xs), s) == Ok::<Option<Json>, EvalError>(
            Some(Json::Array(zs)),
        )) by {
            match s {
                Query::Keyword(_) => {
                    assert forall|v: Json| #[trigger] f(v) == evaluate(v, s) by {}
                    lemma_broadcast_each(xs, s, f, xs.len());
                },
                Query::Filter(path, op, literal) => {
                    assert forall|v: Json| #[trigger] f(v) == filter(v, *path, op, literal) by {}
                    lemma_keep_each(xs, *path, op, literal, f, xs.len());
                },
                _ => {},
            }
        }
        lemma_run_elementwise(zs, steps, i + 1, ys);
    }
}

/// A query that is one filter: evaluating it against the array of the
/// documents gives the array of what streaming it over them gives, and fails
/// where that fails.
pub proof fn law_stream_filter(docs: Seq<Json>, path: Query, op: Seq<char>, literal: Seq<char>)
    ensures
        evaluate(Json::Array(docs), Query::Filter(Box::new(path), op, literal)) == as_array(
            stream(docs, Query::Filter(Box::new(path), op, literal)),
        ),
{
    let q = Query::Filter(Box::new(path), op, literal);
    let f = |v: Json| per_document(v, q);
    assert forall|v: Json| #[trigger] f(v) == per_document(v, q) by {}
    assert forall|v: Json| #[trigger] f(v) == filter(v, path, op, literal) by {}
    lemma_emitted_each(docs, q, f, docs.len());
    lemma_keep_each(docs, path, op, literal, f, docs.len());
}

/// A query that is one index access with increasing positions: streaming it
/// over the documents gives the documents at the listed positions. That is
/// what evaluating it against the array of the documents gives: as an array
/// for any number of positions but one, and as the document itself, or no
/// result, for a single position.
pub proof fn law_stream_positions(docs: Seq<Json>, idxs: Seq<usize>)
    requires
        increasing(idxs),
    ensures
        stream(docs, Query::Index(idxs)) == Ok::<Seq<Json>, EvalError>(select(docs, idxs)),
        idxs.len() != 1 ==> evaluate(Json::Array(docs), Query::Index(idxs)) == as_array(
            stream(docs, Query::Index(idxs)),
        ),
        idxs.len() == 1 ==> evaluate(Json::Array(docs), Query::Index(idxs)) == (if idxs[0]
            < docs.len() {
            Ok::<Option<Json>, EvalError>(Some(docs[idxs[0] as int]))
        } else {
            Ok::<Option<Json>, EvalError>(None)
        }) && stream(docs, Query::Index(idxs)) == (if idxs[0] < docs.len() {
            Ok::<Seq<Json>, EvalError>(seq![docs[idxs[0] as int]])
        } else {
            Ok::<Seq<Json>, EvalError>(Seq::empty())
        }),
{
    let q = Query::Index(idxs);
    let f = |v: Json| per_document(v, q);
    assert forall|v: Json| #[trigger] f(v) == per_document(v, q) by {}
    assert forall|v: Json| #[trigger] f(v) == Ok::<Option<Json>, EvalError>(Some(v)) by {}
    lemma_emitted_selected(docs, q, idxs, f, docs.len());
    assert(docs.take(docs.len() as int) =~= docs);
    let chosen = select(docs, idxs);
    lemma_each_identity(chosen, f, chosen.len());
    assert(chosen.take(chosen.len() as int) =~= chosen);
    if idxs.len() == 1 {
        assert(idxs.drop_last().len() == 0);
        assert(select(docs, idxs.drop_last()) =~= Seq::<Json>::empty());
        assert(idxs.last() == idxs[0]);
        if idxs[0] < docs.len() {
            assert(chosen =~= seq![docs[idxs[0] as int]]);
        } else {
            assert(chosen =~= Seq::<Json>::empty());
        }
    }
}

/// What works on the first `n` values works on fewer of them.
proof fn lemma_each_shorter(xs: Seq<Json>, f: spec_fn(Json) -> Outcome, n: nat, m: nat)
    requires
        m <= n <= xs.len(),
        each(xs, f, n) is Ok,
    ensures
        each(xs, f, m) is Ok,
    decreases n,
{
    if m < n {
        lemma_each_shorter(xs, f, (n - 1) as nat, m);
    }
}

/// Where `h` is `f` and then `g`, `f` works on each of the first `n` values,
/// and `g` works on each of what `f` left, `h` gives what `g` gave.
proof fn lemma_each_unfuse(
    xs: Seq<Json>,
    f: spec_fn(Json) -> Outcome,
    g: spec_fn(Json) -> Outcome,
    h: spec_fn(Json) -> Outcome,
    n: nat,
)
    requires
        n <= xs.len(),
        each(xs, f, n) matches Ok(zs) && each(zs, g, zs.len()) is Ok,
        forall|v: Json|
            #[trigger] h(v) == (match f(v) {
                Ok(Some(z)) => g(z),
                other => other,
            }),
    ensures
        each(xs, f, n) matches Ok(zs) && each(xs, h, n) == each(zs, g, zs.len()),
    decreases n,
{
    if n > 0 {
        let zs = each(xs, f, n)->Ok_0;
        let before = each(xs, f, (n - 1) as nat)->Ok_0;
        let x = xs[n - 1];
        assert(h(x) == (match f(x) {
            Ok(Some(z)) => g(z),
            other => other,
        }));
        match f(x) {
            Ok(Some(z)) => {
                assert(zs == before.push(z));
                lemma_each_shorter(zs, g, zs.len(), before.len());
                lemma_each_prefix(zs, before, g, before.len());
                lemma_each_unfuse(xs, f, g, h, (n - 1) as nat);
            },
            _ => {
                assert(zs == before);
                lemma_each_unfuse(xs, f, g, h, (n - 1) as nat);
            },
        }
    }
}

/// A run of paths and filters over an array that gives a result gives the
/// array of what taking each element through the steps gives.
proof fn lemma_run_elementwise_back(
    xs: Seq<Json>,
    steps: Seq<Query>,
    i: int,
    r: Option<Json>,
)
    requires
        0 <= i <= steps.len(),
        elementwise_from(steps, i),
        run_from(Json::Array(xs), steps, i) == Ok::<Option<Json>, EvalError>(r),
    ensures
        r matches Some(Json::Array(ys)) && each(
            xs,
            |v: Json| fused_from(v, steps, i),
            xs.len(),
        ) == Ok::<Seq<Json>, EvalError>(ys),
    decreases steps.len() - i,
{
    let h = |v: Json| fused_from(v, steps, i);
    if i == steps.len() {
        assert forall|v: Json| #[trigger] h(v) == Ok::<Option<Json>, EvalError>(Some(v)) by {}
        lemma_each_identity(xs, h, xs.len());
        assert(xs.take(xs.len() as int) =~= xs);
    } else {
        let s = steps[i];
        let f = |v: Json| apply_fusable(v, s);
        let g = |v: Json| fused_from(v, steps, i + 1);
        assert(s is Keyword || s is Filter);
        assert forall|v: Json|
            #[trigger] h(v) == (match f(v) {
                Ok(Some(z)) => g(z),
                other => other,
            }) by {}
        assert(evaluate(Json::Array(xs), s) == as_array(each(xs, f, xs.len()))) by {
            match s {
                Query::Keyword(_) => {
                    assert forall|v: Json| #[trigger] f(v) == evaluate(v, s) by {}
                    lemma_broadcast_each(xs, s, f, xs.len());
                },
                Query::Filter(path, op, literal) => {
                    assert forall|v: Json| #[trigger] f(v) == filter(v, *path, op, literal) by {}
                    lemma_keep_each(xs, *path, op, literal, f, xs.len());
                },
                _ => {},
            }
        }
        let zs = each(xs, f, xs.len())->Ok_0;
        lemma_run_elementwise_back(zs, steps, i + 1, r);
        lemma_each_unfuse(xs, f, g, h, xs.len());
    }
}

/// A pipeline headed by a filter and made of paths and filters only:
/// evaluating it against the array of the documents gives the array of what
/// streaming it over them gives, and fails where, and only where, that fails.
pub proof fn law_stream_filter_pipeline(docs: Seq<Json>, steps: Seq<Query>)
    requires
        steps.len() > 0,
        steps[0] is Filter,
        elementwise_from(steps, 0),
    ensures
        stream(docs, Query::Pipeline(steps)) matches Ok(outs) ==> evaluate(
            Json::Array(docs),
            Query::Pipeline(steps),
        ) == Ok::<Option<Json>, EvalError>(Some(Json::Array(outs))),
        stream(docs, Query::Pipeline(steps)) is Err <==> evaluate(
            Json::Array(docs),
            Query::Pipeline(steps),
        ) is Err,
{
    let q = Query::Pipeline(steps);
    let f = |v: Json| fused_from(v, steps, 0);
    assert forall|v: Json| #[trigger] f(v) == per_document(v, q) by {}
    lemma_emitted_each(docs, q, f, docs.len());
    if let Ok(outs) = stream(docs, q) {
        lemma_run_elementwise(docs, steps, 0, outs);
    }
    if let Ok(r) = evaluate(Json::Array(docs), q) {
        lemma_run_elementwise_back(docs, steps, 0, r);
    }
}

/// A pipeline headed by an index access with increasing positions, not
/// exactly one of them, and made of paths and filters after it: evaluating it
/// against the array of the documents gives the array of what streaming it
/// over them gives, and fails where, and only where, that fails.
pub proof fn law_stream_positions_pipeline(docs: Seq<Json>, steps: Seq<Query>, idxs: Seq<usize>)
    requires
        steps.len() > 0,
        steps[0] == Query::Index(idxs),
        increasing(idxs),
        idxs.len() != 1,
        elementwise_from(steps, 1),
    ensures
        stream(docs, Query::Pipeline(steps)) matches Ok(outs) ==> evaluate(
            Json::Array(docs),
            Query::Pipeline(steps),
        ) == Ok::<Option<Json>, EvalError>(Some(Json::Array(outs))),
        stream(docs, Query::Pipeline(steps)) is Err <==> evaluate(
            Json::Array(docs),
            Query::Pipeline(steps),
        ) is Err,
{
    let q = Query::Pipeline(steps);
    let f = |v: Json| fused_from(v, steps, 1);
    assert forall|v: Json| #[trigger] f(v) == per_document(v, q) by {}
    lemma_emitted_selected(docs, q, idxs, f, docs.len());
    assert(docs.take(docs.len() as int) =~= docs);
    let chosen = select(docs, idxs);
    assert(evaluate(Json::Array(docs), steps[0]) == Ok::<Option<Json>, EvalError>(
        Some(Json::Array(chosen)),
    ));
    assert(run_from(Json::Array(docs), steps, 0) == run_from(Json::Array(chosen), steps, 1));
    if let Ok(outs) = stream(docs, q) {
        lemma_run_elementwise(chosen, steps, 1, outs);
    }
    if let Ok(r) = evaluate(Json::Array(docs), q) {
        lemma_run_elementwise_back(chosen, steps, 1, r);
    }
}

/// A pipeline of the first `k` steps is the pipeline of the steps before the
/// last of them, and then that step.
proof fn lemma_take_step(v: Json, steps: Seq<Query>, k: int)
    requires
        0 < k <= steps.len(),
    ensures
        evaluate(v, Query::Pipeline(steps.take(k))) == (match evaluate(
            v,
            Query::Pipeline(steps.take(k - 1)),
        ) {
            Ok(Some(z)) => evaluate(z, steps[k - 1]),
            other => other,
        }),
{
    let last = seq![steps[k - 1]];
    assert(steps.take(k - 1) + last =~= steps.take(k));
    law_pipeline_split(v, steps.take(k - 1), last);
    match evaluate(v, Query::Pipeline(steps.take(k - 1))) {
        Ok(Some(z)) => {
            assert(last[0] == steps[k - 1]);
            reveal_with_fuel(run_from, 2);
            assert(run_from(z, last, 0) == evaluate(z, steps[k - 1]));
        },
        _ => {},
    }
}

/// Taking all documents through the first `k` stages, one stage at a time,
/// gives what taking each document through those stages on its own gives,
/// where either of the two works.
proof fn lemma_staged_each(docs: Seq<Json>, steps: Seq<Query>, k: nat)
    requires
        k <= steps.len(),
        staged(docs, steps, k) is Ok || each(
            docs,
            |v: Json| evaluate(v, Query::Pipeline(steps.take(k as int))),
            docs.len(),
        ) is Ok,
    ensures
        staged(docs, steps, k) == each(
            docs,
            |v: Json| evaluate(v, Query::Pipeline(steps.take(k as int))),
            docs.len(),
        ),
    decreases k,
{
    let h = |v: Json| evaluate(v, Query::Pipeline(steps.take(k as int)));
    if k == 0 {
        assert forall|v: Json| #[trigger] h(v) == Ok::<Option<Json>, EvalError>(Some(v)) by {
            assert(steps.take(0).len() == 0);
        }
        lemma_each_identity(docs, h, docs.len());
        assert(docs.take(docs.len() as int) =~= docs);
    } else {
        let s = steps[k - 1];
        let f = |v: Json| evaluate(v, Query::Pipeline(steps.take(k - 1)));
        let g = |v: Json| evaluate(v, s);
        assert forall|v: Json|
            #[trigger] h(v) == (match f(v) {
                Ok(Some(z)) => g(z),
                other => other,
            }) by {
            lemma_take_step(v, steps, k as int);
        }
        if each(docs, h, docs.len()) is Ok {
            lemma_each_fuse(docs, f, g, h, docs.len());
            lemma_staged_each(docs, steps, (k - 1) as nat);
            let zs = each(docs, f, docs.len())->Ok_0;
            assert forall|v: Json| #[trigger] g(v) == evaluate(v, s) by {}
            lemma_broadcast_each(zs, s, g, zs.len());
        } else {
            lemma_staged_each(docs, steps, (k - 1) as nat);
            let zs = staged(docs, steps, (k - 1) as nat)->Ok_0;
            assert forall|v: Json| #[trigger] g(v) == evaluate(v, s) by {}
            lemma_broadcast_each(zs, s, g, zs.len());
            lemma_each_unfuse(docs, f, g, h, docs.len());
        }
    }
}

/// A pipeline that is applied stage by stage to the whole input gives what
/// evaluating it against each document on its own gives, in the order of the
/// documents and without those that gave no result, where either of the two
/// works; and where one of the two fails, so does the other.
pub proof fn law_staged_is_documentwise(docs: Seq<Json>, steps: Seq<Query>)
    requires
        materializes(Query::Pipeline(steps)),
    ensures
        (stream(docs, Query::Pipeline(steps)) is Ok || each(
            docs,
            |v: Json| evaluate(v, Query::Pipeline(steps)),
            docs.len(),
        ) is Ok) ==> stream(docs, Query::Pipeline(steps)) == each(
            docs,
            |v: Json| evaluate(v, Query::Pipeline(steps)),
            docs.len(),
        ),
{
    let whole = |v: Json| evaluate(v, Query::Pipeline(steps));
    let taken = |v: Json| evaluate(v, Query::Pipeline(steps.take(steps.len() as int)));
    assert(steps.take(steps.len() as int) =~= steps);
    assert forall|v: Json| #[trigger] whole(v) == taken(v) by {}
    lemma_each_same(docs, whole, taken, docs.len());
    if stream(docs, Query::Pipeline(steps)) is Ok || each(docs, whole, docs.len()) is Ok {
        lemma_staged_each(docs, steps, steps.len());
    }
}

/// Functions that agree on every value give the same on each of them.
proof fn lemma_each_same(
    xs: Seq<Json>,
    f: spec_fn(Json) -> Outcome,
    g: spec_fn(Json) -> Outcome,
    n: nat,
)
    requires
        forall|v: Json| #[trigger] f(v) == g(v),
    ensures
        each(xs, f, n) == each(xs, g, n),
    decreases n,
{
    if n > 0 && n <= xs.len() {
        lemma_each_same(xs, f, g, (n - 1) as nat);
    }
}

/// A range whose start is not before its end lists no position, so a query
/// headed by it selects nothing: not from a stream, and not from an array.
pub proof fn law_empty_range(from: usize, to: usize, docs: Seq<Json>)
    requires
        from >= to,
    ensures
        index_range(from, to) == Seq::<usize>::empty(),
        stream(docs, Query::Index(index_range(from, to))) == Ok::<Seq<Json>, EvalError>(
            Seq::empty(),
        ),
        evaluate(Json::Array(docs), Query::Index(index_range(from, to))) == Ok::<
            Option<Json>,
            EvalError,
        >(Some(Json::Array(Seq::empty()))),
{
    let idxs = index_range(from, to);
    assert(idxs =~= Seq::<usize>::empty());
    assert(increasing(idxs));
    law_stream_positions(docs, idxs);
    assert(select(docs, idxs) =~= Seq::<Json>::empty());
}

} // verus!
