//! The streaming executor: applies a query across a sequence of documents,
//! one document at a time where the query allows it.

use crate::ast::{models, Query, QueryCmd};
use crate::eval::{apply_filter, eval, eval_each, filtered, listed, outcome, run_steps};
use crate::semantics::{broadcast, evaluate, run_from, EvalError, Outcome};
use crate::value::{items, Json, Value};
use std::collections::HashSet;
use vstd::prelude::*;

verus! {

/// Whether a node can be applied to the documents of a stream one by one,
/// between a selection and what follows, without collecting them.
pub open spec fn fusable(q: Query) -> bool {
    q is Filter || q is Keyword || q is Object
}

/// A fusable node applied to one document; any other node gives no result.
pub open spec fn apply_fusable(v: Json, q: Query) -> Outcome {
    match q {
        Query::Filter(_, _, _) => filtered(v, q),
        Query::Keyword(_) => evaluate(v, q),
        Query::Object(_) => evaluate(v, q),
        _ => Ok(None),
    }
}

/// The document `v` taken through the steps from `i` on: the leading run of
/// fusable steps is applied step by step, and what is left after it is
/// evaluated as one pipeline.
pub open spec fn fused_from(v: Json, steps: Seq<Query>, i: int) -> Outcome
    decreases steps.len() - i,
{
    if 0 <= i < steps.len() && fusable(steps[i]) {
        match apply_fusable(v, steps[i]) {
            Ok(Some(next)) => fused_from(next, steps, i + 1),
            other => other,
        }
    } else {
        run_from(v, steps, i)
    }
}

/// The stream positions that a query selects, where it selects by position:
/// those of a leading index access.
pub open spec fn wanted(q: Query) -> Option<Seq<usize>> {
    match q {
        Query::Index(idxs) => Some(idxs),
        Query::Pipeline(steps) => if steps.len() > 0 && steps[0] is Index {
            Some(steps[0]->Index_0)
        } else {
            None
        },
        _ => None,
    }
}

/// Whether a query is a pipeline that is headed neither by an index access
/// nor by a filter: such a pipeline is applied stage by stage to the whole
/// input.
pub open spec fn materializes(q: Query) -> bool {
    q matches Query::Pipeline(steps) && steps.len() > 0 && !(steps[0] is Index) && !(steps[0]
        is Filter)
}

/// What a query makes of one document that it has selected.
pub open spec fn per_document(v: Json, q: Query) -> Outcome {
    match q {
        Query::Index(_) => Ok(Some(v)),
        Query::Filter(_, _, _) => filtered(v, q),
        Query::Pipeline(steps) => if steps.len() > 0 && steps[0] is Index {
            fused_from(v, steps, 1)
        } else if steps.len() > 0 && steps[0] is Filter {
            fused_from(v, steps, 0)
        } else {
            evaluate(v, q)
        },
        _ => evaluate(v, q),
    }
}

/// Whether `p` is one of the positions.
pub open spec fn lists(idxs: Seq<usize>, p: nat) -> bool {
    exists|i: int| 0 <= i < idxs.len() && idxs[i] == p
}

/// Whether every one of the positions lies before `n`.
pub open spec fn all_before(idxs: Seq<usize>, n: nat) -> bool {
    forall|i: int| 0 <= i < idxs.len() ==> idxs[i] < n
}

/// What a query emits for the document at stream position `p`.
pub open spec fn emits(q: Query, p: nat, v: Json) -> Outcome {
    match wanted(q) {
        Some(idxs) => if lists(idxs, p) {
            per_document(v, q)
        } else {
            Ok(None)
        },
        None => per_document(v, q),
    }
}

/// What a query emits for the first `n` documents, in their order; the first
/// error ends it.
pub open spec fn emitted(docs: Seq<Json>, q: Query, n: nat) -> Result<Seq<Json>, EvalError>
    decreases n,
{
    if n == 0 || n > docs.len() {
        Ok(Seq::empty())
    } else {
        match emitted(docs, q, (n - 1) as nat) {
            Err(e) => Err(e),
            Ok(xs) => match emits(q, (n - 1) as nat, docs[n - 1]) {
                Err(e) => Err(e),
                Ok(None) => Ok(xs),
                Ok(Some(x)) => Ok(xs.push(x)),
            },
        }
    }
}

/// The documents after the first `k` stages, each stage applied to all that
/// the stage before left; the first error ends it.
pub open spec fn staged(docs: Seq<Json>, steps: Seq<Query>, k: nat) -> Result<
    Seq<Json>,
    EvalError,
>
    decreases k,
{
    if k == 0 || k > steps.len() {
        Ok(docs)
    } else {
        match staged(docs, steps, (k - 1) as nat) {
            Err(e) => Err(e),
            Ok(xs) => broadcast(xs, steps[k - 1], xs.len()),
        }
    }
}

/// The results of a query over a whole stream of documents, in the order of
/// the documents.
pub open spec fn stream(docs: Seq<Json>, q: Query) -> Result<Seq<Json>, EvalError> {
    if materializes(q) {
        staged(docs, q->Pipeline_0, q->Pipeline_0.len())
    } else {
        emitted(docs, q, docs.len())
    }
}

/// Whether a node can be applied to the documents of a stream one by one.
pub fn can_apply_consecutive(cmd: &QueryCmd) -> (r: bool)
    ensures
        r == fusable(cmd@),
{
    proof {
        cmd.lemma_model();
    }
    match cmd {
        QueryCmd::FilterCmd(_, _, _) => true,
        QueryCmd::KeywordAccess(_) => true,
        QueryCmd::TransformIntoObject(_) => true,
        _ => false,
    }
}

/// Applies a fusable node to one document; any other node gives no result.
pub fn apply_cmd(v: &Value, cmd: &QueryCmd) -> (r: Result<Option<Value>, EvalError>)
    ensures
        outcome(r) == apply_fusable(v@, cmd@),
{
    proof {
        cmd.lemma_model();
    }
    match cmd {
        QueryCmd::FilterCmd(_, _, _) => apply_filter(v, cmd),
        QueryCmd::KeywordAccess(_) => eval(v, cmd),
        QueryCmd::TransformIntoObject(_) => eval(v, cmd),
        _ => Ok(None),
    }
}

/// Takes a document through the steps from `from` on: the leading run of
/// fusable steps is applied step by step, and what is left after it is
/// evaluated as one pipeline.
pub fn apply_consecutive_filters(candidate: &Value, cmds: &Vec<QueryCmd>, from: usize) -> (r:
    Result<Option<Value>, EvalError>)
    ensures
        outcome(r) == fused_from(candidate@, models(cmds@), from as int),
{
    let mut cur = candidate.copy();
    let mut i: usize = from;
    let ghost steps = models(cmds@);
    while i < cmds.len() && can_apply_consecutive(&cmds[i])
        invariant
            steps == models(cmds@),
            fused_from(cur@, steps, i as int) == fused_from(candidate@, steps, from as int),
        decreases cmds@.len() - i,
    {
        match apply_cmd(&cur, &cmds[i]) {
            Ok(Some(next)) => {
                cur = next;
            },
            Ok(None) => {
                return Ok(None);
            },
            Err(e) => {
                return Err(e);
            },
        }
        i += 1;
    }
    run_steps(&cur, cmds, i)
}

/// What a query makes of one document that it has selected.
pub fn process(doc: &Value, query: &QueryCmd) -> (r: Result<Option<Value>, EvalError>)
    ensures
        outcome(r) == per_document(doc@, query@),
{
    proof {
        query.lemma_model();
    }
    match query {
        QueryCmd::ArrayIndexAccess(_) => Ok(Some(doc.copy())),
        QueryCmd::FilterCmd(_, _, _) => apply_filter(doc, query),
        QueryCmd::MultiCmd(cmds) => {
            if cmds.len() > 0 {
                proof {
                    cmds@[0].lemma_model();
                }
                match &cmds[0] {
                    QueryCmd::ArrayIndexAccess(_) => apply_consecutive_filters(doc, cmds, 1),
                    QueryCmd::FilterCmd(_, _, _) => apply_consecutive_filters(doc, cmds, 0),
                    _ => eval(doc, query),
                }
            } else {
                eval(doc, query)
            }
        },
        _ => eval(doc, query),
    }
}

/// The positions that a query selects, where it selects by position.
fn wanted_positions(query: &QueryCmd) -> (r: Option<&Vec<usize>>)
    ensures
        match r {
            Some(idxs) => wanted(query@) == Some(idxs@),
            None => wanted(query@) is None,
        },
{
    proof {
        query.lemma_model();
    }
    match query {
        QueryCmd::ArrayIndexAccess(idxs) => Some(idxs),
        QueryCmd::MultiCmd(cmds) => {
            if cmds.len() > 0 {
                proof {
                    cmds@[0].lemma_model();
                }
                match &cmds[0] {
                    QueryCmd::ArrayIndexAccess(idxs) => Some(idxs),
                    _ => None,
                }
            } else {
                None
            }
        },
        _ => None,
    }
}

/// Whether a query is applied stage by stage to the whole input.
fn is_materializing(query: &QueryCmd) -> (r: bool)
    ensures
        r == materializes(query@),
{
    proof {
        query.lemma_model();
    }
    match query {
        QueryCmd::MultiCmd(cmds) => {
            if cmds.len() > 0 {
                proof {
                    cmds@[0].lemma_model();
                }
                match &cmds[0] {
                    QueryCmd::ArrayIndexAccess(_) => false,
                    QueryCmd::FilterCmd(_, _, _) => false,
                    _ => true,
                }
            } else {
                false
            }
        },
        _ => false,
    }
}

/// The positions as a set.
fn position_set(idxs: &Vec<usize>) -> (r: HashSet<usize>)
    ensures
        forall|p: usize| r@.contains(p) == lists(idxs@, p as nat),
{
    broadcast use vstd::std_specs::hash::group_hash_axioms;

    let mut r: HashSet<usize> = HashSet::new();
    let mut i: usize = 0;
    while i < idxs.len()
        invariant
            i <= idxs@.len(),
            forall|p: usize| r@.contains(p) == lists(idxs@.take(i as int), p as nat),
        decreases idxs@.len() - i,
    {
        let ghost before = r@;
        r.insert(idxs[i]);
        proof {
            let fewer = idxs@.take(i as int);
            let more = idxs@.take(i + 1);
            assert forall|p: usize| r@.contains(p) == lists(more, p as nat) by {
                if lists(more, p as nat) {
                    let j = choose|j: int| 0 <= j < more.len() && more[j] == p;
                    if j < i {
                        assert(fewer[j] == p);
                    }
                }
                if lists(fewer, p as nat) {
                    let j = choose|j: int| 0 <= j < fewer.len() && fewer[j] == p;
                    assert(more[j] == p);
                }
                if p == idxs@[i as int] {
                    assert(more[i as int] == p);
                }
            }
        }
        i += 1;
    }
    assert(idxs@.take(idxs@.len() as int) =~= idxs@);
    r
}

/// The largest of the positions, if there is any.
fn last_position(idxs: &Vec<usize>) -> (r: Option<usize>)
    ensures
        match r {
            Some(m) => (exists|i: int| 0 <= i < idxs@.len() && idxs@[i] == m) && forall|i: int|
                0 <= i < idxs@.len() ==> idxs@[i] <= m,
            None => idxs@.len() == 0,
        },
{
    if idxs.len() == 0 {
        return None;
    }
    let mut m: usize = idxs[0];
    let mut i: usize = 1;
    while i < idxs.len()
        invariant
            1 <= i <= idxs@.len(),
            exists|j: int| 0 <= j < i && idxs@[j] == m,
            forall|j: int| 0 <= j < i ==> idxs@[j] <= m,
        decreases idxs@.len() - i,
    {
        if idxs[i] > m {
            m = idxs[i];
        }
        i += 1;
    }
    Some(m)
}

/// The state of a run over a stream: how far the stream has been read and,
/// for a query that works on the whole input, the documents read so far.
pub struct StreamExecutor<'a> {
    query: &'a QueryCmd,
    positions: Option<&'a Vec<usize>>,
    chosen: HashSet<usize>,
    last: Option<usize>,
    next: usize,
    exhausted: bool,
    collecting: bool,
    held: Vec<Value>,
    fed: Ghost<nat>,
}

impl<'a> StreamExecutor<'a> {
    /// The query that is run.
    pub closed spec fn query(&self) -> Query {
        self.query@
    }

    /// How many documents have been fed.
    pub closed spec fn fed(&self) -> nat {
        self.fed@
    }

    /// The documents held back for a query that works on the whole input.
    pub closed spec fn held(&self) -> Seq<Json> {
        items(self.held@)
    }

    /// Whether no document still to come can be selected: the query selects
    /// by position, and every position it asks for has been read.
    pub open spec fn finished(&self) -> bool {
        wanted(self.query()) matches Some(idxs) && all_before(idxs, self.fed())
    }

    /// The state is consistent: the counters agree with the documents fed.
    pub closed spec fn wf(&self) -> bool {
        &&& match self.positions {
            Some(idxs) => wanted(self.query@) == Some(idxs@),
            None => wanted(self.query@) is None,
        }
        &&& self.collecting == materializes(self.query@)
        &&& match self.positions {
            Some(idxs) => {
                &&& match self.last {
                    Some(m) => (exists|i: int| 0 <= i < idxs@.len() && idxs@[i] == m)
                        && forall|i: int| 0 <= i < idxs@.len() ==> idxs@[i] <= m,
                    None => idxs@.len() == 0,
                }
                &&& self.exhausted == all_before(idxs@, self.fed@)
                &&& !self.exhausted ==> self.next == self.fed@
                &&& forall|p: usize| self.chosen@.contains(p) == lists(idxs@, p as nat)
            },
            None => !self.exhausted,
        }
        &&& self.collecting ==> self.held@.len() == self.fed@
        &&& !self.collecting ==> self.held@.len() == 0
    }

    /// A run of `query` that has read nothing yet.
    pub fn new(query: &'a QueryCmd) -> (r: Self)
        ensures
            r.wf(),
            r.query() == query@,
            r.fed() == 0,
            r.held() == Seq::<Json>::empty(),
    {
        let positions = wanted_positions(query);
        let last = match positions {
            Some(idxs) => last_position(idxs),
            None => None,
        };
        let exhausted = positions.is_some() && last.is_none();
        let chosen = match positions {
            Some(idxs) => position_set(idxs),
            None => HashSet::new(),
        };
        let r = StreamExecutor {
            query,
            positions,
            chosen,
            last,
            next: 0,
            exhausted,
            collecting: is_materializing(query),
            held: Vec::new(),
            fed: Ghost(0),
        };
        assert(items(r.held@) =~= Seq::<Json>::empty());
        r
    }

    /// Whether reading may stop: no document still to come can be selected.
    pub fn is_done(&self) -> (r: bool)
        requires
            self.wf(),
        ensures
            r == self.finished(),
    {
        self.exhausted
    }

    /// Takes the next document of the stream and gives what the query emits
    /// for it. A query that works on the whole input emits nothing here: it
    /// holds the document back until the end.
    pub fn feed(&mut self, doc: &Value) -> (r: Result<Option<Value>, EvalError>)
        requires
            old(self).wf(),
        ensures
            final(self).wf(),
            final(self).query() == old(self).query(),
            final(self).fed() == old(self).fed() + 1,
            materializes(old(self).query()) ==> outcome(r) == Ok::<Option<Json>, EvalError>(None)
                && final(self).held() == old(self).held().push(doc@),
            !materializes(old(self).query()) ==> outcome(r) == emits(
                old(self).query(),
                old(self).fed(),
                doc@,
            ) && final(self).held() == old(self).held(),
    {
        broadcast use vstd::std_specs::hash::group_hash_axioms;

        let ghost before = items(self.held@);
        if self.collecting {
            self.held.push(doc.copy());
            self.fed = Ghost((self.fed@ + 1) as nat);
            assert(items(self.held@) =~= before.push(doc@));
            return Ok(None);
        }
        match self.positions {
            Some(idxs) => {
                if self.exhausted {
                    proof {
                        assert(!lists(idxs@, self.fed@));
                        assert(all_before(idxs@, self.fed@ + 1));
                    }
                    self.fed = Ghost((self.fed@ + 1) as nat);
                    return Ok(None);
                }
                let here = self.next;
                let selected = self.chosen.contains(&here);
                proof {
                    let m = self.last->0;
                    let at = choose|i: int| 0 <= i < idxs@.len() && idxs@[i] >= here;
                    assert(idxs@[at] <= m);
                    let top = choose|i: int| 0 <= i < idxs@.len() && idxs@[i] == m;
                    if m == here {
                        assert(all_before(idxs@, (here + 1) as nat));
                    } else {
                        assert(idxs@[top] >= here + 1);
                        assert(!all_before(idxs@, (here + 1) as nat));
                    }
                }
                if self.last == Some(here) {
                    self.exhausted = true;
                } else {
                    self.next = here + 1;
                }
                self.fed = Ghost((self.fed@ + 1) as nat);
                if selected {
                    process(doc, self.query)
                } else {
                    Ok(None)
                }
            },
            None => {
                self.fed = Ghost((self.fed@ + 1) as nat);
                process(doc, self.query)
            },
        }
    }

    /// Ends the run and gives what is still to be emitted: for a query that
    /// works on the whole input, the documents held back, taken through its
    /// stages one stage at a time; for any other query, nothing.
    pub fn finish(self) -> (r: Result<Vec<Value>, EvalError>)
        requires
            self.wf(),
        ensures
            materializes(self.query()) ==> listed(r) == staged(
                self.held(),
                self.query()->Pipeline_0,
                self.query()->Pipeline_0.len(),
            ),
            !materializes(self.query()) ==> listed(r) == Ok::<Seq<Json>, EvalError>(Seq::empty()),
    {
        proof {
            self.query.lemma_model();
        }
        match self.query {
            QueryCmd::MultiCmd(cmds) => {
                if self.collecting {
                    run_stages(self.held, cmds)
                } else {
                    let r: Vec<Value> = Vec::new();
                    assert(items(r@) =~= Seq::<Json>::empty());
                    Ok(r)
                }
            },
            _ => {
                let r: Vec<Value> = Vec::new();
                assert(items(r@) =~= Seq::<Json>::empty());
                Ok(r)
            },
        }
    }
}

/// An error after the first `k` stages is the result after any more of them.
proof fn lemma_staged_fails(docs: Seq<Json>, steps: Seq<Query>, k: nat, m: nat)
    requires
        k <= m <= steps.len(),
        staged(docs, steps, k) is Err,
    ensures
        staged(docs, steps, m) == staged(docs, steps, k),
    decreases m,
{
    if k < m {
        lemma_staged_fails(docs, steps, k, (m - 1) as nat);
    }
}

/// Takes the documents through the stages, one stage at a time.
fn run_stages(docs: Vec<Value>, cmds: &Vec<QueryCmd>) -> (r: Result<Vec<Value>, EvalError>)
    ensures
        listed(r) == staged(items(docs@), models(cmds@), cmds@.len() as nat),
{
    let ghost start = items(docs@);
    let ghost steps = models(cmds@);
    let mut cur = docs;
    let mut k: usize = 0;
    while k < cmds.len()
        invariant
            k <= cmds@.len(),
            steps == models(cmds@),
            start == items(docs@),
            Ok::<Seq<Json>, EvalError>(items(cur@)) == staged(start, steps, k as nat),
        decreases cmds@.len() - k,
    {
        match eval_each(&cur, &cmds[k]) {
            Ok(next) => {
                cur = next;
            },
            Err(e) => {
                proof {
                    assert(staged(start, steps, (k + 1) as nat) == Err::<Seq<Json>, EvalError>(e));
                    lemma_staged_fails(start, steps, (k + 1) as nat, cmds@.len() as nat);
                }
                return Err(e);
            },
        }
        k += 1;
    }
    Ok(cur)
}

/// An error among the first `n` documents is the result for any more of them.
proof fn lemma_emitted_fails(docs: Seq<Json>, q: Query, n: nat, m: nat)
    requires
        n <= m <= docs.len(),
        emitted(docs, q, n) is Err,
    ensures
        emitted(docs, q, m) == emitted(docs, q, n),
    decreases m,
{
    if n < m {
        lemma_emitted_fails(docs, q, n, (m - 1) as nat);
    }
}

/// Reading may stop after the last position: once every position that a
/// query asks for has been read, no document still to come is emitted, and
/// what was emitted is all that is emitted for any longer stream.
pub proof fn law_nothing_after_last(docs: Seq<Json>, q: Query, n: nat, m: nat)
    requires
        n <= m <= docs.len(),
        wanted(q) matches Some(idxs) && all_before(idxs, n),
    ensures
        emitted(docs, q, m) == emitted(docs, q, n),
        forall|p: nat, v: Json| p >= n ==> #[trigger] emits(q, p, v) == Ok::<
            Option<Json>,
            EvalError,
        >(None),
    decreases m,
{
    if n < m {
        law_nothing_after_last(docs, q, n, (m - 1) as nat);
    }
}

/// Runs a query over a sequence of documents and gives its results in the
/// order of the documents.
///
/// A query headed by an index access takes the listed positions of the
/// sequence and stops reading after the last of them; one headed by a filter
/// keeps the documents that pass. In a pipeline, what follows such a head is
/// applied to each document that is left. A pipeline with any other head is
/// applied stage by stage to the whole sequence, and any other node to each
/// document on its own.
pub fn streaming_eval(docs: &Vec<Value>, query: &QueryCmd) -> (r: Result<Vec<Value>, EvalError>)
    ensures
        listed(r) == stream(items(docs@), query@),
{
    let mut run = StreamExecutor::new(query);
    let mut out: Vec<Value> = Vec::new();
    let mut i: usize = 0;
    let ghost all = items(docs@);
    assert(items(out@) =~= Seq::empty());
    while i < docs.len() && !run.is_done()
        invariant
            i <= docs@.len(),
            all == items(docs@),
            run.wf(),
            run.query() == query@,
            run.fed() == i,
            materializes(query@) ==> run.held() == all.take(i as int) && out@.len() == 0,
            !materializes(query@) ==> Ok::<Seq<Json>, EvalError>(items(out@)) == emitted(
                all,
                query@,
                i as nat,
            ),
        decreases docs@.len() - i,
    {
        let ghost before = items(out@);
        match run.feed(&docs[i]) {
            Ok(Some(x)) => {
                out.push(x);
                assert(items(out@) =~= before.push(x@));
            },
            Ok(None) => {},
            Err(e) => {
                proof {
                    lemma_emitted_fails(all, query@, (i + 1) as nat, docs@.len() as nat);
                }
                return Err(e);
            },
        }
        proof {
            assert(all.take(i as int).push(all[i as int]) =~= all.take(i + 1));
        }
        i += 1;
    }
    if is_materializing(query) {
        proof {
            assert(i == docs@.len());
            assert(all.take(i as int) =~= all);
        }
        run.finish()
    } else {
        proof {
            if i < docs@.len() {
                law_nothing_after_last(all, query@, i as nat, docs@.len() as nat);
            }
        }
        Ok(out)
    }
}

} // verus!
