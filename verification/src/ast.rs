//! The syntax tree of a query, its mathematical model, and equality on it.

use vstd::prelude::*;
use vstd::std_specs::cmp::PartialEqSpecImpl;

verus! {

/// One node of a parsed query.
#[derive(Debug)]
pub enum QueryCmd {
    /// Positions to select, in listed order; duplicates are allowed.
    ArrayIndexAccess(Vec<usize>),
    /// Field names to descend through, left to right.
    KeywordAccess(Vec<String>),
    /// Steps applied one after another; each feeds the next.
    MultiCmd(Vec<QueryCmd>),
    /// Named sub-queries, all evaluated against the same input.
    TransformIntoObject(Vec<(String, QueryCmd)>),
    /// A path, an operator (`=`, `>` or `<`) and the literal to compare with.
    FilterCmd(Box<QueryCmd>, String, String),
    /// A named aggregate applied to the results of its arguments.
    Call(String, Vec<QueryCmd>),
    ListKeys,
    ListValues,
    Count,
}

/// The mathematical model of a [`QueryCmd`]: the same tree over sequences.
pub ghost enum Query {
    Index(Seq<usize>),
    Keyword(Seq<Seq<char>>),
    Pipeline(Seq<Query>),
    Object(Seq<(Seq<char>, Query)>),
    Filter(Box<Query>, Seq<char>, Seq<char>),
    Call(Seq<char>, Seq<Query>),
    ListKeys,
    ListValues,
    Count,
}

/// The texts of a vector of strings.
pub open spec fn texts(v: Seq<String>) -> Seq<Seq<char>> {
    Seq::new(v.len(), |i: int| v[i]@)
}

/// The models of a vector of nodes.
pub open spec fn models(v: Seq<QueryCmd>) -> Seq<Query> {
    Seq::new(v.len(), |i: int| v[i]@)
}

/// The models of a vector of named nodes.
pub open spec fn named_models(v: Seq<(String, QueryCmd)>) -> Seq<(Seq<char>, Query)> {
    Seq::new(v.len(), |i: int| (v[i].0@, v[i].1@))
}

impl QueryCmd {
    /// The model of this node, defined by recursion over the tree.
    pub open spec fn model(&self) -> Query
        decreases self,
    {
        match self {
            QueryCmd::ArrayIndexAccess(idxs) => Query::Index(idxs@),
            QueryCmd::KeywordAccess(ks) => Query::Keyword(texts(ks@)),
            QueryCmd::MultiCmd(cmds) => Query::Pipeline(
                Seq::new(
                    cmds@.len(),
                    |i: int|
                        if 0 <= i < cmds@.len() {
                            cmds@[i].model()
                        } else {
                            Query::Count
                        },
                ),
            ),
            QueryCmd::TransformIntoObject(props) => Query::Object(
                Seq::new(
                    props@.len(),
                    |i: int|
                        if 0 <= i < props@.len() {
                            (props@[i].0@, props@[i].1.model())
                        } else {
                            (Seq::empty(), Query::Count)
                        },
                ),
            ),
            QueryCmd::FilterCmd(path, op, literal) => Query::Filter(
                Box::new(path.model()),
                op@,
                literal@,
            ),
            QueryCmd::Call(name, args) => Query::Call(
                name@,
                Seq::new(
                    args@.len(),
                    |i: int|
                        if 0 <= i < args@.len() {
                            args@[i].model()
                        } else {
                            Query::Count
                        },
                ),
            ),
            QueryCmd::ListKeys => Query::ListKeys,
            QueryCmd::ListValues => Query::ListValues,
            QueryCmd::Count => Query::Count,
        }
    }

    /// Unfolds the model of a node one level, over `models` and `named_models`.
    pub proof fn lemma_model(&self)
        ensures
            self matches QueryCmd::ArrayIndexAccess(idxs) ==> self@ == Query::Index(idxs@),
            self matches QueryCmd::KeywordAccess(ks) ==> self@ == Query::Keyword(texts(ks@)),
            self matches QueryCmd::MultiCmd(cmds) ==> self@ == Query::Pipeline(models(cmds@)),
            self matches QueryCmd::TransformIntoObject(props) ==> self@ == Query::Object(
                named_models(props@),
            ),
            self matches QueryCmd::FilterCmd(path, op, literal) ==> self@ == Query::Filter(
                Box::new(path@),
                op@,
                literal@,
            ),
            self matches QueryCmd::Call(name, args) ==> self@ == Query::Call(
                name@,
                models(args@),
            ),
            self is ListKeys ==> self@ == Query::ListKeys,
            self is ListValues ==> self@ == Query::ListValues,
            self is Count ==> self@ == Query::Count,
    {
        match self {
            QueryCmd::MultiCmd(cmds) => {
                assert(self.model()->Pipeline_0 =~= models(cmds@));
            },
            QueryCmd::TransformIntoObject(props) => {
                assert(self.model()->Object_0 =~= named_models(props@));
            },
            QueryCmd::Call(name, args) => {
                assert(self.model()->Call_1 =~= models(args@));
            },
            _ => {},
        }
    }

    /// The path made of the given field names.
    pub fn keyword_access(kws: &[&str]) -> (r: QueryCmd)
        ensures
            r@ == Query::Keyword(Seq::new(kws@.len(), |i: int| kws@[i]@)),
    {
        let mut names: Vec<String> = Vec::new();
        let mut i: usize = 0;
        while i < kws.len()
            invariant
                i <= kws@.len(),
                names@.len() == i,
                forall|j: int| 0 <= j < i ==> (#[trigger] names@[j])@ == kws@[j]@,
            decreases kws@.len() - i,
        {
            names.push(kws[i].to_owned());
            i += 1;
        }
        let r = QueryCmd::KeywordAccess(names);
        proof {
            r.lemma_model();
            assert(texts(names@) =~= Seq::new(kws@.len(), |i: int| kws@[i]@));
        }
        r
    }

    /// The filter that keeps a candidate when `f`, resolved against it,
    /// compares to `v` under `op`.
    pub fn filter_cmd(f: QueryCmd, op: &str, v: &str) -> (r: QueryCmd)
        ensures
            r@ == Query::Filter(Box::new(f@), op@, v@),
    {
        let r = QueryCmd::FilterCmd(Box::new(f), op.to_owned(), v.to_owned());
        proof {
            r.lemma_model();
        }
        r
    }
}

/// Whether two vectors of positions hold the same positions in the same order.
fn same_indices(xs: &Vec<usize>, ys: &Vec<usize>) -> (r: bool)
    ensures
        r == (xs@ == ys@),
{
    if xs.len() != ys.len() {
        return false;
    }
    let mut i: usize = 0;
    while i < xs.len()
        invariant
            i <= xs@.len(),
            xs@.len() == ys@.len(),
            forall|j: int| 0 <= j < i ==> xs@[j] == ys@[j],
        decreases xs@.len() - i,
    {
        if xs[i] != ys[i] {
            return false;
        }
        i += 1;
    }
    assert(xs@ =~= ys@);
    true
}

/// Whether two vectors of strings hold the same texts in the same order.
fn same_texts(xs: &Vec<String>, ys: &Vec<String>) -> (r: bool)
    ensures
        r == (texts(xs@) == texts(ys@)),
{
    if xs.len() != ys.len() {
        assert(texts(xs@).len() != texts(ys@).len());
        return false;
    }
    let mut i: usize = 0;
    while i < xs.len()
        invariant
            i <= xs@.len(),
            xs@.len() == ys@.len(),
            forall|j: int| 0 <= j < i ==> xs@[j]@ == ys@[j]@,
        decreases xs@.len() - i,
    {
        if xs[i] != ys[i] {
            assert(texts(xs@)[i as int] != texts(ys@)[i as int]);
            return false;
        }
        i += 1;
    }
    assert(texts(xs@) =~= texts(ys@));
    true
}

impl QueryCmd {
    /// Whether two vectors of nodes hold equal trees in the same order.
    fn same_nodes(xs: &Vec<QueryCmd>, ys: &Vec<QueryCmd>) -> (r: bool)
        ensures
            r == (models(xs@) == models(ys@)),
        decreases xs, 0int,
    {
        if xs.len() != ys.len() {
            assert(models(xs@).len() != models(ys@).len());
            return false;
        }
        let mut i: usize = 0;
        while i < xs.len()
            invariant
                i <= xs@.len(),
                xs@.len() == ys@.len(),
                forall|j: int| 0 <= j < i ==> xs@[j]@ == ys@[j]@,
            decreases xs@.len() - i,
        {
            if !xs[i].same(&ys[i]) {
                assert(models(xs@)[i as int] != models(ys@)[i as int]);
                return false;
            }
            i += 1;
        }
        assert(models(xs@) =~= models(ys@));
        true
    }

    /// Whether two vectors of named nodes hold equal names and trees in the
    /// same order.
    fn same_props(xs: &Vec<(String, QueryCmd)>, ys: &Vec<(String, QueryCmd)>) -> (r: bool)
        ensures
            r == (named_models(xs@) == named_models(ys@)),
        decreases xs, 0int,
    {
        if xs.len() != ys.len() {
            assert(named_models(xs@).len() != named_models(ys@).len());
            return false;
        }
        let mut i: usize = 0;
        while i < xs.len()
            invariant
                i <= xs@.len(),
                xs@.len() == ys@.len(),
                forall|j: int|
                    0 <= j < i ==> xs@[j].0@ == ys@[j].0@ && xs@[j].1@ == ys@[j].1@,
            decreases xs@.len() - i,
        {
            if xs[i].0 != ys[i].0 || !xs[i].1.same(&ys[i].1) {
                assert(named_models(xs@)[i as int] != named_models(ys@)[i as int]);
                return false;
            }
            i += 1;
        }
        assert(named_models(xs@) =~= named_models(ys@));
        true
    }

    /// Structural equality: the two nodes have the same model.
    pub fn same(&self, other: &QueryCmd) -> (r: bool)
        ensures
            r == (self@ == other@),
        decreases self, 1int,
    {
        proof {
            self.lemma_model();
            other.lemma_model();
        }
        match (self, other) {
            (QueryCmd::ArrayIndexAccess(xs), QueryCmd::ArrayIndexAccess(ys)) => {
                let r = same_indices(xs, ys);
                r
            },
            (QueryCmd::KeywordAccess(xs), QueryCmd::KeywordAccess(ys)) => {
                let r = same_texts(xs, ys);
                r
            },
            (QueryCmd::MultiCmd(xs), QueryCmd::MultiCmd(ys)) => {
                let r = Self::same_nodes(xs, ys);
                r
            },
            (QueryCmd::TransformIntoObject(xs), QueryCmd::TransformIntoObject(ys)) => {
                let r = Self::same_props(xs, ys);
                r
            },
            (QueryCmd::FilterCmd(c1, op1, v1), QueryCmd::FilterCmd(c2, op2, v2)) => {
                let paths = c1.same(c2);
                let ops = *op1 == *op2;
                let literals = *v1 == *v2;
                let r = paths && ops && literals;
                r
            },
            (QueryCmd::Call(n1, xs), QueryCmd::Call(n2, ys)) => {
                let names = *n1 == *n2;
                let args = Self::same_nodes(xs, ys);
                let r = names && args;
                r
            },
            (QueryCmd::ListKeys, QueryCmd::ListKeys) => true,
            (QueryCmd::ListValues, QueryCmd::ListValues) => true,
            (QueryCmd::Count, QueryCmd::Count) => true,
            _ => false,
        }
    }
}

/// A copy of a vector of strings.
fn copy_texts(xs: &Vec<String>) -> (r: Vec<String>)
    ensures
        texts(r@) == texts(xs@),
{
    let mut r: Vec<String> = Vec::new();
    let mut i: usize = 0;
    while i < xs.len()
        invariant
            i <= xs@.len(),
            r@.len() == i,
            forall|j: int| 0 <= j < i ==> r@[j]@ == xs@[j]@,
        decreases xs@.len() - i,
    {
        r.push(xs[i].clone());
        i += 1;
    }
    assert(texts(r@) =~= texts(xs@));
    r
}

/// A copy of a vector of positions.
fn copy_indices(xs: &Vec<usize>) -> (r: Vec<usize>)
    ensures
        r@ == xs@,
{
    let mut r: Vec<usize> = Vec::new();
    let mut i: usize = 0;
    while i < xs.len()
        invariant
            i <= xs@.len(),
            r@ == xs@.take(i as int),
        decreases xs@.len() - i,
    {
        r.push(xs[i]);
        assert(xs@.take(i as int).push(xs@[i as int]) =~= xs@.take(i + 1));
        i += 1;
    }
    assert(xs@.take(xs@.len() as int) =~= xs@);
    r
}

impl QueryCmd {
    /// A copy of a vector of nodes.
    fn copy_nodes(xs: &Vec<QueryCmd>) -> (r: Vec<QueryCmd>)
        ensures
            models(r@) == models(xs@),
        decreases xs, 0int,
    {
        let mut r: Vec<QueryCmd> = Vec::new();
        let mut i: usize = 0;
        while i < xs.len()
            invariant
                i <= xs@.len(),
                r@.len() == i,
                forall|j: int| 0 <= j < i ==> r@[j]@ == xs@[j]@,
            decreases xs@.len() - i,
        {
            r.push(xs[i].copy());
            i += 1;
        }
        assert(models(r@) =~= models(xs@));
        r
    }

    /// A copy of a vector of named nodes.
    fn copy_props(xs: &Vec<(String, QueryCmd)>) -> (r: Vec<(String, QueryCmd)>)
        ensures
            named_models(r@) == named_models(xs@),
        decreases xs, 0int,
    {
        let mut r: Vec<(String, QueryCmd)> = Vec::new();
        let mut i: usize = 0;
        while i < xs.len()
            invariant
                i <= xs@.len(),
                r@.len() == i,
                forall|j: int| 0 <= j < i ==> r@[j].0@ == xs@[j].0@ && r@[j].1@ == xs@[j].1@,
            decreases xs@.len() - i,
        {
            r.push((xs[i].0.clone(), xs[i].1.copy()));
            i += 1;
        }
        assert(named_models(r@) =~= named_models(xs@));
        r
    }

    /// A copy of this node: a new tree with the same model.
    pub fn copy(&self) -> (r: QueryCmd)
        ensures
            r@ == self@,
        decreases self, 1int,
    {
        proof {
            self.lemma_model();
        }
        let r = match self {
            QueryCmd::ArrayIndexAccess(idxs) => QueryCmd::ArrayIndexAccess(copy_indices(idxs)),
            QueryCmd::KeywordAccess(ks) => QueryCmd::KeywordAccess(copy_texts(ks)),
            QueryCmd::MultiCmd(cmds) => QueryCmd::MultiCmd(Self::copy_nodes(cmds)),
            QueryCmd::TransformIntoObject(props) => QueryCmd::TransformIntoObject(
                Self::copy_props(props),
            ),
            QueryCmd::FilterCmd(path, op, literal) => QueryCmd::FilterCmd(
                Box::new(path.copy()),
                op.clone(),
                literal.clone(),
            ),
            QueryCmd::Call(name, args) => QueryCmd::Call(name.clone(), Self::copy_nodes(args)),
            QueryCmd::ListKeys => QueryCmd::ListKeys,
            QueryCmd::ListValues => QueryCmd::ListValues,
            QueryCmd::Count => QueryCmd::Count,
        };
        proof {
            r.lemma_model();
        }
        r
    }
}

impl Clone for QueryCmd {
    fn clone(&self) -> (r: Self)
        ensures
            r@ == self@,
    {
        self.copy()
    }
}

impl PartialEq for QueryCmd {
    fn eq(&self, other: &Self) -> (r: bool) {
        self.same(other)
    }
}

impl PartialEqSpecImpl for QueryCmd {
    open spec fn obeys_eq_spec() -> bool {
        true
    }

    open spec fn eq_spec(&self, other: &Self) -> bool {
        self@ == other@
    }
}

impl Eq for QueryCmd {

}

impl View for QueryCmd {
    type V = Query;

    open spec fn view(&self) -> Query {
        self.model()
    }
}

} // verus!
