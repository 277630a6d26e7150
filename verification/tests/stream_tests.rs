use jqr::ast::QueryCmd;
use jqr::eval::eval;
use jqr::parser::parse;
use jqr::semantics::EvalError;
use jqr::stream::{
    apply_cmd, apply_consecutive_filters, can_apply_consecutive, process, streaming_eval,
    StreamExecutor,
};
use jqr::value::Value;

fn n(v: i64) -> Value {
    Value::integer(v)
}

fn s(v: &str) -> Value {
    Value::string(v)
}

fn o(entries: Vec<(&str, Value)>) -> Value {
    Value::object(entries.into_iter().map(|(k, v)| (k.to_string(), v)).collect())
}

fn a(items: Vec<Value>) -> Value {
    Value::array(items)
}

fn q(text: &str) -> QueryCmd {
    parse(text).expect("a query")
}

fn people() -> Vec<Value> {
    vec![
        o(vec![("name", s("Ann")), ("age", n(31)), ("tags", a(vec![s("x")]))]),
        o(vec![("name", s("Bob")), ("age", n(17)), ("tags", a(vec![]))]),
        o(vec![("name", s("Cy")), ("age", n(45)), ("tags", a(vec![s("y"), s("z")]))]),
        o(vec![("name", s("Di")), ("age", n(18)), ("tags", a(vec![s("x")]))]),
    ]
}

#[test]
fn fusable_nodes_are_filter_path_and_object() {
    assert_eq!(can_apply_consecutive(&q("a > 1")), true);
    assert_eq!(can_apply_consecutive(&q("a.b")), true);
    assert_eq!(can_apply_consecutive(&q("{x := a}")), true);
    assert_eq!(can_apply_consecutive(&q("[1]")), false);
    assert_eq!(can_apply_consecutive(&q(".keys")), false);
    assert_eq!(can_apply_consecutive(&q(".vals")), false);
    assert_eq!(can_apply_consecutive(&q(".count")), false);
    assert_eq!(can_apply_consecutive(&q("sum(a)")), false);
    assert_eq!(can_apply_consecutive(&q("a | b")), false);
}

#[test]
fn apply_cmd_applies_fusable_nodes_only() {
    let doc = o(vec![("a", n(5))]);
    assert_eq!(apply_cmd(&doc, &q("a")), Ok(Some(n(5))));
    assert_eq!(apply_cmd(&doc, &q("a > 1")), Ok(Some(doc.clone())));
    assert_eq!(apply_cmd(&doc, &q("a > 9")), Ok(None));
    assert_eq!(apply_cmd(&doc, &q("{x := a}")), Ok(Some(o(vec![("x", n(5))]))));
    assert_eq!(apply_cmd(&doc, &q(".count")), Ok(None));
    assert_eq!(apply_cmd(&n(5), &q("a > 1")), Ok(Some(n(5))));
    assert_eq!(apply_cmd(&n(0), &q("a > 1")), Ok(None));
}

#[test]
fn consecutive_filters_then_the_rest_as_one_pipeline() {
    let doc = o(vec![("a", o(vec![("b", n(5)), ("c", n(6))]))]);
    let steps = vec![q("a"), q("b > 1"), q(".vals"), q("[1]")];
    assert_eq!(apply_consecutive_filters(&doc, &steps, 0), Ok(Some(n(6))));
    assert_eq!(apply_consecutive_filters(&doc, &steps, 4), Ok(Some(doc.clone())));
    assert_eq!(apply_consecutive_filters(&doc, &steps, 9), Ok(Some(doc.clone())));
    assert_eq!(apply_consecutive_filters(&doc, &steps, 2), Ok(None));
    assert_eq!(apply_consecutive_filters(&doc, &steps, 3), Err(EvalError::IndexOnObject));
    let inner = o(vec![("b", n(5)), ("c", n(6))]);
    assert_eq!(
        apply_consecutive_filters(&inner, &steps[..3].to_vec(), 1),
        Ok(Some(a(vec![n(5), n(6)])))
    );
    let dropped = vec![q("a"), q("b > 7"), q(".vals")];
    assert_eq!(apply_consecutive_filters(&doc, &dropped, 0), Ok(None));
    let failing = vec![q("a"), q("[0]")];
    assert_eq!(apply_consecutive_filters(&doc, &failing, 0), Err(EvalError::IndexOnObject));
}

#[test]
fn process_treats_a_leading_index_access_as_passed() {
    let doc = o(vec![("a", n(5))]);
    assert_eq!(process(&doc, &q("[3]")), Ok(Some(doc.clone())));
    assert_eq!(process(&doc, &q("[3] | a")), Ok(Some(n(5))));
    assert_eq!(process(&doc, &q("a > 1 | a")), Ok(Some(n(5))));
    assert_eq!(process(&doc, &q(".count")), Ok(Some(n(1))));
    assert_eq!(process(&n(0), &q("a > 1")), Ok(None));
}

#[test]
fn stream_filter_keeps_documents_in_order() {
    let docs = people();
    let out = streaming_eval(&docs, &q("age > 17")).expect("no error");
    assert_eq!(out, vec![docs[0].clone(), docs[2].clone(), docs[3].clone()]);
    let none = streaming_eval(&docs, &q("age > 99")).expect("no error");
    assert_eq!(none, Vec::<Value>::new());
}

#[test]
fn stream_positions_come_in_stream_order_and_once() {
    let docs = people();
    let out = streaming_eval(&docs, &q("[2,0,2,9]")).expect("no error");
    assert_eq!(out, vec![docs[0].clone(), docs[2].clone()]);
    let empty = streaming_eval(&docs, &q("[3..1]")).expect("no error");
    assert_eq!(empty, Vec::<Value>::new());
}

#[test]
fn stream_positions_over_objects_are_no_error() {
    let docs = vec![o(vec![("a", n(1))])];
    assert_eq!(streaming_eval(&docs, &q("[0]")), Ok(docs.clone()));
    assert_eq!(eval(&docs[0], &q("[0]")), Err(EvalError::IndexOnObject));
}

#[test]
fn stream_single_node_maps_each_document() {
    let docs = people();
    assert_eq!(
        streaming_eval(&docs, &q("name")),
        Ok(vec![s("Ann"), s("Bob"), s("Cy"), s("Di")])
    );
    assert_eq!(streaming_eval(&docs, &q(".count")), Ok(vec![n(3), n(3), n(3), n(3)]));
    assert_eq!(
        streaming_eval(&docs, &q("sum(age)")),
        Ok(vec![n(31), n(17), n(45), n(18)])
    );
}

#[test]
fn stream_pipeline_with_other_head_goes_stage_by_stage() {
    let docs = people();
    assert_eq!(
        streaming_eval(&docs, &q("tags | [0]")),
        Ok(vec![s("x"), s("y"), s("x")])
    );
    assert_eq!(
        streaming_eval(&docs, &q("{n := name} | n")),
        Ok(vec![s("Ann"), s("Bob"), s("Cy"), s("Di")])
    );
    assert_eq!(
        streaming_eval(&docs, &q("name | [0]")),
        Ok(vec![s("Ann"), s("Bob"), s("Cy"), s("Di")])
    );
    assert_eq!(
        streaming_eval(&docs, &q(".vals | .count")),
        Ok(vec![n(3), n(3), n(3), n(3)])
    );
}

#[test]
fn stream_staged_error_comes_from_the_earliest_stage() {
    let docs = vec![o(vec![("a", o(vec![]))]), o(vec![("b", n(1))])];
    let stages = QueryCmd::MultiCmd(vec![q("{x := a; y := [0]}")]);
    assert_eq!(streaming_eval(&docs, &stages), Err(EvalError::IndexOnObject));
    let two = QueryCmd::MultiCmd(vec![q("a"), q("[0]")]);
    assert_eq!(streaming_eval(&docs, &two), Err(EvalError::IndexOnObject));
    let fine = QueryCmd::MultiCmd(vec![q("b"), q("[0]")]);
    assert_eq!(streaming_eval(&docs, &fine), Ok(vec![Value::Null, n(1)]));
}

#[test]
fn stream_agrees_with_evaluating_the_array() {
    let docs = people();
    let all = a(docs.clone());
    for text in [
        "age > 17",
        "age > 17 | name",
        "age > 17 | tags | name = \"x\"",
        "[1..3]",
        "[0,2,3] | age < 40 | name",
        "[0..0] | name",
        "[1,2] | age",
    ] {
        let query = q(text);
        let streamed = streaming_eval(&docs, &query).expect("no error");
        assert_eq!(eval(&all, &query), Ok(Some(a(streamed))), "{}", text);
    }
    let single = q("[2]");
    assert_eq!(streaming_eval(&docs, &single), Ok(vec![docs[2].clone()]));
    assert_eq!(eval(&all, &single), Ok(Some(docs[2].clone())));
}

#[test]
fn executor_stops_after_the_last_position() {
    let docs = people();
    let query = q("[1,2] | name");
    let mut run = StreamExecutor::new(&query);
    assert_eq!(run.is_done(), false);
    assert_eq!(run.feed(&docs[0]), Ok(None));
    assert_eq!(run.is_done(), false);
    assert_eq!(run.feed(&docs[1]), Ok(Some(s("Bob"))));
    assert_eq!(run.is_done(), false);
    assert_eq!(run.feed(&docs[2]), Ok(Some(s("Cy"))));
    assert_eq!(run.is_done(), true);
    assert_eq!(run.feed(&docs[3]), Ok(None));
    assert_eq!(run.is_done(), true);
    assert_eq!(run.finish(), Ok(vec![]));
}

#[test]
fn executor_with_no_positions_is_done_at_once() {
    let query = q("[5..5]");
    let run = StreamExecutor::new(&query);
    assert_eq!(run.is_done(), true);
}

#[test]
fn executor_without_positions_is_never_done() {
    let docs = people();
    let query = q("age > 40");
    let mut run = StreamExecutor::new(&query);
    for d in &docs {
        assert_eq!(run.is_done(), false);
        let out = run.feed(d).expect("no error");
        assert_eq!(out.is_some(), d == &docs[2]);
    }
    assert_eq!(run.is_done(), false);
    assert_eq!(run.finish(), Ok(vec![]));
}

#[test]
fn executor_holds_documents_back_for_staged_queries() {
    let docs = people();
    let query = q("tags | .count");
    let mut run = StreamExecutor::new(&query);
    for d in &docs {
        assert_eq!(run.feed(d), Ok(None));
        assert_eq!(run.is_done(), false);
    }
    assert_eq!(run.finish(), Ok(vec![n(1), n(0), n(2), n(1)]));
}

#[test]
fn executor_reports_errors_when_they_happen() {
    let docs = people();
    let query = q("age > 1 | name | [0]");
    let mut run = StreamExecutor::new(&query);
    assert_eq!(run.feed(&docs[0]), Ok(Some(s("Ann"))));
    let bad = q("age > 1 | [0]");
    let mut run = StreamExecutor::new(&bad);
    assert_eq!(run.feed(&docs[0]), Err(EvalError::IndexOnObject));
}
