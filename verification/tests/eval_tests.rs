use jqr::ast::QueryCmd;
use jqr::eval::{apply_filter, eval, satisfies};
use jqr::number::{Decimal, Number};
use jqr::parser::{parse, parse_cmd};
use jqr::semantics::EvalError;
use jqr::stream::streaming_eval;
use jqr::value::Value;

fn num(text: &str) -> Value {
    Value::Number(Number::parse(text).expect("a number"))
}

fn whole(n: i64) -> Value {
    Value::integer(n)
}

fn text(s: &str) -> Value {
    Value::string(s)
}

fn obj(entries: Vec<(&str, Value)>) -> Value {
    Value::object(entries.into_iter().map(|(k, v)| (k.to_string(), v)).collect())
}

fn arr(items: Vec<Value>) -> Value {
    Value::array(items)
}

fn query(s: &str) -> QueryCmd {
    parse(s).expect("a query")
}

fn run(v: &Value, q: &str) -> Option<Value> {
    eval(v, &query(q)).expect("no error")
}

fn sample_json(i: i32) -> Value {
    obj(vec![
        ("i", whole(i as i64)),
        ("name", text("John Doe")),
        ("Revenue", num("3223.0")),
        ("Collections", whole(10 + i as i64)),
        ("age", whole(3 + i as i64)),
    ])
}

#[test]
fn eval_cmd_test() {
    let query_cmd = "[23..100] | age > 18 | {Idx := i; N := name; Rv := Revenue; C := Collections} | Rv > 1500.5 | C > 50 | Idx < 50";
    let docs: Vec<Value> = (1..100).map(|i| sample_json(i)).collect();

    let parse_res = parse_cmd(&query_cmd.to_string());
    let cmd = parse_res.expect("parse_cmd should not fail");
    let buffer = streaming_eval(&docs, &cmd).expect("streaming_eval shouldn't throw errors");

    assert_ne!(buffer.len(), 0);
    assert_eq!(buffer.len(), 9);

    let first_result = &buffer[0];
    assert!(matches!(first_result, Value::Object(_)), "should be json object");
    assert_eq!(first_result.get("N").expect("N should not be empty"), &text("John Doe"));
    let rv = match first_result.get("Rv").expect("Rv should not be empty") {
        Value::Number(n @ Number::Floating(_)) => n.to_text().parse::<f64>().expect("a float"),
        _ => panic!("Rv should by float64"),
    };
    assert_eq!(rv > 1500.5, true);
    let c = match first_result.get("C").expect("C should not be empty") {
        Value::Number(Number::Integral(n)) => *n,
        _ => panic!("C should by int64"),
    };
    assert_eq!(c > 50, true);
    let value_index = match first_result.get("Idx").expect("Idx should not be empty") {
        Value::Number(Number::Integral(n)) => *n,
        _ => panic!("Idx should by int64"),
    };
    assert_eq!(23 <= value_index, true);
    assert_eq!(value_index < 100, true);
}

#[test]
fn multi_cmd_index_slicing_test() {
    let cmd = "[100..300] | name ";
    let input_size = 300;
    let expected = 200;

    let docs: Vec<Value> = (0..input_size).map(|i| sample_json(i)).collect();
    let parse_res = parse_cmd(&cmd.to_string());
    let cmd = parse_res.expect("parse_cmd should not fail");
    let buffer = streaming_eval(&docs, &cmd).expect("streaming_eval shouldn't throw errors");

    let result = buffer.len();
    assert_eq!(result, expected, "Expected: {}, got: {}", expected, result);
}

#[test]
fn iter_slicing_test() {
    let cmd = "[10..30]";
    let input_size = 30;

    let docs: Vec<Value> = (0..input_size).map(|i| sample_json(i)).collect();
    let parse_res = parse_cmd(&cmd.to_string());
    let cmd = parse_res.expect("parse_cmd should not fail");
    let result = streaming_eval(&docs, &cmd).expect("streaming_eval shouldn't throw errors");

    let expected: Vec<Value> = (10..30).map(|i| sample_json(i)).collect();
    assert_eq!(result, expected, "Expected: {:?}, got: {:?}", expected, result);
}

#[test]
fn stream_positions_pick_documents() {
    let doc = obj(vec![("i", whole(12)), ("name", text("John Doe")), ("Revenue", whole(12))]);
    let table = vec![("[0]", 1, true), ("[9]", 10, true), ("[22]", 10, false)];
    for (cmd, input_size, found) in table {
        let docs: Vec<Value> = (0..input_size).map(|_| doc.clone()).collect();
        let out = streaming_eval(&docs, &query(cmd)).expect("no error");
        if found {
            assert_eq!(out, vec![doc.clone()]);
        } else {
            assert_eq!(out, Vec::<Value>::new());
        }
    }
}

#[test]
fn stream_count_after_position_counts_each_document() {
    let docs: Vec<Value> = (0..300).map(|i| sample_json(i)).collect();
    let out = streaming_eval(&docs, &query("[100..300] | name | .count")).expect("no error");
    assert_eq!(out.len(), 200);
    assert_eq!(out[0], text("John Doe"));
}

#[test]
fn stream_range_then_filter() {
    let docs: Vec<Value> = (1..100).map(|n| obj(vec![("age", whole(n))])).collect();
    assert_eq!(docs.len(), 99);
    let out = streaming_eval(&docs, &query("[23..100] | age > 18")).expect("no error");
    assert_eq!(out.len(), 76);
    assert_eq!(out[0], obj(vec![("age", whole(24))]));
    assert_eq!(out[75], obj(vec![("age", whole(99))]));

    let few = streaming_eval(&docs, &query("[0..30] | age > 18")).expect("no error");
    let expected: Vec<Value> = (19..31).map(|n| obj(vec![("age", whole(n))])).collect();
    assert_eq!(few, expected);
}

#[test]
fn object_build_keeps_mixed_properties() {
    let doc = obj(vec![("a", whole(1)), ("b", arr(vec![whole(1), whole(2), whole(3)]))]);
    assert_eq!(
        run(&doc, "{x := a; y := b}"),
        Some(obj(vec![("x", whole(1)), ("y", arr(vec![whole(1), whole(2), whole(3)]))]))
    );
}

#[test]
fn object_build_transposes_arrays_and_fills_with_null() {
    let doc = obj(vec![
        ("a", arr(vec![whole(1), whole(2), whole(3)])),
        ("b", arr(vec![text("u"), text("v")])),
    ]);
    assert_eq!(
        run(&doc, "{x := a; y := b}"),
        Some(arr(vec![
            obj(vec![("x", whole(1)), ("y", text("u"))]),
            obj(vec![("x", whole(2)), ("y", text("v"))]),
            obj(vec![("x", whole(3)), ("y", Value::Null)]),
        ]))
    );
    assert_eq!(run(&doc, "{}"), Some(arr(vec![])));
}

#[test]
fn object_build_over_an_array_of_objects() {
    let docs = arr(vec![
        obj(vec![("a", whole(1)), ("b", whole(2))]),
        obj(vec![("a", whole(3)), ("b", whole(4))]),
    ]);
    assert_eq!(
        run(&docs, "{x := a; y := b}"),
        Some(arr(vec![
            obj(vec![("x", whole(1)), ("y", whole(2))]),
            obj(vec![("x", whole(3)), ("y", whole(4))]),
        ]))
    );
}

#[test]
fn object_build_later_property_replaces_earlier_in_place() {
    let doc = obj(vec![("a", whole(1)), ("b", whole(2))]);
    assert_eq!(
        run(&doc, "{x := a; y := b; x := b}"),
        Some(obj(vec![("x", whole(2)), ("y", whole(2))]))
    );
}

#[test]
fn group_by_keeps_first_seen_order() {
    let doc = arr(vec![
        obj(vec![("g", text("A")), ("v", whole(1))]),
        obj(vec![("g", text("B")), ("v", whole(2))]),
        obj(vec![("g", text("A")), ("v", whole(3))]),
    ]);
    assert_eq!(
        run(&doc, "groupBy(., g)"),
        Some(obj(vec![
            (
                "A",
                arr(vec![
                    obj(vec![("g", text("A")), ("v", whole(1))]),
                    obj(vec![("g", text("A")), ("v", whole(3))]),
                ])
            ),
            ("B", arr(vec![obj(vec![("g", text("B")), ("v", whole(2))])])),
        ]))
    );
}

#[test]
fn group_by_other_keys_and_values() {
    let doc = arr(vec![
        obj(vec![("k", whole(1))]),
        obj(vec![("k", num("1.5"))]),
        obj(vec![("k", Value::Bool(true))]),
        obj(vec![("k", Value::Null)]),
        obj(vec![("k", arr(vec![whole(1), text("a\"b")]))]),
        obj(vec![("k", whole(1))]),
    ]);
    let grouped = run(&doc, "groupBy(., k)").expect("a result");
    let keys = eval(&grouped, &QueryCmd::ListKeys).expect("no error");
    assert_eq!(
        keys,
        Some(arr(vec![
            text("1"),
            text("1.5"),
            text("true"),
            text("null"),
            text("[1,\"a\\\"b\"]")
        ]))
    );
    assert_eq!(
        grouped.get("1"),
        Some(&arr(vec![obj(vec![("k", whole(1))]), obj(vec![("k", whole(1))])]))
    );

    let single = obj(vec![("g", text("A")), ("v", whole(1))]);
    assert_eq!(
        run(&single, "groupBy(., g)"),
        Some(obj(vec![("A", arr(vec![single.clone()]))]))
    );
    assert_eq!(
        eval(&single, &query("groupBy(.)")),
        Err(EvalError::WrongArguments)
    );
}

#[test]
fn sum_flattens_nested_arrays() {
    let doc = obj(vec![("values", arr(vec![whole(1), whole(2), arr(vec![whole(3), whole(4)])]))]);
    assert_eq!(run(&doc, "sum(values)"), Some(whole(10)));
    let split = obj(vec![("a", whole(1)), ("b", whole(2)), ("c", arr(vec![whole(3), whole(4)]))]);
    assert_eq!(run(&split, "sum(a, b, c)"), Some(whole(10)));
}

#[test]
fn index_access_on_object_is_an_error() {
    let doc = obj(vec![("a", whole(1))]);
    assert_eq!(eval(&doc, &query("[0]")), Err(EvalError::IndexOnObject));
    assert_eq!(eval(&doc, &query("a | [0]")), Ok(Some(whole(1))));
    assert_eq!(eval(&doc, &query("{x := [0]}")), Err(EvalError::IndexOnObject));
    let docs = vec![doc.clone(), doc.clone()];
    assert_eq!(streaming_eval(&docs, &query("a | [0]")), Ok(vec![whole(1), whole(1)]));
    assert_eq!(
        streaming_eval(&docs, &query(".vals | [0]")),
        Ok(vec![whole(1), whole(1)])
    );
    assert_eq!(
        streaming_eval(&docs, &QueryCmd::MultiCmd(vec![QueryCmd::Count, query("[0]")])),
        Ok(vec![whole(1), whole(1)])
    );
    assert_eq!(
        streaming_eval(&docs, &QueryCmd::MultiCmd(vec![query("a"), query("{x := [0]}")])),
        Ok(vec![whole(1), whole(1)])
    );
    assert_eq!(
        streaming_eval(&docs, &QueryCmd::MultiCmd(vec![query(".keys"), query("{x := [0]}")])),
        Ok(vec![obj(vec![("x", text("a"))]), obj(vec![("x", text("a"))])])
    );
    assert_eq!(
        streaming_eval(&docs, &QueryCmd::MultiCmd(vec![query("{y := a}"), query("[0]")])),
        Err(EvalError::IndexOnObject)
    );
}

#[test]
fn index_access_takes_listed_positions() {
    let a = arr(vec![text("p"), text("q"), text("r"), text("s")]);
    assert_eq!(run(&a, "[2]"), Some(text("r")));
    assert_eq!(run(&a, "[3,0,0,1]"), Some(arr(vec![text("s"), text("p"), text("p"), text("q")])));
    assert_eq!(run(&a, "[1..3]"), Some(arr(vec![text("q"), text("r")])));
    assert_eq!(run(&a, "[3..1]"), Some(arr(vec![])));
    assert_eq!(run(&a, "[9]"), None);
    assert_eq!(run(&a, "[1,9,2]"), Some(arr(vec![text("q"), text("r")])));
}

#[test]
fn keys_values_and_counts() {
    let o = obj(vec![("z", whole(1)), ("a", text("x")), ("m", Value::Null)]);
    assert_eq!(run(&o, ".keys"), Some(arr(vec![text("z"), text("a"), text("m")])));
    assert_eq!(run(&o, ".vals"), Some(arr(vec![whole(1), text("x"), Value::Null])));
    assert_eq!(run(&o, ".count"), Some(whole(3)));
    let a = arr(vec![text("p"), text("q")]);
    assert_eq!(run(&a, ".keys"), Some(arr(vec![whole(0), whole(1)])));
    assert_eq!(run(&a, ".vals"), Some(a.clone()));
    assert_eq!(run(&a, ".count"), Some(whole(2)));
    assert_eq!(run(&arr(vec![]), ".count"), Some(whole(0)));
}

#[test]
fn scalars_pass_through_every_node() {
    for v in [Value::Null, Value::Bool(false), whole(7), num("0.5"), text("s")] {
        for q in ["[0]", "a.b", ".keys", ".vals", ".count", "a > 1", "{x := a}", "sum(a)", "nope(a)", "a | [0] | .count"] {
            assert_eq!(eval(&v, &query(q)), Ok(Some(v.clone())), "{:?} {}", v, q);
        }
    }
}

#[test]
fn keyword_access_descends_and_gives_null_for_what_is_missing() {
    let doc = obj(vec![("a", obj(vec![("b", obj(vec![("c", whole(5))]))])), ("s", text("x"))]);
    assert_eq!(run(&doc, "a.b.c"), Some(whole(5)));
    assert_eq!(run(&doc, "a.b"), Some(obj(vec![("c", whole(5))])));
    assert_eq!(run(&doc, "a.x.c"), Some(Value::Null));
    assert_eq!(run(&doc, "s.b"), Some(Value::Null));
    assert_eq!(run(&doc, "."), Some(doc.clone()));
}

#[test]
fn keyword_access_broadcasts_over_arrays() {
    let docs = arr(vec![
        obj(vec![("a", whole(1))]),
        whole(7),
        obj(vec![("b", whole(2))]),
        arr(vec![obj(vec![("a", whole(3))])]),
    ]);
    assert_eq!(
        run(&docs, "a"),
        Some(arr(vec![whole(1), whole(7), Value::Null, arr(vec![whole(3)])]))
    );
    assert_eq!(run(&docs, "."), Some(docs.clone()));
}

#[test]
fn first_entry_wins_for_a_repeated_key() {
    let doc = obj(vec![("a", whole(1)), ("a", whole(2))]);
    assert_eq!(run(&doc, "a"), Some(whole(1)));
    assert_eq!(doc.get("a"), Some(&whole(1)));
    assert_eq!(doc.get("b"), None);
    assert_eq!(whole(1).get("a"), None);
}

#[test]
fn filter_keeps_the_candidate_unchanged_or_drops_it() {
    let doc = obj(vec![("age", whole(30)), ("name", text("Ann")), ("r", num("1.5"))]);
    assert_eq!(run(&doc, "age > 18"), Some(doc.clone()));
    assert_eq!(run(&doc, "age < 18"), None);
    assert_eq!(run(&doc, "age = 30"), Some(doc.clone()));
    assert_eq!(run(&doc, "age = 30.0"), None);
    assert_eq!(run(&doc, "age > 18.5"), None);
    assert_eq!(run(&doc, "age = \"30\""), Some(doc.clone()));
    assert_eq!(run(&doc, "name = \"Ann\""), Some(doc.clone()));
    assert_eq!(run(&doc, "name = \"Bob\""), None);
    assert_eq!(run(&doc, "name > \"Ann\""), None);
    assert_eq!(run(&doc, "name < \"Bob\""), None);
    assert_eq!(run(&doc, "name = 3"), None);
    assert_eq!(run(&doc, "r > 1"), Some(doc.clone()));
    assert_eq!(run(&doc, "r < 1.50001"), Some(doc.clone()));
    assert_eq!(run(&doc, "r = 1.50"), Some(doc.clone()));
    assert_eq!(run(&doc, "r = 15e-1"), Some(doc.clone()));
    assert_eq!(run(&doc, "r > 1.5"), None);
    assert_eq!(run(&doc, "r < -1"), None);
    assert_eq!(run(&doc, "missing = 1"), None);
    assert_eq!(run(&doc, "age > 1-2"), None);
}

#[test]
fn filter_broadcasts_over_arrays() {
    let docs = arr(vec![
        obj(vec![("v", whole(1))]),
        obj(vec![("v", whole(5))]),
        whole(9),
        obj(vec![("w", whole(7))]),
        obj(vec![("v", whole(3))]),
    ]);
    assert_eq!(
        run(&docs, "v > 2"),
        Some(arr(vec![obj(vec![("v", whole(5))]), whole(9), obj(vec![("v", whole(3))])]))
    );
    assert_eq!(run(&docs, "v > 100"), Some(arr(vec![])));
}

#[test]
fn apply_filter_on_a_candidate() {
    let f = query("v > 2");
    assert_eq!(apply_filter(&whole(9), &f), Ok(Some(whole(9))));
    assert_eq!(apply_filter(&whole(1), &f), Ok(None));
    assert_eq!(apply_filter(&arr(vec![whole(9)]), &f), Ok(None));
    assert_eq!(apply_filter(&whole(9), &query("v")), Ok(None));
    let bad = QueryCmd::filter_cmd(query("[0]"), ">", "2");
    assert_eq!(apply_filter(&obj(vec![]), &bad), Err(EvalError::IndexOnObject));
    let odd = QueryCmd::filter_cmd(query("v"), ">=", "2");
    assert_eq!(apply_filter(&whole(9), &odd), Ok(None));
}

#[test]
fn satisfies_compares_by_the_kind_of_the_value() {
    let s = |v: &Value, op: &str, lit: &str| satisfies(v, &op.to_string(), &lit.to_string());
    assert_eq!(s(&whole(-3), "<", "-2"), true);
    assert_eq!(s(&whole(-3), "<", "-2.0"), false);
    assert_eq!(s(&num("-3.0"), "<", "-2"), true);
    assert_eq!(s(&num("1e2"), "=", "100"), true);
    assert_eq!(s(&num("1e-2"), "<", "0.011"), true);
    assert_eq!(s(&num("0.0"), "=", "-0.0"), true);
    assert_eq!(s(&num("1e40"), ">", "18446744073709551615"), true);
    assert_eq!(s(&num("1e-40"), ">", "0"), true);
    assert_eq!(s(&num("-1e-40"), "<", "0"), true);
    assert_eq!(s(&Value::Bool(true), "=", "true"), false);
    assert_eq!(s(&Value::Null, "=", "null"), false);
    assert_eq!(s(&text("a"), "=", "a"), true);
    assert_eq!(
        s(
            &Value::Number(Number::Floating(Decimal { negative: false, mantissa: 5, exponent: -1 })),
            "=",
            "0.5"
        ),
        true
    );
}

#[test]
fn pipeline_threads_and_stops_at_no_result() {
    let doc = obj(vec![("a", arr(vec![obj(vec![("b", whole(1))]), obj(vec![("b", whole(2))])]))]);
    assert_eq!(run(&doc, "a | [1] | b"), Some(whole(2)));
    assert_eq!(run(&doc, "a | [7] | b"), None);
    assert_eq!(run(&doc, "a | b > 1 | .count"), Some(whole(1)));
    assert_eq!(eval(&doc, &QueryCmd::MultiCmd(vec![])), Ok(Some(doc.clone())));
}

#[test]
fn pipeline_splits_at_any_powhole() {
    let doc = obj(vec![("a", arr(vec![obj(vec![("b", whole(1))]), obj(vec![("b", whole(2))])]))]);
    let steps = ["a", "b > 1", "b", ".count"];
    let all = QueryCmd::MultiCmd(steps.iter().map(|s| query(s)).collect());
    let at_once = eval(&doc, &all);
    assert_eq!(at_once, Ok(Some(whole(1))));
    for cut in 0..=steps.len() {
        let head = QueryCmd::MultiCmd(steps[..cut].iter().map(|s| query(s)).collect());
        let tail = QueryCmd::MultiCmd(steps[cut..].iter().map(|s| query(s)).collect());
        let split = match eval(&doc, &head) {
            Ok(Some(v)) => eval(&v, &tail),
            other => other,
        };
        assert_eq!(split, at_once);
    }
}

#[test]
fn aggregates_over_numbers() {
    let doc = obj(vec![("v", arr(vec![whole(3), num("1.5"), whole(-2), text("x"), whole(3)]))]);
    assert_eq!(run(&doc, "sum(v)"), Some(num("5.5")));
    assert_eq!(run(&doc, "min(v)"), Some(whole(-2)));
    assert_eq!(run(&doc, "max(v)"), Some(whole(3)));
    assert_eq!(run(&doc, "sort(v)"), Some(arr(vec![whole(-2), num("1.5"), whole(3), whole(3)])));
    assert_eq!(run(&doc, "avg(v)"), Some(num("1.375")));
    assert_eq!(run(&doc, "sum(none)"), Some(whole(0)));
    assert_eq!(run(&doc, "sum()"), Some(whole(0)));
    assert_eq!(run(&doc, "sort()"), Some(arr(vec![])));
    let ints = obj(vec![("v", arr(vec![whole(1), whole(2), whole(4)]))]);
    assert_eq!(run(&ints, "avg(v)"), Some(num("2.333333")));
    assert_eq!(run(&ints, "avg(v, v)"), Some(num("2.333333")));
    let even = obj(vec![("v", arr(vec![whole(1), whole(3)]))]);
    assert_eq!(
        run(&even, "avg(v)"),
        Some(Value::Number(Number::Floating(Decimal { negative: false, mantissa: 2, exponent: 0 })))
    );
}

#[test]
fn aggregates_report_their_errors() {
    let doc = obj(vec![("v", arr(vec![text("x")])), ("big", whole(i64::MAX))]);
    assert_eq!(eval(&doc, &query("min(v)")), Err(EvalError::EmptyInput));
    assert_eq!(eval(&doc, &query("max(v)")), Err(EvalError::EmptyInput));
    assert_eq!(eval(&doc, &query("avg(v)")), Err(EvalError::EmptyInput));
    assert_eq!(eval(&doc, &query("avg()")), Err(EvalError::EmptyInput));
    assert_eq!(eval(&doc, &query("median(v)")), Err(EvalError::UnknownFunction));
    assert_eq!(eval(&doc, &query("sum(big, big)")), Err(EvalError::NumberOutOfRange));
    assert_eq!(eval(&doc, &query("sum([0])")), Err(EvalError::IndexOnObject));
    assert_eq!(eval(&doc, &query("groupBy([0], v)")), Err(EvalError::IndexOnObject));
}
