use jqr::args::CmdArgs;
use jqr::ast::QueryCmd;
use jqr::number::Number;
use jqr::semantics::EvalError;
use jqr::value::Value;

fn words(ws: &[&str]) -> Vec<String> {
    ws.iter().map(|w| w.to_string()).collect()
}

fn sample() -> Value {
    Value::object(vec![
        ("n".to_string(), Value::Null),
        ("t".to_string(), Value::Bool(true)),
        ("f".to_string(), Value::Bool(false)),
        ("i".to_string(), Value::integer(-3)),
        ("r".to_string(), Value::Number(Number::parse("2.50").expect("a number"))),
        ("s".to_string(), Value::string("a \"b\" \\ c")),
        (
            "a".to_string(),
            Value::array(vec![Value::integer(1), Value::array(vec![]), Value::object(vec![])]),
        ),
    ])
}

#[test]
fn args_by_the_number_of_words() {
    let none = CmdArgs::new(&words(&["jqr"])).expect("arguments");
    assert_eq!(none.input_file(), &None);
    assert_eq!(none.query(), &None);

    let only_query = CmdArgs::new(&words(&["jqr", "a.b"])).expect("arguments");
    assert_eq!(only_query.input_file(), &None);
    assert_eq!(only_query.query(), &Some("a.b".to_string()));

    let empty_query = CmdArgs::new(&words(&["jqr", ""])).expect("arguments");
    assert_eq!(empty_query.input_file(), &None);
    assert_eq!(empty_query.query(), &None);

    let both = CmdArgs::new(&words(&["jqr", "in.json", "a.b"])).expect("arguments");
    assert_eq!(both.input_file(), &Some("in.json".to_string()));
    assert_eq!(both.query(), &Some("a.b".to_string()));

    let empty_with_file = CmdArgs::new(&words(&["jqr", "in.json", ""])).expect("arguments");
    assert_eq!(empty_with_file.input_file(), &Some("in.json".to_string()));
    assert_eq!(empty_with_file.query(), &Some("".to_string()));
}

#[test]
fn args_refuse_any_other_number_of_words() {
    assert_eq!(
        CmdArgs::new(&words(&[])).err(),
        Some(
            "Wrong number of arguments passed, jqr expects 0, 1 or 2 args. Passed= 0".to_string()
        )
    );
    assert_eq!(
        CmdArgs::new(&words(&["jqr", "a", "b", "c"])).err(),
        Some(
            "Wrong number of arguments passed, jqr expects 0, 1 or 2 args. Passed= 4".to_string()
        )
    );
    let many: Vec<String> = (0..123).map(|i| i.to_string()).collect();
    assert_eq!(
        CmdArgs::new(&many).err(),
        Some(
            "Wrong number of arguments passed, jqr expects 0, 1 or 2 args. Passed= 123"
                .to_string()
        )
    );
}

#[test]
fn values_in_one_line() {
    assert_eq!(
        sample().to_text(),
        "{\"n\":null,\"t\":true,\"f\":false,\"i\":-3,\"r\":2.50,\"s\":\"a \\\"b\\\" \\\\ c\",\"a\":[1,[],{}]}"
    );
    assert_eq!(Value::array(vec![]).to_text(), "[]");
    assert_eq!(Value::object(vec![]).to_text(), "{}");
    assert_eq!(Value::string("").to_text(), "\"\"");
    assert_eq!(Value::Null.to_text(), "null");
}

#[test]
fn group_keys_leave_strings_as_they_are() {
    assert_eq!(Value::string("A \"q\"").to_key(), "A \"q\"");
    assert_eq!(Value::integer(12).to_key(), "12");
    assert_eq!(Value::Bool(false).to_key(), "false");
    assert_eq!(Value::Null.to_key(), "null");
    assert_eq!(Value::array(vec![Value::string("a")]).to_key(), "[\"a\"]");
    assert_eq!(
        Value::object(vec![("k".to_string(), Value::integer(1))]).to_key(),
        "{\"k\":1}"
    );
}

#[test]
fn value_copies_are_equal_and_equality_is_structural() {
    let v = sample();
    assert_eq!(v.copy(), v);
    assert_eq!(v.clone(), v);
    assert_eq!(v.same(&v.copy()), true);
    assert_ne!(Value::integer(1), Value::Number(Number::parse("1.0").expect("a number")));
    assert_ne!(Value::integer(1), Value::string("1"));
    assert_ne!(Value::Null, Value::Bool(false));
    assert_ne!(Value::array(vec![Value::Null]), Value::array(vec![]));
    assert_ne!(
        Value::array(vec![Value::integer(1), Value::integer(2)]),
        Value::array(vec![Value::integer(2), Value::integer(1)])
    );
    assert_ne!(
        Value::object(vec![("a".to_string(), Value::Null), ("b".to_string(), Value::Null)]),
        Value::object(vec![("b".to_string(), Value::Null), ("a".to_string(), Value::Null)])
    );
    assert_ne!(
        Value::object(vec![("a".to_string(), Value::Null)]),
        Value::array(vec![Value::Null])
    );
}

#[test]
fn query_copies_are_equal() {
    let q = QueryCmd::MultiCmd(vec![
        QueryCmd::ArrayIndexAccess(vec![3, 1]),
        QueryCmd::filter_cmd(QueryCmd::keyword_access(&["a", "b"]), "<", "1.5"),
        QueryCmd::TransformIntoObject(vec![("x".to_string(), QueryCmd::ListKeys)]),
        QueryCmd::Call("sum".to_string(), vec![QueryCmd::ListValues, QueryCmd::Count]),
    ]);
    assert_eq!(q.copy(), q);
    assert_eq!(q.clone(), q);
    assert_eq!(q.same(&q.copy()), true);
    assert_eq!(QueryCmd::keyword_access(&[]), QueryCmd::KeywordAccess(vec![]));
    assert_ne!(
        QueryCmd::Call("sum".to_string(), vec![]),
        QueryCmd::Call("sum".to_string(), vec![QueryCmd::Count])
    );
    assert_ne!(
        QueryCmd::TransformIntoObject(vec![("x".to_string(), QueryCmd::ListKeys)]),
        QueryCmd::TransformIntoObject(vec![("y".to_string(), QueryCmd::ListKeys)])
    );
    assert_ne!(QueryCmd::MultiCmd(vec![]), QueryCmd::ArrayIndexAccess(vec![]));
}

#[test]
fn errors_have_messages() {
    assert_eq!(
        EvalError::IndexOnObject.message(),
        "Cannot perform Array index access on an object!"
    );
    for e in [
        EvalError::UnknownFunction,
        EvalError::EmptyInput,
        EvalError::NumberOutOfRange,
        EvalError::WrongArguments,
    ] {
        assert_eq!(e.message().is_empty(), false);
    }
}
