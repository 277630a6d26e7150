use jqr::ast::QueryCmd;
use jqr::parser::{parse, parse_cmd, parse_err, JQRParser};

fn run_parse(s: &str) -> QueryCmd {
    parse(s).expect("Parse failed")
}

#[test]
fn parse_test() {
    assert_eq!(run_parse("a"), QueryCmd::KeywordAccess(vec!["a".to_string()]));
    assert_eq!(run_parse("a.b.c"), QueryCmd::keyword_access(&["a", "b", "c"]));

    assert_eq!(
        run_parse("a .b   .c"),
        QueryCmd::KeywordAccess(vec!["a".to_string(), "b".to_string(), "c".to_string()])
    );

    assert_eq!(run_parse("[0]"), QueryCmd::ArrayIndexAccess(vec![0]));
    assert_eq!(parse("[]").err().is_some(), true);
    assert_eq!(run_parse("[1,3, 5]"), QueryCmd::ArrayIndexAccess(vec![1, 3, 5]));
    assert_eq!(run_parse("[11..15]"), QueryCmd::ArrayIndexAccess(vec![11, 12, 13, 14]));
    assert_eq!(run_parse("[15..11]"), QueryCmd::ArrayIndexAccess(vec![]));
    assert_eq!(run_parse("[15..15]"), QueryCmd::ArrayIndexAccess(vec![]));

    assert_eq!(parse("[1,3, ea]").err().is_some(), true);

    assert_eq!(run_parse(".vals"), QueryCmd::ListValues);
    assert_eq!(run_parse(".keys"), QueryCmd::ListKeys);
    assert_eq!(run_parse(".count"), QueryCmd::Count);

    assert_eq!(
        run_parse("username = \"Adam\""),
        QueryCmd::filter_cmd(QueryCmd::keyword_access(&["username"]), "=", "Adam")
    );

    assert_eq!(
        run_parse("address = \"P Sherman 42 Wallaby Way\""),
        QueryCmd::filter_cmd(
            QueryCmd::keyword_access(&["address"]),
            "=",
            "P Sherman 42 Wallaby Way"
        )
    );

    assert_eq!(
        run_parse("[230] | a.b"),
        QueryCmd::MultiCmd(vec![
            QueryCmd::ArrayIndexAccess(vec![230]),
            QueryCmd::keyword_access(&["a", "b"])
        ])
    );

    assert_eq!(
        run_parse("[230] | a.b | .vals"),
        QueryCmd::MultiCmd(vec![
            QueryCmd::ArrayIndexAccess(vec![230]),
            QueryCmd::keyword_access(&["a", "b"]),
            QueryCmd::ListValues
        ])
    );

    assert_eq!(
        run_parse("{ a := xyz; b := testExpr.Abc }"),
        QueryCmd::TransformIntoObject(vec![
            ("a".to_string(), QueryCmd::keyword_access(&["xyz"])),
            ("b".to_string(), QueryCmd::keyword_access(&["testExpr", "Abc"]))
        ])
    );

    assert_eq!(
        run_parse("Records | [0] | Details | [0]  | LastDate = \"2020-04-24T00:00:00Z\""),
        QueryCmd::MultiCmd(vec![
            QueryCmd::keyword_access(&["Records"]),
            QueryCmd::ArrayIndexAccess(vec![0]),
            QueryCmd::keyword_access(&["Details"]),
            QueryCmd::ArrayIndexAccess(vec![0]),
            QueryCmd::filter_cmd(
                QueryCmd::keyword_access(&["LastDate"]),
                "=",
                "2020-04-24T00:00:00Z"
            )
        ])
    );

    assert_eq!(
        run_parse("LastDate = \"2020\""),
        QueryCmd::filter_cmd(QueryCmd::keyword_access(&["LastDate"]), "=", "2020")
    );

    assert_eq!(
        run_parse("Clicks = 7"),
        QueryCmd::filter_cmd(QueryCmd::keyword_access(&["Clicks"]), "=", "7")
    );

    assert_eq!(
        run_parse("Clicks > 0"),
        QueryCmd::filter_cmd(QueryCmd::keyword_access(&["Clicks"]), ">", "0")
    );

    assert_eq!(
        run_parse("CTR < 0.1"),
        QueryCmd::filter_cmd(QueryCmd::keyword_access(&["CTR"]), "<", "0.1")
    );
}

#[test]
fn parse_reports_where_it_stopped() {
    let e = parse("a | [1, x]").err().expect("no query");
    assert_eq!(e.position, 8);
    assert_eq!(e.offending, "x]");

    let e = parse("a b").err().expect("no query");
    assert_eq!(e.position, 2);
    assert_eq!(e.offending, "b");

    let e = parse("").err().expect("no query");
    assert_eq!(e.position, 0);
    assert_eq!(e.offending, "");
}

#[test]
fn parse_accepts_blanks_between_tokens() {
    assert_eq!(
        run_parse("  [ 1 , 2 ]  |  a . b  "),
        QueryCmd::MultiCmd(vec![
            QueryCmd::ArrayIndexAccess(vec![1, 2]),
            QueryCmd::keyword_access(&["a", "b"])
        ])
    );
    assert_eq!(run_parse("[ 3 .. 5 ]"), QueryCmd::ArrayIndexAccess(vec![3, 4]));
}

#[test]
fn parse_identifiers_take_dash_underscore_and_question_mark() {
    assert_eq!(run_parse("is-open?.a_b"), QueryCmd::keyword_access(&["is-open?", "a_b"]));
}

#[test]
fn parse_object_with_and_without_last_semicolon() {
    let expected = QueryCmd::TransformIntoObject(vec![
        ("x".to_string(), QueryCmd::keyword_access(&["a"])),
        ("y".to_string(), QueryCmd::keyword_access(&["b"])),
    ]);
    assert_eq!(run_parse("{x := a; y := b}"), expected);
    assert_eq!(run_parse("{x := a; y := b;}"), expected);
    assert_eq!(run_parse("{}"), QueryCmd::TransformIntoObject(vec![]));
    assert_eq!(parse("{x := a y := b}").is_err(), true);
    assert_eq!(parse("{x := a").is_err(), true);
}

#[test]
fn parse_object_property_may_be_a_pipeline() {
    assert_eq!(
        run_parse("{n := items | .count}"),
        QueryCmd::TransformIntoObject(vec![(
            "n".to_string(),
            QueryCmd::MultiCmd(vec![QueryCmd::keyword_access(&["items"]), QueryCmd::Count])
        )])
    );
}

#[test]
fn parse_calls() {
    assert_eq!(
        run_parse("sum(values)"),
        QueryCmd::Call("sum".to_string(), vec![QueryCmd::keyword_access(&["values"])])
    );
    assert_eq!(
        run_parse("groupBy(., g)"),
        QueryCmd::Call(
            "groupBy".to_string(),
            vec![QueryCmd::KeywordAccess(vec![]), QueryCmd::keyword_access(&["g"])]
        )
    );
    assert_eq!(run_parse("max()"), QueryCmd::Call("max".to_string(), vec![]));
    assert_eq!(parse("sum(a,)").is_err(), true);
    assert_eq!(parse("sum(a").is_err(), true);
}

#[test]
fn parse_filter_literals() {
    assert_eq!(
        run_parse("t < -1.5e3"),
        QueryCmd::filter_cmd(QueryCmd::keyword_access(&["t"]), "<", "-1.5e3")
    );
    assert_eq!(
        run_parse("name = \"\""),
        QueryCmd::filter_cmd(QueryCmd::keyword_access(&["name"]), "=", "")
    );
    assert_eq!(parse("name = Adam").is_err(), true);
    assert_eq!(parse("name = \"Adam").is_err(), true);
    assert_eq!(parse("name == 1").is_err(), true);
}

#[test]
fn parse_rejects_what_is_no_query() {
    assert_eq!(parse("").is_err(), true);
    assert_eq!(parse("   ").is_err(), true);
    assert_eq!(parse("a |").is_err(), true);
    assert_eq!(parse("| a").is_err(), true);
    assert_eq!(parse(".values").is_err(), true);
    assert_eq!(parse("[1..]").is_err(), true);
    assert_eq!(parse("[1,]").is_err(), true);
    assert_eq!(parse("[99999999999999999999999999]").is_err(), true);
    assert_eq!(parse("a.").is_err(), true);
}

#[test]
fn parse_empty_range_selects_nothing() {
    assert_eq!(run_parse("[7..7]"), QueryCmd::ArrayIndexAccess(vec![]));
    assert_eq!(run_parse("[8..7]"), QueryCmd::ArrayIndexAccess(vec![]));
    assert_eq!(run_parse("[7..8]"), QueryCmd::ArrayIndexAccess(vec![7]));
}

#[test]
fn parse_cmd_gives_the_fixed_message() {
    assert_eq!(parse_cmd(&"[1".to_string()), Err("Failing now"));
    assert_eq!(parse_cmd(&".keys".to_string()), Ok(QueryCmd::ListKeys));
}

#[test]
fn parser_type_reads_like_the_function() {
    assert_eq!(JQRParser::parse("a.b").ok(), parse("a.b").ok());
    assert_eq!(JQRParser::parse("}").is_err(), true);
}

#[test]
fn parse_err_holds_the_message() {
    let e = parse_err("Empty top level parse result");
    assert_eq!(e.message, "Empty top level parse result");
    assert_eq!(e.position, 0);
}

#[test]
fn query_equality_is_structural() {
    assert_ne!(run_parse("a.b"), run_parse("a"));
    assert_ne!(run_parse("a = 1"), run_parse("a > 1"));
    assert_ne!(run_parse("[1,2]"), run_parse("[2,1]"));
    assert_ne!(run_parse(".keys"), run_parse(".vals"));
    assert_eq!(run_parse("f(a, b)"), run_parse("f( a ,b )"));
    assert_ne!(run_parse("f(a, b)"), run_parse("g(a, b)"));
}
