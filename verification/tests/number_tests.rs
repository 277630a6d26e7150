use jqr::aggregate::{apply_aggregate, avg, flatten, max, min, numbers, sort, sum};
use jqr::number::{Comparison, Decimal, Number};
use jqr::semantics::EvalError;
use jqr::text::{chars_of, natural_text};
use jqr::value::Value;

fn dec(negative: bool, mantissa: u64, exponent: i32) -> Decimal {
    Decimal { negative, mantissa, exponent }
}

fn float(negative: bool, mantissa: u64, exponent: i32) -> Number {
    Number::Floating(dec(negative, mantissa, exponent))
}

fn read(text: &str) -> Number {
    Number::parse(text).expect("a number")
}

#[test]
fn number_text_is_read_exactly() {
    assert_eq!(Number::parse("0"), Some(Number::Integral(0)));
    assert_eq!(Number::parse("-0"), Some(Number::Integral(0)));
    assert_eq!(Number::parse("007"), Some(Number::Integral(7)));
    assert_eq!(Number::parse("-42"), Some(Number::Integral(-42)));
    assert_eq!(Number::parse("9223372036854775807"), Some(Number::Integral(i64::MAX)));
    assert_eq!(Number::parse("-9223372036854775808"), Some(Number::Integral(i64::MIN)));
    assert_eq!(
        Number::parse("9223372036854775808"),
        Some(float(false, 9223372036854775808, 0))
    );
    assert_eq!(
        Number::parse("-9223372036854775809"),
        Some(float(true, 9223372036854775809, 0))
    );
    assert_eq!(Number::parse("18446744073709551615"), Some(float(false, u64::MAX, 0)));
    assert_eq!(Number::parse("18446744073709551616"), None);
    assert_eq!(Number::parse("3223.0"), Some(float(false, 32230, -1)));
    assert_eq!(Number::parse("1500.5"), Some(float(false, 15005, -1)));
    assert_eq!(Number::parse("-0.001"), Some(float(true, 1, -3)));
    assert_eq!(Number::parse("1e3"), Some(float(false, 1, 3)));
    assert_eq!(Number::parse("1E+3"), Some(float(false, 1, 3)));
    assert_eq!(Number::parse("12.5e-3"), Some(float(false, 125, -4)));
    assert_eq!(Number::parse("0.0"), Some(float(false, 0, -1)));
    assert_eq!(Number::parse("-0.0"), Some(float(true, 0, -1)));
    assert_eq!(Number::parse("1e2147483647"), Some(float(false, 1, i32::MAX)));
    assert_eq!(Number::parse("1e-2147483648"), Some(float(false, 1, i32::MIN)));
    assert_eq!(Number::parse("1e-2147483649"), None);
    assert_eq!(Number::parse("1.5e-2147483648"), None);
    assert_eq!(Number::parse("1e2147483648"), None);
    assert_eq!(Number::parse("1.5e-2147483647"), Some(float(false, 15, i32::MIN)));
    assert_eq!(Number::parse("1.55e-2147483647"), None);
}

#[test]
fn number_text_that_is_no_number() {
    for text in [
        "", "-", ".", "1.", ".5", "1e", "1e+", "e5", "+1", "1 ", " 1", "1,5", "--1", "1.2.3",
        "1e5.5", "abc", "0x10", "1_000", "1e--5", "NaN", "Infinity",
    ] {
        assert_eq!(Number::parse(text), None, "{:?}", text);
    }
    let chars: Vec<char> = "12".chars().collect();
    assert_eq!(Number::from_chars(&chars), Some(Number::Integral(12)));
}

#[test]
fn decimals_compare_by_value() {
    let table = [
        ("1.5", "1.50", Comparison::Equal),
        ("1.5", "1.51", Comparison::Less),
        ("2", "1.999999", Comparison::Greater),
        ("-1", "1", Comparison::Less),
        ("-1.5", "-1.25", Comparison::Less),
        ("-2", "-3.5", Comparison::Greater),
        ("0.0", "-0.0", Comparison::Equal),
        ("0", "0e99", Comparison::Equal),
        ("0e-99", "1e-99", Comparison::Less),
        ("1e30", "1e29", Comparison::Greater),
        ("1e30", "10e29", Comparison::Equal),
        ("1e19", "18446744073709551615", Comparison::Less),
        ("1e20", "18446744073709551615", Comparison::Greater),
        ("1e-30", "1", Comparison::Less),
        ("-1e30", "5", Comparison::Less),
        ("-1e-30", "0", Comparison::Less),
        ("1e2147483647", "1e-2147483647", Comparison::Greater),
        ("123456789e-3", "123456.789", Comparison::Equal),
        ("100e-2", "1", Comparison::Equal),
    ];
    for (a, b, expected) in table {
        assert_eq!(read(a).compare(&read(b)), expected, "{} {}", a, b);
        let back = match expected {
            Comparison::Less => Comparison::Greater,
            Comparison::Equal => Comparison::Equal,
            Comparison::Greater => Comparison::Less,
        };
        assert_eq!(read(b).compare(&read(a)), back, "{} {}", b, a);
    }
    assert_eq!(Decimal::from_integer(i64::MIN), dec(true, 9223372036854775808, 0));
    assert_eq!(Decimal::from_integer(-5), dec(true, 5, 0));
    assert_eq!(Decimal::from_integer(0), dec(false, 0, 0));
    assert_eq!(Number::Integral(7).to_decimal(), dec(false, 7, 0));
    assert_eq!(dec(false, 5, -1).compare(&dec(false, 50, -2)), Comparison::Equal);
}

#[test]
fn sums_are_exact_or_refused() {
    assert_eq!(read("1").plus(&read("2")), Some(read("3")));
    assert_eq!(read("-1").plus(&read("1")), Some(read("0")));
    assert_eq!(Number::Integral(i64::MAX).plus(&read("1")), None);
    assert_eq!(Number::Integral(i64::MIN).plus(&read("-1")), None);
    assert_eq!(read("1").plus(&read("0.5")), Some(float(false, 15, -1)));
    assert_eq!(read("0.1").plus(&read("0.2")), Some(float(false, 3, -1)));
    assert_eq!(read("1.5").plus(&read("2.5")), Some(float(false, 40, -1)));
    assert_eq!(read("1.5").plus(&read("-1.5")), Some(float(false, 0, -1)));
    assert_eq!(read("-1.5").plus(&read("0.25")), Some(float(true, 125, -2)));
    assert_eq!(read("1e3").plus(&read("1")), Some(float(false, 1001, 0)));
    assert_eq!(read("1e30").plus(&read("1")), None);
    assert_eq!(read("0e30").plus(&read("1.5")), Some(float(false, 15, -1)));
    assert_eq!(read("18446744073709551615").plus(&read("1.0")), None);
    assert_eq!(
        dec(false, u64::MAX, 0).plus(&dec(true, u64::MAX, 0)),
        Some(dec(false, 0, 0))
    );
    assert_eq!(dec(false, u64::MAX, 0).plus(&dec(false, 1, 0)), None);
}

#[test]
fn quotients_keep_six_more_places() {
    assert_eq!(dec(false, 3, 0).divided(2), Some(dec(false, 15, -1)));
    assert_eq!(dec(false, 7, 0).divided(3), Some(dec(false, 2333333, -6)));
    assert_eq!(dec(true, 7, 0).divided(3), Some(dec(true, 2333333, -6)));
    assert_eq!(dec(false, 6, 0).divided(3), Some(dec(false, 2, 0)));
    assert_eq!(dec(false, 55, -1).divided(5), Some(dec(false, 11, -1)));
    assert_eq!(dec(false, 1, 0).divided(10000000), Some(dec(false, 0, 0)));
    assert_eq!(dec(true, 1, 0).divided(10000000), Some(dec(false, 0, 0)));
    assert_eq!(dec(false, 5, 3).divided(2), Some(dec(false, 2500, 0)));
    assert_eq!(dec(false, 5, 9).divided(2), Some(dec(false, 2500000, 3)));
    assert_eq!(dec(false, 5, 0).divided(0), None);
    assert_eq!(dec(false, u64::MAX, 0).divided(1), None);
    assert_eq!(dec(false, 1, i32::MIN + 5).divided(1), None);
    assert_eq!(dec(false, 1, i32::MIN + 6).divided(1), Some(dec(false, 1, i32::MIN + 6)));
    assert_eq!(dec(false, 1, i32::MIN + 6).divided(3), Some(dec(false, 333333, i32::MIN)));
}

#[test]
fn trimming_drops_zeros_of_the_fraction_only() {
    assert_eq!(dec(false, 1500, -3).trim(), dec(false, 15, -1));
    assert_eq!(dec(false, 1500, -1).trim(), dec(false, 150, 0));
    assert_eq!(dec(false, 1500, 2).trim(), dec(false, 1500, 2));
    assert_eq!(dec(true, 0, -4).trim(), dec(true, 0, 0));
    assert_eq!(dec(false, 15, -1).trim(), dec(false, 15, -1));
}

#[test]
fn numbers_are_written_in_digits() {
    let table = [
        ("0", "0"),
        ("-42", "-42"),
        ("-9223372036854775808", "-9223372036854775808"),
        ("3223.0", "3223.0"),
        ("1500.5", "1500.5"),
        ("-0.001", "-0.001"),
        ("0.5", "0.5"),
        ("0.0", "0.0"),
        ("1e3", "1000.0"),
        ("12e16", "120000000000000000.0"),
        ("12e17", "12e17"),
        ("12e21", "12e21"),
        ("12.5e-3", "0.0125"),
        ("1e-20", "0.00000000000000000001"),
        ("1e-21", "1e-21"),
        ("123e-21", "123e-21"),
        ("1234567e-3", "1234.567"),
        ("18446744073709551615", "18446744073709551615e0"),
        ("123456789012345678.0", "123456789012345678.0"),
    ];
    for (text, written) in table {
        assert_eq!(read(text).to_text(), written, "{}", text);
    }
    assert_eq!(float(false, 0, 0).to_text(), "0.0");
    assert_eq!(float(true, 70, -1).to_text(), "-7.0");
    assert_eq!(float(false, 1, i32::MIN).to_text(), "1e-2147483648");
    assert_eq!(float(false, 1, i32::MAX).to_text(), "1e2147483647");
}

#[test]
fn written_numbers_read_back_to_the_same_value() {
    for text in [
        "0", "-7", "0.5", "-12.25", "1e25", "1e-25", "123456.789", "5e20", "5e-20", "5e17",
        "5e18", "18446744073709551615", "1844674407370955161.5", "-0.0", "1e2147483647",
        "1e-2147483647", "1e-2147483648", "0.00000000000000000001",
        "1.8446744073709551615e30",
    ] {
        let n = read(text);
        let again = read(&n.to_text());
        assert_eq!(n.compare(&again), Comparison::Equal, "{}", text);
        assert_eq!(
            matches!(n, Number::Integral(_)),
            matches!(again, Number::Integral(_)),
            "{}",
            text
        );
    }
}

#[test]
fn natural_numbers_in_digits() {
    assert_eq!(natural_text(0), "0");
    assert_eq!(natural_text(9), "9");
    assert_eq!(natural_text(10), "10");
    assert_eq!(natural_text(1234567890), "1234567890");
    assert_eq!(natural_text(u64::MAX), "18446744073709551615");
    assert_eq!(chars_of("a\u{e9}z"), vec!['a', '\u{e9}', 'z']);
    assert_eq!(chars_of(""), Vec::<char>::new());
}

#[test]
fn aggregate_functions_on_sequences() {
    let ns = vec![read("3"), read("1.5"), read("-2"), read("3.0"), read("3")];
    assert_eq!(sum(&ns), Some(read("8.5")));
    assert_eq!(min(&ns), Some(read("-2")));
    assert_eq!(max(&ns), Some(read("3")));
    assert_eq!(sort(&ns), vec![read("-2"), read("1.5"), read("3"), read("3.0"), read("3")]);
    assert_eq!(avg(&ns), Some(read("1.7")));
    assert_eq!(sum(&vec![]), Some(Number::Integral(0)));
    assert_eq!(min(&vec![]), None);
    assert_eq!(max(&vec![]), None);
    assert_eq!(avg(&vec![]), None);
    assert_eq!(sort(&vec![]), Vec::<Number>::new());
    let ties = vec![read("2.0"), read("2"), read("2.00")];
    assert_eq!(min(&ties), Some(read("2.0")));
    assert_eq!(max(&ties), Some(read("2.0")));
    assert_eq!(sort(&ties), ties);
    assert_eq!(sum(&vec![Number::Integral(i64::MAX), read("1"), read("-1")]), None);
}

#[test]
fn values_are_flattened_one_level_at_a_time() {
    let one = Value::integer(1);
    let nested = Value::array(vec![
        Value::integer(2),
        Value::array(vec![Value::integer(3), Value::array(vec![Value::integer(4)])]),
    ]);
    let once = flatten(&vec![one.clone(), nested.clone(), Value::string("s")]);
    assert_eq!(
        once,
        vec![
            Value::integer(1),
            Value::integer(2),
            Value::array(vec![Value::integer(3), Value::array(vec![Value::integer(4)])]),
            Value::string("s"),
        ]
    );
    let twice = flatten(&once);
    assert_eq!(
        twice,
        vec![
            Value::integer(1),
            Value::integer(2),
            Value::integer(3),
            Value::array(vec![Value::integer(4)]),
            Value::string("s"),
        ]
    );
    assert_eq!(numbers(&twice), vec![read("1"), read("2"), read("3")]);
    assert_eq!(flatten(&vec![]), Vec::<Value>::new());
}

#[test]
fn aggregates_by_name() {
    let inputs = vec![Value::integer(4), Value::Null, Value::integer(6)];
    let call = |name: &str| apply_aggregate(&name.to_string(), &inputs);
    assert_eq!(call("sum"), Ok(Some(Value::integer(10))));
    assert_eq!(call("min"), Ok(Some(Value::integer(4))));
    assert_eq!(call("max"), Ok(Some(Value::integer(6))));
    assert_eq!(call("avg"), Ok(Some(Value::Number(float(false, 5, 0)))));
    assert_eq!(
        call("sort"),
        Ok(Some(Value::array(vec![Value::integer(4), Value::integer(6)])))
    );
    assert_eq!(call("Sum"), Err(EvalError::UnknownFunction));
    assert_eq!(call("groupBy"), Err(EvalError::UnknownFunction));
    assert_eq!(call(""), Err(EvalError::UnknownFunction));
}
