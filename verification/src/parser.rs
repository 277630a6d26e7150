//! The parser: reads query text into a syntax tree, as the grammar says.

use crate::ast::{models, named_models, texts, Query, QueryCmd};
use crate::grammar::{
    at, begins_with_query, ident_end, index_range, is_ident_char, is_number_char,
    lemma_ident_end, lemma_number_end, number_end, query_of_text, quote_end, read_arguments,
    read_comparison, read_dotted, read_expr, read_indices, read_literal, read_more_names,
    read_more_positions, read_more_steps, read_position, read_properties, read_single,
    spaces_end, Reading,
};
use crate::number::{is_digit, read_digits, scan_digits};
use crate::text::chars_of;
use vstd::prelude::*;

verus! {

/// Why a text is no query: a message, the position at which reading stopped,
/// and the text from that position on.
#[derive(Debug)]
pub struct ParseError {
    pub message: String,
    pub position: usize,
    pub offending: String,
}

/// The parser of query text.
pub struct JQRParser;

/// What the grammar gives where something was read.
pub open spec fn done<T>(read: (T, int)) -> Reading<T> {
    Ok(read)
}

/// Whether the grammar gave nothing, the text having stopped fitting at `p`.
pub open spec fn stops_at<T>(reading: Reading<T>, p: int) -> bool {
    reading == Err::<(T, int), int>(p)
}

/// The message for a text that is no query: one for a text that does not
/// begin with a query, and one for a text that goes on after one.
pub open spec fn failure_message(s: Seq<char>) -> Seq<char> {
    if begins_with_query(s) {
        "unexpected text after the query"@
    } else {
        "no expression fits the text here"@
    }
}

/// The end of the run of blanks that starts at `from`.
fn skip_spaces(chars: &Vec<char>, from: usize) -> (end: usize)
    requires
        from <= chars@.len(),
    ensures
        end == spaces_end(chars@, from as int),
        from <= end <= chars@.len(),
{
    let mut end: usize = from;
    while end < chars.len() && (chars[end] == ' ' || chars[end] == '\t' || chars[end] == '\n'
        || chars[end] == '\r')
        invariant
            from <= end <= chars@.len(),
            spaces_end(chars@, from as int) == spaces_end(chars@, end as int),
        decreases chars@.len() - end,
    {
        end += 1;
    }
    end
}

/// Whether `c` may stand in an identifier.
fn ident_char(c: char) -> (r: bool)
    ensures
        r == is_ident_char(c),
{
    ('a' <= c && c <= 'z') || ('A' <= c && c <= 'Z') || ('0' <= c && c <= '9') || c == '-' || c
        == '_' || c == '?'
}

/// Whether `c` is a digit.
fn digit_char(c: char) -> (r: bool)
    ensures
        r == is_digit(c),
{
    '0' <= c && c <= '9'
}

/// The end of the run of identifier characters that starts at `from`.
fn scan_ident(chars: &Vec<char>, from: usize) -> (end: usize)
    requires
        from <= chars@.len(),
    ensures
        end == ident_end(chars@, from as int),
        from <= end <= chars@.len(),
{
    let mut end: usize = from;
    while end < chars.len() && ident_char(chars[end])
        invariant
            from <= end <= chars@.len(),
            ident_end(chars@, from as int) == ident_end(chars@, end as int),
        decreases chars@.len() - end,
    {
        end += 1;
    }
    end
}

/// The end of the run of number characters that starts at `from`.
fn scan_number(chars: &Vec<char>, from: usize) -> (end: usize)
    requires
        from <= chars@.len(),
    ensures
        end == number_end(chars@, from as int),
        from <= end <= chars@.len(),
{
    let mut end: usize = from;
    while end < chars.len() && (digit_char(chars[end]) || chars[end] == '.' || chars[end] == 'e'
        || chars[end] == 'E' || chars[end] == '+' || chars[end] == '-')
        invariant
            from <= end <= chars@.len(),
            number_end(chars@, from as int) == number_end(chars@, end as int),
        decreases chars@.len() - end,
    {
        end += 1;
    }
    end
}

/// The position of the first `"` at or after `from`, or the end of the text.
fn scan_quote(chars: &Vec<char>, from: usize) -> (end: usize)
    requires
        from <= chars@.len(),
    ensures
        end == quote_end(chars@, from as int),
        from <= end <= chars@.len(),
{
    let mut end: usize = from;
    while end < chars.len() && chars[end] != '"'
        invariant
            from <= end <= chars@.len(),
            quote_end(chars@, from as int) == quote_end(chars@, end as int),
        decreases chars@.len() - end,
    {
        end += 1;
    }
    end
}

/// Whether the character at `i` is `c`.
fn is_at(chars: &Vec<char>, i: usize, c: char) -> (r: bool)
    ensures
        r == at(chars@, i as int, c),
        r ==> i < chars@.len() <= usize::MAX,
{
    i < chars.len() && chars[i] == c
}

/// The text between two positions as a string.
fn slice(text: &str, chars: &Vec<char>, from: usize, to: usize) -> (r: String)
    requires
        chars@ == text@,
        from <= to <= chars@.len(),
    ensures
        r@ == chars@.subrange(from as int, to as int),
{
    text.substring_char(from, to).to_owned()
}

/// Whether the characters at `from..to` spell `word`.
fn spells(chars: &Vec<char>, from: usize, to: usize, word: &Vec<char>) -> (r: bool)
    requires
        from <= to <= chars@.len(),
    ensures
        r == (chars@.subrange(from as int, to as int) =~= word@),
{
    if to - from != word.len() {
        return false;
    }
    let mut k: usize = 0;
    while k < word.len()
        invariant
            from <= to <= chars@.len(),
            to - from == word@.len(),
            k <= word@.len(),
            forall|j: int| 0 <= j < k ==> chars@[from + j] == word@[j],
        decreases word@.len() - k,
    {
        if chars[from + k] != word[k] {
            assert(chars@.subrange(from as int, to as int)[k as int] != word@[k as int]);
            return false;
        }
        k += 1;
    }
    true
}

/// The positions `from..to`, in order; none where `from >= to`.
pub fn positions_between(from: usize, to: usize) -> (r: Vec<usize>)
    ensures
        r@ == index_range(from, to),
        from >= to ==> r@.len() == 0,
{
    let mut r: Vec<usize> = Vec::new();
    let mut i: usize = from;
    while i < to
        invariant
            from <= i,
            from < to ==> i <= to,
            from >= to ==> i == from,
            r@.len() == i - from,
            forall|k: int| 0 <= k < r@.len() ==> r@[k] == from + k,
        decreases to - i,
    {
        r.push(i);
        i += 1;
    }
    assert(r@.len() == (if to > from {
        to - from
    } else {
        0
    }));
    assert(r@ =~= index_range(from, to));
    r
}

/// A natural number written in digits at `i`, after blanks.
fn parse_position(chars: &Vec<char>, i: usize) -> (r: Result<(usize, usize), usize>)
    requires
        i <= chars@.len(),
    ensures
        match r {
            Ok((n, e)) => read_position(chars@, i as int) == done((n, e as int)) && i < e
                <= chars@.len(),
            Err(p) => stops_at(read_position(chars@, i as int), p as int) && p <= chars@.len(),
        },
{
    let start = skip_spaces(chars, i);
    let end = scan_digits(chars, start);
    if start == end {
        return Err(start);
    }
    match read_digits(chars, start, end, 0) {
        Some(v) => {
            if v <= usize::MAX as u64 {
                Ok((v as usize, end))
            } else {
                Err(start)
            }
        },
        None => Err(start),
    }
}

/// The rest of a list of positions, up to its `]`.
fn parse_more_positions(chars: &Vec<char>, i: usize, first: usize) -> (r: Result<
    (Vec<usize>, usize),
    usize,
>)
    requires
        i <= chars@.len(),
    ensures
        match r {
            Ok((idxs, e)) => read_more_positions(chars@, i as int, seq![first]) == done(
                (idxs@, e as int),
            ) && i < e <= chars@.len(),
            Err(p) => stops_at(read_more_positions(chars@, i as int, seq![first]), p as int) && p
                <= chars@.len(),
        },
{
    let mut acc: Vec<usize> = Vec::new();
    acc.push(first);
    let mut pos: usize = i;
    assert(acc@ =~= seq![first]);
    loop
        invariant
            i <= pos <= chars@.len(),
            read_more_positions(chars@, pos as int, acc@) == read_more_positions(
                chars@,
                i as int,
                seq![first],
            ),
        decreases chars@.len() - pos,
    {
        let p = skip_spaces(chars, pos);
        if is_at(chars, p, ']') {
            return Ok((acc, p + 1));
        }
        if !is_at(chars, p, ',') {
            return Err(p);
        }
        match parse_position(chars, p + 1) {
            Ok((n, e)) => {
                acc.push(n);
                pos = e;
            },
            Err(q) => {
                return Err(q);
            },
        }
    }
}

/// An index access after its `[`.
fn parse_indices(chars: &Vec<char>, i: usize) -> (r: Result<(QueryCmd, usize), usize>)
    requires
        i <= chars@.len(),
    ensures
        match r {
            Ok((q, e)) => read_indices(chars@, i as int) == done((q@, e as int)) && i < e
                <= chars@.len(),
            Err(p) => stops_at(read_indices(chars@, i as int), p as int) && p <= chars@.len(),
        },
{
    let (first, e) = match parse_position(chars, i) {
        Ok(found) => found,
        Err(p) => {
            return Err(p);
        },
    };
    let p = skip_spaces(chars, e);
    if is_at(chars, p, '.') && is_at(chars, p + 1, '.') {
        let (second, e2) = match parse_position(chars, p + 2) {
            Ok(found) => found,
            Err(q) => {
                return Err(q);
            },
        };
        let close = skip_spaces(chars, e2);
        if is_at(chars, close, ']') {
            let q = QueryCmd::ArrayIndexAccess(positions_between(first, second));
            proof {
                q.lemma_model();
            }
            Ok((q, close + 1))
        } else {
            Err(close)
        }
    } else {
        match parse_more_positions(chars, e, first) {
            Ok((idxs, end)) => {
                let q = QueryCmd::ArrayIndexAccess(idxs);
                proof {
                    q.lemma_model();
                }
                Ok((q, end))
            },
            Err(q) => Err(q),
        }
    }
}

/// What follows the `.` at `i`.
fn parse_dotted(chars: &Vec<char>, i: usize) -> (r: Result<(QueryCmd, usize), usize>)
    requires
        i < chars@.len() <= usize::MAX,
    ensures
        match r {
            Ok((q, e)) => read_dotted(chars@, i as int) == done((q@, e as int)) && i < e
                <= chars@.len(),
            Err(p) => stops_at(read_dotted(chars@, i as int), p as int) && p <= chars@.len(),
        },
{
    let e = scan_ident(chars, i + 1);
    let vals: Vec<char> = vec!['v', 'a', 'l', 's'];
    let keys: Vec<char> = vec!['k', 'e', 'y', 's'];
    let count: Vec<char> = vec!['c', 'o', 'u', 'n', 't'];
    assert(vals@ =~= seq!['v', 'a', 'l', 's']);
    assert(keys@ =~= seq!['k', 'e', 'y', 's']);
    assert(count@ =~= seq!['c', 'o', 'u', 'n', 't']);
    if spells(chars, i + 1, e, &vals) {
        Ok((QueryCmd::ListValues, e))
    } else if spells(chars, i + 1, e, &keys) {
        Ok((QueryCmd::ListKeys, e))
    } else if spells(chars, i + 1, e, &count) {
        Ok((QueryCmd::Count, e))
    } else if e == i + 1 {
        let q = QueryCmd::KeywordAccess(Vec::new());
        proof {
            q.lemma_model();
            assert(texts(Seq::<String>::empty()) =~= Seq::<Seq<char>>::empty());
        }
        Ok((q, e))
    } else {
        Err(i + 1)
    }
}

/// The rest of a path: `.` and a name, any number of times.
fn parse_more_names(text: &str, chars: &Vec<char>, i: usize, acc: Vec<String>) -> (r: Result<
    (Vec<String>, usize),
    usize,
>)
    requires
        chars@ == text@,
        i <= chars@.len(),
    ensures
        match r {
            Ok((names, e)) => read_more_names(chars@, i as int, texts(acc@)) == done(
                (texts(names@), e as int),
            ) && i <= e <= chars@.len(),
            Err(p) => stops_at(read_more_names(chars@, i as int, texts(acc@)), p as int) && p
                <= chars@.len(),
        },
    decreases chars@.len() - i,
{
    let p = skip_spaces(chars, i);
    if is_at(chars, p, '.') {
        let start = skip_spaces(chars, p + 1);
        let end = scan_ident(chars, start);
        if start < end {
            let ghost before = texts(acc@);
            let mut acc = acc;
            acc.push(slice(text, chars, start, end));
            assert(texts(acc@) =~= before.push(chars@.subrange(start as int, end as int)));
            parse_more_names(text, chars, end, acc)
        } else {
            Err(start)
        }
    } else {
        Ok((acc, i))
    }
}

/// The literal of a filter at `i`, after blanks.
fn parse_literal(text: &str, chars: &Vec<char>, i: usize) -> (r: Result<(String, usize), usize>)
    requires
        chars@ == text@,
        i <= chars@.len(),
    ensures
        match r {
            Ok((literal, e)) => read_literal(chars@, i as int) == done((literal@, e as int))
                && i < e <= chars@.len(),
            Err(p) => stops_at(read_literal(chars@, i as int), p as int) && p <= chars@.len(),
        },
{
    let p = skip_spaces(chars, i);
    if is_at(chars, p, '"') {
        let close = scan_quote(chars, p + 1);
        if is_at(chars, close, '"') {
            Ok((slice(text, chars, p + 1, close), close + 1))
        } else {
            Err(close)
        }
    } else if (p < chars.len() && digit_char(chars[p])) || (is_at(chars, p, '-') && p + 1
        < chars.len() && digit_char(chars[p + 1])) {
        let end = scan_number(chars, p);
        proof {
            assert(is_number_char(chars@[p as int]));
            lemma_number_end(chars@, p + 1);
        }
        Ok((slice(text, chars, p, end), end))
    } else {
        Err(p)
    }
}

/// What follows a path whose names are read: an operator and a literal make
/// it a filter on that path; anything else leaves it the path.
fn parse_comparison(text: &str, chars: &Vec<char>, i: usize, names: Vec<String>) -> (r: Result<
    (QueryCmd, usize),
    usize,
>)
    requires
        chars@ == text@,
        i <= chars@.len(),
    ensures
        match r {
            Ok((q, e)) => read_comparison(chars@, i as int, texts(names@)) == done(
                (q@, e as int),
            ) && i <= e <= chars@.len(),
            Err(p) => stops_at(read_comparison(chars@, i as int, texts(names@)), p as int) && p
                <= chars@.len(),
        },
{
    let ghost path = texts(names@);
    let p = skip_spaces(chars, i);
    if is_at(chars, p, '=') || is_at(chars, p, '>') || is_at(chars, p, '<') {
        match parse_literal(text, chars, p + 1) {
            Ok((literal, end)) => {
                let op = slice(text, chars, p, p + 1);
                assert(op@ =~= seq![chars@[p as int]]);
                let inner = QueryCmd::KeywordAccess(names);
                proof {
                    inner.lemma_model();
                }
                let q = QueryCmd::FilterCmd(Box::new(inner), op, literal);
                proof {
                    q.lemma_model();
                }
                Ok((q, end))
            },
            Err(q) => Err(q),
        }
    } else {
        let q = QueryCmd::KeywordAccess(names);
        proof {
            q.lemma_model();
        }
        Ok((q, i))
    }
}

/// One expression at `i`, after blanks.
fn parse_single(text: &str, chars: &Vec<char>, i: usize) -> (r: Result<(QueryCmd, usize), usize>)
    requires
        chars@ == text@,
        i <= chars@.len(),
    ensures
        match r {
            Ok((q, e)) => read_single(chars@, i as int) == done((q@, e as int)) && i < e
                <= chars@.len(),
            Err(p) => stops_at(read_single(chars@, i as int), p as int) && p <= chars@.len(),
        },
    decreases chars@.len() - i, 0int,
{
    let p = skip_spaces(chars, i);
    if is_at(chars, p, '{') {
        match parse_properties(text, chars, p + 1, Vec::new()) {
            Ok((props, end)) => {
                let q = QueryCmd::TransformIntoObject(props);
                proof {
                    q.lemma_model();
                    assert(named_models(Seq::<(String, QueryCmd)>::empty()) =~= Seq::<
                        (Seq<char>, Query),
                    >::empty());
                }
                Ok((q, end))
            },
            Err(q) => {
                proof {
                    assert(named_models(Seq::<(String, QueryCmd)>::empty()) =~= Seq::<
                        (Seq<char>, Query),
                    >::empty());
                }
                Err(q)
            },
        }
    } else if is_at(chars, p, '[') {
        parse_indices(chars, p + 1)
    } else if is_at(chars, p, '.') {
        parse_dotted(chars, p)
    } else if p < chars.len() && ident_char(chars[p]) {
        let e = scan_ident(chars, p);
        proof {
            lemma_ident_end(chars@, p + 1);
        }
        let open = skip_spaces(chars, e);
        let name = slice(text, chars, p, e);
        if is_at(chars, open, '(') {
            proof {
                assert(models(Seq::<QueryCmd>::empty()) =~= Seq::<Query>::empty());
            }
            match parse_arguments(text, chars, open + 1, Vec::new()) {
                Ok((args, end)) => {
                    let q = QueryCmd::Call(name, args);
                    proof {
                        q.lemma_model();
                    }
                    Ok((q, end))
                },
                Err(q) => Err(q),
            }
        } else {
            let mut first: Vec<String> = Vec::new();
            first.push(name);
            assert(texts(first@) =~= seq![chars@.subrange(p as int, e as int)]);
            match parse_more_names(text, chars, e, first) {
                Ok((names, end)) => parse_comparison(text, chars, end, names),
                Err(q) => Err(q),
            }
        }
    } else {
        Err(p)
    }
}

/// The rest of a pipeline: `|` and an expression, any number of times.
fn parse_more_steps(text: &str, chars: &Vec<char>, i: usize, acc: Vec<QueryCmd>) -> (r: Result<
    (Vec<QueryCmd>, usize),
    usize,
>)
    requires
        chars@ == text@,
        i <= chars@.len(),
    ensures
        match r {
            Ok((steps, e)) => read_more_steps(chars@, i as int, models(acc@)) == done(
                (models(steps@), e as int),
            ) && i <= e <= chars@.len() && steps@.len() >= acc@.len(),
            Err(p) => stops_at(read_more_steps(chars@, i as int, models(acc@)), p as int) && p
                <= chars@.len(),
        },
    decreases chars@.len() - i, 0int,
{
    let p = skip_spaces(chars, i);
    if is_at(chars, p, '|') {
        match parse_single(text, chars, p + 1) {
            Ok((step, e)) => {
                let ghost before = models(acc@);
                let mut acc = acc;
                acc.push(step);
                assert(models(acc@) =~= before.push(step@));
                parse_more_steps(text, chars, e, acc)
            },
            Err(q) => Err(q),
        }
    } else {
        Ok((acc, i))
    }
}

/// A pipeline at `i`: one expression, or several with `|` between them.
fn parse_expr(text: &str, chars: &Vec<char>, i: usize) -> (r: Result<(QueryCmd, usize), usize>)
    requires
        chars@ == text@,
        i <= chars@.len(),
    ensures
        match r {
            Ok((q, e)) => read_expr(chars@, i as int) == done((q@, e as int)) && i < e
                <= chars@.len(),
            Err(p) => stops_at(read_expr(chars@, i as int), p as int) && p <= chars@.len(),
        },
    decreases chars@.len() - i, 1int,
{
    match parse_single(text, chars, i) {
        Ok((first, e)) => {
            let mut acc: Vec<QueryCmd> = Vec::new();
            let ghost head = first@;
            acc.push(first);
            assert(models(acc@) =~= seq![head]);
            match parse_more_steps(text, chars, e, acc) {
                Ok((mut steps, end)) => {
                    if steps.len() == 1 {
                        assert(models(steps@)[0] == steps@[0]@);
                        match steps.pop() {
                            Some(only) => Ok((only, end)),
                            None => Err(end),
                        }
                    } else {
                        let q = QueryCmd::MultiCmd(steps);
                        proof {
                            q.lemma_model();
                        }
                        Ok((q, end))
                    }
                },
                Err(q) => Err(q),
            }
        },
        Err(q) => Err(q),
    }
}

/// The properties of an object after its `{` or after a `;`.
fn parse_properties(
    text: &str,
    chars: &Vec<char>,
    i: usize,
    acc: Vec<(String, QueryCmd)>,
) -> (r: Result<(Vec<(String, QueryCmd)>, usize), usize>)
    requires
        chars@ == text@,
        i <= chars@.len(),
    ensures
        match r {
            Ok((props, e)) => read_properties(chars@, i as int, named_models(acc@)) == done(
                (named_models(props@), e as int),
            ) && i < e <= chars@.len(),
            Err(p) => stops_at(read_properties(chars@, i as int, named_models(acc@)), p as int) && p
                <= chars@.len(),
        },
    decreases chars@.len() - i, 2int,
{
    let p = skip_spaces(chars, i);
    if is_at(chars, p, '}') {
        return Ok((acc, p + 1));
    }
    let e = scan_ident(chars, p);
    let gets = skip_spaces(chars, e);
    if p == e {
        return Err(p);
    }
    if is_at(chars, gets, ':') && is_at(chars, gets + 1, '=') {
        match parse_expr(text, chars, gets + 2) {
            Ok((value, e2)) => {
                let next = skip_spaces(chars, e2);
                let ghost before = named_models(acc@);
                let ghost model = value@;
                let mut props = acc;
                props.push((slice(text, chars, p, e), value));
                assert(named_models(props@) =~= before.push(
                    (chars@.subrange(p as int, e as int), model),
                ));
                if is_at(chars, next, '}') {
                    Ok((props, next + 1))
                } else if is_at(chars, next, ';') {
                    parse_properties(text, chars, next + 1, props)
                } else {
                    Err(next)
                }
            },
            Err(q) => Err(q),
        }
    } else {
        Err(gets)
    }
}

/// The arguments of a call after its `(` or after a `,`.
fn parse_arguments(text: &str, chars: &Vec<char>, i: usize, acc: Vec<QueryCmd>) -> (r: Result<
    (Vec<QueryCmd>, usize),
    usize,
>)
    requires
        chars@ == text@,
        i <= chars@.len(),
    ensures
        match r {
            Ok((args, e)) => read_arguments(chars@, i as int, models(acc@)) == done(
                (models(args@), e as int),
            ) && i < e <= chars@.len(),
            Err(p) => stops_at(read_arguments(chars@, i as int, models(acc@)), p as int) && p
                <= chars@.len(),
        },
    decreases chars@.len() - i, 2int,
{
    let p = skip_spaces(chars, i);
    if is_at(chars, p, ')') && acc.len() == 0 {
        return Ok((acc, p + 1));
    }
    match parse_expr(text, chars, p) {
        Ok((arg, e)) => {
            let next = skip_spaces(chars, e);
            let ghost before = models(acc@);
            let ghost model = arg@;
            let mut args = acc;
            args.push(arg);
            assert(models(args@) =~= before.push(model));
            if is_at(chars, next, ')') {
                Ok((args, next + 1))
            } else if is_at(chars, next, ',') {
                parse_arguments(text, chars, next + 1, args)
            } else {
                Err(next)
            }
        },
        Err(q) => Err(q),
    }
}

/// An error with the given message, at the start of an empty text.
pub fn parse_err(msg: &str) -> (r: ParseError)
    ensures
        r.message@ == msg@,
        r.position == 0,
        r.offending@ == Seq::<char>::empty(),
{
    ParseError { message: msg.to_owned(), position: 0, offending: String::new() }
}

impl JQRParser {
    /// Reads a query from its text.
    ///
    /// The result is the tree that the grammar gives for the whole text, and
    /// an error where the grammar gives none: the error holds the position at
    /// which the text stopped fitting, the text from there on, and a message.
    pub fn parse(input: &str) -> (r: Result<QueryCmd, ParseError>)
        ensures
            match r {
                Ok(q) => query_of_text(input@) == Ok::<Query, int>(q@),
                Err(e) => query_of_text(input@) == Err::<Query, int>(e.position as int)
                    && e.position <= input@.len() && e.offending@ == input@.skip(
                    e.position as int,
                ) && e.message@ == failure_message(input@),
            },
    {
        let chars = chars_of(input);
        let n = chars.len();
        match parse_expr(input, &chars, 0) {
            Ok((q, e)) => {
                let end = skip_spaces(&chars, e);
                if end == n {
                    Ok(q)
                } else {
                    let offending = slice(input, &chars, end, n);
                    assert(input@.subrange(end as int, n as int) =~= input@.skip(end as int));
                    Err(
                        ParseError {
                            message: "unexpected text after the query".to_owned(),
                            position: end,
                            offending,
                        },
                    )
                }
            },
            Err(p) => {
                let offending = slice(input, &chars, p, n);
                assert(input@.subrange(p as int, n as int) =~= input@.skip(p as int));
                Err(
                    ParseError {
                        message: "no expression fits the text here".to_owned(),
                        position: p,
                        offending,
                    },
                )
            },
        }
    }
}

/// Reads a query from its text, as [`JQRParser::parse`] does.
pub fn parse(input: &str) -> (r: Result<QueryCmd, ParseError>)
    ensures
        match r {
            Ok(q) => query_of_text(input@) == Ok::<Query, int>(q@),
            Err(e) => query_of_text(input@) == Err::<Query, int>(e.position as int)
                && e.position <= input@.len() && e.offending@ == input@.skip(e.position as int)
                && e.message@ == failure_message(input@),
        },
{
    JQRParser::parse(input)
}

/// Reads a query from its text; a text that is no query gives a fixed
/// message.
pub fn parse_cmd(cmd_str: &String) -> (r: Result<QueryCmd, &'static str>)
    ensures
        match r {
            Ok(q) => query_of_text(cmd_str@) == Ok::<Query, int>(q@),
            Err(msg) => query_of_text(cmd_str@) is Err && msg@ == "Failing now"@,
        },
{
    match parse(cmd_str.as_str()) {
        Ok(cmd) => Ok(cmd),
        Err(_) => Err("Failing now"),
    }
}

} // verus!
