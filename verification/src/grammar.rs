//! The grammar of query text, stated as functions on sequences of characters.
//!
//! ```text
//! expr      := single ("|" single)*
//! single    := object | dotted | indices | call | filter | path
//! object    := "{" (property (";" property)* ";"?)? "}"
//! property  := ident ":=" expr
//! dotted    := ".vals" | ".keys" | ".count" | "."
//! indices   := "[" (digits ".." digits | digits ("," digits)*) "]"
//! call      := ident "(" (expr ("," expr)*)? ")"
//! filter    := path ("=" | ">" | "<") (quoted | number)
//! path      := ident ("." ident)*
//! ```
//!
//! Blanks may stand between any two tokens. Every function here takes the
//! text and a position, and gives what it read together with the position
//! after it, or the position at which the text stopped fitting.

use crate::ast::Query;
use crate::number::{fold_digits, is_digit, run_end};
use vstd::prelude::*;

verus! {

/// What was read and the position after it, or the position at which the
/// text stopped fitting.
pub type Reading<T> = Result<(T, int), int>;

/// Whether `c` is a blank.
pub open spec fn is_space(c: char) -> bool {
    c == ' ' || c == '\t' || c == '\n' || c == '\r'
}

/// Whether `c` may stand in an identifier: a letter, a digit, `-`, `_` or `?`.
pub open spec fn is_ident_char(c: char) -> bool {
    ('a' <= c <= 'z') || ('A' <= c <= 'Z') || ('0' <= c <= '9') || c == '-' || c == '_' || c
        == '?'
}

/// Whether `c` may stand in a number literal.
pub open spec fn is_number_char(c: char) -> bool {
    ('0' <= c <= '9') || c == '.' || c == 'e' || c == 'E' || c == '+' || c == '-'
}

/// Whether the character at `i` is `c`.
pub open spec fn at(s: Seq<char>, i: int, c: char) -> bool {
    0 <= i < s.len() && s[i] == c
}

/// The end of the longest run of blanks that starts at `i`.
pub open spec fn spaces_end(s: Seq<char>, i: int) -> int
    decreases s.len() - i,
{
    if 0 <= i < s.len() && is_space(s[i]) {
        spaces_end(s, i + 1)
    } else {
        i
    }
}

/// The end of the longest run of identifier characters that starts at `i`.
pub open spec fn ident_end(s: Seq<char>, i: int) -> int
    decreases s.len() - i,
{
    if 0 <= i < s.len() && is_ident_char(s[i]) {
        ident_end(s, i + 1)
    } else {
        i
    }
}

/// The end of the longest run of number characters that starts at `i`.
pub open spec fn number_end(s: Seq<char>, i: int) -> int
    decreases s.len() - i,
{
    if 0 <= i < s.len() && is_number_char(s[i]) {
        number_end(s, i + 1)
    } else {
        i
    }
}

/// The position of the first `"` at or after `i`, or the end of the text.
pub open spec fn quote_end(s: Seq<char>, i: int) -> int
    decreases s.len() - i,
{
    if 0 <= i < s.len() && s[i] != '"' {
        quote_end(s, i + 1)
    } else {
        i
    }
}

/// A run of identifier characters ends at or after its start, within the text.
pub proof fn lemma_ident_end(s: Seq<char>, i: int)
    requires
        0 <= i <= s.len(),
    ensures
        i <= ident_end(s, i) <= s.len(),
    decreases s.len() - i,
{
    if i < s.len() && is_ident_char(s[i]) {
        lemma_ident_end(s, i + 1);
    }
}

/// A run of number characters ends at or after its start, within the text.
pub proof fn lemma_number_end(s: Seq<char>, i: int)
    requires
        0 <= i <= s.len(),
    ensures
        i <= number_end(s, i) <= s.len(),
    decreases s.len() - i,
{
    if i < s.len() && is_number_char(s[i]) {
        lemma_number_end(s, i + 1);
    }
}

/// The positions `from..to`, in order; none where `from >= to`.
pub open spec fn index_range(from: usize, to: usize) -> Seq<usize> {
    Seq::new(
        if to > from {
            (to - from) as nat
        } else {
            0
        },
        |k: int| (from + k) as usize,
    )
}

/// A natural number written in digits at `i`, after blanks, if it fits a
/// position.
pub open spec fn read_position(s: Seq<char>, i: int) -> Reading<usize> {
    let start = spaces_end(s, i);
    let end = run_end(s, start);
    let value = fold_digits(s.subrange(start, end), 0);
    if start < end && value <= usize::MAX {
        Ok((value as usize, end))
    } else {
        Err(start)
    }
}

/// The rest of a list of positions: `,` and a position, any number of times,
/// and then `]`.
pub open spec fn read_more_positions(s: Seq<char>, i: int, acc: Seq<usize>) -> Reading<
    Seq<usize>,
>
    decreases s.len() - i,
{
    let p = spaces_end(s, i);
    if at(s, p, ']') {
        Ok((acc, p + 1))
    } else if at(s, p, ',') {
        match read_position(s, p + 1) {
            Ok((n, e)) => if i < e <= s.len() {
                read_more_positions(s, e, acc.push(n))
            } else {
                Err(e)
            },
            Err(stop) => Err(stop),
        }
    } else {
        Err(p)
    }
}

/// An index access after its `[`: a range `from..to`, or a list of at least
/// one position.
pub open spec fn read_indices(s: Seq<char>, i: int) -> Reading<Query> {
    match read_position(s, i) {
        Ok((first, e)) => {
            let p = spaces_end(s, e);
            if at(s, p, '.') && at(s, p + 1, '.') {
                match read_position(s, p + 2) {
                    Ok((second, e2)) => {
                        let close = spaces_end(s, e2);
                        if at(s, close, ']') {
                            Ok((Query::Index(index_range(first, second)), close + 1))
                        } else {
                            Err(close)
                        }
                    },
                    Err(stop) => Err(stop),
                }
            } else {
                match read_more_positions(s, e, seq![first]) {
                    Ok((idxs, end)) => Ok((Query::Index(idxs), end)),
                    Err(stop) => Err(stop),
                }
            }
        },
        Err(stop) => Err(stop),
    }
}

/// What follows the `.` at `i`: `vals`, `keys` or `count` for the three
/// listings, and nothing at all for the empty path, which gives every value
/// back as it is.
pub open spec fn read_dotted(s: Seq<char>, i: int) -> Reading<Query> {
    let e = ident_end(s, i + 1);
    let word = s.subrange(i + 1, e);
    if word =~= seq!['v', 'a', 'l', 's'] {
        Ok((Query::ListValues, e))
    } else if word =~= seq!['k', 'e', 'y', 's'] {
        Ok((Query::ListKeys, e))
    } else if word =~= seq!['c', 'o', 'u', 'n', 't'] {
        Ok((Query::Count, e))
    } else if word.len() == 0 {
        Ok((Query::Keyword(Seq::empty()), e))
    } else {
        Err(i + 1)
    }
}

/// The rest of a path: `.` and a name, any number of times.
pub open spec fn read_more_names(s: Seq<char>, i: int, acc: Seq<Seq<char>>) -> Reading<
    Seq<Seq<char>>,
>
    decreases s.len() - i,
{
    let p = spaces_end(s, i);
    if at(s, p, '.') {
        let start = spaces_end(s, p + 1);
        let end = ident_end(s, start);
        if 0 <= start < end && i < end <= s.len() {
            read_more_names(s, end, acc.push(s.subrange(start, end)))
        } else {
            Err(start)
        }
    } else {
        Ok((acc, i))
    }
}

/// The literal of a filter at `i`, after blanks: text between two `"`, given
/// without them, or a run of number characters that begins with a digit, or
/// with `-` and a digit.
pub open spec fn read_literal(s: Seq<char>, i: int) -> Reading<Seq<char>> {
    let p = spaces_end(s, i);
    if at(s, p, '"') {
        let close = quote_end(s, p + 1);
        if at(s, close, '"') {
            Ok((s.subrange(p + 1, close), close + 1))
        } else {
            Err(close)
        }
    } else if (0 <= p < s.len() && is_digit(s[p])) || (at(s, p, '-') && 0 <= p + 1 < s.len()
        && is_digit(s[p + 1])) {
        let end = number_end(s, p);
        Ok((s.subrange(p, end), end))
    } else {
        Err(p)
    }
}

/// What follows a path whose names are read: an operator and a literal make
/// it a filter on that path; anything else leaves it the path.
pub open spec fn read_comparison(s: Seq<char>, i: int, names: Seq<Seq<char>>) -> Reading<Query> {
    let p = spaces_end(s, i);
    if at(s, p, '=') || at(s, p, '>') || at(s, p, '<') {
        match read_literal(s, p + 1) {
            Ok((literal, end)) => Ok(
                (Query::Filter(Box::new(Query::Keyword(names)), seq![s[p]], literal), end),
            ),
            Err(stop) => Err(stop),
        }
    } else {
        Ok((Query::Keyword(names), i))
    }
}

/// One expression at `i`, after blanks.
pub open spec fn read_single(s: Seq<char>, i: int) -> Reading<Query>
    decreases s.len() - i, 0int,
{
    let p = spaces_end(s, i);
    if p < i {
        Err(p)
    } else if at(s, p, '{') {
        match read_properties(s, p + 1, Seq::empty()) {
            Ok((props, end)) => Ok((Query::Object(props), end)),
            Err(stop) => Err(stop),
        }
    } else if at(s, p, '[') {
        read_indices(s, p + 1)
    } else if at(s, p, '.') {
        read_dotted(s, p)
    } else if 0 <= p < s.len() && is_ident_char(s[p]) {
        let e = ident_end(s, p);
        let name = s.subrange(p, e);
        let open = spaces_end(s, e);
        if at(s, open, '(') && open >= p {
            match read_arguments(s, open + 1, Seq::empty()) {
                Ok((args, end)) => Ok((Query::Call(name, args), end)),
                Err(stop) => Err(stop),
            }
        } else {
            match read_more_names(s, e, seq![name]) {
                Ok((names, end)) => read_comparison(s, end, names),
                Err(stop) => Err(stop),
            }
        }
    } else {
        Err(p)
    }
}

/// The rest of a pipeline: `|` and an expression, any number of times.
pub open spec fn read_more_steps(s: Seq<char>, i: int, acc: Seq<Query>) -> Reading<Seq<Query>>
    decreases s.len() - i, 0int,
{
    let p = spaces_end(s, i);
    if at(s, p, '|') && p >= i {
        match read_single(s, p + 1) {
            Ok((step, e)) => if i < e <= s.len() {
                read_more_steps(s, e, acc.push(step))
            } else {
                Err(e)
            },
            Err(stop) => Err(stop),
        }
    } else {
        Ok((acc, i))
    }
}

/// A pipeline at `i`: one expression, or several with `|` between them. One
/// expression alone stands for itself.
pub open spec fn read_expr(s: Seq<char>, i: int) -> Reading<Query>
    decreases s.len() - i, 1int,
{
    match read_single(s, i) {
        Ok((first, e)) => if i < e <= s.len() {
            match read_more_steps(s, e, seq![first]) {
                Ok((steps, end)) => if steps.len() == 1 {
                    Ok((steps[0], end))
                } else {
                    Ok((Query::Pipeline(steps), end))
                },
                Err(stop) => Err(stop),
            }
        } else {
            Err(e)
        },
        Err(stop) => Err(stop),
    }
}

/// The properties of an object after its `{` or after a `;`: a closing `}`,
/// or a name, `:=` and an expression, followed by `;` and more, or by `}`.
pub open spec fn read_properties(s: Seq<char>, i: int, acc: Seq<(Seq<char>, Query)>) -> Reading<
    Seq<(Seq<char>, Query)>,
>
    decreases s.len() - i, 2int,
{
    let p = spaces_end(s, i);
    if at(s, p, '}') {
        Ok((acc, p + 1))
    } else {
        let e = ident_end(s, p);
        let gets = spaces_end(s, e);
        if !(i <= p < e) {
            Err(p)
        } else if at(s, gets, ':') && at(s, gets + 1, '=') && gets >= e {
            match read_expr(s, gets + 2) {
                Ok((value, e2)) => {
                    let next = spaces_end(s, e2);
                    let props = acc.push((s.subrange(p, e), value));
                    if at(s, next, '}') {
                        Ok((props, next + 1))
                    } else if at(s, next, ';') && next > i {
                        read_properties(s, next + 1, props)
                    } else {
                        Err(next)
                    }
                },
                Err(stop) => Err(stop),
            }
        } else {
            Err(gets)
        }
    }
}

/// The arguments of a call after its `(` or after a `,`: a closing `)` where
/// no argument was read yet, or an expression followed by `,` and more, or by
/// `)`.
pub open spec fn read_arguments(s: Seq<char>, i: int, acc: Seq<Query>) -> Reading<Seq<Query>>
    decreases s.len() - i, 2int,
{
    let p = spaces_end(s, i);
    if at(s, p, ')') && acc.len() == 0 {
        Ok((acc, p + 1))
    } else if i <= p <= s.len() {
        match read_expr(s, p) {
            Ok((arg, e)) => {
                let next = spaces_end(s, e);
                if at(s, next, ')') {
                    Ok((acc.push(arg), next + 1))
                } else if at(s, next, ',') && next > i {
                    read_arguments(s, next + 1, acc.push(arg))
                } else {
                    Err(next)
                }
            },
            Err(stop) => Err(stop),
        }
    } else {
        Err(p)
    }
}

/// The query that a text denotes: one pipeline with nothing but blanks
/// around it. Where the text denotes none, the position at which it stopped
/// fitting: where no expression could be read on, or where something other
/// than blanks follows the pipeline.
pub open spec fn query_of_text(s: Seq<char>) -> Result<Query, int> {
    match read_expr(s, 0) {
        Ok((q, e)) => if spaces_end(s, e) == s.len() {
            Ok(q)
        } else {
            Err(spaces_end(s, e))
        },
        Err(stop) => Err(stop),
    }
}

/// Whether a text begins with a pipeline; one that does and still denotes no
/// query goes on after that pipeline.
pub open spec fn begins_with_query(s: Seq<char>) -> bool {
    read_expr(s, 0) is Ok
}

} // verus!
