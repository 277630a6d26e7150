//! Values as text: numbers in digits, and whole values in one line.

use crate::number::Number;
use crate::text::{decimal_text, natural_text};
use crate::value::{entries, items, Json, Value};
use vstd::prelude::*;

verus! {

/// Up to how many zeros after the point a decimal below one is written with
/// before it is written with an exponent instead.
pub const PLAIN_LIMIT: u32 = 20;

/// Up to how many digits before the point a decimal with zeros at its end is
/// written with before it is written with an exponent instead.
pub const PLAIN_DIGITS: u32 = 18;

/// `n` zeros.
pub open spec fn zeros(n: nat) -> Seq<char> {
    Seq::new(n, |i: int| '0')
}

/// An integer in digits, with `-` before a negative one.
pub open spec fn integer_text(n: int) -> Seq<char> {
    if n < 0 {
        seq!['-'] + decimal_text((-n) as nat)
    } else {
        decimal_text(n as nat)
    }
}

/// A decimal without its sign. It is written out in full, with a point,
/// where that takes at most eighteen digits before the point or twenty zeros
/// after it, and with an exponent otherwise.
pub open spec fn decimal_body(mantissa: nat, exponent: int) -> Seq<char> {
    let digits = decimal_text(mantissa);
    if exponent >= 0 {
        if digits.len() + exponent <= PLAIN_DIGITS {
            digits + zeros(exponent as nat) + seq!['.', '0']
        } else {
            digits + seq!['e'] + decimal_text(exponent as nat)
        }
    } else {
        let places = -exponent;
        if places < digits.len() {
            digits.take(digits.len() - places) + seq!['.'] + digits.skip(digits.len() - places)
        } else if places <= PLAIN_LIMIT {
            seq!['0', '.'] + zeros((places - digits.len()) as nat) + digits
        } else {
            digits + seq!['e', '-'] + decimal_text(places as nat)
        }
    }
}

/// A number as text: an integral one in digits, a floating one with a point
/// or an exponent.
pub open spec fn number_text(n: Number) -> Seq<char> {
    match n {
        Number::Integral(i) => integer_text(i as int),
        Number::Floating(d) => if d.negative {
            seq!['-'] + decimal_body(d.mantissa as nat, d.exponent as int)
        } else {
            decimal_body(d.mantissa as nat, d.exponent as int)
        },
    }
}

/// A character as it stands between quotes: `"` and `\` with a `\` before.
pub open spec fn escaped_char(c: char) -> Seq<char> {
    if c == '"' {
        seq!['\\', '"']
    } else if c == '\\' {
        seq!['\\', '\\']
    } else {
        seq![c]
    }
}

/// A text as it stands between quotes.
pub open spec fn escaped(s: Seq<char>) -> Seq<char>
    decreases s.len(),
{
    if s.len() == 0 {
        Seq::empty()
    } else {
        escaped(s.drop_last()) + escaped_char(s.last())
    }
}

/// A text between quotes.
pub open spec fn quoted(s: Seq<char>) -> Seq<char> {
    seq!['"'] + escaped(s) + seq!['"']
}

/// A value as text in one line: arrays in `[` and `]`, objects in `{` and
/// `}`, with `,` between elements and `:` after keys, and no blanks.
pub open spec fn json_text(v: Json) -> Seq<char>
    decreases v, 0int,
{
    match v {
        Json::Null => seq!['n', 'u', 'l', 'l'],
        Json::Bool(b) => if b {
            seq!['t', 'r', 'u', 'e']
        } else {
            seq!['f', 'a', 'l', 's', 'e']
        },
        Json::Number(n) => number_text(n),
        Json::String(s) => quoted(s),
        Json::Array(xs) => seq!['['] + list_text(xs, xs.len()) + seq![']'],
        Json::Object(es) => seq!['{'] + entries_text(es, es.len()) + seq!['}'],
    }
}

/// The first `n` elements as text, with `,` between them.
pub open spec fn list_text(xs: Seq<Json>, n: nat) -> Seq<char>
    decreases xs, n,
{
    if n == 0 || n > xs.len() {
        Seq::empty()
    } else if n == 1 {
        json_text(xs[0])
    } else {
        list_text(xs, (n - 1) as nat) + seq![','] + json_text(xs[n - 1])
    }
}

/// The first `n` entries as text, with `,` between them and `:` after each
/// key.
pub open spec fn entries_text(es: Seq<(Seq<char>, Json)>, n: nat) -> Seq<char>
    decreases es, n,
{
    if n == 0 || n > es.len() {
        Seq::empty()
    } else if n == 1 {
        quoted(es[0].0) + seq![':'] + json_text(es[0].1)
    } else {
        entries_text(es, (n - 1) as nat) + seq![','] + quoted(es[n - 1].0) + seq![':']
            + json_text(es[n - 1].1)
    }
}

/// The text that stands for a value as the key of a group: a string as it
/// is, anything else as its text in one line.
pub open spec fn key_text(v: Json) -> Seq<char> {
    match v {
        Json::String(s) => s,
        _ => json_text(v),
    }
}

/// Appends `n` zeros.
fn push_zeros(s: &mut String, n: usize)
    ensures
        final(s)@ == old(s)@ + zeros(n as nat),
{
    let mut i: usize = 0;
    let ghost start = s@;
    assert(s@ =~= start + zeros(0));
    while i < n
        invariant
            i <= n,
            s@ == start + zeros(i as nat),
        decreases n - i,
    {
        proof {
            reveal_strlit("0");
        }
        s.append("0");
        i += 1;
        assert(s@ =~= start + zeros(i as nat));
    }
}

/// A decimal without its sign, appended to `s`.
fn push_decimal_body(s: &mut String, mantissa: u64, exponent: i32)
    ensures
        final(s)@ == old(s)@ + decimal_body(mantissa as nat, exponent as int),
{
    let ghost start = s@;
    let digits = natural_text(mantissa);
    let len = digits.as_str().unicode_len();
    proof {
        reveal_strlit(".0");
        reveal_strlit("e");
        reveal_strlit(".");
        reveal_strlit("0.");
        reveal_strlit("e-");
    }
    if exponent >= 0 {
        if len <= PLAIN_DIGITS as usize && exponent as u32 <= PLAIN_DIGITS - len as u32 {
            s.append(digits.as_str());
            push_zeros(s, exponent as usize);
            s.append(".0");
            assert(s@ =~= start + (digits@ + zeros(exponent as nat) + seq!['.', '0']));
        } else {
            s.append(digits.as_str());
            s.append("e");
            let written = natural_text(exponent as u64);
            s.append(written.as_str());
            assert(s@ =~= start + (digits@ + seq!['e'] + decimal_text(exponent as nat)));
        }
    } else {
        let places: u64 = (-(exponent as i64)) as u64;
        if places < len as u64 {
            let cut: usize = len - places as usize;
            s.append(digits.as_str().substring_char(0, cut));
            s.append(".");
            s.append(digits.as_str().substring_char(cut, len));
            assert(digits@.subrange(0, cut as int) =~= digits@.take(cut as int));
            assert(digits@.subrange(cut as int, len as int) =~= digits@.skip(cut as int));
            assert(s@ =~= start + (digits@.take(cut as int) + seq!['.'] + digits@.skip(
                cut as int,
            )));
        } else if places <= PLAIN_LIMIT as u64 {
            s.append("0.");
            push_zeros(s, places as usize - len);
            s.append(digits.as_str());
            assert(s@ =~= start + (seq!['0', '.'] + zeros((places - len) as nat) + digits@));
        } else {
            s.append(digits.as_str());
            s.append("e-");
            let written = natural_text(places);
            s.append(written.as_str());
            assert(s@ =~= start + (digits@ + seq!['e', '-'] + decimal_text(places as nat)));
        }
    }
}

impl Number {
    /// This number as text.
    pub fn to_text(&self) -> (r: String)
        ensures
            r@ == number_text(*self),
    {
        let mut s = String::new();
        proof {
            reveal_strlit("-");
        }
        match self {
            Number::Integral(i) => {
                let size: u64 = if *i < 0 {
                    (-(*i as i128)) as u64
                } else {
                    *i as u64
                };
                if *i < 0 {
                    s.append("-");
                }
                let digits = natural_text(size);
                s.append(digits.as_str());
                assert(s@ =~= integer_text(*i as int));
            },
            Number::Floating(d) => {
                if d.negative {
                    s.append("-");
                }
                let ghost start = s@;
                push_decimal_body(&mut s, d.mantissa, d.exponent);
                assert(s@ =~= number_text(*self));
            },
        }
        s
    }
}

/// A text as it stands between quotes, appended to `s`.
fn push_escaped(s: &mut String, text: &String)
    ensures
        final(s)@ == old(s)@ + escaped(text@),
{
    let ghost start = s@;
    let n = text.as_str().unicode_len();
    let mut i: usize = 0;
    assert(text@.take(0) =~= Seq::<char>::empty());
    assert(s@ =~= start + escaped(text@.take(0)));
    while i < n
        invariant
            i <= n,
            n == text@.len(),
            s@ == start + escaped(text@.take(i as int)),
        decreases n - i,
    {
        let c = text.as_str().get_char(i);
        proof {
            reveal_strlit("\\\"");
            reveal_strlit("\\\\");
            assert(text@.take(i + 1).drop_last() =~= text@.take(i as int));
            assert(text@.take(i + 1).last() == c);
        }
        let ghost before = s@;
        if c == '"' {
            s.append("\\\"");
            assert(s@ =~= before + seq!['\\', '"']);
        } else if c == '\\' {
            s.append("\\\\");
            assert(s@ =~= before + seq!['\\', '\\']);
        } else {
            s.append(text.as_str().substring_char(i, i + 1));
            assert(text@.subrange(i as int, i + 1) =~= seq![c]);
        }
        i += 1;
        assert(s@ =~= start + escaped(text@.take(i as int)));
    }
    assert(text@.take(n as int) =~= text@);
}

/// A text between quotes, appended to `s`.
fn push_quoted(s: &mut String, text: &String)
    ensures
        final(s)@ == old(s)@ + quoted(text@),
{
    let ghost start = s@;
    proof {
        reveal_strlit("\"");
    }
    s.append("\"");
    push_escaped(s, text);
    s.append("\"");
    assert(s@ =~= start + quoted(text@));
}

impl Value {
    /// The elements as text, appended to `s`.
    fn push_list(s: &mut String, xs: &Vec<Value>)
        ensures
            final(s)@ == old(s)@ + list_text(items(xs@), xs@.len() as nat),
        decreases xs, 1int,
    {
        let ghost start = s@;
        let mut i: usize = 0;
        assert(s@ =~= start + list_text(items(xs@), 0));
        while i < xs.len()
            invariant
                i <= xs@.len(),
                s@ == start + list_text(items(xs@), i as nat),
            decreases xs@.len() - i,
        {
            proof {
                reveal_strlit(",");
            }
            if i > 0 {
                s.append(",");
            }
            xs[i].push_text(s);
            i += 1;
            assert(s@ =~= start + list_text(items(xs@), i as nat));
        }
    }

    /// The entries as text, appended to `s`.
    fn push_entries(s: &mut String, es: &Vec<(String, Value)>)
        ensures
            final(s)@ == old(s)@ + entries_text(entries(es@), es@.len() as nat),
        decreases es, 1int,
    {
        let ghost start = s@;
        let mut i: usize = 0;
        assert(s@ =~= start + entries_text(entries(es@), 0));
        while i < es.len()
            invariant
                i <= es@.len(),
                s@ == start + entries_text(entries(es@), i as nat),
            decreases es@.len() - i,
        {
            proof {
                reveal_strlit(",");
                reveal_strlit(":");
            }
            if i > 0 {
                s.append(",");
            }
            push_quoted(s, &es[i].0);
            s.append(":");
            es[i].1.push_text(s);
            i += 1;
            assert(s@ =~= start + entries_text(entries(es@), i as nat));
        }
    }

    /// This value as text in one line, appended to `s`.
    fn push_text(&self, s: &mut String)
        ensures
            final(s)@ == old(s)@ + json_text(self@),
        decreases self, 2int,
    {
        let ghost start = s@;
        proof {
            self.lemma_model();
            reveal_strlit("null");
            reveal_strlit("true");
            reveal_strlit("false");
            reveal_strlit("[");
            reveal_strlit("]");
            reveal_strlit("{");
            reveal_strlit("}");
        }
        match self {
            Value::Null => {
                s.append("null");
                assert(s@ =~= start + seq!['n', 'u', 'l', 'l']);
            },
            Value::Bool(b) => {
                if *b {
                    s.append("true");
                    assert(s@ =~= start + seq!['t', 'r', 'u', 'e']);
                } else {
                    s.append("false");
                    assert(s@ =~= start + seq!['f', 'a', 'l', 's', 'e']);
                }
            },
            Value::Number(n) => {
                let text = n.to_text();
                s.append(text.as_str());
            },
            Value::String(text) => {
                push_quoted(s, text);
            },
            Value::Array(xs) => {
                s.append("[");
                Self::push_list(s, xs);
                s.append("]");
                assert(s@ =~= start + (seq!['['] + list_text(items(xs@), xs@.len() as nat)
                    + seq![']']));
            },
            Value::Object(es) => {
                s.append("{");
                Self::push_entries(s, es);
                s.append("}");
                assert(s@ =~= start + (seq!['{'] + entries_text(entries(es@), es@.len() as nat)
                    + seq!['}']));
            },
        }
    }

    /// This value as text in one line.
    pub fn to_text(&self) -> (r: String)
        ensures
            r@ == json_text(self@),
    {
        let mut s = String::new();
        self.push_text(&mut s);
        assert(s@ =~= json_text(self@));
        s
    }

    /// The text that stands for this value as the key of a group.
    pub fn to_key(&self) -> (r: String)
        ensures
            r@ == key_text(self@),
    {
        proof {
            self.lemma_model();
        }
        match self {
            Value::String(text) => text.clone(),
            _ => self.to_text(),
        }
    }
}

} // verus!
