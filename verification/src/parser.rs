//! The text form of queries. A query is read from bytes into a syntax tree;
//! the grammar is stated as functions from a text and a position to a tree
//! and the position behind it.
//!
//! ```text
//! or      := and ( "||" or )?
//! and     := unary ( "&&" and )?
//! unary   := "!" unary | atom
//! atom    := "(" or ")" | call | operand op operand
//! call    := latest "(" or? ")" | single "(" or ")"
//!          | (usedby | depends) "(" or ( "," digits )? ")"
//! operand := 'text' | "text" | -?digits | true | false | name | id
//!          | parameter:key | this:key
//! op      := == | != | < | <= | > | >=
//! ```

use crate::graph::Direction;
use crate::index::Scalar;
use crate::query::{expr_view, operand_view, CompareOp, Expr, ExprView, Lookup, Operand, OperandView};
use vstd::prelude::*;

verus! {

/// What the parser looked for where it stopped.
#[derive(Clone, Copy, Debug, PartialEq, Eq, Structural)]
pub enum Expected {
    Operand,
    Operator,
    Number,
    Key,
    Quote,
    CloseParen,
    End,
}

#[derive(Clone, Copy, Debug, PartialEq, Eq, Structural)]
pub enum ParseError {
    /// The text breaks the grammar at `position`.
    Syntax { position: usize, expected: Expected },
    /// A call of a function that the language does not have.
    UnknownFunction { position: usize },
    /// A call with too few or too many arguments.
    ArityMismatch { position: usize },
}

/// Classes of bytes that a run is made of.
#[derive(Clone, Copy, Debug, PartialEq, Eq, Structural)]
pub enum Class {
    Space,
    Ident,
    Digit,
    Key,
    NotSingleQuote,
    NotDoubleQuote,
}

/// The words of the language.
#[derive(Clone, Copy, Debug, PartialEq, Eq, Structural)]
pub enum Word {
    Name,
    Id,
    True,
    False,
    Parameter,
    This,
    Latest,
    Single,
    UsedBy,
    Depends,
}

pub open spec fn is_digit(b: u8) -> bool {
    48 <= b <= 57
}

pub open spec fn is_ident_start(b: u8) -> bool {
    (65 <= b <= 90) || (97 <= b <= 122) || b == 95
}

pub open spec fn in_class(c: Class, b: u8) -> bool {
    match c {
        Class::Space => b == 32 || b == 9 || b == 10 || b == 13,
        Class::Ident => is_ident_start(b) || is_digit(b),
        Class::Digit => is_digit(b),
        Class::Key => is_ident_start(b) || is_digit(b) || b == 46 || b == 45,
        Class::NotSingleQuote => b != 39,
        Class::NotDoubleQuote => b != 34,
    }
}

/// The end of the run of bytes of class `c` that starts at `pos`.
pub open spec fn scan(t: Seq<u8>, c: Class, pos: int) -> int
    decreases t.len() - pos,
{
    if 0 <= pos < t.len() && in_class(c, t[pos]) {
        scan(t, c, pos + 1)
    } else {
        pos
    }
}

/// The greatest magnitude that a number may reach before its last digit.
pub const MAGNITUDE_LIMIT: u64 = 922337203685477579;

/// The value of the digits from `i` to `end`, after the value `acc` of the
/// digits before them; none where it would pass ten times the limit.
pub open spec fn magnitude(t: Seq<u8>, i: int, end: int, acc: int) -> Option<int>
    decreases end - i,
{
    if i >= end {
        Some(acc)
    } else if acc > MAGNITUDE_LIMIT {
        None
    } else {
        magnitude(t, i + 1, end, acc * 10 + (t[i] - 48))
    }
}

pub open spec fn word_text(w: Word) -> Seq<u8> {
    match w {
        Word::Name => seq![110u8, 97u8, 109u8, 101u8],
        Word::Id => seq![105u8, 100u8],
        Word::True => seq![116u8, 114u8, 117u8, 101u8],
        Word::False => seq![102u8, 97u8, 108u8, 115u8, 101u8],
        Word::Parameter => seq![112u8, 97u8, 114u8, 97u8, 109u8, 101u8, 116u8, 101u8, 114u8],
        Word::This => seq![116u8, 104u8, 105u8, 115u8],
        Word::Latest => seq![108u8, 97u8, 116u8, 101u8, 115u8, 116u8],
        Word::Single => seq![115u8, 105u8, 110u8, 103u8, 108u8, 101u8],
        Word::UsedBy => seq![117u8, 115u8, 101u8, 100u8, 98u8, 121u8],
        Word::Depends => seq![100u8, 101u8, 112u8, 101u8, 110u8, 100u8, 115u8],
    }
}

/// The word that `w` spells, if it spells one.
pub open spec fn classify(w: Seq<u8>) -> Option<Word> {
    if w == word_text(Word::Name) {
        Some(Word::Name)
    } else if w == word_text(Word::Id) {
        Some(Word::Id)
    } else if w == word_text(Word::True) {
        Some(Word::True)
    } else if w == word_text(Word::False) {
        Some(Word::False)
    } else if w == word_text(Word::Parameter) {
        Some(Word::Parameter)
    } else if w == word_text(Word::This) {
        Some(Word::This)
    } else if w == word_text(Word::Latest) {
        Some(Word::Latest)
    } else if w == word_text(Word::Single) {
        Some(Word::Single)
    } else if w == word_text(Word::UsedBy) {
        Some(Word::UsedBy)
    } else if w == word_text(Word::Depends) {
        Some(Word::Depends)
    } else {
        None
    }
}

pub open spec fn syntax(pos: int, expected: Expected) -> ParseError {
    ParseError::Syntax { position: pos as usize, expected }
}

/// The operand that starts at `pos`, after any space.
pub open spec fn operand_at(t: Seq<u8>, pos: int) -> Result<(OperandView, int), ParseError> {
    let p = scan(t, Class::Space, pos);
    if !(0 <= p < t.len()) {
        Err(syntax(p, Expected::Operand))
    } else if t[p] == 39 || t[p] == 34 {
        let q = scan(
            t,
            if t[p] == 39 {
                Class::NotSingleQuote
            } else {
                Class::NotDoubleQuote
            },
            p + 1,
        );
        if q >= t.len() {
            Err(syntax(q, Expected::Quote))
        } else {
            Ok((OperandView::Str(t.subrange(p + 1, q)), q + 1))
        }
    } else if is_digit(t[p]) || t[p] == 45 {
        let s = if t[p] == 45 {
            p + 1
        } else {
            p
        };
        let q = scan(t, Class::Digit, s);
        if q == s {
            Err(syntax(s, Expected::Number))
        } else {
            match magnitude(t, s, q, 0) {
                None => Err(syntax(s, Expected::Number)),
                Some(m) => Ok(
                    (
                        OperandView::Num(
                            if t[p] == 45 {
                                -m
                            } else {
                                m
                            },
                        ),
                        q,
                    ),
                ),
            }
        }
    } else if is_ident_start(t[p]) {
        let q = scan(t, Class::Ident, p);
        match classify(t.subrange(p, q)) {
            Some(Word::Name) => Ok((OperandView::Name, q)),
            Some(Word::Id) => Ok((OperandView::Id, q)),
            Some(Word::True) => Ok((OperandView::Bool(true), q)),
            Some(Word::False) => Ok((OperandView::Bool(false), q)),
            Some(Word::Parameter) | Some(Word::This) => {
                if q < t.len() && t[q] == 58 {
                    let k = scan(t, Class::Key, q + 1);
                    if k == q + 1 {
                        Err(syntax(q + 1, Expected::Key))
                    } else if classify(t.subrange(p, q)) == Some(Word::This) {
                        Ok((OperandView::This(t.subrange(q + 1, k)), k))
                    } else {
                        Ok((OperandView::Parameter(t.subrange(q + 1, k)), k))
                    }
                } else {
                    Err(syntax(q, Expected::Key))
                }
            },
            _ => Err(syntax(p, Expected::Operand)),
        }
    } else {
        Err(syntax(p, Expected::Operand))
    }
}

/// The comparison operator that starts at `pos`, after any space.
pub open spec fn op_at(t: Seq<u8>, pos: int) -> Result<(CompareOp, int), ParseError> {
    let p = scan(t, Class::Space, pos);
    if !(0 <= p < t.len()) {
        Err(syntax(p, Expected::Operator))
    } else {
        let two = p + 1 < t.len() && t[p + 1] == 61;
        if t[p] == 61 && two {
            Ok((CompareOp::Eq, p + 2))
        } else if t[p] == 33 && two {
            Ok((CompareOp::Ne, p + 2))
        } else if t[p] == 60 {
            if two {
                Ok((CompareOp::Le, p + 2))
            } else {
                Ok((CompareOp::Lt, p + 1))
            }
        } else if t[p] == 62 {
            if two {
                Ok((CompareOp::Ge, p + 2))
            } else {
                Ok((CompareOp::Gt, p + 1))
            }
        } else {
            Err(syntax(p, Expected::Operator))
        }
    }
}

pub open spec fn comparison_at(t: Seq<u8>, pos: int) -> Result<(ExprView, int), ParseError> {
    match operand_at(t, pos) {
        Err(e) => Err(e),
        Ok((a, p1)) => match op_at(t, p1) {
            Err(e) => Err(e),
            Ok((op, p2)) => match operand_at(t, p2) {
                Err(e) => Err(e),
                Ok((b, p3)) => Ok((ExprView::Compare(op, a, b), p3)),
            },
        },
    }
}

/// The call of function `w` on the argument `inner`.
pub open spec fn call_of(w: Word, inner: ExprView, depth: Option<u64>) -> ExprView {
    match w {
        Word::Latest => ExprView::Latest(Some(Box::new(inner))),
        Word::Single => ExprView::Single(Box::new(inner)),
        Word::UsedBy => ExprView::Closure(Direction::UsedBy, Box::new(inner), depth),
        _ => ExprView::Closure(Direction::Depends, Box::new(inner), depth),
    }
}

pub open spec fn is_function(w: Option<Word>) -> bool {
    w == Some(Word::Latest) || w == Some(Word::Single) || w == Some(Word::UsedBy) || w == Some(
        Word::Depends,
    )
}

/// What follows the first argument of a call: the closing bracket, or for a
/// closure a comma, the number of hops and the closing bracket.
pub open spec fn call_tail(t: Seq<u8>, p: int, w: Word, inner: ExprView, p1: int) -> Result<
    (ExprView, int),
    ParseError,
> {
    let r = scan(t, Class::Space, p1);
    if !(0 <= r < t.len()) {
        Err(syntax(r, Expected::CloseParen))
    } else if t[r] == 41 {
        Ok((call_of(w, inner, None), r + 1))
    } else if t[r] == 44 {
        if w == Word::UsedBy || w == Word::Depends {
            let s0 = scan(t, Class::Space, r + 1);
            let s1 = scan(t, Class::Digit, s0);
            if s1 == s0 {
                Err(syntax(s0, Expected::Number))
            } else {
                match magnitude(t, s0, s1, 0) {
                    None => Err(syntax(s0, Expected::Number)),
                    Some(d) => {
                        let z = scan(t, Class::Space, s1);
                        if 0 <= z < t.len() && t[z] == 41 {
                            Ok((call_of(w, inner, Some(d as u64)), z + 1))
                        } else if 0 <= z < t.len() && t[z] == 44 {
                            Err(ParseError::ArityMismatch { position: p as usize })
                        } else {
                            Err(syntax(z, Expected::CloseParen))
                        }
                    },
                }
            }
        } else {
            Err(ParseError::ArityMismatch { position: p as usize })
        }
    } else {
        Err(syntax(r, Expected::CloseParen))
    }
}

pub open spec fn or_at(t: Seq<u8>, pos: int) -> Result<(ExprView, int), ParseError>
    decreases t.len() - pos, 5int,
{
    match and_at(t, pos) {
        Err(e) => Err(e),
        Ok((l, p1)) => {
            let p = scan(t, Class::Space, p1);
            if 0 <= p && p + 1 < t.len() && t[p] == 124 && t[p + 1] == 124 && p + 2 > pos {
                match or_at(t, p + 2) {
                    Err(e) => Err(e),
                    Ok((r, p2)) => Ok((ExprView::Or(Box::new(l), Box::new(r)), p2)),
                }
            } else {
                Ok((l, p1))
            }
        },
    }
}

pub open spec fn and_at(t: Seq<u8>, pos: int) -> Result<(ExprView, int), ParseError>
    decreases t.len() - pos, 4int,
{
    match unary_at(t, pos) {
        Err(e) => Err(e),
        Ok((l, p1)) => {
            let p = scan(t, Class::Space, p1);
            if 0 <= p && p + 1 < t.len() && t[p] == 38 && t[p + 1] == 38 && p + 2 > pos {
                match and_at(t, p + 2) {
                    Err(e) => Err(e),
                    Ok((r, p2)) => Ok((ExprView::And(Box::new(l), Box::new(r)), p2)),
                }
            } else {
                Ok((l, p1))
            }
        },
    }
}

pub open spec fn unary_at(t: Seq<u8>, pos: int) -> Result<(ExprView, int), ParseError>
    decreases t.len() - pos, 3int,
{
    let p = scan(t, Class::Space, pos);
    if pos <= p < t.len() && t[p] == 33 && !(p + 1 < t.len() && t[p + 1] == 61) {
        match unary_at(t, p + 1) {
            Err(e) => Err(e),
            Ok((e, p1)) => Ok((ExprView::Not(Box::new(e)), p1)),
        }
    } else {
        atom_at(t, pos)
    }
}

pub open spec fn atom_at(t: Seq<u8>, pos: int) -> Result<(ExprView, int), ParseError>
    decreases t.len() - pos, 2int,
{
    let p = scan(t, Class::Space, pos);
    if pos <= p < t.len() && t[p] == 40 {
        match or_at(t, p + 1) {
            Err(e) => Err(e),
            Ok((e, p1)) => {
                let r = scan(t, Class::Space, p1);
                if 0 <= r < t.len() && t[r] == 41 {
                    Ok((e, r + 1))
                } else {
                    Err(syntax(r, Expected::CloseParen))
                }
            },
        }
    } else if 0 <= pos <= p < t.len() && is_ident_start(t[p]) && p < scan(t, Class::Ident, p)
        < t.len() && t[scan(t, Class::Ident, p)] == 40 {
        call_at(t, p, scan(t, Class::Ident, p))
    } else {
        comparison_at(t, pos)
    }
}

/// The call whose name runs from `p` to the opening bracket at `q`.
pub open spec fn call_at(t: Seq<u8>, p: int, q: int) -> Result<(ExprView, int), ParseError>
    decreases t.len() - q, 1int,
{
    let w = classify(t.subrange(p, q));
    if !is_function(w) {
        Err(ParseError::UnknownFunction { position: p as usize })
    } else {
        let a = scan(t, Class::Space, q + 1);
        if 0 <= a < t.len() && t[a] == 41 {
            if w == Some(Word::Latest) {
                Ok((ExprView::Latest(None), a + 1))
            } else {
                Err(ParseError::ArityMismatch { position: p as usize })
            }
        } else if !(0 <= q < t.len()) {
            Err(syntax(q, Expected::CloseParen))
        } else {
            match or_at(t, q + 1) {
                Err(e) => Err(e),
                Ok((inner, p1)) => call_tail(t, p, w.unwrap(), inner, p1),
            }
        }
    }
}

/// The query that a text spells, or where and why it spells none.
pub open spec fn parse_spec(t: Seq<u8>) -> Result<ExprView, ParseError> {
    match or_at(t, 0) {
        Err(e) => Err(e),
        Ok((e, p)) => {
            let z = scan(t, Class::Space, p);
            if z >= t.len() {
                Ok(e)
            } else {
                Err(syntax(z, Expected::End))
            }
        },
    }
}

/// An expression read by the parser is the one that the grammar gives, and
/// lies behind the position at which reading began.
pub open spec fn agrees(
    r: Result<(Expr, usize), ParseError>,
    want: Result<(ExprView, int), ParseError>,
    pos: usize,
    len: nat,
) -> bool {
    match r {
        Ok((e, p)) => want == Ok::<(ExprView, int), ParseError>((expr_view(e), p as int)) && pos < p
            <= len,
        Err(x) => want == Err::<(ExprView, int), ParseError>(x),
    }
}

/// A run ends at or behind the position at which it starts.
pub proof fn lemma_scan_from(t: Seq<u8>, c: Class, pos: int)
    ensures
        scan(t, c, pos) >= pos,
    decreases t.len() - pos,
{
    if 0 <= pos < t.len() && in_class(c, t[pos]) {
        lemma_scan_from(t, c, pos + 1);
    }
}

fn class_has(c: Class, b: u8) -> (r: bool)
    ensures
        r == in_class(c, b),
{
    let letter = (65 <= b && b <= 90) || (97 <= b && b <= 122) || b == 95;
    let digit = 48 <= b && b <= 57;
    match c {
        Class::Space => b == 32 || b == 9 || b == 10 || b == 13,
        Class::Ident => letter || digit,
        Class::Digit => digit,
        Class::Key => letter || digit || b == 46 || b == 45,
        Class::NotSingleQuote => b != 39,
        Class::NotDoubleQuote => b != 34,
    }
}

fn run_end(t: &[u8], c: Class, pos: usize) -> (r: usize)
    requires
        pos <= t@.len(),
    ensures
        r == scan(t@, c, pos as int),
        pos <= r <= t@.len(),
        forall|k: int| pos <= k < r ==> in_class(c, #[trigger] t@[k]),
{
    let mut i: usize = pos;
    while i < t.len() && class_has(c, t[i])
        invariant
            pos <= i <= t@.len(),
            scan(t@, c, pos as int) == scan(t@, c, i as int),
            forall|k: int| pos <= k < i ==> in_class(c, #[trigger] t@[k]),
        decreases t@.len() - i,
    {
        i += 1;
    }
    i
}

fn digits_value(t: &[u8], from: usize, end: usize) -> (r: Option<u64>)
    requires
        from <= end <= t@.len(),
        forall|k: int| from <= k < end ==> is_digit(#[trigger] t@[k]),
    ensures
        match r {
            Some(v) => magnitude(t@, from as int, end as int, 0) == Some(v as int) && v
                <= 9223372036854775799,
            None => magnitude(t@, from as int, end as int, 0).is_none(),
        },
{
    let mut acc: u64 = 0;
    let mut i: usize = from;
    while i < end
        invariant
            from <= i <= end <= t@.len(),
            acc <= 9223372036854775799,
            forall|k: int| from <= k < end ==> is_digit(#[trigger] t@[k]),
            magnitude(t@, from as int, end as int, 0) == magnitude(t@, i as int, end as int, acc as int),
        decreases end - i,
    {
        if acc > MAGNITUDE_LIMIT {
            return None;
        }
        let d: u64 = (t[i] - 48) as u64;
        acc = acc * 10 + d;
        i += 1;
    }
    Some(acc)
}

fn span(t: &[u8], from: usize, to: usize) -> (r: Vec<u8>)
    requires
        from <= to <= t@.len(),
    ensures
        r@ == t@.subrange(from as int, to as int),
{
    let mut r: Vec<u8> = Vec::new();
    let mut i: usize = from;
    while i < to
        invariant
            from <= i <= to <= t@.len(),
            r@ == t@.subrange(from as int, i as int),
        decreases to - i,
    {
        r.push(t[i]);
        assert(r@ =~= t@.subrange(from as int, i + 1));
        i += 1;
    }
    r
}

fn word_bytes(w: Word) -> (r: Vec<u8>)
    ensures
        r@ == word_text(w),
{
    let r: Vec<u8> = match w {
        Word::Name => vec![110u8, 97u8, 109u8, 101u8],
        Word::Id => vec![105u8, 100u8],
        Word::True => vec![116u8, 114u8, 117u8, 101u8],
        Word::False => vec![102u8, 97u8, 108u8, 115u8, 101u8],
        Word::Parameter => vec![112u8, 97u8, 114u8, 97u8, 109u8, 101u8, 116u8, 101u8, 114u8],
        Word::This => vec![116u8, 104u8, 105u8, 115u8],
        Word::Latest => vec![108u8, 97u8, 116u8, 101u8, 115u8, 116u8],
        Word::Single => vec![115u8, 105u8, 110u8, 103u8, 108u8, 101u8],
        Word::UsedBy => vec![117u8, 115u8, 101u8, 100u8, 98u8, 121u8],
        Word::Depends => vec![100u8, 101u8, 112u8, 101u8, 110u8, 100u8, 115u8],
    };
    assert(r@ =~= word_text(w));
    r
}

fn spells(w: &Vec<u8>, word: Word) -> (r: bool)
    ensures
        r == (w@ == word_text(word)),
{
    let text = word_bytes(word);
    crate::bytes::bytes_eq(w.as_slice(), text.as_slice())
}

fn word_of(w: &Vec<u8>) -> (r: Option<Word>)
    ensures
        r == classify(w@),
{
    if spells(w, Word::Name) {
        Some(Word::Name)
    } else if spells(w, Word::Id) {
        Some(Word::Id)
    } else if spells(w, Word::True) {
        Some(Word::True)
    } else if spells(w, Word::False) {
        Some(Word::False)
    } else if spells(w, Word::Parameter) {
        Some(Word::Parameter)
    } else if spells(w, Word::This) {
        Some(Word::This)
    } else if spells(w, Word::Latest) {
        Some(Word::Latest)
    } else if spells(w, Word::Single) {
        Some(Word::Single)
    } else if spells(w, Word::UsedBy) {
        Some(Word::UsedBy)
    } else if spells(w, Word::Depends) {
        Some(Word::Depends)
    } else {
        None
    }
}

fn syntax_error(pos: usize, expected: Expected) -> (r: ParseError)
    ensures
        r == syntax(pos as int, expected),
{
    ParseError::Syntax { position: pos, expected }
}

fn read_operand(t: &[u8], pos: usize) -> (r: Result<(Operand, usize), ParseError>)
    requires
        pos <= t@.len(),
    ensures
        match r {
            Ok((o, p)) => operand_at(t@, pos as int) == Ok::<(OperandView, int), ParseError>(
                (operand_view(o), p as int),
            ) && pos < p <= t@.len(),
            Err(x) => operand_at(t@, pos as int) == Err::<(OperandView, int), ParseError>(x),
        },
{
    let p = run_end(t, Class::Space, pos);
    if p >= t.len() {
        return Err(syntax_error(p, Expected::Operand));
    }
    let c: u8 = t[p];
    if c == 39 || c == 34 {
        let class = if c == 39 {
            Class::NotSingleQuote
        } else {
            Class::NotDoubleQuote
        };
        let q = run_end(t, class, p + 1);
        if q >= t.len() {
            return Err(syntax_error(q, Expected::Quote));
        }
        Ok((Operand::Literal(Scalar::Str(span(t, p + 1, q))), q + 1))
    } else if (48 <= c && c <= 57) || c == 45 {
        let s: usize = if c == 45 {
            p + 1
        } else {
            p
        };
        let q = run_end(t, Class::Digit, s);
        if q == s {
            return Err(syntax_error(s, Expected::Number));
        }
        match digits_value(t, s, q) {
            None => Err(syntax_error(s, Expected::Number)),
            Some(m) => {
                let v: i64 = if c == 45 {
                    -(m as i64)
                } else {
                    m as i64
                };
                Ok((Operand::Literal(Scalar::Num(v)), q))
            },
        }
    } else if (65 <= c && c <= 90) || (97 <= c && c <= 122) || c == 95 {
        let q = run_end(t, Class::Ident, p);
        let w = span(t, p, q);
        match word_of(&w) {
            Some(Word::Name) => Ok((Operand::Lookup(Lookup::Name), q)),
            Some(Word::Id) => Ok((Operand::Lookup(Lookup::Id), q)),
            Some(Word::True) => Ok((Operand::Literal(Scalar::Bool(true)), q)),
            Some(Word::False) => Ok((Operand::Literal(Scalar::Bool(false)), q)),
            Some(Word::Parameter) => {
                if q < t.len() && t[q] == 58 {
                    let k = run_end(t, Class::Key, q + 1);
                    if k == q + 1 {
                        Err(syntax_error(q + 1, Expected::Key))
                    } else {
                        Ok((Operand::Lookup(Lookup::Parameter(span(t, q + 1, k))), k))
                    }
                } else {
                    Err(syntax_error(q, Expected::Key))
                }
            },
            Some(Word::This) => {
                if q < t.len() && t[q] == 58 {
                    let k = run_end(t, Class::Key, q + 1);
                    if k == q + 1 {
                        Err(syntax_error(q + 1, Expected::Key))
                    } else {
                        Ok((Operand::Lookup(Lookup::This(span(t, q + 1, k))), k))
                    }
                } else {
                    Err(syntax_error(q, Expected::Key))
                }
            },
            _ => Err(syntax_error(p, Expected::Operand)),
        }
    } else {
        Err(syntax_error(p, Expected::Operand))
    }
}

fn read_op(t: &[u8], pos: usize) -> (r: Result<(CompareOp, usize), ParseError>)
    requires
        pos <= t@.len(),
    ensures
        match r {
            Ok((o, p)) => op_at(t@, pos as int) == Ok::<(CompareOp, int), ParseError>((o, p as int))
                && pos < p <= t@.len(),
            Err(x) => op_at(t@, pos as int) == Err::<(CompareOp, int), ParseError>(x),
        },
{
    let p = run_end(t, Class::Space, pos);
    if p >= t.len() {
        return Err(syntax_error(p, Expected::Operator));
    }
    let c: u8 = t[p];
    let two = p + 1 < t.len() && t[p + 1] == 61;
    if c == 61 && two {
        Ok((CompareOp::Eq, p + 2))
    } else if c == 33 && two {
        Ok((CompareOp::Ne, p + 2))
    } else if c == 60 {
        if two {
            Ok((CompareOp::Le, p + 2))
        } else {
            Ok((CompareOp::Lt, p + 1))
        }
    } else if c == 62 {
        if two {
            Ok((CompareOp::Ge, p + 2))
        } else {
            Ok((CompareOp::Gt, p + 1))
        }
    } else {
        Err(syntax_error(p, Expected::Operator))
    }
}

fn read_comparison(t: &[u8], pos: usize) -> (r: Result<(Expr, usize), ParseError>)
    requires
        pos <= t@.len(),
    ensures
        agrees(r, comparison_at(t@, pos as int), pos, t@.len()),
{
    match read_operand(t, pos) {
        Err(e) => Err(e),
        Ok((a, p1)) => match read_op(t, p1) {
            Err(e) => Err(e),
            Ok((op, p2)) => match read_operand(t, p2) {
                Err(e) => Err(e),
                Ok((b, p3)) => Ok((Expr::Compare(op, a, b), p3)),
            },
        },
    }
}

fn make_call(w: Word, inner: Expr, depth: Option<u64>) -> (r: Expr)
    ensures
        expr_view(r) == call_of(w, expr_view(inner), depth),
{
    match w {
        Word::Latest => Expr::Latest(Some(Box::new(inner))),
        Word::Single => Expr::Single(Box::new(inner)),
        Word::UsedBy => Expr::Closure(Direction::UsedBy, Box::new(inner), depth),
        _ => Expr::Closure(Direction::Depends, Box::new(inner), depth),
    }
}

fn read_call_tail(t: &[u8], p: usize, w: Word, inner: Expr, p1: usize) -> (r: Result<
    (Expr, usize),
    ParseError,
>)
    requires
        p1 <= t@.len(),
    ensures
        agrees(r, call_tail(t@, p as int, w, expr_view(inner), p1 as int), p1, t@.len()),
{
    let r = run_end(t, Class::Space, p1);
    if r >= t.len() {
        return Err(syntax_error(r, Expected::CloseParen));
    }
    if t[r] == 41 {
        Ok((make_call(w, inner, None), r + 1))
    } else if t[r] == 44 {
        let closes = match w {
            Word::UsedBy => true,
            Word::Depends => true,
            _ => false,
        };
        if closes {
            let s0 = run_end(t, Class::Space, r + 1);
            let s1 = run_end(t, Class::Digit, s0);
            if s1 == s0 {
                return Err(syntax_error(s0, Expected::Number));
            }
            match digits_value(t, s0, s1) {
                None => Err(syntax_error(s0, Expected::Number)),
                Some(d) => {
                    let z = run_end(t, Class::Space, s1);
                    if z < t.len() && t[z] == 41 {
                        Ok((make_call(w, inner, Some(d)), z + 1))
                    } else if z < t.len() && t[z] == 44 {
                        Err(ParseError::ArityMismatch { position: p })
                    } else {
                        Err(syntax_error(z, Expected::CloseParen))
                    }
                },
            }
        } else {
            Err(ParseError::ArityMismatch { position: p })
        }
    } else {
        Err(syntax_error(r, Expected::CloseParen))
    }
}

fn read_or(t: &[u8], pos: usize) -> (r: Result<(Expr, usize), ParseError>)
    requires
        pos <= t@.len(),
    ensures
        agrees(r, or_at(t@, pos as int), pos, t@.len()),
    decreases t@.len() - pos, 5int,
{
    match read_and(t, pos) {
        Err(e) => Err(e),
        Ok((l, p1)) => {
            let p = run_end(t, Class::Space, p1);
            if p < t.len() && p + 1 < t.len() && t[p] == 124 && t[p + 1] == 124 {
                match read_or(t, p + 2) {
                    Err(e) => Err(e),
                    Ok((r, p2)) => Ok((Expr::Or(Box::new(l), Box::new(r)), p2)),
                }
            } else {
                Ok((l, p1))
            }
        },
    }
}

fn read_and(t: &[u8], pos: usize) -> (r: Result<(Expr, usize), ParseError>)
    requires
        pos <= t@.len(),
    ensures
        agrees(r, and_at(t@, pos as int), pos, t@.len()),
    decreases t@.len() - pos, 4int,
{
    match read_unary(t, pos) {
        Err(e) => Err(e),
        Ok((l, p1)) => {
            let p = run_end(t, Class::Space, p1);
            if p < t.len() && p + 1 < t.len() && t[p] == 38 && t[p + 1] == 38 {
                match read_and(t, p + 2) {
                    Err(e) => Err(e),
                    Ok((r, p2)) => Ok((Expr::And(Box::new(l), Box::new(r)), p2)),
                }
            } else {
                Ok((l, p1))
            }
        },
    }
}

fn read_unary(t: &[u8], pos: usize) -> (r: Result<(Expr, usize), ParseError>)
    requires
        pos <= t@.len(),
    ensures
        agrees(r, unary_at(t@, pos as int), pos, t@.len()),
    decreases t@.len() - pos, 3int,
{
    let p = run_end(t, Class::Space, pos);
    if p < t.len() && t[p] == 33 && !(p + 1 < t.len() && t[p + 1] == 61) {
        match read_unary(t, p + 1) {
            Err(e) => Err(e),
            Ok((e, p1)) => Ok((Expr::Not(Box::new(e)), p1)),
        }
    } else {
        read_atom(t, pos)
    }
}

fn read_atom(t: &[u8], pos: usize) -> (r: Result<(Expr, usize), ParseError>)
    requires
        pos <= t@.len(),
    ensures
        agrees(r, atom_at(t@, pos as int), pos, t@.len()),
    decreases t@.len() - pos, 2int,
{
    let p = run_end(t, Class::Space, pos);
    if p < t.len() && t[p] == 40 {
        return match read_or(t, p + 1) {
            Err(e) => Err(e),
            Ok((e, p1)) => {
                let r = run_end(t, Class::Space, p1);
                if r < t.len() && t[r] == 41 {
                    Ok((e, r + 1))
                } else {
                    Err(syntax_error(r, Expected::CloseParen))
                }
            },
        };
    }
    if p < t.len() {
        let c: u8 = t[p];
        if (65 <= c && c <= 90) || (97 <= c && c <= 122) || c == 95 {
            let q = run_end(t, Class::Ident, p);
            proof {
                lemma_scan_from(t@, Class::Ident, p + 1);
            }
            if q < t.len() && t[q] == 40 {
                return read_call(t, p, q);
            }
        }
    }
    read_comparison(t, pos)
}

fn read_call(t: &[u8], p: usize, q: usize) -> (r: Result<(Expr, usize), ParseError>)
    requires
        p < q < t@.len(),
    ensures
        agrees(r, call_at(t@, p as int, q as int), p, t@.len()),
    decreases t@.len() - q, 1int,
{
    let len: usize = t.len();
    let name = span(t, p, q);
    let w = word_of(&name);
    let known = match w {
        Some(Word::Latest) => true,
        Some(Word::Single) => true,
        Some(Word::UsedBy) => true,
        Some(Word::Depends) => true,
        _ => false,
    };
    if !known {
        return Err(ParseError::UnknownFunction { position: p });
    }
    let a = run_end(t, Class::Space, q + 1);
    if a < t.len() && t[a] == 41 {
        return match w {
            Some(Word::Latest) => Ok((Expr::Latest(None), a + 1)),
            _ => Err(ParseError::ArityMismatch { position: p }),
        };
    }
    match read_or(t, q + 1) {
        Err(e) => Err(e),
        Ok((inner, p1)) => read_call_tail(t, p, w.unwrap(), inner, p1),
    }
}

/// Reads a query.
pub fn parse(text: &[u8]) -> (r: Result<Expr, ParseError>)
    ensures
        match r {
            Ok(e) => parse_spec(text@) == Ok::<ExprView, ParseError>(expr_view(e)),
            Err(x) => parse_spec(text@) == Err::<ExprView, ParseError>(x),
        },
{
    match read_or(text, 0) {
        Err(e) => Err(e),
        Ok((e, p)) => {
            let z = run_end(text, Class::Space, p);
            if z >= text.len() {
                Ok(e)
            } else {
                Err(syntax_error(z, Expected::End))
            }
        },
    }
}

} // verus!
