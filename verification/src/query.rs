//! The query language's syntax tree and its evaluation against an index.
//! A query selects packets; what it selects is held as one mark per packet
//! of the index, in the order of the index.

use crate::bytes::{bytes_eq, bytes_lt, copy_bytes, seq_lt, views};
use crate::graph::{closure, closure_marks, Direction};
use crate::index::{Index, Packet, Parameter, Scalar};
use vstd::prelude::*;

verus! {

/// A value read from a packet.
#[derive(Debug)]
pub enum Lookup {
    Name,
    Id,
    /// A parameter of the packet under test.
    Parameter(Vec<u8>),
    /// A parameter of the environment packet given with the query.
    This(Vec<u8>),
}

#[derive(Debug)]
pub enum Operand {
    Literal(Scalar),
    Lookup(Lookup),
}

#[derive(Clone, Copy, Debug, PartialEq, Eq, Structural)]
pub enum CompareOp {
    Eq,
    Ne,
    Lt,
    Le,
    Gt,
    Ge,
}

#[derive(Debug)]
pub enum Expr {
    Compare(CompareOp, Operand, Operand),
    Not(Box<Expr>),
    And(Box<Expr>, Box<Expr>),
    Or(Box<Expr>, Box<Expr>),
    Latest(Option<Box<Expr>>),
    Single(Box<Expr>),
    Closure(Direction, Box<Expr>, Option<u64>),
}

#[derive(Clone, Copy, Debug, PartialEq, Eq, Structural)]
pub enum EvalError {
    /// `single` matched this many packets, not one.
    AmbiguousQuery(usize),
    /// `this:` was used and no environment packet was given.
    UnknownLookupScope,
}

/// An operand as a mathematical value.
pub ghost enum OperandView {
    Str(Seq<u8>),
    Num(int),
    Bool(bool),
    Name,
    Id,
    Parameter(Seq<u8>),
    This(Seq<u8>),
}

/// A query as a mathematical value.
pub ghost enum ExprView {
    Compare(CompareOp, OperandView, OperandView),
    Not(Box<ExprView>),
    And(Box<ExprView>, Box<ExprView>),
    Or(Box<ExprView>, Box<ExprView>),
    Latest(Option<Box<ExprView>>),
    Single(Box<ExprView>),
    Closure(Direction, Box<ExprView>, Option<u64>),
}

pub open spec fn operand_view(o: Operand) -> OperandView {
    match o {
        Operand::Literal(Scalar::Str(b)) => OperandView::Str(b@),
        Operand::Literal(Scalar::Num(n)) => OperandView::Num(n as int),
        Operand::Literal(Scalar::Bool(b)) => OperandView::Bool(b),
        Operand::Lookup(Lookup::Name) => OperandView::Name,
        Operand::Lookup(Lookup::Id) => OperandView::Id,
        Operand::Lookup(Lookup::Parameter(k)) => OperandView::Parameter(k@),
        Operand::Lookup(Lookup::This(k)) => OperandView::This(k@),
    }
}

pub open spec fn expr_view(e: Expr) -> ExprView
    decreases e,
{
    match e {
        Expr::Compare(op, a, b) => ExprView::Compare(op, operand_view(a), operand_view(b)),
        Expr::Not(a) => ExprView::Not(Box::new(expr_view(*a))),
        Expr::And(a, b) => ExprView::And(Box::new(expr_view(*a)), Box::new(expr_view(*b))),
        Expr::Or(a, b) => ExprView::Or(Box::new(expr_view(*a)), Box::new(expr_view(*b))),
        Expr::Latest(None) => ExprView::Latest(None),
        Expr::Latest(Some(a)) => ExprView::Latest(Some(Box::new(expr_view(*a)))),
        Expr::Single(a) => ExprView::Single(Box::new(expr_view(*a))),
        Expr::Closure(dir, a, depth) => ExprView::Closure(dir, Box::new(expr_view(*a)), depth),
    }
}

/// What an operand evaluates to.
pub ghost enum Val {
    Null,
    Str(Seq<u8>),
    Num(int),
    Bool(bool),
}

pub open spec fn scalar_val(s: Scalar) -> Val {
    match s {
        Scalar::Str(b) => Val::Str(b@),
        Scalar::Num(n) => Val::Num(n as int),
        Scalar::Bool(b) => Val::Bool(b),
    }
}

/// The value of the first parameter from position `i` on with the key
/// `key`, or null where there is none.
pub open spec fn param_from(params: Seq<Parameter>, key: Seq<u8>, i: int) -> Val
    decreases params.len() - i,
{
    if i < 0 || i >= params.len() {
        Val::Null
    } else if params[i].key@ == key {
        scalar_val(params[i].value)
    } else {
        param_from(params, key, i + 1)
    }
}

pub open spec fn operand_val(o: OperandView, p: Packet, env: Option<Packet>) -> Val {
    match o {
        OperandView::Str(s) => Val::Str(s),
        OperandView::Num(n) => Val::Num(n),
        OperandView::Bool(b) => Val::Bool(b),
        OperandView::Name => Val::Str(p.name@),
        OperandView::Id => Val::Str(p.id@),
        OperandView::Parameter(k) => param_from(p.parameters@, k, 0),
        OperandView::This(k) => match env {
            Some(e) => param_from(e.parameters@, k, 0),
            None => Val::Null,
        },
    }
}

pub open spec fn uses_env(o: OperandView) -> bool {
    o is This
}

/// Numbers compare as numbers and strings lexically; booleans are equal or
/// not; values of two kinds, and null, compare as false under every operator.
pub open spec fn compare_vals(op: CompareOp, a: Val, b: Val) -> bool {
    match (a, b) {
        (Val::Num(x), Val::Num(y)) => match op {
            CompareOp::Eq => x == y,
            CompareOp::Ne => x != y,
            CompareOp::Lt => x < y,
            CompareOp::Le => x <= y,
            CompareOp::Gt => x > y,
            CompareOp::Ge => x >= y,
        },
        (Val::Str(x), Val::Str(y)) => match op {
            CompareOp::Eq => x == y,
            CompareOp::Ne => x != y,
            CompareOp::Lt => seq_lt(x, y),
            CompareOp::Le => !seq_lt(y, x),
            CompareOp::Gt => seq_lt(y, x),
            CompareOp::Ge => !seq_lt(x, y),
        },
        (Val::Bool(x), Val::Bool(y)) => match op {
            CompareOp::Eq => x == y,
            CompareOp::Ne => x != y,
            _ => false,
        },
        _ => false,
    }
}

pub open spec fn env_of(env: Option<&Packet>) -> Option<Packet> {
    match env {
        Some(p) => Some(*p),
        None => None,
    }
}

/// The number of marks among the first `k`.
pub open spec fn count_marks(s: Seq<bool>, k: int) -> nat
    decreases k,
{
    if k <= 0 {
        0
    } else {
        count_marks(s, k - 1) + if s[k - 1] {
            1nat
        } else {
            0nat
        }
    }
}

pub open spec fn none_marked(s: Seq<bool>) -> bool {
    forall|i: int| 0 <= i < s.len() ==> !#[trigger] s[i]
}

pub open spec fn all_marked(s: Seq<bool>) -> bool {
    forall|i: int| 0 <= i < s.len() ==> #[trigger] s[i]
}

/// The last of the marks alone: in an index, the match with the greatest
/// time, and of those with that time the one with the greatest id.
pub open spec fn latest_marks(s: Seq<bool>) -> Seq<bool> {
    Seq::new(s.len(), |i: int| s[i] && forall|j: int| i < j < s.len() ==> !#[trigger] s[j])
}

pub open spec fn single_spec(s: Seq<bool>) -> Result<Seq<bool>, EvalError> {
    if count_marks(s, s.len() as int) == 1 {
        Ok(s)
    } else {
        Err(EvalError::AmbiguousQuery(count_marks(s, s.len() as int) as usize))
    }
}

/// The packets that a query selects, one mark per packet, or the error
/// that its evaluation ends in. `&&` and `||` evaluate the left side first
/// and leave the right side out where the left side decides.
pub open spec fn eval_spec(ps: Seq<Packet>, env: Option<Packet>, e: ExprView) -> Result<
    Seq<bool>,
    EvalError,
>
    decreases e,
{
    match e {
        ExprView::Compare(op, a, b) => {
            if (uses_env(a) || uses_env(b)) && env.is_none() {
                Err(EvalError::UnknownLookupScope)
            } else {
                Ok(
                    Seq::new(
                        ps.len(),
                        |i: int|
                            compare_vals(op, operand_val(a, ps[i], env), operand_val(b, ps[i], env)),
                    ),
                )
            }
        },
        ExprView::Not(a) => match eval_spec(ps, env, *a) {
            Err(x) => Err(x),
            Ok(sa) => Ok(Seq::new(ps.len(), |i: int| !sa[i])),
        },
        ExprView::And(a, b) => match eval_spec(ps, env, *a) {
            Err(x) => Err(x),
            Ok(sa) => if none_marked(sa) {
                Ok(sa)
            } else {
                match eval_spec(ps, env, *b) {
                    Err(x) => Err(x),
                    Ok(sb) => Ok(Seq::new(ps.len(), |i: int| sa[i] && sb[i])),
                }
            },
        },
        ExprView::Or(a, b) => match eval_spec(ps, env, *a) {
            Err(x) => Err(x),
            Ok(sa) => if all_marked(sa) {
                Ok(sa)
            } else {
                match eval_spec(ps, env, *b) {
                    Err(x) => Err(x),
                    Ok(sb) => Ok(Seq::new(ps.len(), |i: int| sa[i] || sb[i])),
                }
            },
        },
        ExprView::Latest(None) => Ok(latest_marks(Seq::new(ps.len(), |i: int| true))),
        ExprView::Latest(Some(a)) => match eval_spec(ps, env, *a) {
            Err(x) => Err(x),
            Ok(sa) => Ok(latest_marks(sa)),
        },
        ExprView::Single(a) => match eval_spec(ps, env, *a) {
            Err(x) => Err(x),
            Ok(sa) => single_spec(sa),
        },
        ExprView::Closure(dir, a, depth) => match eval_spec(ps, env, *a) {
            Err(x) => Err(x),
            Ok(sa) => Ok(closure(ps, dir, sa, depth)),
        },
    }
}

/// The ids of the marked packets among the first `n`, in their order.
pub open spec fn marked_ids(ps: Seq<Packet>, s: Seq<bool>, n: int) -> Seq<Seq<u8>>
    decreases n,
{
    if n <= 0 {
        Seq::<Seq<u8>>::empty()
    } else if s[n - 1] {
        marked_ids(ps, s, n - 1).push(ps[n - 1].id@)
    } else {
        marked_ids(ps, s, n - 1)
    }
}

/// A marks sequence has one mark for each packet.
pub proof fn lemma_eval_len(ps: Seq<Packet>, env: Option<Packet>, e: ExprView)
    ensures
        eval_spec(ps, env, e).is_ok() ==> eval_spec(ps, env, e).unwrap().len() == ps.len(),
    decreases e,
{
    match e {
        ExprView::Compare(op, a, b) => {},
        ExprView::Not(a) => {
            lemma_eval_len(ps, env, *a);
        },
        ExprView::And(a, b) => {
            lemma_eval_len(ps, env, *a);
            lemma_eval_len(ps, env, *b);
        },
        ExprView::Or(a, b) => {
            lemma_eval_len(ps, env, *a);
            lemma_eval_len(ps, env, *b);
        },
        ExprView::Latest(None) => {},
        ExprView::Latest(Some(a)) => {
            lemma_eval_len(ps, env, *a);
        },
        ExprView::Single(a) => {
            lemma_eval_len(ps, env, *a);
        },
        ExprView::Closure(dir, a, depth) => {
            lemma_eval_len(ps, env, *a);
        },
    }
}

/// A value as the evaluator holds it.
pub enum Resolved<'a> {
    Null,
    Str(&'a Vec<u8>),
    Num(i64),
    Bool(bool),
}

impl<'a> Resolved<'a> {
    pub open spec fn val(&self) -> Val {
        match *self {
            Resolved::Null => Val::Null,
            Resolved::Str(b) => Val::Str(b@),
            Resolved::Num(n) => Val::Num(n as int),
            Resolved::Bool(b) => Val::Bool(b),
        }
    }
}

fn resolve_scalar<'a>(s: &'a Scalar) -> (r: Resolved<'a>)
    ensures
        r.val() == scalar_val(*s),
{
    match s {
        Scalar::Str(b) => Resolved::Str(b),
        Scalar::Num(n) => Resolved::Num(*n),
        Scalar::Bool(b) => Resolved::Bool(*b),
    }
}

/// The value of the parameter with the key `key`, or null.
pub fn parameter<'a>(params: &'a Vec<Parameter>, key: &[u8]) -> (r: Resolved<'a>)
    ensures
        r.val() == param_from(params@, key@, 0),
{
    let mut i: usize = 0;
    while i < params.len()
        invariant
            i <= params.len(),
            param_from(params@, key@, 0) == param_from(params@, key@, i as int),
        decreases params.len() - i,
    {
        if bytes_eq(params[i].key.as_slice(), key) {
            return resolve_scalar(&params[i].value);
        }
        i += 1;
    }
    Resolved::Null
}

/// The value of an operand for the packet under test.
pub fn resolve<'a>(o: &'a Operand, p: &'a Packet, env: Option<&'a Packet>) -> (r: Resolved<'a>)
    ensures
        r.val() == operand_val(operand_view(*o), *p, env_of(env)),
{
    match o {
        Operand::Literal(s) => resolve_scalar(s),
        Operand::Lookup(Lookup::Name) => Resolved::Str(&p.name),
        Operand::Lookup(Lookup::Id) => Resolved::Str(&p.id),
        Operand::Lookup(Lookup::Parameter(k)) => parameter(&p.parameters, k.as_slice()),
        Operand::Lookup(Lookup::This(k)) => match env {
            Some(e) => parameter(&e.parameters, k.as_slice()),
            None => Resolved::Null,
        },
    }
}

/// Compares two values under an operator.
pub fn compare<'a, 'b>(op: CompareOp, a: &Resolved<'a>, b: &Resolved<'b>) -> (r: bool)
    ensures
        r == compare_vals(op, a.val(), b.val()),
{
    match (a, b) {
        (Resolved::Num(x), Resolved::Num(y)) => match op {
            CompareOp::Eq => *x == *y,
            CompareOp::Ne => *x != *y,
            CompareOp::Lt => *x < *y,
            CompareOp::Le => *x <= *y,
            CompareOp::Gt => *x > *y,
            CompareOp::Ge => *x >= *y,
        },
        (Resolved::Str(x), Resolved::Str(y)) => match op {
            CompareOp::Eq => bytes_eq(x.as_slice(), y.as_slice()),
            CompareOp::Ne => !bytes_eq(x.as_slice(), y.as_slice()),
            CompareOp::Lt => bytes_lt(x.as_slice(), y.as_slice()),
            CompareOp::Le => !bytes_lt(y.as_slice(), x.as_slice()),
            CompareOp::Gt => bytes_lt(y.as_slice(), x.as_slice()),
            CompareOp::Ge => !bytes_lt(x.as_slice(), y.as_slice()),
        },
        (Resolved::Bool(x), Resolved::Bool(y)) => match op {
            CompareOp::Eq => *x == *y,
            CompareOp::Ne => *x != *y,
            _ => false,
        },
        _ => false,
    }
}

fn is_this(o: &Operand) -> (r: bool)
    ensures
        r == uses_env(operand_view(*o)),
{
    match o {
        Operand::Lookup(Lookup::This(_)) => true,
        _ => false,
    }
}

/// The position of the last mark: of the matches in an index, the one with
/// the greatest time, ties by the greatest id. `None` where nothing is marked.
pub fn latest(s: &Vec<bool>) -> (r: Option<usize>)
    ensures
        match r {
            Some(i) => i < s@.len() && s@[i as int] && forall|j: int|
                i < j < s@.len() ==> !#[trigger] s@[j],
            None => none_marked(s@),
        },
{
    let mut i: usize = s.len();
    while i > 0
        invariant
            i <= s.len(),
            forall|j: int| i <= j < s@.len() ==> !#[trigger] s@[j],
        decreases i,
    {
        i -= 1;
        if s[i] {
            return Some(i);
        }
    }
    None
}

/// The position of the only mark. Where nothing or more than one position
/// is marked, the error that names the number of marks.
pub fn single(s: &Vec<bool>) -> (r: Result<usize, EvalError>)
    ensures
        match r {
            Ok(i) => i < s@.len() && s@[i as int] && (forall|j: int|
                0 <= j < s@.len() && j != i ==> !#[trigger] s@[j]) && count_marks(
                s@,
                s@.len() as int,
            ) == 1,
            Err(e) => e == EvalError::AmbiguousQuery(count_marks(s@, s@.len() as int) as usize)
                && count_marks(s@, s@.len() as int) != 1,
        },
        r.is_ok() <==> exists|i: int|
            0 <= i < s@.len() && #[trigger] s@[i] && forall|j: int|
                0 <= j < s@.len() && j != i ==> !#[trigger] s@[j],
{
    let mut count: usize = 0;
    let mut first: usize = 0;
    let mut k: usize = 0;
    let ghost mut second: int = 0;
    while k < s.len()
        invariant
            k <= s.len(),
            count <= k,
            count == count_marks(s@, k as int),
            count == 0 ==> forall|j: int| 0 <= j < k ==> !#[trigger] s@[j],
            count >= 1 ==> first < k && s@[first as int],
            count == 1 ==> forall|j: int| 0 <= j < k && j != first ==> !#[trigger] s@[j],
            count >= 2 ==> 0 <= second < k && second != first && s@[second],
        decreases s.len() - k,
    {
        if s[k] {
            if count == 0 {
                first = k;
            } else {
                proof {
                    second = k as int;
                }
            }
            count += 1;
        }
        k += 1;
    }
    if count == 1 {
        Ok(first)
    } else {
        proof {
            if count >= 2 {
                assert forall|i: int| 0 <= i < s@.len() && #[trigger] s@[i] implies !(forall|j: int|
                    0 <= j < s@.len() && j != i ==> !#[trigger] s@[j]) by {
                    if i == first {
                        assert(s@[second]);
                    } else {
                        assert(s@[first as int]);
                    }
                }
            }
        }
        Err(EvalError::AmbiguousQuery(count))
    }
}

fn marks_of(n: usize, value: bool) -> (r: Vec<bool>)
    ensures
        r@ == Seq::new(n as nat, |i: int| value),
{
    let mut out: Vec<bool> = Vec::new();
    let mut i: usize = 0;
    while i < n
        invariant
            i <= n,
            out@.len() == i,
            forall|k: int| 0 <= k < i ==> out@[k] == value,
        decreases n - i,
    {
        out.push(value);
        i += 1;
    }
    assert(out@ =~= Seq::new(n as nat, |i: int| value));
    out
}

fn only(n: usize, at: Option<usize>) -> (r: Vec<bool>)
    requires
        at.is_some() ==> at.unwrap() < n,
    ensures
        r@ == Seq::new(n as nat, |i: int| at == Some(i as usize)),
{
    let mut out = marks_of(n, false);
    match at {
        Some(i) => {
            out.set(i, true);
        },
        None => {},
    }
    assert(out@ =~= Seq::new(n as nat, |i: int| at == Some(i as usize)));
    out
}

fn is_none_marked(s: &Vec<bool>) -> (r: bool)
    ensures
        r == none_marked(s@),
{
    latest(s).is_none()
}

fn is_all_marked(s: &Vec<bool>) -> (r: bool)
    ensures
        r == all_marked(s@),
{
    let mut i: usize = 0;
    while i < s.len()
        invariant
            i <= s.len(),
            forall|j: int| 0 <= j < i ==> #[trigger] s@[j],
        decreases s.len() - i,
    {
        if !s[i] {
            return false;
        }
        i += 1;
    }
    true
}

/// The marks of the last mark alone.
fn latest_of(s: &Vec<bool>) -> (r: Vec<bool>)
    ensures
        r@ == latest_marks(s@),
{
    let at = latest(s);
    let out = only(s.len(), at);
    assert(out@ =~= latest_marks(s@));
    out
}

/// Evaluates a query against an index: one mark per packet of the index.
pub fn evaluate(index: &Index, env: Option<&Packet>, e: &Expr) -> (r: Result<Vec<bool>, EvalError>)
    requires
        index.wf(),
    ensures
        match r {
            Ok(v) => eval_spec(index.entries(), env_of(env), expr_view(*e)) == Ok::<Seq<bool>, EvalError>(v@)
                && v@.len() == index.entries().len(),
            Err(x) => eval_spec(index.entries(), env_of(env), expr_view(*e)) == Err::<Seq<bool>, EvalError>(x),
        },
    decreases e,
{
    let ps = index.packets();
    let n: usize = ps.len();
    proof {
        lemma_eval_len(ps@, env_of(env), expr_view(*e));
    }
    match e {
        Expr::Compare(op, a, b) => {
            if (is_this(a) || is_this(b)) && env.is_none() {
                return Err(EvalError::UnknownLookupScope);
            }
            let mut out: Vec<bool> = Vec::new();
            let mut i: usize = 0;
            while i < n
                invariant
                    i <= n,
                    n == ps@.len(),
                    out@.len() == i,
                    forall|k: int|
                        0 <= k < i ==> out@[k] == compare_vals(
                            *op,
                            operand_val(operand_view(*a), ps@[k], env_of(env)),
                            operand_val(operand_view(*b), ps@[k], env_of(env)),
                        ),
                decreases n - i,
            {
                let x = resolve(a, &ps[i], env);
                let y = resolve(b, &ps[i], env);
                out.push(compare(*op, &x, &y));
                i += 1;
            }
            assert(out@ =~= eval_spec(ps@, env_of(env), expr_view(*e)).unwrap());
            Ok(out)
        },
        Expr::Not(a) => match evaluate(index, env, a) {
            Err(x) => Err(x),
            Ok(sa) => {
                let mut out: Vec<bool> = Vec::new();
                let mut i: usize = 0;
                while i < n
                    invariant
                        i <= n,
                        n == sa@.len(),
                        out@.len() == i,
                        forall|k: int| 0 <= k < i ==> out@[k] == !sa@[k],
                    decreases n - i,
                {
                    out.push(!sa[i]);
                    i += 1;
                }
                assert(out@ =~= Seq::new(ps@.len(), |i: int| !sa@[i]));
                Ok(out)
            },
        },
        Expr::And(a, b) => match evaluate(index, env, a) {
            Err(x) => Err(x),
            Ok(sa) => {
                if is_none_marked(&sa) {
                    return Ok(sa);
                }
                match evaluate(index, env, b) {
                    Err(x) => Err(x),
                    Ok(sb) => {
                        let mut out: Vec<bool> = Vec::new();
                        let mut i: usize = 0;
                        while i < n
                            invariant
                                i <= n,
                                n == sa@.len(),
                                n == sb@.len(),
                                out@.len() == i,
                                forall|k: int| 0 <= k < i ==> out@[k] == (sa@[k] && sb@[k]),
                            decreases n - i,
                        {
                            out.push(sa[i] && sb[i]);
                            i += 1;
                        }
                        assert(out@ =~= Seq::new(ps@.len(), |i: int| sa@[i] && sb@[i]));
                        Ok(out)
                    },
                }
            },
        },
        Expr::Or(a, b) => match evaluate(index, env, a) {
            Err(x) => Err(x),
            Ok(sa) => {
                if is_all_marked(&sa) {
                    return Ok(sa);
                }
                match evaluate(index, env, b) {
                    Err(x) => Err(x),
                    Ok(sb) => {
                        let mut out: Vec<bool> = Vec::new();
                        let mut i: usize = 0;
                        while i < n
                            invariant
                                i <= n,
                                n == sa@.len(),
                                n == sb@.len(),
                                out@.len() == i,
                                forall|k: int| 0 <= k < i ==> out@[k] == (sa@[k] || sb@[k]),
                            decreases n - i,
                        {
                            out.push(sa[i] || sb[i]);
                            i += 1;
                        }
                        assert(out@ =~= Seq::new(ps@.len(), |i: int| sa@[i] || sb@[i]));
                        Ok(out)
                    },
                }
            },
        },
        Expr::Latest(None) => {
            let all = marks_of(n, true);
            Ok(latest_of(&all))
        },
        Expr::Latest(Some(a)) => match evaluate(index, env, a) {
            Err(x) => Err(x),
            Ok(sa) => Ok(latest_of(&sa)),
        },
        Expr::Single(a) => match evaluate(index, env, a) {
            Err(x) => Err(x),
            Ok(sa) => match single(&sa) {
                Ok(_) => Ok(sa),
                Err(x) => Err(x),
            },
        },
        Expr::Closure(dir, a, depth) => match evaluate(index, env, a) {
            Err(x) => Err(x),
            Ok(sa) => Ok(closure_marks(ps, *dir, &sa, *depth)),
        },
    }
}

/// The ids of the packets that a query selects, in the order of the index:
/// by time ascending, ties by id.
pub fn select(index: &Index, env: Option<&Packet>, e: &Expr) -> (r: Result<Vec<Vec<u8>>, EvalError>)
    requires
        index.wf(),
    ensures
        match eval_spec(index.entries(), env_of(env), expr_view(*e)) {
            Ok(s) => r.is_ok() && views(r.unwrap()@) == marked_ids(
                index.entries(),
                s,
                index.entries().len() as int,
            ),
            Err(x) => r == Err::<Vec<Vec<u8>>, EvalError>(x),
        },
{
    match evaluate(index, env, e) {
        Err(x) => Err(x),
        Ok(s) => Ok(ids_of_marks(index, &s)),
    }
}

/// The ids of the marked packets, in the order of the index.
pub fn ids_of_marks(index: &Index, s: &Vec<bool>) -> (r: Vec<Vec<u8>>)
    requires
        s@.len() == index.entries().len(),
    ensures
        views(r@) == marked_ids(index.entries(), s@, index.entries().len() as int),
{
    let ps = index.packets();
    let mut out: Vec<Vec<u8>> = Vec::new();
    let mut i: usize = 0;
    assert(views(out@) =~= marked_ids(ps@, s@, 0));
    while i < ps.len()
        invariant
            i <= ps.len(),
            s@.len() == ps@.len(),
            views(out@) == marked_ids(ps@, s@, i as int),
        decreases ps.len() - i,
    {
        let ghost prev = out@;
        if s[i] {
            out.push(copy_bytes(ps[i].id.as_slice()));
            assert(views(out@) =~= views(prev).push(ps@[i as int].id@));
        }
        i += 1;
    }
    out
}


/// Behind a mark there is a last mark.
pub proof fn lemma_last_mark(s: Seq<bool>, i: int)
    requires
        0 <= i < s.len(),
        s[i],
    ensures
        exists|k: int| i <= k < s.len() && #[trigger] latest_marks(s)[k],
    decreases s.len() - i,
{
    if exists|j: int| i < j < s.len() && #[trigger] s[j] {
        let j = choose|j: int| i < j < s.len() && #[trigger] s[j];
        lemma_last_mark(s, j);
    } else {
        assert(latest_marks(s)[i]);
    }
}

/// Of the matches in an index, `latest` keeps one: every other match has a
/// smaller time, or the same time and a lexically smaller id. It keeps
/// nothing only where nothing matches.
pub proof fn lemma_latest_greatest(ps: Seq<Packet>, s: Seq<bool>)
    requires
        crate::index::sorted(ps),
        s.len() == ps.len(),
    ensures
        forall|i: int, j: int|
            0 <= i < s.len() && 0 <= j < s.len() && #[trigger] latest_marks(s)[i] && #[trigger] s[j]
                && j != i ==> ps[j].time < ps[i].time || (ps[j].time == ps[i].time && seq_lt(
                ps[j].id@,
                ps[i].id@,
            )),
        forall|i: int| 0 <= i < s.len() && #[trigger] latest_marks(s)[i] ==> s[i],
        forall|i: int, j: int|
            0 <= i < s.len() && 0 <= j < s.len() && #[trigger] latest_marks(s)[i]
                && #[trigger] latest_marks(s)[j] ==> i == j,
        none_marked(latest_marks(s)) <==> none_marked(s),
{
    assert forall|i: int, j: int|
        0 <= i < s.len() && 0 <= j < s.len() && #[trigger] latest_marks(s)[i] && #[trigger] s[j] && j
            != i implies ps[j].time < ps[i].time || (ps[j].time == ps[i].time && seq_lt(
        ps[j].id@,
        ps[i].id@,
    )) by {
        assert(j < i);
        assert(crate::index::packet_lt(ps[j], ps[i]));
    }
    if !none_marked(s) {
        let i = choose|i: int| 0 <= i < s.len() && #[trigger] s[i];
        lemma_last_mark(s, i);
    }
}


/// The marked positions among the first `n`, ascending.
pub open spec fn marked_positions(s: Seq<bool>, n: int) -> Seq<int>
    decreases n,
{
    if n <= 0 {
        Seq::<int>::empty()
    } else if s[n - 1] {
        marked_positions(s, n - 1).push(n - 1)
    } else {
        marked_positions(s, n - 1)
    }
}

/// The ids of a selection are the ids at the marked positions, which
/// ascend and are exactly the marked ones.
pub proof fn lemma_marked_positions(ps: Seq<Packet>, s: Seq<bool>, n: int)
    requires
        0 <= n <= ps.len(),
        n <= s.len(),
    ensures
        ({
            let m = marked_positions(s, n);
            &&& marked_ids(ps, s, n) == crate::reconcile::ids_at(ps, m)
            &&& forall|a: int| 0 <= a < m.len() ==> 0 <= #[trigger] m[a] < n
            &&& forall|a: int, b: int| 0 <= a < b < m.len() ==> #[trigger] m[a] < #[trigger] m[b]
            &&& forall|k: int| 0 <= k < n ==> (m.contains(k) <==> #[trigger] s[k])
        }),
    decreases n,
{
    if n > 0 {
        lemma_marked_positions(ps, s, n - 1);
        let rest = marked_positions(s, n - 1);
        let m = marked_positions(s, n);
        assert(marked_ids(ps, s, n) =~= crate::reconcile::ids_at(ps, m));
        assert forall|k: int| 0 <= k < n implies (m.contains(k) <==> #[trigger] s[k]) by {
            if s[n - 1] {
                assert(m[rest.len() as int] == n - 1);
                if k < n - 1 && rest.contains(k) {
                    let a = choose|a: int| 0 <= a < rest.len() && rest[a] == k;
                    assert(m[a] == k);
                }
                if m.contains(k) && k < n - 1 {
                    let a = choose|a: int| 0 <= a < m.len() && m[a] == k;
                    assert(rest[a] == k);
                }
            } else {
                if rest.contains(k) {
                    let a = choose|a: int| 0 <= a < rest.len() && rest[a] == k;
                    assert(0 <= rest[a] < n - 1);
                }
            }
        }
    } else {
        assert(marked_ids(ps, s, n) =~= crate::reconcile::ids_at(ps, marked_positions(s, n)));
    }
}

/// A selection from an index lists the ids of the marked packets, each
/// once, in ascending order of time, ties by id.
pub proof fn lemma_selection_ordered(ps: Seq<Packet>, s: Seq<bool>)
    requires
        crate::index::sorted(ps),
        crate::index::distinct_ids(ps),
        s.len() == ps.len(),
    ensures
        ({
            let m = marked_positions(s, ps.len() as int);
            let ids = marked_ids(ps, s, ps.len() as int);
            &&& ids == crate::reconcile::ids_at(ps, m)
            &&& ids.no_duplicates()
            &&& forall|id: Seq<u8>|
                ids.contains(id) <==> exists|i: int|
                    0 <= i < ps.len() && s[i] && (#[trigger] ps[i]).id@ == id
            &&& forall|a: int, b: int|
                0 <= a < b < m.len() ==> crate::index::packet_lt(
                    ps[#[trigger] m[a]],
                    ps[#[trigger] m[b]],
                )
        }),
{
    let m = marked_positions(s, ps.len() as int);
    let ids = marked_ids(ps, s, ps.len() as int);
    lemma_marked_positions(ps, s, ps.len() as int);
    assert forall|id: Seq<u8>|
        ids.contains(id) <==> exists|i: int|
            0 <= i < ps.len() && s[i] && (#[trigger] ps[i]).id@ == id by {
        if ids.contains(id) {
            let a = choose|a: int| 0 <= a < ids.len() && ids[a] == id;
            assert(m.contains(m[a]));
            assert(s[m[a]] && ps[m[a]].id@ == id);
        }
        if exists|i: int| 0 <= i < ps.len() && s[i] && (#[trigger] ps[i]).id@ == id {
            let k = choose|i: int| 0 <= i < ps.len() && s[i] && (#[trigger] ps[i]).id@ == id;
            assert(m.contains(k));
            let a = choose|a: int| 0 <= a < m.len() && m[a] == k;
            assert(ids[a] == id);
        }
    }
    assert forall|a: int, b: int| 0 <= a < ids.len() && 0 <= b < ids.len() && a != b implies ids[a]
        != ids[b] by {
        if a < b {
            assert(m[a] < m[b]);
        } else {
            assert(m[b] < m[a]);
        }
    }
}


/// The query `id == x` for the id `x`.
pub open spec fn id_is(id: Seq<u8>) -> ExprView {
    ExprView::Compare(CompareOp::Eq, OperandView::Id, OperandView::Str(id))
}

/// In an index, `id == x` selects the packet with the id `x` and no other.
pub proof fn lemma_id_query(ps: Seq<Packet>, env: Option<Packet>, a: int)
    requires
        crate::index::distinct_ids(ps),
        0 <= a < ps.len(),
    ensures
        eval_spec(ps, env, id_is(ps[a].id@)) == Ok::<Seq<bool>, EvalError>(
            crate::graph::only_at(ps.len(), a),
        ),
{
    let got = eval_spec(ps, env, id_is(ps[a].id@)).unwrap();
    assert forall|i: int| 0 <= i < ps.len() implies got[i] == (i == a) by {
        if i != a {
            assert(ps[i].id@ != ps[a].id@);
        }
    }
    assert(got =~= crate::graph::only_at(ps.len(), a));
}

/// `usedby` and `depends` are inverse to each other: of two packets of an
/// index, the second is selected by `depends(id == first)` exactly when the
/// first is selected by `usedby(id == second)`, under the same bound.
pub proof fn lemma_usedby_depends_inverse(
    ps: Seq<Packet>,
    env: Option<Packet>,
    a: int,
    b: int,
    depth: Option<u64>,
)
    requires
        crate::index::distinct_ids(ps),
        0 <= a < ps.len(),
        0 <= b < ps.len(),
        a != b,
    ensures
        ({
            let deps = eval_spec(
                ps,
                env,
                ExprView::Closure(Direction::Depends, Box::new(id_is(ps[a].id@)), depth),
            );
            let used = eval_spec(
                ps,
                env,
                ExprView::Closure(Direction::UsedBy, Box::new(id_is(ps[b].id@)), depth),
            );
            deps.is_ok() && used.is_ok() && deps.unwrap()[b] == used.unwrap()[a]
        }),
{
    lemma_id_query(ps, env, a);
    lemma_id_query(ps, env, b);
    crate::graph::lemma_closures_inverse(ps, a, b, depth);
}

} // verus!
