//! Queries from text to packet ids.

use crate::bytes::views;
use crate::index::{Index, Packet};
use crate::parser::{parse, parse_spec, ParseError};
use crate::query::{env_of, eval_spec, marked_ids, select, EvalError};
use vstd::prelude::*;

verus! {

#[derive(Clone, Copy, Debug, PartialEq, Eq, Structural)]
pub enum QueryError {
    Parse(ParseError),
    Eval(EvalError),
}

/// Reads the query `text` and evaluates it against the index, with `env` as
/// the packet that `this:` refers to. The ids of the selected packets come
/// in the order of time, ties by id.
pub fn evaluate_query(index: &Index, text: &[u8], env: Option<&Packet>) -> (r: Result<
    Vec<Vec<u8>>,
    QueryError,
>)
    requires
        index.wf(),
    ensures
        match parse_spec(text@) {
            Err(x) => r == Err::<Vec<Vec<u8>>, QueryError>(QueryError::Parse(x)),
            Ok(e) => match eval_spec(index.entries(), env_of(env), e) {
                Err(x) => r == Err::<Vec<Vec<u8>>, QueryError>(QueryError::Eval(x)),
                Ok(s) => r.is_ok() && views(r.unwrap()@) == marked_ids(
                    index.entries(),
                    s,
                    index.entries().len() as int,
                ),
            },
        },
{
    match parse(text) {
        Err(x) => Err(QueryError::Parse(x)),
        Ok(e) => match select(index, env, &e) {
            Err(x) => Err(QueryError::Eval(x)),
            Ok(ids) => Ok(ids),
        },
    }
}

} // verus!
