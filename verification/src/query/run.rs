//! Parsing a query text and running it against an engine.

use vstd::prelude::*;
use crate::engine::{Engine, EngineError};
use crate::query::ast::{Statement, StatementModel};
use crate::query::eval::{InterpretError, Params};
use crate::query::grammar::{PErr, statement_spec};
use crate::query::lexer::{lex, lex_spec};
use crate::query::parser::{ParseError, parse_tokens};
use crate::query::result::QueryResult;
use crate::storage::Storage;

verus! {

#[derive(Debug)]
pub enum QueryError {
    Parse(ParseError),
    Interpret(InterpretError),
}

/// What parsing a query text gives: the statement's model, or the error
/// (a lexing error inside a parse error).
pub open spec fn parse_spec(src: Seq<char>) -> Result<StatementModel, PErr> {
    match lex_spec(vstd::utf8::encode_utf8(src)) {
        Err(e) => Err(PErr::Lex(e)),
        Ok(toks) => statement_spec(toks),
    }
}

/// Parses a query text into a statement.
pub fn parse(src: &str) -> (r: Result<Statement, QueryError>)
    ensures
        match (r, parse_spec(src@)) {
            (Ok(s), Ok(m)) => s@ == m && crate::query::interpreter::statement_wf(s),
            (Err(QueryError::Parse(e)), Err(m)) => e@ == m,
            _ => false,
        },
{
    let tokens = match lex(src) {
        Ok(t) => t,
        Err(e) => {
            return Err(QueryError::Parse(ParseError::Lex(e)));
        },
    };
    match parse_tokens(tokens.as_slice()) {
        Ok(s) => Ok(s),
        Err(e) => Err(QueryError::Parse(e)),
    }
}

/// A query's result or error, as the models a statement's outcome
/// speaks of: an interpreter error as itself, any other error (which a
/// parsed statement never gives) as a type mismatch with its message.
pub open spec fn engine_result_model(r: Result<QueryResult, EngineError>) -> Result<
    crate::query::result::ResultModel,
    crate::query::eval::IErr,
> {
    match r {
        Ok(q) => Ok(q@),
        Err(EngineError::Query(QueryError::Interpret(e))) => Err(e@),
        Err(e) => Err(crate::query::eval::IErr::TypeMismatch(crate::messages::engine_error_text(e))),
    }
}

impl<S: Storage> Engine<S> {
    /// Parses and runs a query. A text that does not parse changes
    /// nothing; a `MATCH ... RETURN` changes nothing.
    pub fn query(&mut self, cypher: &str, params: &Params) -> (r: Result<QueryResult, EngineError>)
        requires
            old(self).inv(),
            params.wf(),
        ensures
            final(self).inv(),
            final(self).actor_ids() == old(self).actor_ids(),
            final(self).settings() == old(self).settings(),
            parse_spec(cypher@) is Err ==> (r matches Err(EngineError::Query(QueryError::Parse(_)))
                && final(self).unchanged(*old(self))),
            parse_spec(cypher@) matches Ok(m) ==> crate::query::interpreter::statement_outcome(
                *old(self),
                *final(self),
                m,
                params@,
                engine_result_model(r),
            ),
    {
        let stmt = match parse(cypher) {
            Ok(s) => s,
            Err(e) => {
                return Err(EngineError::Query(e));
            },
        };
        match crate::query::interpreter::execute(self, &stmt, params) {
            Ok(q) => Ok(q),
            Err(e) => Err(EngineError::Query(QueryError::Interpret(e))),
        }
    }
}

} // verus!
