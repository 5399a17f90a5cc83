//! The human-readable message of each error type, as its `message`
//! method writes it and as the spec function beside it states it.

use vstd::prelude::*;
use crate::engine::EngineError;
use crate::query::eval::InterpretError;
use crate::query::lexer::LexError;
use crate::query::parser::ParseError;
use crate::query::run::QueryError;
use crate::record::RecordError;
use crate::storage::StorageError;
use crate::text::{nat_text, push_decimal};
use crate::wire::DecodeError;

verus! {

/// A character as a quoted literal: `'x'`, with a backslash before a quote
/// or backslash and the usual escapes for tab, line feed, carriage return
/// and NUL.
pub open spec fn quoted_char(c: char) -> Seq<char> {
    let body = if c == '\t' {
        seq!['\\', 't']
    } else if c == '\n' {
        seq!['\\', 'n']
    } else if c == '\r' {
        seq!['\\', 'r']
    } else if c == '\0' {
        seq!['\\', '0']
    } else if c == '\\' || c == '\'' {
        seq!['\\', c]
    } else {
        seq![c]
    };
    seq!['\''] + body + seq!['\'']
}

fn push_quoted_char(s: &mut String, c: char)
    ensures
        final(s)@ == old(s)@ + quoted_char(c),
{
    s.push('\'');
    if c == '\t' {
        s.push('\\');
        s.push('t');
    } else if c == '\n' {
        s.push('\\');
        s.push('n');
    } else if c == '\r' {
        s.push('\\');
        s.push('r');
    } else if c == '\0' {
        s.push('\\');
        s.push('0');
    } else if c == '\\' || c == '\'' {
        s.push('\\');
        s.push(c);
    } else {
        s.push(c);
    }
    s.push('\'');
    proof {
        assert(s@ =~= old(s)@ + quoted_char(c));
    }
}

pub open spec fn lex_error_text(e: LexError) -> Seq<char> {
    match e {
        LexError::Unexpected { ch, offset } => "unexpected character "@ + quoted_char(ch) + " at offset "@ + nat_text(
            offset as nat,
        ),
        LexError::UnterminatedString { offset } => "unterminated string starting at offset "@ + nat_text(offset as nat),
        LexError::InvalidEscape { offset } => "invalid escape sequence at offset "@ + nat_text(offset as nat),
        LexError::InvalidNumber { offset } => "invalid number literal at offset "@ + nat_text(offset as nat),
    }
}

impl LexError {
    /// The error's message.
    pub fn message(&self) -> (r: String)
        ensures
            r@ == lex_error_text(*self),
    {
        let mut out = String::new();
        match self {
            LexError::Unexpected { ch, offset } => {
                out.push_str("unexpected character ");
                push_quoted_char(&mut out, *ch);
                out.push_str(" at offset ");
                push_decimal(&mut out, *offset as u64);
            },
            LexError::UnterminatedString { offset } => {
                out.push_str("unterminated string starting at offset ");
                push_decimal(&mut out, *offset as u64);
            },
            LexError::InvalidEscape { offset } => {
                out.push_str("invalid escape sequence at offset ");
                push_decimal(&mut out, *offset as u64);
            },
            LexError::InvalidNumber { offset } => {
                out.push_str("invalid number literal at offset ");
                push_decimal(&mut out, *offset as u64);
            },
        }
        proof {
            assert(out@ =~= lex_error_text(*self));
        }
        out
    }
}

pub open spec fn parse_error_text(e: ParseError) -> Seq<char> {
    match e {
        ParseError::Lex(l) => "lex error: "@ + lex_error_text(l),
        ParseError::Unexpected { token, expected, offset } => "unexpected token "@ + token@ + " at offset "@ + nat_text(
            offset as nat,
        ) + " (expected "@ + expected@ + ")"@,
        ParseError::UnexpectedEnd { expected } => "unexpected end of input (expected "@ + expected@ + ")"@,
        ParseError::Unsupported(t) => "unsupported statement: "@ + t@,
    }
}

impl ParseError {
    /// The error's message.
    pub fn message(&self) -> (r: String)
        ensures
            r@ == parse_error_text(*self),
    {
        let mut out = String::new();
        match self {
            ParseError::Lex(l) => {
                out.push_str("lex error: ");
                let m = l.message();
                out.push_str(m.as_str());
            },
            ParseError::Unexpected { token, expected, offset } => {
                out.push_str("unexpected token ");
                out.push_str(token.as_str());
                out.push_str(" at offset ");
                push_decimal(&mut out, *offset as u64);
                out.push_str(" (expected ");
                out.push_str(expected.as_str());
                out.push_str(")");
            },
            ParseError::UnexpectedEnd { expected } => {
                out.push_str("unexpected end of input (expected ");
                out.push_str(expected.as_str());
                out.push_str(")");
            },
            ParseError::Unsupported(t) => {
                out.push_str("unsupported statement: ");
                out.push_str(t.as_str());
            },
        }
        proof {
            assert(out@ =~= parse_error_text(*self));
        }
        out
    }
}

pub open spec fn interpret_error_text(e: InterpretError) -> Seq<char> {
    match e {
        InterpretError::UnknownParam(s) => "unknown parameter $"@ + s@,
        InterpretError::UnknownVariable(s) => "unknown variable "@ + s@,
        InterpretError::ExpectedBool(s) => "expected boolean, got "@ + s@,
        InterpretError::ExpectedScalar(s) => "expected scalar value, got "@ + s@,
        InterpretError::TypeMismatch(s) => "type mismatch: "@ + s@,
        InterpretError::MergeMissingId => "MERGE requires an `id` property"@,
        InterpretError::MissingLabel => "MERGE/CREATE require a label"@,
        InterpretError::DeleteVariableMismatch(s) => "DELETE variable "@ + s@ + " does not match any pattern variable"@,
        InterpretError::DeleteEdgeUnsupported => "DELETE on an edge variable is not supported; delete via the engine API"@,
        InterpretError::NestedPath(s) => "nested property paths are not supported (got "@ + s@ + ")"@,
    }
}

impl InterpretError {
    /// The error's message.
    pub fn message(&self) -> (r: String)
        ensures
            r@ == interpret_error_text(*self),
    {
        let mut out = String::new();
        match self {
            InterpretError::UnknownParam(s) => {
                out.push_str("unknown parameter $");
                out.push_str(s.as_str());
            },
            InterpretError::UnknownVariable(s) => {
                out.push_str("unknown variable ");
                out.push_str(s.as_str());
            },
            InterpretError::ExpectedBool(s) => {
                out.push_str("expected boolean, got ");
                out.push_str(s);
            },
            InterpretError::ExpectedScalar(s) => {
                out.push_str("expected scalar value, got ");
                out.push_str(s);
            },
            InterpretError::TypeMismatch(s) => {
                out.push_str("type mismatch: ");
                out.push_str(s.as_str());
            },
            InterpretError::MergeMissingId => {
                out.push_str("MERGE requires an `id` property");
            },
            InterpretError::MissingLabel => {
                out.push_str("MERGE/CREATE require a label");
            },
            InterpretError::DeleteVariableMismatch(s) => {
                out.push_str("DELETE variable ");
                out.push_str(s.as_str());
                out.push_str(" does not match any pattern variable");
            },
            InterpretError::DeleteEdgeUnsupported => {
                out.push_str("DELETE on an edge variable is not supported; delete via the engine API");
            },
            InterpretError::NestedPath(s) => {
                out.push_str("nested property paths are not supported (got ");
                out.push_str(s.as_str());
                out.push_str(")");
            },
        }
        proof {
            assert(out@ =~= interpret_error_text(*self));
        }
        out
    }
}

pub open spec fn query_error_text(e: QueryError) -> Seq<char> {
    match e {
        QueryError::Parse(p) => "parse error: "@ + parse_error_text(p),
        QueryError::Interpret(i) => "execution error: "@ + interpret_error_text(i),
    }
}

impl QueryError {
    /// The error's message.
    pub fn message(&self) -> (r: String)
        ensures
            r@ == query_error_text(*self),
    {
        let mut out = String::new();
        match self {
            QueryError::Parse(p) => {
                out.push_str("parse error: ");
                let m = p.message();
                out.push_str(m.as_str());
            },
            QueryError::Interpret(i) => {
                out.push_str("execution error: ");
                let m = i.message();
                out.push_str(m.as_str());
            },
        }
        proof {
            assert(out@ =~= query_error_text(*self));
        }
        out
    }
}

pub open spec fn storage_error_text(e: StorageError) -> Seq<char> {
    match e {
        StorageError::Io { path, message } => "io error at "@ + path@ + ": "@ + message@,
        StorageError::BadMagic(path) => "file at "@ + path@ + " is not a Motif store (bad magic)"@,
        StorageError::BadVersion { path, found, expected } => "file at "@ + path@ + " has unsupported format version "@
            + nat_text(found as nat) + " (expected "@ + nat_text(expected as nat) + ")"@,
        StorageError::ShortHeader { path, len, expected } => "file at "@ + path@ + " is shorter than the header ("@
            + nat_text(len as nat) + " < "@ + nat_text(expected as nat) + ")"@,
        StorageError::TruncateBelowHeader { new_len, header_len } => "truncate would corrupt the header: new_len "@
            + nat_text(new_len as nat) + " < HEADER_LEN "@ + nat_text(header_len as nat),
        StorageError::JsHostError { message } => "host storage error: "@ + message@,
    }
}

impl StorageError {
    /// The error's message.
    pub fn message(&self) -> (r: String)
        ensures
            r@ == storage_error_text(*self),
    {
        let mut out = String::new();
        match self {
            StorageError::Io { path, message } => {
                out.push_str("io error at ");
                out.push_str(path.as_str());
                out.push_str(": ");
                out.push_str(message.as_str());
            },
            StorageError::BadMagic(path) => {
                out.push_str("file at ");
                out.push_str(path.as_str());
                out.push_str(" is not a Motif store (bad magic)");
            },
            StorageError::BadVersion { path, found, expected } => {
                out.push_str("file at ");
                out.push_str(path.as_str());
                out.push_str(" has unsupported format version ");
                push_decimal(&mut out, *found as u64);
                out.push_str(" (expected ");
                push_decimal(&mut out, *expected as u64);
                out.push_str(")");
            },
            StorageError::ShortHeader { path, len, expected } => {
                out.push_str("file at ");
                out.push_str(path.as_str());
                out.push_str(" is shorter than the header (");
                push_decimal(&mut out, *len);
                out.push_str(" < ");
                push_decimal(&mut out, *expected);
                out.push_str(")");
            },
            StorageError::TruncateBelowHeader { new_len, header_len } => {
                out.push_str("truncate would corrupt the header: new_len ");
                push_decimal(&mut out, *new_len);
                out.push_str(" < HEADER_LEN ");
                push_decimal(&mut out, *header_len);
            },
            StorageError::JsHostError { message } => {
                out.push_str("host storage error: ");
                out.push_str(message.as_str());
            },
        }
        proof {
            assert(out@ =~= storage_error_text(*self));
        }
        out
    }
}

pub open spec fn decode_error_text(e: DecodeError) -> Seq<char> {
    match e {
        DecodeError::UnexpectedEnd => "unexpected end of input"@,
        DecodeError::InvalidIntegerType => "invalid integer type"@,
        DecodeError::InvalidBooleanValue => "invalid boolean value"@,
        DecodeError::UnexpectedVariant => "unexpected variant"@,
        DecodeError::Utf8 => "invalid UTF-8"@,
        DecodeError::LengthOverflow => "length does not fit in memory"@,
    }
}

impl DecodeError {
    /// The error's message.
    pub fn message(&self) -> (r: String)
        ensures
            r@ == decode_error_text(*self),
    {
        let s = match self {
            DecodeError::UnexpectedEnd => "unexpected end of input",
            DecodeError::InvalidIntegerType => "invalid integer type",
            DecodeError::InvalidBooleanValue => "invalid boolean value",
            DecodeError::UnexpectedVariant => "unexpected variant",
            DecodeError::Utf8 => "invalid UTF-8",
            DecodeError::LengthOverflow => "length does not fit in memory",
        };
        s.to_owned()
    }
}

pub open spec fn record_error_text(e: RecordError) -> Seq<char> {
    match e {
        RecordError::LengthOverflow(n) => "record payload length "@ + nat_text(n as nat) + " exceeds u32 max"@,
        RecordError::Decode(d) => "decode failed: "@ + decode_error_text(d),
    }
}

impl RecordError {
    /// The error's message.
    pub fn message(&self) -> (r: String)
        ensures
            r@ == record_error_text(*self),
    {
        let mut out = String::new();
        match self {
            RecordError::LengthOverflow(n) => {
                out.push_str("record payload length ");
                push_decimal(&mut out, *n as u64);
                out.push_str(" exceeds u32 max");
            },
            RecordError::Decode(d) => {
                out.push_str("decode failed: ");
                let m = d.message();
                out.push_str(m.as_str());
            },
        }
        proof {
            assert(out@ =~= record_error_text(*self));
        }
        out
    }
}

pub open spec fn engine_error_text(e: EngineError) -> Seq<char> {
    match e {
        EngineError::Storage(s) => "storage error: "@ + storage_error_text(s),
        EngineError::Record(r) => "record codec error: "@ + record_error_text(r),
        EngineError::DuplicateId(id) => "duplicate id: "@ + id@,
        EngineError::MissingNode(id) => "missing referenced node: "@ + id@,
        EngineError::Recovery { offset, source } => "recovery failed at offset "@ + nat_text(offset as nat) + ": "@
            + record_error_text(source),
        EngineError::SchemaUnknown { label, schema_version } => "unknown label "@ + label@
            + ": not declared in the current schema (version "@ + nat_text(schema_version as nat) + ")"@,
        EngineError::SchemaPropertyTypeMismatch { label, property, actual, schema_version, .. } => "property "@
            + property@ + " of label "@ + label@ + " holds a value of type "@ + actual@
            + ", not the declared one (schema version "@ + nat_text(schema_version as nat) + ")"@,
        EngineError::ControllerKindMismatch { declared, wired } => "controller kind mismatch: declared "@ + declared@
            + ", wired "@ + wired@,
        EngineError::Query(q) => "query error: "@ + query_error_text(q),
    }
}

impl EngineError {
    /// The error's message.
    pub fn message(&self) -> (r: String)
        ensures
            r@ == engine_error_text(*self),
    {
        let mut out = String::new();
        match self {
            EngineError::Storage(s) => {
                out.push_str("storage error: ");
                let m = s.message();
                out.push_str(m.as_str());
            },
            EngineError::Record(r) => {
                out.push_str("record codec error: ");
                let m = r.message();
                out.push_str(m.as_str());
            },
            EngineError::DuplicateId(id) => {
                out.push_str("duplicate id: ");
                out.push_str(id.as_str());
            },
            EngineError::MissingNode(id) => {
                out.push_str("missing referenced node: ");
                out.push_str(id.as_str());
            },
            EngineError::Recovery { offset, source } => {
                out.push_str("recovery failed at offset ");
                push_decimal(&mut out, *offset);
                out.push_str(": ");
                let m = source.message();
                out.push_str(m.as_str());
            },
            EngineError::SchemaUnknown { label, schema_version } => {
                out.push_str("unknown label ");
                out.push_str(label.as_str());
                out.push_str(": not declared in the current schema (version ");
                push_decimal(&mut out, *schema_version);
                out.push_str(")");
            },
            EngineError::SchemaPropertyTypeMismatch { label, property, actual, schema_version, .. } => {
                out.push_str("property ");
                out.push_str(property.as_str());
                out.push_str(" of label ");
                out.push_str(label.as_str());
                out.push_str(" holds a value of type ");
                out.push_str(actual.as_str());
                out.push_str(", not the declared one (schema version ");
                push_decimal(&mut out, *schema_version);
                out.push_str(")");
            },
            EngineError::ControllerKindMismatch { declared, wired } => {
                out.push_str("controller kind mismatch: declared ");
                out.push_str(declared.as_str());
                out.push_str(", wired ");
                out.push_str(wired.as_str());
            },
            EngineError::Query(q) => {
                out.push_str("query error: ");
                let m = q.message();
                out.push_str(m.as_str());
            },
        }
        proof {
            assert(out@ =~= engine_error_text(*self));
        }
        out
    }
}

} // verus!
