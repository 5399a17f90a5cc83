//! The grammar of the Cypher subset, as spec functions over token
//! sequences: each reads a construct at a position and gives its syntax
//! tree model and the position after it, or the error at the first token
//! that does not fit.
//!
//! ```text
//! statement     = "CREATE" node | "MERGE" node
//!               | "MATCH" patterns ("WHERE" expr)? "RETURN" items
//!                     ("ORDER" "BY" expr ("ASC" | "DESC")?)? ("LIMIT" int)?
//!               | "MATCH" patterns ("WHERE" expr)? "DETACH"? "DELETE" ident
//! patterns      = pattern ("," pattern)*
//! pattern       = node ("-" "[" ident (":" ident)? map? "]" "->" node)*
//! node          = "(" ident (":" ident)? map? ")"
//! map           = "{" (ident ":" expr ("," ident ":" expr)*)? "}"
//! items         = item ("," item)*
//! item          = "count" "(" ("*" | ident) ")" | "collect" "(" ident path? ")"
//!               | ident path?
//! path          = ("." ident)+
//! expr          = and ("OR" and)*
//! and           = not ("AND" not)*
//! not           = "NOT" not | comparison
//! comparison    = primary (("=" | "!=" | "<" | ">" | "<=" | ">=") primary)?
//! primary       = "(" expr ")" | int | decimal | string | "TRUE" | "FALSE"
//!               | "NULL" | param | "id" "(" ident ")" | ident path
//! ```

use vstd::prelude::*;
use crate::query::lexer::{LexError, Tok};
use crate::query::ast::{BinOp, ExprModel, ItemModel, PathModel, PatternModel, SortDirection, StatementModel};
use crate::value::ValueModel;
use crate::text::int_text;

verus! {

/// Model of a parse error: where it happened, not its message.
pub enum PErr {
    Lex(LexError),
    /// A token that does not fit: its offset, its text and what was
    /// expected there.
    Unexpected(int, Seq<char>, Seq<char>),
    /// The input ended early, where this was expected.
    UnexpectedEnd(Seq<char>),
    /// The first token, by its text, starts no statement.
    Unsupported(Seq<char>),
}

pub type Toks = Seq<(Tok, int)>;

/// A construct read at a position: its model and the next position.
pub type Parsed<T> = Result<(T, int), PErr>;

pub open spec fn tk(ts: Toks, p: int) -> Option<Tok> {
    if 0 <= p < ts.len() {
        Some(ts[p].0)
    } else {
        None
    }
}

/// The offset errors report at `p`: the token's, else the last token's,
/// else 0.
pub open spec fn offset_at(ts: Toks, p: int) -> int {
    if 0 <= p < ts.len() {
        ts[p].1
    } else if ts.len() > 0 {
        ts[ts.len() - 1].1
    } else {
        0
    }
}

/// The text that names token `t` in an error message: a keyword or a
/// punctuation mark as written, an identifier as `ident(name)`, a
/// parameter as `$name`, a string in double quotes, an integer in
/// decimal, and a decimal literal by its kind.
#[verifier::opaque]
pub open spec fn token_text(t: Tok) -> Seq<char> {
    match t {
        Tok::Create => "CREATE"@,
        Tok::Match => "MATCH"@,
        Tok::Merge => "MERGE"@,
        Tok::Where => "WHERE"@,
        Tok::Return => "RETURN"@,
        Tok::Delete => "DELETE"@,
        Tok::Detach => "DETACH"@,
        Tok::Limit => "LIMIT"@,
        Tok::Order => "ORDER"@,
        Tok::By => "BY"@,
        Tok::Asc => "ASC"@,
        Tok::Desc => "DESC"@,
        Tok::And => "AND"@,
        Tok::Or => "OR"@,
        Tok::Not => "NOT"@,
        Tok::True => "TRUE"@,
        Tok::False => "FALSE"@,
        Tok::Null => "NULL"@,
        Tok::Integer(i) => int_text(i as int),
        Tok::Float(_) => "decimal"@,
        Tok::LParen => "("@,
        Tok::RParen => ")"@,
        Tok::LBrace => "{"@,
        Tok::RBrace => "}"@,
        Tok::LBracket => "["@,
        Tok::RBracket => "]"@,
        Tok::Comma => ","@,
        Tok::Colon => ":"@,
        Tok::Dot => "."@,
        Tok::Star => "*"@,
        Tok::Dash => "-"@,
        Tok::Arrow => "->"@,
        Tok::Eq => "="@,
        Tok::NotEq => "!="@,
        Tok::Lt => "<"@,
        Tok::Gt => ">"@,
        Tok::LtEq => "<="@,
        Tok::GtEq => ">="@,
        Tok::Ident(s) => "ident("@ + s + seq![')'],
        Tok::Param(s) => "$"@ + s,
        Tok::Str(s) => "\""@ + s + seq!['"'],
    }
}

/// The error for a token at `p` that does not fit.
pub open spec fn err_at(ts: Toks, p: int, what: Seq<char>) -> PErr {
    if 0 <= p < ts.len() {
        PErr::Unexpected(offset_at(ts, p), token_text(ts[p].0), what)
    } else {
        PErr::UnexpectedEnd(what)
    }
}

/// The token `t`, described as `what` in an error.
pub open spec fn expect(ts: Toks, p: int, t: Tok, what: Seq<char>) -> Result<int, PErr> {
    if tk(ts, p) == Some(t) {
        Ok(p + 1)
    } else {
        Err(err_at(ts, p, what))
    }
}

/// An identifier, described as `what` in an error.
pub open spec fn expect_ident(ts: Toks, p: int, what: Seq<char>) -> Parsed<Seq<char>> {
    match tk(ts, p) {
        Some(Tok::Ident(s)) => Ok((s, p + 1)),
        _ => Err(err_at(ts, p, what)),
    }
}

/// `("." ident)*` after the identifiers already in `acc`.
pub open spec fn path_from(ts: Toks, p: int, acc: Seq<Seq<char>>) -> Parsed<Seq<Seq<char>>>
    decreases ts.len() - p,
{
    if p < 0 || p >= ts.len() || tk(ts, p) != Some(Tok::Dot) {
        Ok((acc, p))
    } else {
        match expect_ident(ts, p + 1, "property key"@) {
            Ok((s, q)) => path_from(ts, q, acc.push(s)),
            Err(e) => Err(e),
        }
    }
}

pub open spec fn comparison_op(t: Option<Tok>) -> Option<BinOp> {
    match t {
        Some(Tok::Eq) => Some(BinOp::Eq),
        Some(Tok::NotEq) => Some(BinOp::NotEq),
        Some(Tok::Lt) => Some(BinOp::Lt),
        Some(Tok::Gt) => Some(BinOp::Gt),
        Some(Tok::LtEq) => Some(BinOp::LtEq),
        Some(Tok::GtEq) => Some(BinOp::GtEq),
        _ => None,
    }
}

/// `id` spelled in lower case.
pub open spec fn id_word() -> Seq<char> {
    seq!['i', 'd']
}

pub open spec fn expr_spec(ts: Toks, p: int) -> Parsed<ExprModel>
    decreases ts.len() - p, 6int,
{
    or_spec(ts, p)
}

pub open spec fn or_spec(ts: Toks, p: int) -> Parsed<ExprModel>
    decreases ts.len() - p, 5int,
{
    match and_spec(ts, p) {
        Ok((l, q)) => if q <= p || q > ts.len() {
            Err(err_at(ts, p, "expression"@))
        } else {
            or_tail(ts, q, l)
        },
        Err(e) => Err(e),
    }
}

pub open spec fn or_tail(ts: Toks, q: int, l: ExprModel) -> Parsed<ExprModel>
    decreases ts.len() - q, 5int,
{
    if 0 <= q < ts.len() && tk(ts, q) == Some(Tok::Or) {
        match and_spec(ts, q + 1) {
            Ok((r, q2)) => if q2 <= q || q2 > ts.len() {
                Err(err_at(ts, q, "expression"@))
            } else {
                or_tail(ts, q2, ExprModel::Binary { op: BinOp::Or, lhs: Box::new(l), rhs: Box::new(r) })
            },
            Err(e) => Err(e),
        }
    } else {
        Ok((l, q))
    }
}

pub open spec fn and_spec(ts: Toks, p: int) -> Parsed<ExprModel>
    decreases ts.len() - p, 4int,
{
    match not_spec(ts, p) {
        Ok((l, q)) => if q <= p || q > ts.len() {
            Err(err_at(ts, p, "expression"@))
        } else {
            and_tail(ts, q, l)
        },
        Err(e) => Err(e),
    }
}

pub open spec fn and_tail(ts: Toks, q: int, l: ExprModel) -> Parsed<ExprModel>
    decreases ts.len() - q, 4int,
{
    if 0 <= q < ts.len() && tk(ts, q) == Some(Tok::And) {
        match not_spec(ts, q + 1) {
            Ok((r, q2)) => if q2 <= q || q2 > ts.len() {
                Err(err_at(ts, q, "expression"@))
            } else {
                and_tail(ts, q2, ExprModel::Binary { op: BinOp::And, lhs: Box::new(l), rhs: Box::new(r) })
            },
            Err(e) => Err(e),
        }
    } else {
        Ok((l, q))
    }
}

pub open spec fn not_spec(ts: Toks, p: int) -> Parsed<ExprModel>
    decreases ts.len() - p, 3int,
{
    if 0 <= p < ts.len() && tk(ts, p) == Some(Tok::Not) {
        match not_spec(ts, p + 1) {
            Ok((e, q)) => Ok((ExprModel::Not(Box::new(e)), q)),
            Err(e) => Err(e),
        }
    } else {
        comparison_spec(ts, p)
    }
}

pub open spec fn comparison_spec(ts: Toks, p: int) -> Parsed<ExprModel>
    decreases ts.len() - p, 2int,
{
    match primary_spec(ts, p) {
        Ok((l, q)) => match comparison_op(tk(ts, q)) {
            Some(op) => if q < p || q >= ts.len() {
                Err(err_at(ts, p, "expression"@))
            } else {
                match primary_spec(ts, q + 1) {
                    Ok((r, q2)) => Ok((ExprModel::Binary { op, lhs: Box::new(l), rhs: Box::new(r) }, q2)),
                    Err(e) => Err(e),
                }
            },
            None => Ok((l, q)),
        },
        Err(e) => Err(e),
    }
}

pub open spec fn primary_spec(ts: Toks, p: int) -> Parsed<ExprModel>
    decreases ts.len() - p, 1int,
{
    if p < 0 || p >= ts.len() {
        Err(PErr::UnexpectedEnd("expression"@))
    } else {
        match ts[p].0 {
            Tok::LParen => match expr_spec(ts, p + 1) {
                Ok((e, q)) => match expect(ts, q, Tok::RParen, ")"@) {
                    Ok(q2) => Ok((e, q2)),
                    Err(x) => Err(x),
                },
                Err(x) => Err(x),
            },
            Tok::Integer(i) => Ok((ExprModel::Literal(ValueModel::I64(i)), p + 1)),
            Tok::Float(f) => Ok((ExprModel::Literal(ValueModel::F64(f)), p + 1)),
            Tok::Str(s) => Ok((ExprModel::Literal(ValueModel::Str(s)), p + 1)),
            Tok::True => Ok((ExprModel::Literal(ValueModel::Bool(true)), p + 1)),
            Tok::False => Ok((ExprModel::Literal(ValueModel::Bool(false)), p + 1)),
            Tok::Null => Ok((ExprModel::Literal(ValueModel::Null), p + 1)),
            Tok::Param(s) => Ok((ExprModel::Param(s), p + 1)),
            Tok::Ident(name) => if name == id_word() && tk(ts, p + 1) == Some(Tok::LParen) {
                match expect_ident(ts, p + 2, "variable inside id(...)"@) {
                    Ok((v, q)) => match expect(ts, q, Tok::RParen, ")"@) {
                        Ok(q2) => Ok((ExprModel::IdOf(v), q2)),
                        Err(x) => Err(x),
                    },
                    Err(x) => Err(x),
                }
            } else if tk(ts, p + 1) == Some(Tok::Dot) {
                match path_from(ts, p + 1, Seq::empty()) {
                    Ok((path, q)) => Ok((ExprModel::Property { variable: name, path }, q)),
                    Err(x) => Err(x),
                }
            } else {
                Err(PErr::Unexpected(offset_at(ts, p + 1), name, "function call or property access"@))
            },
            _ => Err(err_at(ts, p, "expression"@)),
        }
    }
}

/// The entries of a property map after `{`, up to and including `}`,
/// after those already in `acc`.
pub open spec fn entries_spec(ts: Toks, p: int, acc: Map<Seq<char>, ExprModel>) -> Parsed<
    Map<Seq<char>, ExprModel>,
>
    decreases ts.len() - p,
{
    match expect_ident(ts, p, "property key"@) {
        Ok((k, q)) => match expect(ts, q, Tok::Colon, ":"@) {
            Ok(q1) => match expr_spec(ts, q1) {
                Ok((v, q2)) => {
                    let acc2 = acc.insert(k, v);
                    match tk(ts, q2) {
                        Some(Tok::Comma) => if q2 < p {
                            Err(err_at(ts, p, ", or }"@))
                        } else {
                            entries_spec(ts, q2 + 1, acc2)
                        },
                        Some(Tok::RBrace) => Ok((acc2, q2 + 1)),
                        Some(t) => Err(PErr::Unexpected(offset_at(ts, q2), token_text(t), ", or }"@)),
                        None => Err(PErr::UnexpectedEnd(", or }"@)),
                    }
                },
                Err(x) => Err(x),
            },
            Err(x) => Err(x),
        },
        Err(x) => Err(x),
    }
}

/// `{ ... }`.
#[verifier::opaque]
pub open spec fn map_spec(ts: Toks, p: int) -> Parsed<Map<Seq<char>, ExprModel>> {
    match expect(ts, p, Tok::LBrace, "{"@) {
        Ok(q) => if tk(ts, q) == Some(Tok::RBrace) {
            Ok((Map::empty(), q + 1))
        } else {
            entries_spec(ts, q, Map::empty())
        },
        Err(x) => Err(x),
    }
}

/// `(":" ident)? map?` then the closing token `close`.
#[verifier::opaque]
pub open spec fn label_props_spec(ts: Toks, p: int, var: Seq<char>, close: Tok, close_what: Seq<char>) -> Parsed<
    PatternModel,
> {
    let lab: Result<(Option<Seq<char>>, int), PErr> = if tk(ts, p) == Some(Tok::Colon) {
        match expect_ident(ts, p + 1, "label"@) {
            Ok((l, q)) => Ok((Some(l), q)),
            Err(x) => Err(x),
        }
    } else {
        Ok((None, p))
    };
    match lab {
        Ok((label, q)) => {
            let props: Parsed<Map<Seq<char>, ExprModel>> = if tk(ts, q) == Some(Tok::LBrace) {
                map_spec(ts, q)
            } else {
                Ok((Map::empty(), q))
            };
            match props {
                Ok((properties, q2)) => match expect(ts, q2, close, close_what) {
                    Ok(q3) => Ok((PatternModel { variable: var, label, properties }, q3)),
                    Err(x) => Err(x),
                },
                Err(x) => Err(x),
            }
        },
        Err(x) => Err(x),
    }
}

/// `"(" ident (":" ident)? map? ")"`.
#[verifier::opaque]
pub open spec fn node_spec(ts: Toks, p: int) -> Parsed<PatternModel> {
    match expect(ts, p, Tok::LParen, "("@) {
        Ok(q) => match expect_ident(ts, q, "pattern variable"@) {
            Ok((var, q1)) => label_props_spec(ts, q1, var, Tok::RParen, ")"@),
            Err(x) => Err(x),
        },
        Err(x) => Err(x),
    }
}

/// `"-" "[" ident (":" ident)? map? "]" "->"`.
#[verifier::opaque]
pub open spec fn edge_spec(ts: Toks, p: int) -> Parsed<PatternModel> {
    match expect(ts, p, Tok::Dash, "-"@) {
        Ok(q) => match expect(ts, q, Tok::LBracket, "["@) {
            Ok(q1) => match expect_ident(ts, q1, "relationship variable"@) {
                Ok((var, q2)) => match label_props_spec(ts, q2, var, Tok::RBracket, "]"@) {
                    Ok((e, q3)) => match expect(ts, q3, Tok::Arrow, "->"@) {
                        Ok(q4) => Ok((e, q4)),
                        Err(x) => Err(x),
                    },
                    Err(x) => Err(x),
                },
                Err(x) => Err(x),
            },
            Err(x) => Err(x),
        },
        Err(x) => Err(x),
    }
}

/// The hops of a path from `p` on, after those in `acc`.
pub open spec fn chain_spec(ts: Toks, p: int, acc: Seq<(PatternModel, PatternModel)>) -> Parsed<
    Seq<(PatternModel, PatternModel)>,
>
    decreases ts.len() - p,
{
    if p < 0 || p >= ts.len() || tk(ts, p) != Some(Tok::Dash) {
        Ok((acc, p))
    } else {
        match edge_spec(ts, p) {
            Ok((e, q)) => match node_spec(ts, q) {
                Ok((n, q2)) => if q2 <= p || q2 > ts.len() {
                    Err(err_at(ts, p, "-"@))
                } else {
                    chain_spec(ts, q2, acc.push((e, n)))
                },
                Err(x) => Err(x),
            },
            Err(x) => Err(x),
        }
    }
}

pub open spec fn pattern_spec(ts: Toks, p: int) -> Parsed<PathModel> {
    match node_spec(ts, p) {
        Ok((start, q)) => match chain_spec(ts, q, Seq::empty()) {
            Ok((chain, q2)) => if chain.len() == 0 {
                Ok((PathModel::Node(start), q2))
            } else {
                Ok((PathModel::Path { start, chain }, q2))
            },
            Err(x) => Err(x),
        },
        Err(x) => Err(x),
    }
}

/// `("," pattern)*` after the patterns in `acc`.
pub open spec fn patterns_tail(ts: Toks, p: int, acc: Seq<PathModel>) -> Parsed<Seq<PathModel>>
    decreases ts.len() - p,
{
    if p < 0 || p >= ts.len() || tk(ts, p) != Some(Tok::Comma) {
        Ok((acc, p))
    } else {
        match pattern_spec(ts, p + 1) {
            Ok((pt, q)) => if q <= p || q > ts.len() {
                Err(err_at(ts, p, "("@))
            } else {
                patterns_tail(ts, q, acc.push(pt))
            },
            Err(x) => Err(x),
        }
    }
}

pub open spec fn patterns_spec(ts: Toks, p: int) -> Parsed<Seq<PathModel>> {
    match pattern_spec(ts, p) {
        Ok((pt, q)) => patterns_tail(ts, q, seq![pt]),
        Err(x) => Err(x),
    }
}

pub open spec fn count_word() -> Seq<char> {
    seq!['c', 'o', 'u', 'n', 't']
}

pub open spec fn collect_word() -> Seq<char> {
    seq!['c', 'o', 'l', 'l', 'e', 'c', 't']
}

/// Each comparison token keeps its own meaning: two integer literals (of
/// magnitude below `2^53`) around `=`, `<>`, `<`, `<=`, `>` or `>=` parse
/// to one expression that takes the three tokens and evaluates, in any
/// row, to whether the integers stand in the relation the token names.
pub proof fn lemma_comparison_token_meaning(
    ts: Toks,
    p: int,
    x: i64,
    t: Tok,
    y: i64,
    row: crate::query::eval::RowModel,
    params: Map<Seq<char>, ValueModel>,
    g: crate::log::GraphModel,
)
    requires
        0 <= p,
        p + 2 < ts.len(),
        ts[p].0 == Tok::Integer(x),
        ts[p + 1].0 == t,
        ts[p + 2].0 == Tok::Integer(y),
        t is Eq || t is NotEq || t is Lt || t is LtEq || t is Gt || t is GtEq,
        -0x20_0000_0000_0000 < x < 0x20_0000_0000_0000,
        -0x20_0000_0000_0000 < y < 0x20_0000_0000_0000,
    ensures
        comparison_spec(ts, p) matches Ok((e, q)) && q == p + 3 && crate::query::eval::eval_spec(e, row, params, g)
            == Ok::<ValueModel, crate::query::eval::IErr>(
            ValueModel::Bool(
                match t {
                    Tok::Eq => x == y,
                    Tok::NotEq => x != y,
                    Tok::Lt => x < y,
                    Tok::LtEq => x <= y,
                    Tok::Gt => x > y,
                    _ => x >= y,
                },
            ),
        ),
{
    crate::query::eval::lemma_integer_comparisons(x, y);
    assert(primary_spec(ts, p) == Ok::<(ExprModel, int), PErr>((ExprModel::Literal(ValueModel::I64(x)), p + 1)));
    assert(primary_spec(ts, p + 2) == Ok::<(ExprModel, int), PErr>((ExprModel::Literal(ValueModel::I64(y)), p + 3)));
    assert(tk(ts, p + 1) == Some(t));
    let op = comparison_op(Some(t))->Some_0;
    assert(comparison_op(tk(ts, p + 1)) == Some(op));
    let e = ExprModel::Binary {
        op,
        lhs: Box::new(ExprModel::Literal(ValueModel::I64(x))),
        rhs: Box::new(ExprModel::Literal(ValueModel::I64(y))),
    };
    assert(comparison_spec(ts, p) == Ok::<(ExprModel, int), PErr>((e, p + 3)));
    assert(crate::query::eval::eval_spec(ExprModel::Literal(ValueModel::I64(x)), row, params, g) == Ok::<
        ValueModel,
        crate::query::eval::IErr,
    >(ValueModel::I64(x)));
    assert(crate::query::eval::eval_spec(ExprModel::Literal(ValueModel::I64(y)), row, params, g) == Ok::<
        ValueModel,
        crate::query::eval::IErr,
    >(ValueModel::I64(y)));
    assert(crate::query::eval::eval_spec(e, row, params, g) == crate::query::eval::binop_spec(
        op,
        ValueModel::I64(x),
        ValueModel::I64(y),
    ));
}

/// One return item at `p`.
#[verifier::opaque]
pub open spec fn item_spec(ts: Toks, p: int) -> Parsed<ItemModel> {
    match expect_ident(ts, p, "return variable"@) {
        Ok((name, q)) => if name == count_word() && tk(ts, q) == Some(Tok::LParen) {
            let target: Parsed<Option<Seq<char>>> = if tk(ts, q + 1) == Some(Tok::Star) {
                Ok((None, q + 2))
            } else {
                match expect_ident(ts, q + 1, "variable inside count(...)"@) {
                    Ok((v, q2)) => Ok((Some(v), q2)),
                    Err(x) => Err(x),
                }
            };
            match target {
                Ok((t, q3)) => match expect(ts, q3, Tok::RParen, ")"@) {
                    Ok(q4) => Ok((ItemModel::Count { target: t }, q4)),
                    Err(x) => Err(x),
                },
                Err(x) => Err(x),
            }
        } else if name == collect_word() && tk(ts, q) == Some(Tok::LParen) {
            match expect_ident(ts, q + 1, "variable inside collect(...)"@) {
                Ok((v, q2)) => match path_from(ts, q2, Seq::empty()) {
                    Ok((path, q3)) => match expect(ts, q3, Tok::RParen, ")"@) {
                        Ok(q4) => if path.len() == 0 {
                            Ok((ItemModel::CollectVariable(v), q4))
                        } else {
                            Ok((ItemModel::CollectProperty { variable: v, path }, q4))
                        },
                        Err(x) => Err(x),
                    },
                    Err(x) => Err(x),
                },
                Err(x) => Err(x),
            }
        } else {
            match path_from(ts, q, Seq::empty()) {
                Ok((path, q2)) => if path.len() == 0 {
                    Ok((ItemModel::Variable(name), q2))
                } else {
                    Ok((ItemModel::Property { variable: name, path }, q2))
                },
                Err(x) => Err(x),
            }
        },
        Err(x) => Err(x),
    }
}

/// Return items from `p` on, after those in `acc`.
pub open spec fn items_from(ts: Toks, p: int, acc: Seq<ItemModel>) -> Parsed<Seq<ItemModel>>
    decreases ts.len() - p,
{
    match item_spec(ts, p) {
        Ok((it, q)) => if tk(ts, q) == Some(Tok::Comma) {
            if q < p {
                Err(err_at(ts, p, "return variable"@))
            } else {
                items_from(ts, q + 1, acc.push(it))
            }
        } else {
            Ok((acc.push(it), q))
        },
        Err(x) => Err(x),
    }
}

/// `("ORDER" "BY" expr ("ASC" | "DESC")?)?`
pub open spec fn order_spec(ts: Toks, p: int) -> Parsed<Option<(ExprModel, SortDirection)>> {
    if tk(ts, p) == Some(Tok::Order) {
        match expect(ts, p + 1, Tok::By, "BY"@) {
            Ok(q) => match expr_spec(ts, q) {
                Ok((e, q2)) => if tk(ts, q2) == Some(Tok::Asc) {
                    Ok((Some((e, SortDirection::Asc)), q2 + 1))
                } else if tk(ts, q2) == Some(Tok::Desc) {
                    Ok((Some((e, SortDirection::Desc)), q2 + 1))
                } else {
                    Ok((Some((e, SortDirection::Asc)), q2))
                },
                Err(x) => Err(x),
            },
            Err(x) => Err(x),
        }
    } else {
        Ok((None, p))
    }
}

/// `("LIMIT" non-negative-int)?`
pub open spec fn limit_spec(ts: Toks, p: int) -> Parsed<Option<u64>> {
    if tk(ts, p) == Some(Tok::Limit) {
        match tk(ts, p + 1) {
            Some(Tok::Integer(i)) => if i >= 0 {
                Ok((Some(i as u64), p + 2))
            } else {
                Err(err_at(ts, p + 1, "non-negative integer"@))
            },
            _ => Err(err_at(ts, p + 1, "non-negative integer"@)),
        }
    } else {
        Ok((None, p))
    }
}

/// Nothing follows `p`.
pub open spec fn end_spec(ts: Toks, p: int) -> Result<(), PErr> {
    if 0 <= p < ts.len() {
        Err(PErr::Unexpected(offset_at(ts, p), token_text(ts[p].0), "end of statement"@))
    } else {
        Ok(())
    }
}

/// `("WHERE" expr)?`
pub open spec fn where_spec(ts: Toks, p: int) -> Parsed<Option<ExprModel>> {
    if tk(ts, p) == Some(Tok::Where) {
        match expr_spec(ts, p + 1) {
            Ok((e, q)) => Ok((Some(e), q)),
            Err(x) => Err(x),
        }
    } else {
        Ok((None, p))
    }
}

/// The statement after `MATCH patterns [WHERE expr]`.
pub open spec fn match_rest_spec(
    ts: Toks,
    p: int,
    patterns: Seq<PathModel>,
    where_clause: Option<ExprModel>,
) -> Result<StatementModel, PErr> {
    match tk(ts, p) {
        Some(Tok::Return) => match items_from(ts, p + 1, Seq::empty()) {
            Ok((return_items, q)) => match order_spec(ts, q) {
                Ok((order_by, q2)) => match limit_spec(ts, q2) {
                    Ok((limit, q3)) => match end_spec(ts, q3) {
                        Ok(()) => Ok(
                            StatementModel::MatchReturn {
                                patterns,
                                where_clause,
                                return_items,
                                order_by,
                                limit,
                            },
                        ),
                        Err(x) => Err(x),
                    },
                    Err(x) => Err(x),
                },
                Err(x) => Err(x),
            },
            Err(x) => Err(x),
        },
        Some(Tok::Delete) | Some(Tok::Detach) => {
            let detach = tk(ts, p) == Some(Tok::Detach);
            let q = if detach {
                p + 1
            } else {
                p
            };
            match expect(ts, q, Tok::Delete, "DELETE"@) {
                Ok(q1) => match expect_ident(ts, q1, "variable to DELETE"@) {
                    Ok((variable, q2)) => match end_spec(ts, q2) {
                        Ok(()) => Ok(
                            StatementModel::MatchDelete { patterns, where_clause, variable, detach },
                        ),
                        Err(x) => Err(x),
                    },
                    Err(x) => Err(x),
                },
                Err(x) => Err(x),
            }
        },
        Some(t) => Err(PErr::Unexpected(offset_at(ts, p), token_text(t), "RETURN, DELETE, or DETACH DELETE"@)),
        None => Err(PErr::UnexpectedEnd("RETURN, DELETE, or DETACH DELETE"@)),
    }
}

/// The statement the tokens spell.
pub open spec fn statement_spec(ts: Toks) -> Result<StatementModel, PErr> {
    match tk(ts, 0) {
        Some(Tok::Create) => match node_spec(ts, 1) {
            Ok((pattern, q)) => match end_spec(ts, q) {
                Ok(()) => Ok(StatementModel::Create { pattern }),
                Err(x) => Err(x),
            },
            Err(x) => Err(x),
        },
        Some(Tok::Merge) => match node_spec(ts, 1) {
            Ok((pattern, q)) => match end_spec(ts, q) {
                Ok(()) => Ok(StatementModel::Merge { pattern }),
                Err(x) => Err(x),
            },
            Err(x) => Err(x),
        },
        Some(Tok::Match) => match patterns_spec(ts, 1) {
            Ok((patterns, q)) => match where_spec(ts, q) {
                Ok((where_clause, q2)) => match_rest_spec(ts, q2, patterns, where_clause),
                Err(x) => Err(x),
            },
            Err(x) => Err(x),
        },
        Some(t) => Err(PErr::Unsupported(token_text(t))),
        None => Err(PErr::UnexpectedEnd("statement"@)),
    }
}

} // verus!
