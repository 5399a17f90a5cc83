//! Recursive-descent parser for the Cypher subset: turns a token stream
//! into a [`Statement`]. Each function reads what the spec function of
//! the same name in [`crate::query::grammar`] reads, and gives the same
//! result; errors carry the byte offset of the offending token.

use vstd::prelude::*;
use crate::query::lexer::{LexError, Spanned, Token, Tok, spans_view};
use crate::query::ast::{
    BinOp, CollectTarget, EdgePattern, Expr, ExprModel, NodePattern, OrderBy, Pattern, ReturnItem,
    SortDirection, Statement, strs_view, chain_view,
};
use crate::query::grammar::{token_text,PErr,Toks,Parsed,tk,offset_at,err_at,expect,expect_ident,path_from,comparison_op,id_word,expr_spec,or_spec,or_tail,and_spec,and_tail,not_spec,comparison_spec,primary_spec,entries_spec,map_spec,label_props_spec,node_spec,edge_spec,chain_spec,pattern_spec,patterns_tail,patterns_spec,count_word,collect_word,item_spec,items_from,order_spec,limit_spec,end_spec,where_spec,match_rest_spec,statement_spec};
use crate::strmap::StrMap;
use crate::text::{push_int, str_eq};
use crate::value::Value;

verus! {

#[derive(Debug)]
pub enum ParseError {
    Lex(LexError),
    Unexpected { token: String, expected: String, offset: usize },
    UnexpectedEnd { expected: String },
    Unsupported(String),
}

impl View for ParseError {
    type V = PErr;

    open spec fn view(&self) -> PErr {
        match self {
            ParseError::Lex(e) => PErr::Lex(*e),
            ParseError::Unexpected { token, expected, offset } => PErr::Unexpected(*offset as int, token@, expected@),
            ParseError::UnexpectedEnd { expected } => PErr::UnexpectedEnd(expected@),
            ParseError::Unsupported(t) => PErr::Unsupported(t@),
        }
    }
}

/// The exec result `r` is what the spec result `s` says.
pub open spec fn agrees<T: View>(r: Result<(T, usize), ParseError>, s: Parsed<T::V>) -> bool {
    match (r, s) {
        (Ok((x, q)), Ok((m, mq))) => x@ == m && q == mq,
        (Err(e), Err(me)) => e@ == me,
        _ => false,
    }
}

/// A short text for a token, for error messages.
fn describe(t: &Token) -> (r: String)
    ensures
        r@ == token_text(t@),
{
    proof {
        reveal(token_text);
    }
    let s = match t {
        Token::Create => "CREATE",
        Token::Match => "MATCH",
        Token::Merge => "MERGE",
        Token::Where => "WHERE",
        Token::Return => "RETURN",
        Token::Delete => "DELETE",
        Token::Detach => "DETACH",
        Token::Limit => "LIMIT",
        Token::Order => "ORDER",
        Token::By => "BY",
        Token::Asc => "ASC",
        Token::Desc => "DESC",
        Token::And => "AND",
        Token::Or => "OR",
        Token::Not => "NOT",
        Token::True => "TRUE",
        Token::False => "FALSE",
        Token::Null => "NULL",
        Token::Ident(s) => {
            let mut out = "ident(".to_owned();
            out.push_str(s.as_str());
            out.push(')');
            return out;
        },
        Token::Param(s) => {
            let mut out = "$".to_owned();
            out.push_str(s.as_str());
            return out;
        },
        Token::Integer(i) => {
            let mut out = String::new();
            push_int(&mut out, *i);
            return out;
        },
        Token::Float(_) => "decimal",
        Token::String(s) => {
            let mut out = "\"".to_owned();
            out.push_str(s.as_str());
            out.push('"');
            return out;
        },
        Token::LParen => "(",
        Token::RParen => ")",
        Token::LBrace => "{",
        Token::RBrace => "}",
        Token::LBracket => "[",
        Token::RBracket => "]",
        Token::Comma => ",",
        Token::Colon => ":",
        Token::Dot => ".",
        Token::Star => "*",
        Token::Dash => "-",
        Token::Arrow => "->",
        Token::Eq => "=",
        Token::NotEq => "!=",
        Token::Lt => "<",
        Token::Gt => ">",
        Token::LtEq => "<=",
        Token::GtEq => ">=",
    };
    s.to_owned()
}

fn offset_of(ts: &[Spanned], p: usize) -> (r: usize)
    ensures
        r == offset_at(spans_view(ts@), p as int),
{
    if p < ts.len() {
        ts[p].offset
    } else if ts.len() > 0 {
        ts[ts.len() - 1].offset
    } else {
        0
    }
}

/// The error for the token at `p`, expecting `what`.
fn error_at(ts: &[Spanned], p: usize, what: &str) -> (r: ParseError)
    ensures
        r@ == err_at(spans_view(ts@), p as int, what@),
{
    if p < ts.len() {
        ParseError::Unexpected { token: describe(&ts[p].token), expected: what.to_owned(), offset: ts[p].offset }
    } else {
        ParseError::UnexpectedEnd { expected: what.to_owned() }
    }
}

fn peek_is(ts: &[Spanned], p: usize, t: &Token) -> (r: bool)
    ensures
        r == (tk(spans_view(ts@), p as int) == Some(t@)),
        r ==> p < ts@.len(),
{
    p < ts.len() && crate::query::lexer::token_equals(&ts[p].token, t)
}

fn expect_tok(ts: &[Spanned], p: usize, t: &Token, what: &str) -> (r: Result<usize, ParseError>)
    ensures
        match (r, expect(spans_view(ts@), p as int, t@, what@)) {
            (Ok(q), Ok(mq)) => q == mq && q <= ts@.len(),
            (Err(e), Err(me)) => e@ == me,
            _ => false,
        },
{
    let _n = ts.len();
    if peek_is(ts, p, t) {
        Ok(p + 1)
    } else {
        Err(error_at(ts, p, what))
    }
}

fn ident_at(ts: &[Spanned], p: usize, what: &str) -> (r: Result<(String, usize), ParseError>)
    ensures
        agrees(r, expect_ident(spans_view(ts@), p as int, what@)),
        r matches Ok((_, q)) ==> q == p + 1 && q <= ts@.len(),
{
    let _n = ts.len();
    if p < ts.len() {
        match &ts[p].token {
            Token::Ident(s) => {
                return Ok((s.clone(), p + 1));
            },
            _ => {},
        }
    }
    Err(error_at(ts, p, what))
}

/// `("." ident)*` from `p`.
fn parse_path(ts: &[Spanned], p: usize) -> (r: Result<(Vec<String>, usize), ParseError>)
    requires
        p <= ts@.len(),
    ensures
        match (r, path_from(spans_view(ts@), p as int, Seq::empty())) {
            (Ok((v, q)), Ok((m, mq))) => strs_view(v@) == m && q == mq && p <= q <= ts@.len(),
            (Err(e), Err(me)) => e@ == me,
            _ => false,
        },
{
    let ghost tv = spans_view(ts@);
    let mut out: Vec<String> = Vec::new();
    let mut q = p;
    proof {
        assert(strs_view(out@) =~= Seq::<Seq<char>>::empty());
    }
    while q < ts.len() && peek_is(ts, q, &Token::Dot)
        invariant
            p <= q <= ts@.len(),
            tv == spans_view(ts@),
            path_from(tv, p as int, Seq::empty()) == path_from(tv, q as int, strs_view(out@)),
        decreases ts@.len() - q,
    {
        let (name, q2) = ident_at(ts, q + 1, "property key")?;
        let ghost before = out@;
        out.push(name);
        proof {
            assert(strs_view(out@) =~= strs_view(before).push(out@[out@.len() - 1]@));
        }
        q = q2;
    }
    Ok((out, q))
}

fn parse_expr(ts: &[Spanned], p: usize) -> (r: Result<(Expr, usize), ParseError>)
    requires
        p <= ts@.len(),
    ensures
        agrees(r, expr_spec(spans_view(ts@), p as int)),
        r matches Ok((_, q)) ==> p < q <= ts@.len(),
    decreases ts@.len() - p, 6int,
{
    parse_or(ts, p)
}

fn parse_or(ts: &[Spanned], p: usize) -> (r: Result<(Expr, usize), ParseError>)
    requires
        p <= ts@.len(),
    ensures
        agrees(r, or_spec(spans_view(ts@), p as int)),
        r matches Ok((_, q)) ==> p < q <= ts@.len(),
    decreases ts@.len() - p, 5int,
{
    let (l, q) = parse_and(ts, p)?;
    parse_or_tail(ts, q, l)
}

fn parse_or_tail(ts: &[Spanned], q: usize, l: Expr) -> (r: Result<(Expr, usize), ParseError>)
    requires
        q <= ts@.len(),
    ensures
        agrees(r, or_tail(spans_view(ts@), q as int, l@)),
        r matches Ok((_, q2)) ==> q <= q2 <= ts@.len(),
    decreases ts@.len() - q, 5int,
{
    if q < ts.len() && peek_is(ts, q, &Token::Or) {
        let (rhs, q2) = parse_and(ts, q + 1)?;
        parse_or_tail(ts, q2, Expr::Binary { op: BinOp::Or, lhs: Box::new(l), rhs: Box::new(rhs) })
    } else {
        Ok((l, q))
    }
}

fn parse_and(ts: &[Spanned], p: usize) -> (r: Result<(Expr, usize), ParseError>)
    requires
        p <= ts@.len(),
    ensures
        agrees(r, and_spec(spans_view(ts@), p as int)),
        r matches Ok((_, q)) ==> p < q <= ts@.len(),
    decreases ts@.len() - p, 4int,
{
    let (l, q) = parse_not(ts, p)?;
    parse_and_tail(ts, q, l)
}

fn parse_and_tail(ts: &[Spanned], q: usize, l: Expr) -> (r: Result<(Expr, usize), ParseError>)
    requires
        q <= ts@.len(),
    ensures
        agrees(r, and_tail(spans_view(ts@), q as int, l@)),
        r matches Ok((_, q2)) ==> q <= q2 <= ts@.len(),
    decreases ts@.len() - q, 4int,
{
    if q < ts.len() && peek_is(ts, q, &Token::And) {
        let (rhs, q2) = parse_not(ts, q + 1)?;
        parse_and_tail(ts, q2, Expr::Binary { op: BinOp::And, lhs: Box::new(l), rhs: Box::new(rhs) })
    } else {
        Ok((l, q))
    }
}

fn parse_not(ts: &[Spanned], p: usize) -> (r: Result<(Expr, usize), ParseError>)
    requires
        p <= ts@.len(),
    ensures
        agrees(r, not_spec(spans_view(ts@), p as int)),
        r matches Ok((_, q)) ==> p < q <= ts@.len(),
    decreases ts@.len() - p, 3int,
{
    if p < ts.len() && peek_is(ts, p, &Token::Not) {
        let (e, q) = parse_not(ts, p + 1)?;
        Ok((Expr::Not(Box::new(e)), q))
    } else {
        parse_comparison(ts, p)
    }
}

fn comparison_of(ts: &[Spanned], q: usize) -> (r: Option<BinOp>)
    ensures
        r == comparison_op(tk(spans_view(ts@), q as int)),
        r is Some ==> q < ts@.len(),
{
    if q >= ts.len() {
        return None;
    }
    match &ts[q].token {
        Token::Eq => Some(BinOp::Eq),
        Token::NotEq => Some(BinOp::NotEq),
        Token::Lt => Some(BinOp::Lt),
        Token::Gt => Some(BinOp::Gt),
        Token::LtEq => Some(BinOp::LtEq),
        Token::GtEq => Some(BinOp::GtEq),
        _ => None,
    }
}

fn parse_comparison(ts: &[Spanned], p: usize) -> (r: Result<(Expr, usize), ParseError>)
    requires
        p <= ts@.len(),
    ensures
        agrees(r, comparison_spec(spans_view(ts@), p as int)),
        r matches Ok((_, q)) ==> p < q <= ts@.len(),
    decreases ts@.len() - p, 2int,
{
    let _n = ts.len();
    let (l, q) = parse_primary(ts, p)?;
    match comparison_of(ts, q) {
        Some(op) => {
            let (rhs, q2) = parse_primary(ts, q + 1)?;
            Ok((Expr::Binary { op, lhs: Box::new(l), rhs: Box::new(rhs) }, q2))
        },
        None => Ok((l, q)),
    }
}

fn parse_primary(ts: &[Spanned], p: usize) -> (r: Result<(Expr, usize), ParseError>)
    requires
        p <= ts@.len(),
    ensures
        agrees(r, primary_spec(spans_view(ts@), p as int)),
        r matches Ok((_, q)) ==> p < q <= ts@.len(),
    decreases ts@.len() - p, 1int,
{
    let _n = ts.len();
    if p >= ts.len() {
        return Err(ParseError::UnexpectedEnd { expected: "expression".to_owned() });
    }
    match &ts[p].token {
        Token::LParen => {
            let (e, q) = parse_expr(ts, p + 1)?;
            let q2 = expect_tok(ts, q, &Token::RParen, ")")?;
            Ok((e, q2))
        },
        Token::Integer(i) => Ok((Expr::Literal(Value::I64(*i)), p + 1)),
        Token::Float(f) => Ok((Expr::Literal(Value::F64(*f)), p + 1)),
        Token::String(s) => Ok((Expr::Literal(Value::String(s.clone())), p + 1)),
        Token::True => Ok((Expr::Literal(Value::Bool(true)), p + 1)),
        Token::False => Ok((Expr::Literal(Value::Bool(false)), p + 1)),
        Token::Null => Ok((Expr::Literal(Value::Null), p + 1)),
        Token::Param(s) => Ok((Expr::Param(s.clone()), p + 1)),
        Token::Ident(name) => {
            proof {
                reveal_strlit("id");
                assert("id"@ =~= id_word());
            }
            if str_eq(name.as_str(), "id") && peek_is(ts, p + 1, &Token::LParen) {
                let (v, q) = ident_at(ts, p + 2, "variable inside id(...)")?;
                let q2 = expect_tok(ts, q, &Token::RParen, ")")?;
                Ok((Expr::IdOf(v), q2))
            } else if peek_is(ts, p + 1, &Token::Dot) {
                let (path, q) = parse_path(ts, p + 1)?;
                Ok((Expr::Property { variable: name.clone(), path }, q))
            } else {
                Err(
                    ParseError::Unexpected {
                        token: name.clone(),
                        expected: "function call or property access".to_owned(),
                        offset: offset_of(ts, p + 1),
                    },
                )
            }
        },
        _ => Err(error_at(ts, p, "expression")),
    }
}

fn parse_entries(ts: &[Spanned], p: usize, acc: StrMap<Expr>) -> (r: Result<(StrMap<Expr>, usize), ParseError>)
    requires
        p <= ts@.len(),
        acc.wf(),
    ensures
        agrees(r, entries_spec(spans_view(ts@), p as int, acc@)),
        r matches Ok((m, q)) ==> p < q <= ts@.len() && m.wf(),
    decreases ts@.len() - p,
{
    let _n = ts.len();
    let (k, q) = ident_at(ts, p, "property key")?;
    let q1 = expect_tok(ts, q, &Token::Colon, ":")?;
    let (v, q2) = parse_expr(ts, q1)?;
    let mut acc2 = acc;
    acc2.insert(k, v);
    if q2 < ts.len() {
        match &ts[q2].token {
            Token::Comma => parse_entries(ts, q2 + 1, acc2),
            Token::RBrace => Ok((acc2, q2 + 1)),
            t => Err(
                ParseError::Unexpected {
                    token: describe(t),
                    expected: ", or }".to_owned(),
                    offset: ts[q2].offset,
                },
            ),
        }
    } else {
        Err(ParseError::UnexpectedEnd { expected: ", or }".to_owned() })
    }
}

fn parse_map(ts: &[Spanned], p: usize) -> (r: Result<(StrMap<Expr>, usize), ParseError>)
    requires
        p <= ts@.len(),
    ensures
        agrees(r, map_spec(spans_view(ts@), p as int)),
        r matches Ok((m, q)) ==> p < q <= ts@.len() && m.wf(),
{
    let _n = ts.len();
    proof {
        reveal(map_spec);
    }
    let q = expect_tok(ts, p, &Token::LBrace, "{")?;
    if peek_is(ts, q, &Token::RBrace) {
        Ok((StrMap::new(), q + 1))
    } else {
        parse_entries(ts, q, StrMap::new())
    }
}

fn parse_label_props(ts: &[Spanned], p: usize, close: &Token, what: &str, var: Ghost<Seq<char>>) -> (r: Result<
    (Option<String>, StrMap<Expr>, usize),
    ParseError,
>)
    requires
        p <= ts@.len(),
    ensures
        match (r, label_props_spec(spans_view(ts@), p as int, var@, close@, what@)) {
            (Ok((l, m, q)), Ok((pm, mq))) => crate::query::ast::opt_view(l) == pm.label && m@
                == pm.properties && pm.variable == var@ && q == mq && m.wf() && p < q <= ts@.len(),
            (Err(e), Err(me)) => e@ == me,
            _ => false,
        },
{
    let _n = ts.len();
    proof {
        reveal(label_props_spec);
    }
    let (label, q) = if peek_is(ts, p, &Token::Colon) {
        let (l, q) = ident_at(ts, p + 1, "label")?;
        (Some(l), q)
    } else {
        (None, p)
    };
    let (props, q2) = if peek_is(ts, q, &Token::LBrace) {
        parse_map(ts, q)?
    } else {
        (StrMap::new(), q)
    };
    let q3 = expect_tok(ts, q2, close, what)?;
    Ok((label, props, q3))
}

fn parse_node_pattern(ts: &[Spanned], p: usize) -> (r: Result<(NodePattern, usize), ParseError>)
    requires
        p <= ts@.len(),
    ensures
        agrees(r, node_spec(spans_view(ts@), p as int)),
        r matches Ok((n, q)) ==> p < q <= ts@.len() && n.properties.wf(),
{
    proof {
        reveal(node_spec);
    }
    let q = expect_tok(ts, p, &Token::LParen, "(")?;
    let (variable, q1) = ident_at(ts, q, "pattern variable")?;
    let (label, properties, q2) = parse_label_props(ts, q1, &Token::RParen, ")", Ghost(variable@))?;
    Ok((NodePattern { variable, label, properties }, q2))
}

fn parse_edge_pattern(ts: &[Spanned], p: usize) -> (r: Result<(EdgePattern, usize), ParseError>)
    requires
        p <= ts@.len(),
    ensures
        agrees(r, edge_spec(spans_view(ts@), p as int)),
        r matches Ok((e, q)) ==> p < q <= ts@.len() && e.properties.wf(),
{
    proof {
        reveal(edge_spec);
    }
    let q = expect_tok(ts, p, &Token::Dash, "-")?;
    let q1 = expect_tok(ts, q, &Token::LBracket, "[")?;
    let (variable, q2) = ident_at(ts, q1, "relationship variable")?;
    let (label, properties, q3) = parse_label_props(ts, q2, &Token::RBracket, "]", Ghost(variable@))?;
    let q4 = expect_tok(ts, q3, &Token::Arrow, "->")?;
    Ok((EdgePattern { variable, label, properties }, q4))
}

fn parse_pattern(ts: &[Spanned], p: usize) -> (r: Result<(Pattern, usize), ParseError>)
    requires
        p <= ts@.len(),
    ensures
        agrees(r, pattern_spec(spans_view(ts@), p as int)),
        r matches Ok((_, q)) ==> p < q <= ts@.len(),
        r matches Ok((pt, _)) ==> crate::query::interpreter::patterns_wf(seq![pt]),
{
    let ghost tv = spans_view(ts@);
    let (start, q) = parse_node_pattern(ts, p)?;
    let mut chain: Vec<(EdgePattern, NodePattern)> = Vec::new();
    let mut cur = q;
    proof {
        assert(chain_view(chain@) =~= Seq::empty());
    }
    while cur < ts.len() && peek_is(ts, cur, &Token::Dash)
        invariant
            q <= cur <= ts@.len(),
            p < q,
            tv == spans_view(ts@),
            node_spec(tv, p as int) == Ok::<(crate::query::ast::PatternModel, int), PErr>((start@, q as int)),
            start.properties.wf(),
            forall|j: int| 0 <= j < chain@.len() ==> (#[trigger] chain@[j]).0.properties.wf(),
            chain_spec(tv, q as int, Seq::empty()) == chain_spec(tv, cur as int, chain_view(chain@)),
        decreases ts@.len() - cur,
    {
        let (e, q1) = parse_edge_pattern(ts, cur)?;
        let (n, q2) = parse_node_pattern(ts, q1)?;
        let ghost before = chain@;
        let ghost pair = (e@, n@);
        chain.push((e, n));
        proof {
            assert(chain_view(chain@) =~= chain_view(before).push(pair));
        }
        cur = q2;
    }
    if chain.len() == 0 {
        let pt = Pattern::Node(start);
        proof {
            assert(seq![pt][0] == pt);
        }
        Ok((pt, cur))
    } else {
        let pt = Pattern::Path { start, chain };
        proof {
            assert(seq![pt][0] == pt);
        }
        Ok((pt, cur))
    }
}

pub open spec fn patterns_view(s: Seq<Pattern>) -> Seq<crate::query::ast::PathModel> {
    s.map_values(|x: Pattern| x@)
}

fn parse_patterns(ts: &[Spanned], p: usize) -> (r: Result<(Vec<Pattern>, usize), ParseError>)
    requires
        p <= ts@.len(),
    ensures
        match (r, patterns_spec(spans_view(ts@), p as int)) {
            (Ok((v, q)), Ok((m, mq))) => patterns_view(v@) == m && q == mq && p < q <= ts@.len(),
            (Err(e), Err(me)) => e@ == me,
            _ => false,
        },
        r matches Ok((v, _)) ==> crate::query::interpreter::patterns_wf(v@),
{
    let ghost tv = spans_view(ts@);
    let (first, q) = parse_pattern(ts, p)?;
    let ghost fv = first;
    let mut out: Vec<Pattern> = Vec::new();
    out.push(first);
    proof {
        assert(seq![fv][0] == fv);
        assert(out@[0] == fv);
    }
    let mut cur = q;
    proof {
        assert(patterns_view(out@) =~= seq![out@[0]@]);
    }
    while cur < ts.len() && peek_is(ts, cur, &Token::Comma)
        invariant
            p < q <= cur <= ts@.len(),
            tv == spans_view(ts@),
            patterns_spec(tv, p as int) == patterns_tail(tv, cur as int, patterns_view(out@)),
            crate::query::interpreter::patterns_wf(out@),
        decreases ts@.len() - cur,
    {
        let (pt, q1) = parse_pattern(ts, cur + 1)?;
        let ghost before = out@;
        let ghost pm = pt@;
        let ghost ptv = pt;
        out.push(pt);
        proof {
            assert(patterns_view(out@) =~= patterns_view(before).push(pm));
            assert(seq![ptv][0] == ptv);
            assert forall|i: int| 0 <= i < out@.len() implies match #[trigger] out@[i] {
                Pattern::Node(n) => n.properties.wf(),
                Pattern::Path { start, chain } => start.properties.wf() && forall|j: int|
                    0 <= j < chain@.len() ==> (#[trigger] chain@[j]).0.properties.wf(),
            } by {
                if i < before.len() {
                    assert(out@[i] == before[i]);
                } else {
                    assert(out@[i] == ptv);
                }
            }
        }
        cur = q1;
    }
    Ok((out, cur))
}

fn parse_item(ts: &[Spanned], p: usize) -> (r: Result<(ReturnItem, usize), ParseError>)
    requires
        p <= ts@.len(),
    ensures
        agrees(r, item_spec(spans_view(ts@), p as int)),
        r matches Ok((_, q)) ==> p < q <= ts@.len(),
{
    proof {
        reveal(item_spec);
        reveal_strlit("count");
        reveal_strlit("collect");
        assert("count"@ =~= count_word());
        assert("collect"@ =~= collect_word());
    }
    let _n = ts.len();
    let (name, q) = ident_at(ts, p, "return variable")?;
    if str_eq(name.as_str(), "count") && peek_is(ts, q, &Token::LParen) {
        let (target, q3) = if peek_is(ts, q + 1, &Token::Star) {
            (None, q + 2)
        } else {
            let (v, q2) = ident_at(ts, q + 1, "variable inside count(...)")?;
            (Some(v), q2)
        };
        let q4 = expect_tok(ts, q3, &Token::RParen, ")")?;
        Ok((ReturnItem::Count { target }, q4))
    } else if str_eq(name.as_str(), "collect") && peek_is(ts, q, &Token::LParen) {
        let (v, q2) = ident_at(ts, q + 1, "variable inside collect(...)")?;
        let (path, q3) = parse_path(ts, q2)?;
        let q4 = expect_tok(ts, q3, &Token::RParen, ")")?;
        if path.len() == 0 {
            Ok((ReturnItem::Collect(CollectTarget::Variable(v)), q4))
        } else {
            Ok((ReturnItem::Collect(CollectTarget::Property { variable: v, path }), q4))
        }
    } else {
        let (path, q2) = parse_path(ts, q)?;
        if path.len() == 0 {
            Ok((ReturnItem::Variable(name), q2))
        } else {
            Ok((ReturnItem::Property { variable: name, path }, q2))
        }
    }
}

pub open spec fn items_view(s: Seq<ReturnItem>) -> Seq<crate::query::ast::ItemModel> {
    s.map_values(|x: ReturnItem| x@)
}

fn parse_items(ts: &[Spanned], p: usize) -> (r: Result<(Vec<ReturnItem>, usize), ParseError>)
    requires
        p <= ts@.len(),
    ensures
        match (r, items_from(spans_view(ts@), p as int, Seq::empty())) {
            (Ok((v, q)), Ok((m, mq))) => items_view(v@) == m && q == mq && p < q <= ts@.len(),
            (Err(e), Err(me)) => e@ == me,
            _ => false,
        },
{
    let ghost tv = spans_view(ts@);
    let mut out: Vec<ReturnItem> = Vec::new();
    let mut cur = p;
    proof {
        assert(items_view(out@) =~= Seq::empty());
    }
    loop
        invariant
            p <= cur <= ts@.len(),
            tv == spans_view(ts@),
            cur > p || out@.len() == 0,
            items_from(tv, p as int, Seq::empty()) == items_from(tv, cur as int, items_view(out@)),
        decreases ts@.len() - cur,
    {
        let (it, q) = parse_item(ts, cur)?;
        let ghost before = out@;
        let ghost im = it@;
        out.push(it);
        proof {
            assert(items_view(out@) =~= items_view(before).push(im));
        }
        if q < ts.len() && peek_is(ts, q, &Token::Comma) {
            cur = q + 1;
        } else {
            return Ok((out, q));
        }
    }
}

fn parse_order(ts: &[Spanned], p: usize) -> (r: Result<(Option<OrderBy>, usize), ParseError>)
    requires
        p <= ts@.len(),
    ensures
        match (r, order_spec(spans_view(ts@), p as int)) {
            (Ok((o, q)), Ok((m, mq))) => q == mq && p <= q <= ts@.len() && match (o, m) {
                (None, None) => true,
                (Some(x), Some(y)) => (x.expr@, x.direction) == y,
                _ => false,
            },
            (Err(e), Err(me)) => e@ == me,
            _ => false,
        },
{
    let _n = ts.len();
    if peek_is(ts, p, &Token::Order) {
        let q = expect_tok(ts, p + 1, &Token::By, "BY")?;
        let (expr, q2) = parse_expr(ts, q)?;
        if peek_is(ts, q2, &Token::Asc) {
            Ok((Some(OrderBy { expr, direction: SortDirection::Asc }), q2 + 1))
        } else if peek_is(ts, q2, &Token::Desc) {
            Ok((Some(OrderBy { expr, direction: SortDirection::Desc }), q2 + 1))
        } else {
            Ok((Some(OrderBy { expr, direction: SortDirection::Asc }), q2))
        }
    } else {
        Ok((None, p))
    }
}

fn parse_limit(ts: &[Spanned], p: usize) -> (r: Result<(Option<u64>, usize), ParseError>)
    requires
        p <= ts@.len(),
    ensures
        match (r, limit_spec(spans_view(ts@), p as int)) {
            (Ok((o, q)), Ok((m, mq))) => o == m && q == mq && p <= q <= ts@.len(),
            (Err(e), Err(me)) => e@ == me,
            _ => false,
        },
{
    let _n = ts.len();
    if peek_is(ts, p, &Token::Limit) {
        if p + 1 < ts.len() {
            match &ts[p + 1].token {
                Token::Integer(i) => {
                    if *i >= 0 {
                        return Ok((Some(*i as u64), p + 2));
                    }
                },
                _ => {},
            }
        }
        Err(error_at(ts, p + 1, "non-negative integer"))
    } else {
        Ok((None, p))
    }
}

fn expect_end(ts: &[Spanned], p: usize) -> (r: Result<(), ParseError>)
    ensures
        match (r, end_spec(spans_view(ts@), p as int)) {
            (Ok(()), Ok(())) => true,
            (Err(e), Err(me)) => e@ == me,
            _ => false,
        },
{
    if p < ts.len() {
        Err(
            ParseError::Unexpected {
                token: describe(&ts[p].token),
                expected: "end of statement".to_owned(),
                offset: ts[p].offset,
            },
        )
    } else {
        Ok(())
    }
}

/// Parses a whole token stream as one statement.
#[verifier::rlimit(40)]
pub fn parse_tokens(tokens: &[Spanned]) -> (r: Result<Statement, ParseError>)
    ensures
        match (r, statement_spec(spans_view(tokens@))) {
            (Ok(s), Ok(m)) => s@ == m,
            (Err(e), Err(me)) => e@ == me,
            _ => false,
        },
        r matches Ok(s) ==> crate::query::interpreter::statement_wf(s),
{
    let ts = tokens;
    if ts.len() == 0 {
        return Err(ParseError::UnexpectedEnd { expected: "statement".to_owned() });
    }
    match &ts[0].token {
        Token::Create => {
            let (pattern, q) = parse_node_pattern(ts, 1)?;
            expect_end(ts, q)?;
            Ok(Statement::Create { pattern })
        },
        Token::Merge => {
            let (pattern, q) = parse_node_pattern(ts, 1)?;
            expect_end(ts, q)?;
            Ok(Statement::Merge { pattern })
        },
        Token::Match => {
            let (patterns, q) = parse_patterns(ts, 1)?;
            let (where_clause, q2) = if peek_is(ts, q, &Token::Where) {
                let (e, q1) = parse_expr(ts, q + 1)?;
                (Some(e), q1)
            } else {
                (None, q)
            };
            if q2 < ts.len() {
                match &ts[q2].token {
                    Token::Return => {
                        let (return_items, q3) = parse_items(ts, q2 + 1)?;
                        let (order_by, q4) = parse_order(ts, q3)?;
                        let (limit, q5) = parse_limit(ts, q4)?;
                        expect_end(ts, q5)?;
                        Ok(Statement::MatchReturn { patterns, where_clause, return_items, order_by, limit })
                    },
                    Token::Delete | Token::Detach => {
                        let detach = peek_is(ts, q2, &Token::Detach);
                        let q3 = if detach {
                            q2 + 1
                        } else {
                            q2
                        };
                        let q4 = expect_tok(ts, q3, &Token::Delete, "DELETE")?;
                        let (variable, q5) = ident_at(ts, q4, "variable to DELETE")?;
                        expect_end(ts, q5)?;
                        Ok(Statement::MatchDelete { patterns, where_clause, variable, detach })
                    },
                    t => Err(
                        ParseError::Unexpected {
                            token: describe(t),
                            expected: "RETURN, DELETE, or DETACH DELETE".to_owned(),
                            offset: ts[q2].offset,
                        },
                    ),
                }
            } else {
                Err(ParseError::UnexpectedEnd { expected: "RETURN, DELETE, or DETACH DELETE".to_owned() })
            }
        },
        t => Err(ParseError::Unsupported(describe(t))),
    }
}

} // verus!
