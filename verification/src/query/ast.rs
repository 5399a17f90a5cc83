//! Syntax tree of the Cypher subset, with a mathematical model of each
//! node.

use vstd::prelude::*;
use crate::strmap::StrMap;
use crate::value::{Value, ValueModel};

verus! {

#[derive(Debug, Clone, Copy, PartialEq, Eq, Structural)]
pub enum BinOp {
    And,
    Or,
    Eq,
    NotEq,
    Lt,
    Gt,
    LtEq,
    GtEq,
}

#[derive(Debug, Clone, Copy, PartialEq, Eq, Structural)]
pub enum SortDirection {
    Asc,
    Desc,
}

#[derive(Debug)]
pub enum Expr {
    Literal(Value),
    Param(String),
    /// `n.prop`, or a path into the metadata namespace such as
    /// `n._motif.foreshadow`.
    Property { variable: String, path: Vec<String> },
    /// `id(n)`.
    IdOf(String),
    Binary { op: BinOp, lhs: Box<Expr>, rhs: Box<Expr> },
    Not(Box<Expr>),
}

pub enum ExprModel {
    Literal(ValueModel),
    Param(Seq<char>),
    Property { variable: Seq<char>, path: Seq<Seq<char>> },
    IdOf(Seq<char>),
    Binary { op: BinOp, lhs: Box<ExprModel>, rhs: Box<ExprModel> },
    Not(Box<ExprModel>),
}

/// Models of a sequence of strings.
pub open spec fn strs_view(s: Seq<String>) -> Seq<Seq<char>> {
    s.map_values(|x: String| x@)
}

impl View for Expr {
    type V = ExprModel;

    open spec fn view(&self) -> ExprModel
        decreases self,
    {
        match self {
            Expr::Literal(v) => ExprModel::Literal(v@),
            Expr::Param(p) => ExprModel::Param(p@),
            Expr::Property { variable, path } => ExprModel::Property {
                variable: variable@,
                path: strs_view(path@),
            },
            Expr::IdOf(v) => ExprModel::IdOf(v@),
            Expr::Binary { op, lhs, rhs } => ExprModel::Binary {
                op: *op,
                lhs: Box::new((**lhs)@),
                rhs: Box::new((**rhs)@),
            },
            Expr::Not(e) => ExprModel::Not(Box::new((**e)@)),
        }
    }
}

/// `(variable[:Label][{props}])`.
#[derive(Debug)]
pub struct NodePattern {
    pub variable: String,
    pub label: Option<String>,
    pub properties: StrMap<Expr>,
}

/// `-[variable[:Label][{props}]]->`.
#[derive(Debug)]
pub struct EdgePattern {
    pub variable: String,
    pub label: Option<String>,
    pub properties: StrMap<Expr>,
}

pub open spec fn opt_view(o: Option<String>) -> Option<Seq<char>> {
    match o {
        Some(s) => Some(s@),
        None => None,
    }
}

pub struct PatternModel {
    pub variable: Seq<char>,
    pub label: Option<Seq<char>>,
    pub properties: Map<Seq<char>, ExprModel>,
}

impl View for NodePattern {
    type V = PatternModel;

    open spec fn view(&self) -> PatternModel {
        PatternModel {
            variable: self.variable@,
            label: opt_view(self.label),
            properties: self.properties@,
        }
    }
}

impl View for EdgePattern {
    type V = PatternModel;

    open spec fn view(&self) -> PatternModel {
        PatternModel {
            variable: self.variable@,
            label: opt_view(self.label),
            properties: self.properties@,
        }
    }
}

#[derive(Debug)]
pub enum Pattern {
    Node(NodePattern),
    /// `(start)-[e1]->(n1)-[e2]->(n2)...`
    Path { start: NodePattern, chain: Vec<(EdgePattern, NodePattern)> },
}

pub enum PathModel {
    Node(PatternModel),
    Path { start: PatternModel, chain: Seq<(PatternModel, PatternModel)> },
}

pub open spec fn chain_view(c: Seq<(EdgePattern, NodePattern)>) -> Seq<(PatternModel, PatternModel)> {
    c.map_values(|x: (EdgePattern, NodePattern)| (x.0@, x.1@))
}

impl View for Pattern {
    type V = PathModel;

    open spec fn view(&self) -> PathModel {
        match self {
            Pattern::Node(n) => PathModel::Node(n@),
            Pattern::Path { start, chain } => PathModel::Path { start: start@, chain: chain_view(chain@) },
        }
    }
}

#[derive(Debug, PartialEq)]
pub enum CollectTarget {
    Variable(String),
    Property { variable: String, path: Vec<String> },
}

#[derive(Debug, PartialEq)]
pub enum ReturnItem {
    /// `RETURN n`
    Variable(String),
    /// `RETURN n.name`, `RETURN n._motif.foreshadow`
    Property { variable: String, path: Vec<String> },
    /// `count(n)` or `count(*)`
    Count { target: Option<String> },
    /// `collect(n)` or `collect(n.prop)`
    Collect(CollectTarget),
}

pub enum ItemModel {
    Variable(Seq<char>),
    Property { variable: Seq<char>, path: Seq<Seq<char>> },
    Count { target: Option<Seq<char>> },
    CollectVariable(Seq<char>),
    CollectProperty { variable: Seq<char>, path: Seq<Seq<char>> },
}

impl View for ReturnItem {
    type V = ItemModel;

    open spec fn view(&self) -> ItemModel {
        match self {
            ReturnItem::Variable(v) => ItemModel::Variable(v@),
            ReturnItem::Property { variable, path } => ItemModel::Property {
                variable: variable@,
                path: strs_view(path@),
            },
            ReturnItem::Count { target } => ItemModel::Count { target: opt_view(*target) },
            ReturnItem::Collect(CollectTarget::Variable(v)) => ItemModel::CollectVariable(v@),
            ReturnItem::Collect(CollectTarget::Property { variable, path }) => ItemModel::CollectProperty {
                variable: variable@,
                path: strs_view(path@),
            },
        }
    }
}

#[derive(Debug)]
pub struct OrderBy {
    pub expr: Expr,
    pub direction: SortDirection,
}

#[derive(Debug)]
pub enum Statement {
    /// `CREATE (n:Label {props})`
    Create { pattern: NodePattern },
    /// `MERGE (n:Label {id: .., props})`: insert unless a node with that
    /// id exists.
    Merge { pattern: NodePattern },
    /// `MATCH patterns [WHERE expr] RETURN items [ORDER BY expr [ASC|DESC]]
    /// [LIMIT n]`
    MatchReturn {
        patterns: Vec<Pattern>,
        where_clause: Option<Expr>,
        return_items: Vec<ReturnItem>,
        order_by: Option<OrderBy>,
        limit: Option<u64>,
    },
    /// `MATCH patterns [WHERE expr] [DETACH] DELETE n`
    MatchDelete { patterns: Vec<Pattern>, where_clause: Option<Expr>, variable: String, detach: bool },
}

pub enum StatementModel {
    Create { pattern: PatternModel },
    Merge { pattern: PatternModel },
    MatchReturn {
        patterns: Seq<PathModel>,
        where_clause: Option<ExprModel>,
        return_items: Seq<ItemModel>,
        order_by: Option<(ExprModel, SortDirection)>,
        limit: Option<u64>,
    },
    MatchDelete {
        patterns: Seq<PathModel>,
        where_clause: Option<ExprModel>,
        variable: Seq<char>,
        detach: bool,
    },
}

pub open spec fn opt_expr_view(o: Option<Expr>) -> Option<ExprModel> {
    match o {
        Some(e) => Some(e@),
        None => None,
    }
}

impl View for Statement {
    type V = StatementModel;

    open spec fn view(&self) -> StatementModel {
        match self {
            Statement::Create { pattern } => StatementModel::Create { pattern: pattern@ },
            Statement::Merge { pattern } => StatementModel::Merge { pattern: pattern@ },
            Statement::MatchReturn { patterns, where_clause, return_items, order_by, limit } =>
                StatementModel::MatchReturn {
                patterns: patterns@.map_values(|p: Pattern| p@),
                where_clause: opt_expr_view(*where_clause),
                return_items: return_items@.map_values(|i: ReturnItem| i@),
                order_by: match order_by {
                    Some(o) => Some((o.expr@, o.direction)),
                    None => None,
                },
                limit: *limit,
            },
            Statement::MatchDelete { patterns, where_clause, variable, detach } =>
                StatementModel::MatchDelete {
                patterns: patterns@.map_values(|p: Pattern| p@),
                where_clause: opt_expr_view(*where_clause),
                variable: variable@,
                detach: *detach,
            },
        }
    }
}

} // verus!
