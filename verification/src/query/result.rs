//! What a query gives back: named columns and rows of cells, each cell a
//! value, a whole node or a whole edge.

use vstd::prelude::*;
use crate::graph::{Edge, EdgeModel, Node, NodeModel};
use crate::value::{Value, ValueModel};

verus! {

#[derive(Debug)]
pub enum ResultCell {
    Value(Value),
    Node(Node),
    Edge(Edge),
}

pub enum CellModel {
    Value(ValueModel),
    Node(NodeModel),
    Edge(EdgeModel),
}

impl View for ResultCell {
    type V = CellModel;

    open spec fn view(&self) -> CellModel {
        match self {
            ResultCell::Value(v) => CellModel::Value(v@),
            ResultCell::Node(n) => CellModel::Node(n@),
            ResultCell::Edge(e) => CellModel::Edge(e@),
        }
    }
}

/// Models of a row of cells.
pub open spec fn row_view(r: Seq<ResultCell>) -> Seq<CellModel> {
    r.map_values(|c: ResultCell| c@)
}

#[derive(Debug)]
pub struct QueryResult {
    pub columns: Vec<String>,
    pub rows: Vec<Vec<ResultCell>>,
}

/// Model of a [`QueryResult`].
pub struct ResultModel {
    pub columns: Seq<Seq<char>>,
    pub rows: Seq<Seq<CellModel>>,
}

impl View for QueryResult {
    type V = ResultModel;

    open spec fn view(&self) -> ResultModel {
        ResultModel {
            columns: crate::query::ast::strs_view(self.columns@),
            rows: self.rows@.map_values(|r: Vec<ResultCell>| row_view(r@)),
        }
    }
}

impl QueryResult {
    /// No columns and no rows: what writes return.
    pub fn empty() -> (r: QueryResult)
        ensures
            r.columns@.len() == 0,
            r.rows@.len() == 0,
    {
        QueryResult { columns: Vec::new(), rows: Vec::new() }
    }
}

} // verus!
