//! Graph data shapes. Nodes and edges carry caller-chosen string ids;
//! labels and property keys are opaque strings.

use vstd::prelude::*;
use crate::strmap::{StrMap, Duplicate};
use crate::value::{Value, ValueModel};

verus! {

pub type Properties = StrMap<Value>;

/// Model of a property map.
pub type PropsModel = Map<Seq<char>, ValueModel>;

#[derive(Debug)]
pub struct Node {
    pub id: String,
    pub label: String,
    pub properties: Properties,
}

pub struct NodeModel {
    pub id: Seq<char>,
    pub label: Seq<char>,
    pub properties: PropsModel,
}

impl View for Node {
    type V = NodeModel;

    open spec fn view(&self) -> NodeModel {
        NodeModel { id: self.id@, label: self.label@, properties: self.properties@ }
    }
}

#[derive(Debug)]
pub struct Edge {
    pub id: String,
    pub label: String,
    pub from: String,
    pub to: String,
    pub properties: Properties,
}

pub struct EdgeModel {
    pub id: Seq<char>,
    pub label: Seq<char>,
    pub from: Seq<char>,
    pub to: Seq<char>,
    pub properties: PropsModel,
}

impl View for Edge {
    type V = EdgeModel;

    open spec fn view(&self) -> EdgeModel {
        EdgeModel {
            id: self.id@,
            label: self.label@,
            from: self.from@,
            to: self.to@,
            properties: self.properties@,
        }
    }
}

impl Node {
    /// Well-formed property map.
    pub open spec fn wf(&self) -> bool {
        self.properties.wf()
    }

    pub fn new(id: &str, label: &str) -> (r: Node)
        ensures
            r.wf(),
            r@ == (NodeModel { id: id@, label: label@, properties: Map::empty() }),
    {
        Node { id: id.to_owned(), label: label.to_owned(), properties: StrMap::new() }
    }

    /// The same node with one more (or one replaced) property.
    pub fn with_property(self, key: &str, value: Value) -> (r: Node)
        requires
            self.wf(),
        ensures
            r.wf(),
            r@ == (NodeModel { properties: self@.properties.insert(key@, value@), ..self@ }),
    {
        let mut n = self;
        n.properties.insert(key.to_owned(), value);
        n
    }

    pub fn duplicate(&self) -> (r: Node)
        requires
            self.wf(),
        ensures
            r.wf(),
            r@ == self@,
            r.properties.keys() == self.properties.keys(),
    {
        Node {
            id: self.id.clone(),
            label: self.label.clone(),
            properties: self.properties.duplicate(),
        }
    }
}

impl Edge {
    pub open spec fn wf(&self) -> bool {
        self.properties.wf()
    }

    pub fn new(id: &str, label: &str, from: &str, to: &str) -> (r: Edge)
        ensures
            r.wf(),
            r@ == (EdgeModel {
                id: id@,
                label: label@,
                from: from@,
                to: to@,
                properties: Map::empty(),
            }),
    {
        Edge {
            id: id.to_owned(),
            label: label.to_owned(),
            from: from.to_owned(),
            to: to.to_owned(),
            properties: StrMap::new(),
        }
    }

    pub fn with_property(self, key: &str, value: Value) -> (r: Edge)
        requires
            self.wf(),
        ensures
            r.wf(),
            r@ == (EdgeModel { properties: self@.properties.insert(key@, value@), ..self@ }),
    {
        let mut e = self;
        e.properties.insert(key.to_owned(), value);
        e
    }

    pub fn duplicate(&self) -> (r: Edge)
        requires
            self.wf(),
        ensures
            r.wf(),
            r@ == self@,
            r.properties.keys() == self.properties.keys(),
    {
        Edge {
            id: self.id.clone(),
            label: self.label.clone(),
            from: self.from.clone(),
            to: self.to.clone(),
            properties: self.properties.duplicate(),
        }
    }
}

} // verus!
