//! A committed graph operation. The on-disk log is a sequence of these
//! and the same shape is what a controller receives.

use vstd::prelude::*;
use crate::graph::{Edge, EdgeModel, Node, NodeModel};
use crate::schema::{Schema, SchemaModel};

verus! {

/// Who produced a mutation: per user and per device.
#[derive(Debug)]
pub struct ActorId {
    pub user_id: String,
    pub device_id: String,
}

#[derive(Debug)]
pub enum MutationOp {
    NodeInsert(Node),
    EdgeInsert(Edge),
    NodeDelete(String),
    EdgeDelete(String),
    SchemaApply(Schema),
}

#[derive(Debug)]
pub struct Mutation {
    /// Monotonic local sequence number assigned at commit.
    pub local_seq: u64,
    pub actor: ActorId,
    /// True until a controller has confirmed the mutation.
    pub foreshadow: bool,
    pub op: MutationOp,
}

pub enum OpModel {
    NodeInsert(NodeModel),
    EdgeInsert(EdgeModel),
    NodeDelete(Seq<char>),
    EdgeDelete(Seq<char>),
    SchemaApply(SchemaModel),
}

pub struct MutationModel {
    pub local_seq: u64,
    pub user_id: Seq<char>,
    pub device_id: Seq<char>,
    pub foreshadow: bool,
    pub op: OpModel,
}

impl View for MutationOp {
    type V = OpModel;

    open spec fn view(&self) -> OpModel {
        match self {
            MutationOp::NodeInsert(n) => OpModel::NodeInsert(n@),
            MutationOp::EdgeInsert(e) => OpModel::EdgeInsert(e@),
            MutationOp::NodeDelete(id) => OpModel::NodeDelete(id@),
            MutationOp::EdgeDelete(id) => OpModel::EdgeDelete(id@),
            MutationOp::SchemaApply(s) => OpModel::SchemaApply(s@),
        }
    }
}

impl View for Mutation {
    type V = MutationModel;

    open spec fn view(&self) -> MutationModel {
        MutationModel {
            local_seq: self.local_seq,
            user_id: self.actor.user_id@,
            device_id: self.actor.device_id@,
            foreshadow: self.foreshadow,
            op: self.op@,
        }
    }
}

/// The id an operation targets (the schema version's empty id for schema
/// pushes).
pub open spec fn op_target(op: OpModel) -> Seq<char> {
    match op {
        OpModel::NodeInsert(n) => n.id,
        OpModel::EdgeInsert(e) => e.id,
        OpModel::NodeDelete(id) => id,
        OpModel::EdgeDelete(id) => id,
        OpModel::SchemaApply(_) => Seq::empty(),
    }
}

impl MutationOp {
    /// Nested maps are well formed.
    pub open spec fn wf(&self) -> bool {
        match self {
            MutationOp::NodeInsert(n) => n.wf(),
            MutationOp::EdgeInsert(e) => e.wf(),
            MutationOp::SchemaApply(s) => s.wf(),
            _ => true,
        }
    }

    /// The id this operation targets; empty for a schema push.
    pub fn target_id(&self) -> (r: &str)
        ensures
            r@ == op_target(self@),
    {
        match self {
            MutationOp::NodeInsert(n) => n.id.as_str(),
            MutationOp::EdgeInsert(e) => e.id.as_str(),
            MutationOp::NodeDelete(id) => id.as_str(),
            MutationOp::EdgeDelete(id) => id.as_str(),
            MutationOp::SchemaApply(_) => {
                proof {
                    reveal_strlit("");
                }
                ""
            },
        }
    }

    /// Is this an insert (of a node or an edge)?
    pub fn is_insert(&self) -> (r: bool)
        ensures
            r == (self@ is NodeInsert || self@ is EdgeInsert),
    {
        match self {
            MutationOp::NodeInsert(_) | MutationOp::EdgeInsert(_) => true,
            _ => false,
        }
    }

    /// Does this target a node (insert or delete)?
    pub fn is_node(&self) -> (r: bool)
        ensures
            r == (self@ is NodeInsert || self@ is NodeDelete),
    {
        match self {
            MutationOp::NodeInsert(_) | MutationOp::NodeDelete(_) => true,
            _ => false,
        }
    }
}

impl MutationOp {
    /// A well-formed copy.
    pub fn duplicate(&self) -> (r: MutationOp)
        requires
            self.wf(),
        ensures
            r.wf(),
            r@ == self@,
    {
        match self {
            MutationOp::NodeInsert(n) => MutationOp::NodeInsert(n.duplicate()),
            MutationOp::EdgeInsert(e) => MutationOp::EdgeInsert(e.duplicate()),
            MutationOp::NodeDelete(id) => MutationOp::NodeDelete(id.clone()),
            MutationOp::EdgeDelete(id) => MutationOp::EdgeDelete(id.clone()),
            MutationOp::SchemaApply(s) => MutationOp::SchemaApply(s.duplicate()),
        }
    }
}

impl Mutation {
    pub open spec fn wf(&self) -> bool {
        self.op.wf()
    }

    /// A well-formed copy.
    pub fn duplicate(&self) -> (r: Mutation)
        requires
            self.wf(),
        ensures
            r.wf(),
            r@ == self@,
    {
        Mutation {
            local_seq: self.local_seq,
            actor: ActorId {
                user_id: self.actor.user_id.clone(),
                device_id: self.actor.device_id.clone(),
            },
            foreshadow: self.foreshadow,
            op: self.op.duplicate(),
        }
    }
}

} // verus!
