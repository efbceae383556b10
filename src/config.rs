use vstd::prelude::*;
use crate::ids::{DataId, NodeId};

verus! {

/// What a node reads and writes: its input and output ports.
#[derive(Debug, Clone)]
pub struct NodeRunConfig {
    pub inputs: Vec<DataId>,
    pub outputs: Vec<DataId>,
}

/// A node of a dataflow after the graph resolver has run.
#[derive(Debug, Clone)]
pub struct ResolvedNode {
    pub id: NodeId,
    pub run_config: NodeRunConfig,
}

/// An operator that a runtime node hosts.
#[derive(Debug, Clone)]
pub struct OperatorDefinition {
    pub id: String,
}

} // verus!
