use vstd::prelude::*;
use crate::config::{NodeRunConfig, OperatorDefinition, ResolvedNode};
use crate::ids::{DataId, DataflowId, DropToken, NodeId, SharedMemoryId};
use dora_message::Metadata;

verus! {

#[verifier::external_type_specification]
#[verifier::external_body]
pub struct ExMetadata(dora_message::Metadata);

/// How a node reaches its daemon.
#[derive(Debug, Clone)]
pub enum DaemonCommunication {
    /// A pair of shared memory regions: one for requests and replies, one for events.
    Shmem { daemon_control_region_id: SharedMemoryId, daemon_events_region_id: SharedMemoryId },
    /// A socket connection to `socket_addr`, written as `host:port`.
    Tcp { socket_addr: String },
}

/// A node's identity, run parameters and transport, fixed at spawn time.
#[derive(Debug)]
pub struct NodeConfig {
    pub dataflow_id: DataflowId,
    pub node_id: NodeId,
    pub run_config: NodeRunConfig,
    pub daemon_communication: DaemonCommunication,
}

/// The configuration of a node that hosts operators.
#[derive(Debug)]
pub struct RuntimeConfig {
    pub node: NodeConfig,
    pub operators: Vec<OperatorDefinition>,
}

/// A request of a node to its daemon.
#[derive(Debug)]
pub enum DaemonRequest {
    Register { dataflow_id: DataflowId, node_id: NodeId },
    Subscribe,
    PrepareOutputMessage { output_id: DataId, metadata: Metadata, data_len: usize },
    SendPreparedMessage { id: SharedMemoryId },
    SendMessage { output_id: DataId, metadata: Metadata, data: Vec<u8> },
    CloseOutputs(Vec<DataId>),
    Stopped,
    NextEvent { drop_tokens: Vec<DropToken> },
}

/// True for every request that the daemon answers; the inline-copy send is
/// fire-and-forget.
pub open spec fn expects_reply(r: DaemonRequest) -> bool {
    !(r is SendMessage)
}

impl DaemonRequest {
    /// Whether the sender waits for a reply to this request.
    pub fn expects_tcp_reply(&self) -> (r: bool)
        ensures
            r == expects_reply(*self),
            r == !(*self is SendMessage),
    {
        match self {
            DaemonRequest::SendMessage { .. } => false,
            _ => true,
        }
    }
}

/// The daemon's answer to a node request.
#[derive(Debug)]
pub enum DaemonReply {
    Result(Result<(), String>),
    PreparedMessage { shared_memory_id: SharedMemoryId },
    NextEvents(Vec<NodeEvent>),
    Empty,
}

/// An event that the daemon delivers to a node.
#[derive(Debug)]
pub enum NodeEvent {
    /// No more input will arrive; the node must shut down.
    Stop,
    /// A data item on input `id`; `data` is `None` when the sender closed
    /// without data.
    Input { id: DataId, metadata: Metadata, data: Option<InputData> },
    /// No further `Input` for `id` will arrive.
    InputClosed { id: DataId },
}

/// Drop tokens that a node reports as released.
#[derive(Debug)]
pub struct DropEvent {
    pub tokens: Vec<DropToken>,
}

/// The payload of an input event.
#[derive(Debug)]
pub enum InputData {
    /// A shared memory segment, to be released through its drop token.
    SharedMemory(SharedMemoryInput),
    /// Bytes copied inline; nothing to release.
    Vec(Vec<u8>),
}

/// The drop token that a payload carries, if any.
pub open spec fn token_of(d: InputData) -> Option<DropToken> {
    match d {
        InputData::SharedMemory(s) => Some(s.drop_token),
        InputData::Vec(_) => None,
    }
}

impl InputData {
    /// The token to hand back once the payload is no longer read.
    pub fn drop_token(&self) -> (r: Option<DropToken>)
        ensures
            r == token_of(*self),
    {
        match self {
            InputData::SharedMemory(data) => Some(data.drop_token),
            InputData::Vec(_) => None,
        }
    }
}

/// A payload held in a shared memory segment.
#[derive(Debug)]
pub struct SharedMemoryInput {
    pub shared_memory_id: SharedMemoryId,
    pub len: usize,
    pub drop_token: DropToken,
}

/// A command of the coordinator to a daemon.
#[derive(Debug)]
pub enum DaemonCoordinatorEvent {
    Spawn(SpawnDataflowNodes),
    StopDataflow { dataflow_id: DataflowId },
    Destroy,
    Watchdog,
}

/// A daemon's answer to a coordinator command.
#[derive(Debug)]
pub enum DaemonCoordinatorReply {
    SpawnResult(Result<(), String>),
    StopResult(Result<(), String>),
    DestroyResult(Result<(), String>),
    WatchdogAck,
}

/// The payload of a spawn command.
#[derive(Debug)]
pub struct SpawnDataflowNodes {
    pub dataflow_id: DataflowId,
    pub working_dir: String,
    pub nodes: Vec<ResolvedNode>,
    pub daemon_communication: DaemonCommunicationConfig,
}

/// The transport that the nodes of a dataflow use.
#[derive(Debug, Clone, Copy, PartialEq, Eq, Structural)]
pub enum DaemonCommunicationConfig {
    Tcp,
    Shmem,
}

impl Default for DaemonCommunicationConfig {
    fn default() -> (r: Self)
        ensures
            r == DaemonCommunicationConfig::Tcp,
    {
        DaemonCommunicationConfig::Tcp
    }
}

} // verus!
