//! A worker: one node of the pipeline, between the one before it and the one after it.
//!
//! The worker is a machine that is told what happened and says what is to be done next. It takes a
//! connection, connects to the next node if there is one, and then answers one message after the
//! other.

use crate::network::{CaravanMessage, MessageView, NodeDiscoveryInfo, NodeView, PayloadView, PipelinePayload, node_views};
use crate::settings::{layer_range_text, range_text};
use crate::text::{append_number, decimal};
use vstd::prelude::*;

verus! {

/// What a worker is.
#[derive(Debug, Clone)]
pub struct Worker {
    /// Address of the host at which the swarm reaches it.
    pub host: String,
    /// Port at which it listens.
    pub port: u16,
    /// First layer of its slice.
    pub start_layer: usize,
    /// Last layer of its slice.
    pub end_layer: usize,
    /// Whether another node comes after it.
    pub has_next: bool,
}

/// A pass that a worker is asked to run on its layers.
#[derive(Debug)]
pub enum RunRequest {
    Decode { token_id: Option<u32>, activations: Option<Vec<u32>>, position: usize },
    Prefill {
        token_ids: Option<Vec<u32>>,
        activations: Option<Vec<u32>>,
        position: usize,
        batch_size: usize,
    },
}

/// What a pass keeps while it goes from node to node.
#[derive(Debug)]
pub struct PassHeader {
    pub token_ids: Vec<u32>,
    pub batch_size: usize,
    pub is_prefill: bool,
    pub position: usize,
}

/// What a worker is waiting for.
#[derive(Debug)]
pub enum WorkerState {
    /// For a connection.
    Accepting,
    /// For the connection to the next node.
    Connecting,
    /// For a message from the previous node.
    Receiving,
    /// For its layers to run on a pass.
    Running(PassHeader),
    /// For a token to be sampled.
    Sampling,
    /// For a message to the next node to be sent.
    Forwarding,
    /// For the answer of the next node.
    AwaitingReply,
    /// For an answer to the previous node to be sent.
    Replying,
    /// For nothing any more.
    Stopped,
}

/// What happened.
#[derive(Debug)]
pub enum WorkerEvent {
    Accepted,
    AcceptFailed,
    Connected,
    ConnectFailed,
    Received(CaravanMessage),
    ReceiveFailed,
    /// The layers ran, with these activations or logits as bit patterns.
    Ran(Vec<u32>),
    RunFailed,
    Sampled(u32),
    Sent,
    SendFailed,
}

/// What is to be done next.
#[derive(Debug)]
pub enum WorkerAction {
    /// Close what is open and wait for a connection.
    Accept,
    /// Connect to the next node.
    ConnectNext,
    /// Take a message from the previous node.
    ReceivePrevious,
    /// Report a message that only travels backward, and take the next one.
    SkipStray,
    /// Take a message from the next node.
    ReceiveNext,
    /// Run the layers.
    Run(RunRequest),
    /// Sample a token from these logits, as bit patterns.
    Sample(Vec<u32>),
    /// Send a message to the next node.
    SendNext(CaravanMessage),
    /// Send a message to the previous node.
    SendPrevious(CaravanMessage),
    /// Give up.
    Stop,
}

/// A [`RunRequest`] as mathematical values.
#[verifier::ext_equal]
pub enum RunView {
    Decode { token_id: Option<u32>, activations: Option<Seq<u32>>, position: usize },
    Prefill {
        token_ids: Option<Seq<u32>>,
        activations: Option<Seq<u32>>,
        position: usize,
        batch_size: usize,
    },
}

/// A [`PassHeader`] as mathematical values.
#[verifier::ext_equal]
pub struct HeaderView {
    pub token_ids: Seq<u32>,
    pub batch_size: usize,
    pub is_prefill: bool,
    pub position: usize,
}

/// A [`WorkerState`] as mathematical values.
#[verifier::ext_equal]
pub enum StateView {
    Accepting,
    Connecting,
    Receiving,
    Running(HeaderView),
    Sampling,
    Forwarding,
    AwaitingReply,
    Replying,
    Stopped,
}

/// A [`WorkerEvent`] as mathematical values.
#[verifier::ext_equal]
pub enum EventView {
    Accepted,
    AcceptFailed,
    Connected,
    ConnectFailed,
    Received(MessageView),
    ReceiveFailed,
    Ran(Seq<u32>),
    RunFailed,
    Sampled(u32),
    Sent,
    SendFailed,
}

/// A [`WorkerAction`] as mathematical values.
#[verifier::ext_equal]
pub enum ActionView {
    Accept,
    ConnectNext,
    ReceivePrevious,
    SkipStray,
    ReceiveNext,
    Run(RunView),
    Sample(Seq<u32>),
    SendNext(MessageView),
    SendPrevious(MessageView),
    Stop,
}

/// The view of an optional vector.
pub open spec fn opt_seq(v: Option<Vec<u32>>) -> Option<Seq<u32>> {
    match v {
        Some(v) => Some(v@),
        None => None,
    }
}

impl View for RunRequest {
    type V = RunView;

    open spec fn view(&self) -> RunView {
        match self {
            RunRequest::Decode { token_id, activations, position } => RunView::Decode {
                token_id: *token_id,
                activations: opt_seq(*activations),
                position: *position,
            },
            RunRequest::Prefill { token_ids, activations, position, batch_size } =>
                RunView::Prefill {
                token_ids: opt_seq(*token_ids),
                activations: opt_seq(*activations),
                position: *position,
                batch_size: *batch_size,
            },
        }
    }
}

impl View for PassHeader {
    type V = HeaderView;

    open spec fn view(&self) -> HeaderView {
        HeaderView {
            token_ids: self.token_ids@,
            batch_size: self.batch_size,
            is_prefill: self.is_prefill,
            position: self.position,
        }
    }
}

impl View for WorkerState {
    type V = StateView;

    open spec fn view(&self) -> StateView {
        match self {
            WorkerState::Accepting => StateView::Accepting,
            WorkerState::Connecting => StateView::Connecting,
            WorkerState::Receiving => StateView::Receiving,
            WorkerState::Running(header) => StateView::Running(header@),
            WorkerState::Sampling => StateView::Sampling,
            WorkerState::Forwarding => StateView::Forwarding,
            WorkerState::AwaitingReply => StateView::AwaitingReply,
            WorkerState::Replying => StateView::Replying,
            WorkerState::Stopped => StateView::Stopped,
        }
    }
}

impl View for WorkerEvent {
    type V = EventView;

    open spec fn view(&self) -> EventView {
        match self {
            WorkerEvent::Accepted => EventView::Accepted,
            WorkerEvent::AcceptFailed => EventView::AcceptFailed,
            WorkerEvent::Connected => EventView::Connected,
            WorkerEvent::ConnectFailed => EventView::ConnectFailed,
            WorkerEvent::Received(msg) => EventView::Received(msg@),
            WorkerEvent::ReceiveFailed => EventView::ReceiveFailed,
            WorkerEvent::Ran(out) => EventView::Ran(out@),
            WorkerEvent::RunFailed => EventView::RunFailed,
            WorkerEvent::Sampled(token) => EventView::Sampled(*token),
            WorkerEvent::Sent => EventView::Sent,
            WorkerEvent::SendFailed => EventView::SendFailed,
        }
    }
}

impl View for WorkerAction {
    type V = ActionView;

    open spec fn view(&self) -> ActionView {
        match self {
            WorkerAction::Accept => ActionView::Accept,
            WorkerAction::ConnectNext => ActionView::ConnectNext,
            WorkerAction::ReceivePrevious => ActionView::ReceivePrevious,
            WorkerAction::SkipStray => ActionView::SkipStray,
            WorkerAction::ReceiveNext => ActionView::ReceiveNext,
            WorkerAction::Run(request) => ActionView::Run(request@),
            WorkerAction::Sample(logits) => ActionView::Sample(logits@),
            WorkerAction::SendNext(msg) => ActionView::SendNext(msg@),
            WorkerAction::SendPrevious(msg) => ActionView::SendPrevious(msg@),
            WorkerAction::Stop => ActionView::Stop,
        }
    }
}

impl Worker {
    /// What the worker is for, in words.
    pub open spec fn role_text(self) -> Seq<char> {
        if self.start_layer == 0 {
            "Node 0 / Prefill"@
        } else if !self.has_next {
            "Sampler / Final"@
        } else {
            "Worker Node"@
        }
    }

    /// What the worker says of itself.
    pub open spec fn node(self) -> NodeView {
        NodeView {
            addr: self.host@ + ":"@ + decimal(self.port as nat),
            layers: range_text(self.start_layer as nat, self.end_layer as nat),
            is_final: !self.has_next,
            role: self.role_text(),
        }
    }

    /// The pass that a payload asks for: the first node works from tokens, the others from
    /// activations.
    pub open spec fn request(self, p: PayloadView) -> RunView {
        let first = self.start_layer == 0;
        let activations = if first {
            None
        } else {
            Some(p.activations)
        };
        if p.is_prefill {
            RunView::Prefill {
                token_ids: if first {
                    Some(p.token_ids)
                } else {
                    None
                },
                activations,
                position: p.position,
                batch_size: p.batch_size,
            }
        } else {
            RunView::Decode {
                token_id: if first {
                    Some(p.token_ids[0])
                } else {
                    None
                },
                activations,
                position: p.position,
            }
        }
    }

    /// Whether `e` can happen in state `s`. A pass that decodes a token on the first node names
    /// the token.
    pub open spec fn expects(self, s: StateView, e: EventView) -> bool {
        match s {
            StateView::Accepting => e is Accepted || e is AcceptFailed,
            StateView::Connecting => e is Connected || e is ConnectFailed,
            StateView::Receiving => {
                ||| e is ReceiveFailed
                ||| e matches EventView::Received(msg) && (msg matches MessageView::Forward(p)
                    ==> self.start_layer == 0 && !p.is_prefill ==> p.token_ids.len() > 0)
            },
            StateView::Running(_) => e is Ran || e is RunFailed,
            StateView::Sampling => e is Sampled,
            StateView::Forwarding => e is Sent || e is SendFailed,
            StateView::AwaitingReply => e is Received || e is ReceiveFailed,
            StateView::Replying => e is Sent || e is SendFailed,
            StateView::Stopped => false,
        }
    }

    /// What a message from the previous node leads to.
    pub open spec fn on_message(self, msg: MessageView) -> (StateView, ActionView) {
        match msg {
            MessageView::DiscoveryRequest(nodes) => if self.has_next {
                (
                    StateView::Forwarding,
                    ActionView::SendNext(MessageView::DiscoveryRequest(nodes.push(self.node()))),
                )
            } else {
                (
                    StateView::Replying,
                    ActionView::SendPrevious(
                        MessageView::DiscoveryResponse(nodes.push(self.node())),
                    ),
                )
            },
            MessageView::Forward(p) => (
                StateView::Running(
                    HeaderView {
                        token_ids: p.token_ids,
                        batch_size: p.batch_size,
                        is_prefill: p.is_prefill,
                        position: p.position,
                    },
                ),
                ActionView::Run(self.request(p)),
            ),
            MessageView::DiscoveryResponse(_) => (StateView::Receiving, ActionView::SkipStray),
            MessageView::TokenResponse(_) => (StateView::Receiving, ActionView::SkipStray),
        }
    }

    /// What the output of the layers leads to.
    pub open spec fn on_output(self, header: HeaderView, out: Seq<u32>) -> (StateView, ActionView) {
        if self.has_next {
            (
                StateView::Forwarding,
                ActionView::SendNext(
                    MessageView::Forward(
                        PayloadView {
                            token_ids: header.token_ids,
                            activations: out,
                            batch_size: header.batch_size,
                            is_prefill: header.is_prefill,
                            position: header.position,
                        },
                    ),
                ),
            )
        } else {
            (StateView::Sampling, ActionView::Sample(out))
        }
    }

    /// What `e` leads to in state `s`. Trouble with the previous node or with the layers ends the
    /// connection; trouble with the next node, or with an answer, ends the worker.
    pub open spec fn next(self, s: StateView, e: EventView) -> (StateView, ActionView) {
        match (s, e) {
            (StateView::Accepting, EventView::Accepted) => if self.has_next {
                (StateView::Connecting, ActionView::ConnectNext)
            } else {
                (StateView::Receiving, ActionView::ReceivePrevious)
            },
            (StateView::Connecting, EventView::Connected) => (
                StateView::Receiving,
                ActionView::ReceivePrevious,
            ),
            (StateView::Connecting, EventView::ConnectFailed) => (
                StateView::Accepting,
                ActionView::Accept,
            ),
            (StateView::Receiving, EventView::Received(msg)) => self.on_message(msg),
            (StateView::Receiving, EventView::ReceiveFailed) => (
                StateView::Accepting,
                ActionView::Accept,
            ),
            (StateView::Running(header), EventView::Ran(out)) => self.on_output(header, out),
            (StateView::Running(_), EventView::RunFailed) => (
                StateView::Accepting,
                ActionView::Accept,
            ),
            (StateView::Sampling, EventView::Sampled(token)) => (
                StateView::Replying,
                ActionView::SendPrevious(MessageView::TokenResponse(token)),
            ),
            (StateView::Forwarding, EventView::Sent) => (
                StateView::AwaitingReply,
                ActionView::ReceiveNext,
            ),
            (StateView::AwaitingReply, EventView::Received(msg)) => (
                StateView::Replying,
                ActionView::SendPrevious(msg),
            ),
            (StateView::Replying, EventView::Sent) => (
                StateView::Receiving,
                ActionView::ReceivePrevious,
            ),
            _ => (StateView::Stopped, ActionView::Stop),
        }
    }

    /// How a worker starts: by waiting for a connection.
    pub fn start(&self) -> (r: (WorkerState, WorkerAction))
        ensures
            r.0@ == StateView::Accepting,
            r.1@ == ActionView::Accept,
    {
        (WorkerState::Accepting, WorkerAction::Accept)
    }

    /// What the worker is for, in words.
    fn role(&self) -> (r: String)
        ensures
            r@ == self.role_text(),
    {
        if self.start_layer == 0 {
            "Node 0 / Prefill".to_owned()
        } else if !self.has_next {
            "Sampler / Final".to_owned()
        } else {
            "Worker Node".to_owned()
        }
    }

    /// What the worker says of itself.
    pub fn describe(&self) -> (r: NodeDiscoveryInfo)
        ensures
            r@ == self.node(),
    {
        let mut addr: String = self.host.clone();
        addr.append(":");
        append_number(&mut addr, self.port as usize);
        NodeDiscoveryInfo {
            addr,
            layers: layer_range_text(self.start_layer, self.end_layer),
            is_final: !self.has_next,
            role: self.role(),
        }
    }

    /// Reacts to a message from the previous node.
    fn handle_message(&self, msg: CaravanMessage) -> (r: (WorkerState, WorkerAction))
        requires
            self.expects(StateView::Receiving, EventView::Received(msg@)),
        ensures
            (r.0@, r.1@) == self.on_message(msg@),
    {
        match msg {
            CaravanMessage::DiscoveryRequest(nodes) => {
                let mut nodes = nodes;
                let ghost before = nodes@;
                nodes.push(self.describe());
                assert(node_views(nodes@) =~= node_views(before).push(self.node()));
                if self.has_next {
                    (
                        WorkerState::Forwarding,
                        WorkerAction::SendNext(CaravanMessage::DiscoveryRequest(nodes)),
                    )
                } else {
                    (
                        WorkerState::Replying,
                        WorkerAction::SendPrevious(CaravanMessage::DiscoveryResponse(nodes)),
                    )
                }
            },
            CaravanMessage::DiscoveryResponse(_) => {
                (WorkerState::Receiving, WorkerAction::SkipStray)
            },
            CaravanMessage::TokenResponse(_) => (WorkerState::Receiving, WorkerAction::SkipStray),
            CaravanMessage::Forward(payload) => {
                let first: bool = self.start_layer == 0;
                let request = if payload.is_prefill {
                    RunRequest::Prefill {
                        token_ids: if first {
                            Some(payload.token_ids.clone())
                        } else {
                            None
                        },
                        activations: if first {
                            None
                        } else {
                            Some(payload.activations)
                        },
                        position: payload.position,
                        batch_size: payload.batch_size,
                    }
                } else {
                    RunRequest::Decode {
                        token_id: if first {
                            Some(payload.token_ids[0])
                        } else {
                            None
                        },
                        activations: if first {
                            None
                        } else {
                            Some(payload.activations)
                        },
                        position: payload.position,
                    }
                };
                let header = PassHeader {
                    token_ids: payload.token_ids,
                    batch_size: payload.batch_size,
                    is_prefill: payload.is_prefill,
                    position: payload.position,
                };
                (WorkerState::Running(header), WorkerAction::Run(request))
            },
        }
    }

    /// Reacts to what happened: the new state, and what is to be done next.
    pub fn step(&self, state: WorkerState, event: WorkerEvent) -> (r: (WorkerState, WorkerAction))
        requires
            self.expects(state@, event@),
        ensures
            (r.0@, r.1@) == self.next(state@, event@),
    {
        match (state, event) {
            (WorkerState::Accepting, WorkerEvent::Accepted) => {
                if self.has_next {
                    (WorkerState::Connecting, WorkerAction::ConnectNext)
                } else {
                    (WorkerState::Receiving, WorkerAction::ReceivePrevious)
                }
            },
            (WorkerState::Connecting, WorkerEvent::Connected) => {
                (WorkerState::Receiving, WorkerAction::ReceivePrevious)
            },
            (WorkerState::Connecting, WorkerEvent::ConnectFailed) => {
                (WorkerState::Accepting, WorkerAction::Accept)
            },
            (WorkerState::Receiving, WorkerEvent::Received(msg)) => self.handle_message(msg),
            (WorkerState::Receiving, WorkerEvent::ReceiveFailed) => {
                (WorkerState::Accepting, WorkerAction::Accept)
            },
            (WorkerState::Running(header), WorkerEvent::Ran(out)) => {
                if self.has_next {
                    let payload = PipelinePayload {
                        token_ids: header.token_ids,
                        activations: out,
                        batch_size: header.batch_size,
                        is_prefill: header.is_prefill,
                        position: header.position,
                    };
                    (
                        WorkerState::Forwarding,
                        WorkerAction::SendNext(CaravanMessage::Forward(payload)),
                    )
                } else {
                    (WorkerState::Sampling, WorkerAction::Sample(out))
                }
            },
            (WorkerState::Running(_), WorkerEvent::RunFailed) => {
                (WorkerState::Accepting, WorkerAction::Accept)
            },
            (WorkerState::Sampling, WorkerEvent::Sampled(token)) => {
                (
                    WorkerState::Replying,
                    WorkerAction::SendPrevious(CaravanMessage::TokenResponse(token)),
                )
            },
            (WorkerState::Forwarding, WorkerEvent::Sent) => {
                (WorkerState::AwaitingReply, WorkerAction::ReceiveNext)
            },
            (WorkerState::AwaitingReply, WorkerEvent::Received(msg)) => {
                (WorkerState::Replying, WorkerAction::SendPrevious(msg))
            },
            (WorkerState::Replying, WorkerEvent::Sent) => {
                (WorkerState::Receiving, WorkerAction::ReceivePrevious)
            },
            _ => (WorkerState::Stopped, WorkerAction::Stop),
        }
    }
}

} // verus!
