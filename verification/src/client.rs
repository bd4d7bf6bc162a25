//! A client: it finds the swarm, and runs turns on it.
//!
//! The client is a machine that is told what happened and says what is to be done next. It either
//! runs one prompt, or reads prompts line by line. Whenever it has no connection to the swarm it
//! makes a new one, and asks the nodes what they are.

use crate::network::{CaravanMessage, MessageView, NodeDiscoveryInfo, NodeView, node_views};
use crate::status::{StatusView, SwarmStatus};
use crate::text::{is_core, is_white, lemma_trimmed, trim, trimmed};
use vstd::prelude::*;

verus! {

/// What a connection is made for.
#[derive(Debug)]
pub enum Purpose {
    /// To begin with.
    First,
    /// To run the one prompt there is.
    Single,
    /// To run a line that was read.
    Chat(String),
}

/// A [`Purpose`] as mathematical values.
#[verifier::ext_equal]
pub enum PurposeView {
    First,
    Single,
    Chat(Seq<char>),
}

impl View for Purpose {
    type V = PurposeView;

    open spec fn view(&self) -> PurposeView {
        match self {
            Purpose::First => PurposeView::First,
            Purpose::Single => PurposeView::Single,
            Purpose::Chat(line) => PurposeView::Chat(line@),
        }
    }
}

/// What a client is waiting for.
#[derive(Debug)]
pub enum ClientState {
    /// For a connection.
    Connecting(Purpose),
    /// For the nodes to have been asked what they are.
    Asking(Purpose),
    /// For the nodes to answer.
    Discovering(Purpose),
    /// For a turn to be over.
    Turning,
    /// For a line to be read.
    Reading,
    /// For nothing: all is done.
    Finished,
    /// For nothing: the prompt could not be run.
    Failed,
}

/// A [`ClientState`] as mathematical values.
#[verifier::ext_equal]
pub enum ClientStateView {
    Connecting(PurposeView),
    Asking(PurposeView),
    Discovering(PurposeView),
    Turning,
    Reading,
    Finished,
    Failed,
}

impl View for ClientState {
    type V = ClientStateView;

    open spec fn view(&self) -> ClientStateView {
        match self {
            ClientState::Connecting(purpose) => ClientStateView::Connecting(purpose@),
            ClientState::Asking(purpose) => ClientStateView::Asking(purpose@),
            ClientState::Discovering(purpose) => ClientStateView::Discovering(purpose@),
            ClientState::Turning => ClientStateView::Turning,
            ClientState::Reading => ClientStateView::Reading,
            ClientState::Finished => ClientStateView::Finished,
            ClientState::Failed => ClientStateView::Failed,
        }
    }
}

/// What happened.
#[derive(Debug)]
pub enum ClientEvent {
    Connected,
    ConnectFailed,
    Sent,
    SendFailed,
    Received(CaravanMessage),
    ReceiveFailed,
    TurnDone,
    TurnFailed,
    Line(String),
    InputEnded,
    InputFailed,
}

/// A [`ClientEvent`] as mathematical values.
#[verifier::ext_equal]
pub enum ClientEventView {
    Connected,
    ConnectFailed,
    Sent,
    SendFailed,
    Received(MessageView),
    ReceiveFailed,
    TurnDone,
    TurnFailed,
    Line(Seq<char>),
    InputEnded,
    InputFailed,
}

impl View for ClientEvent {
    type V = ClientEventView;

    open spec fn view(&self) -> ClientEventView {
        match self {
            ClientEvent::Connected => ClientEventView::Connected,
            ClientEvent::ConnectFailed => ClientEventView::ConnectFailed,
            ClientEvent::Sent => ClientEventView::Sent,
            ClientEvent::SendFailed => ClientEventView::SendFailed,
            ClientEvent::Received(msg) => ClientEventView::Received(msg@),
            ClientEvent::ReceiveFailed => ClientEventView::ReceiveFailed,
            ClientEvent::TurnDone => ClientEventView::TurnDone,
            ClientEvent::TurnFailed => ClientEventView::TurnFailed,
            ClientEvent::Line(line) => ClientEventView::Line(line@),
            ClientEvent::InputEnded => ClientEventView::InputEnded,
            ClientEvent::InputFailed => ClientEventView::InputFailed,
        }
    }
}

/// What is to be done next.
#[derive(Debug)]
pub enum ClientAction {
    /// Connect to the first node.
    Connect,
    /// Send this message.
    Send(CaravanMessage),
    /// Receive a message.
    Receive,
    /// Run a turn on this prompt.
    RunTurn(String),
    /// Read a line.
    ReadLine,
    /// End well.
    Finish,
    /// End with an error.
    Fail,
}

/// A [`ClientAction`] as mathematical values.
#[verifier::ext_equal]
pub enum ClientActionView {
    Connect,
    Send(MessageView),
    Receive,
    RunTurn(Seq<char>),
    ReadLine,
    Finish,
    Fail,
}

impl View for ClientAction {
    type V = ClientActionView;

    open spec fn view(&self) -> ClientActionView {
        match self {
            ClientAction::Connect => ClientActionView::Connect,
            ClientAction::Send(msg) => ClientActionView::Send(msg@),
            ClientAction::Receive => ClientActionView::Receive,
            ClientAction::RunTurn(prompt) => ClientActionView::RunTurn(prompt@),
            ClientAction::ReadLine => ClientActionView::ReadLine,
            ClientAction::Finish => ClientActionView::Finish,
            ClientAction::Fail => ClientActionView::Fail,
        }
    }
}

/// What a client has whatever it is waiting for.
#[derive(Debug)]
struct Session {
    single_prompt: Option<String>,
    has_connection: bool,
}

/// A client.
#[derive(Debug)]
pub struct Client {
    session: Session,
    state: ClientState,
}

/// A [`Client`] as mathematical values.
#[verifier::ext_equal]
pub struct ClientView {
    /// The one prompt to run; without it, prompts are read line by line.
    pub single_prompt: Option<Seq<char>>,
    /// Whether turns can be run.
    pub has_connection: bool,
    pub state: ClientStateView,
}

impl View for Client {
    type V = ClientView;

    closed spec fn view(&self) -> ClientView {
        ClientView {
            single_prompt: match self.session.single_prompt {
                Some(prompt) => Some(prompt@),
                None => None,
            },
            has_connection: self.session.has_connection,
            state: self.state@,
        }
    }
}

/// The message that asks the nodes what they are.
pub open spec fn discovery_request() -> MessageView {
    MessageView::DiscoveryRequest(Seq::empty())
}

/// The nodes that an answer to a discovery request lists.
pub open spec fn listed_nodes(reply: MessageView) -> Seq<NodeView> {
    match reply {
        MessageView::DiscoveryResponse(nodes) => nodes,
        _ => Seq::empty(),
    }
}

/// Whether a line ends the conversation.
pub open spec fn is_farewell(line: Seq<char>) -> bool {
    line == "/exit"@ || line == "/quit"@
}

impl ClientView {
    /// What always holds: there is a prompt for every connection made for one, and turns run only
    /// on a connection.
    pub open spec fn wf(self) -> bool {
        match self.state {
            ClientStateView::Connecting(purpose) => self.serves(purpose) && !self.has_connection,
            ClientStateView::Asking(purpose) => self.serves(purpose) && !self.has_connection,
            ClientStateView::Discovering(purpose) => self.serves(purpose) && !self.has_connection,
            ClientStateView::Turning => self.has_connection,
            ClientStateView::Reading => self.single_prompt is None,
            ClientStateView::Finished => true,
            ClientStateView::Failed => self.single_prompt is Some,
        }
    }

    /// Whether a connection can be made for `purpose`.
    pub open spec fn serves(self, purpose: PurposeView) -> bool {
        match purpose {
            PurposeView::First => true,
            PurposeView::Single => self.single_prompt is Some,
            PurposeView::Chat(_) => self.single_prompt is None,
        }
    }

    /// Whether the client can be told `e`.
    pub open spec fn expects(self, e: ClientEventView) -> bool {
        match self.state {
            ClientStateView::Connecting(_) => e is Connected || e is ConnectFailed,
            ClientStateView::Asking(_) => e is Sent || e is SendFailed,
            ClientStateView::Discovering(_) => e is Received || e is ReceiveFailed,
            ClientStateView::Turning => e is TurnDone || e is TurnFailed,
            ClientStateView::Reading => e is Line || e is InputEnded || e is InputFailed,
            _ => false,
        }
    }

    /// The client in `state`, with `action` to be done.
    pub open spec fn enter(
        self,
        state: ClientStateView,
        action: ClientActionView,
    ) -> (ClientView, ClientActionView) {
        (ClientView { state, ..self }, action)
    }

    /// How it goes on once the first attempt to find the swarm is over.
    pub open spec fn begin_work(self) -> (ClientView, ClientActionView) {
        match self.single_prompt {
            Some(prompt) => if self.has_connection {
                self.enter(ClientStateView::Turning, ClientActionView::RunTurn(prompt))
            } else {
                self.enter(
                    ClientStateView::Connecting(PurposeView::Single),
                    ClientActionView::Connect,
                )
            },
            None => self.enter(ClientStateView::Reading, ClientActionView::ReadLine),
        }
    }

    /// How it goes on once the swarm has been found.
    pub open spec fn found(self, purpose: PurposeView) -> (ClientView, ClientActionView) {
        let v = ClientView { has_connection: true, ..self };
        match purpose {
            PurposeView::Chat(line) => v.enter(
                ClientStateView::Turning,
                ClientActionView::RunTurn(line),
            ),
            _ => v.begin_work(),
        }
    }

    /// How it goes on with a line that was read.
    pub open spec fn read(self, line: Seq<char>) -> (ClientView, ClientActionView) {
        let prompt = trimmed(line);
        if prompt.len() == 0 {
            self.enter(ClientStateView::Reading, ClientActionView::ReadLine)
        } else if is_farewell(prompt) {
            self.enter(ClientStateView::Finished, ClientActionView::Finish)
        } else if self.has_connection {
            self.enter(ClientStateView::Turning, ClientActionView::RunTurn(prompt))
        } else {
            self.enter(
                ClientStateView::Connecting(PurposeView::Chat(prompt)),
                ClientActionView::Connect,
            )
        }
    }

    /// How it goes on when the swarm could not be found.
    pub open spec fn lost(self, purpose: PurposeView) -> (ClientView, ClientActionView) {
        match purpose {
            PurposeView::First => self.begin_work(),
            PurposeView::Single => self.enter(ClientStateView::Failed, ClientActionView::Fail),
            PurposeView::Chat(_) => self.enter(ClientStateView::Reading, ClientActionView::ReadLine),
        }
    }

    /// What `e` leads to.
    pub open spec fn next(self, e: ClientEventView) -> (ClientView, ClientActionView) {
        match (self.state, e) {
            (ClientStateView::Connecting(purpose), ClientEventView::Connected) => self.enter(
                ClientStateView::Asking(purpose),
                ClientActionView::Send(discovery_request()),
            ),
            (ClientStateView::Connecting(purpose), _) => self.lost(purpose),
            (ClientStateView::Asking(purpose), ClientEventView::Sent) => self.enter(
                ClientStateView::Discovering(purpose),
                ClientActionView::Receive,
            ),
            (ClientStateView::Discovering(purpose), ClientEventView::Received(_)) => self.found(
                purpose,
            ),
            (ClientStateView::Asking(purpose), _) | (ClientStateView::Discovering(purpose), _) =>
            if purpose == PurposeView::Single {
                self.lost(purpose)
            } else {
                self.found(purpose)
            },
            (ClientStateView::Turning, ClientEventView::TurnDone) => if self.single_prompt is Some {
                self.enter(ClientStateView::Finished, ClientActionView::Finish)
            } else {
                self.enter(ClientStateView::Reading, ClientActionView::ReadLine)
            },
            (ClientStateView::Turning, _) => if self.single_prompt is Some {
                self.enter(ClientStateView::Failed, ClientActionView::Fail)
            } else {
                (ClientView { has_connection: false, ..self }).enter(
                    ClientStateView::Reading,
                    ClientActionView::ReadLine,
                )
            },
            (ClientStateView::Reading, ClientEventView::Line(line)) => self.read(line),
            _ => self.enter(ClientStateView::Finished, ClientActionView::Finish),
        }
    }

    /// What the status of the swarm becomes when `e` happens.
    pub open spec fn next_status(self, e: ClientEventView, status: StatusView) -> StatusView {
        match (self.state, e) {
            (ClientStateView::Discovering(_), ClientEventView::Received(reply)) => status.online(
                listed_nodes(reply),
            ),
            (ClientStateView::Asking(purpose), ClientEventView::SendFailed)
            | (ClientStateView::Discovering(purpose), ClientEventView::ReceiveFailed) =>
            if purpose == PurposeView::Single {
                status
            } else {
                status.online(Seq::empty())
            },
            (ClientStateView::Turning, ClientEventView::TurnFailed) =>
            if self.single_prompt is None {
                status.offline()
            } else {
                status
            },
            _ => status,
        }
    }
}

fn no_nodes() -> (nodes: Vec<NodeDiscoveryInfo>)
    ensures
        node_views(nodes@) == Seq::<NodeView>::empty(),
{
    let nodes: Vec<NodeDiscoveryInfo> = Vec::new();
    assert(node_views(nodes@) =~= Seq::<NodeView>::empty());
    nodes
}

impl Session {
    spec fn is_of(self, v: ClientView) -> bool {
        &&& v.has_connection == self.has_connection
        &&& v.single_prompt == match self.single_prompt {
            Some(prompt) => Some(prompt@),
            None => None,
        }
    }

    fn enter(
        self,
        state: ClientState,
        action: ClientAction,
        Ghost(v): Ghost<ClientView>,
    ) -> (r: (Client, ClientAction))
        requires
            self.is_of(v),
        ensures
            (r.0@, r.1@) == v.enter(state@, action@),
    {
        (Client { session: self, state }, action)
    }

    fn begin_work(self, Ghost(v): Ghost<ClientView>) -> (r: (Client, ClientAction))
        requires
            self.is_of(v),
        ensures
            (r.0@, r.1@) == v.begin_work(),
    {
        match &self.single_prompt {
            Some(prompt) => {
                if self.has_connection {
                    let prompt = prompt.clone();
                    self.enter(ClientState::Turning, ClientAction::RunTurn(prompt), Ghost(v))
                } else {
                    self.enter(
                        ClientState::Connecting(Purpose::Single),
                        ClientAction::Connect,
                        Ghost(v),
                    )
                }
            },
            None => self.enter(ClientState::Reading, ClientAction::ReadLine, Ghost(v)),
        }
    }

    fn found(self, purpose: Purpose, Ghost(v): Ghost<ClientView>) -> (r: (Client, ClientAction))
        requires
            self.is_of(v),
        ensures
            (r.0@, r.1@) == v.found(purpose@),
    {
        let session = Session { single_prompt: self.single_prompt, has_connection: true };
        let ghost v = ClientView { has_connection: true, ..v };
        match purpose {
            Purpose::Chat(line) => session.enter(
                ClientState::Turning,
                ClientAction::RunTurn(line),
                Ghost(v),
            ),
            _ => session.begin_work(Ghost(v)),
        }
    }

    fn lost(self, purpose: Purpose, Ghost(v): Ghost<ClientView>) -> (r: (Client, ClientAction))
        requires
            self.is_of(v),
        ensures
            (r.0@, r.1@) == v.lost(purpose@),
    {
        match purpose {
            Purpose::First => self.begin_work(Ghost(v)),
            Purpose::Single => self.enter(ClientState::Failed, ClientAction::Fail, Ghost(v)),
            Purpose::Chat(_) => self.enter(ClientState::Reading, ClientAction::ReadLine, Ghost(v)),
        }
    }

    fn read(self, line: &str, Ghost(v): Ghost<ClientView>) -> (r: (Client, ClientAction))
        requires
            self.is_of(v),
        ensures
            (r.0@, r.1@) == v.read(line@),
    {
        let prompt: String = trim(line).to_owned();
        proof {
            reveal_strlit("");
            assert(prompt@.len() == 0 <==> prompt@ =~= ""@);
        }
        if prompt == "".to_owned() {
            self.enter(ClientState::Reading, ClientAction::ReadLine, Ghost(v))
        } else if prompt == "/exit".to_owned() || prompt == "/quit".to_owned() {
            self.enter(ClientState::Finished, ClientAction::Finish, Ghost(v))
        } else if self.has_connection {
            self.enter(ClientState::Turning, ClientAction::RunTurn(prompt), Ghost(v))
        } else {
            self.enter(
                ClientState::Connecting(Purpose::Chat(prompt)),
                ClientAction::Connect,
                Ghost(v),
            )
        }
    }
}

impl Client {
    /// How a client starts: by looking for the swarm.
    pub fn start(single_prompt: Option<String>) -> (r: (Client, ClientAction))
        ensures
            r.0@ == (ClientView {
                single_prompt: match single_prompt {
                    Some(prompt) => Some(prompt@),
                    None => None,
                },
                has_connection: false,
                state: ClientStateView::Connecting(PurposeView::First),
            }),
            r.1@ == ClientActionView::Connect,
            r.0@.wf(),
    {
        (
            Client {
                session: Session { single_prompt, has_connection: false },
                state: ClientState::Connecting(Purpose::First),
            },
            ClientAction::Connect,
        )
    }

    /// Whether turns can be run.
    pub fn has_connection(&self) -> (r: bool)
        ensures
            r == self@.has_connection,
    {
        self.session.has_connection
    }

    /// Reacts to what happened: the client afterwards, and what is to be done next. The status is
    /// brought up to date.
    pub fn step(self, event: ClientEvent, status: &mut SwarmStatus) -> (r: (Client, ClientAction))
        requires
            self@.wf(),
            self@.expects(event@),
        ensures
            (r.0@, r.1@) == self@.next(event@),
            r.0@.wf(),
            final(status)@ == self@.next_status(event@, old(status)@),
            old(status)@.wf() ==> final(status)@.wf(),
    {
        let ghost v = self@;
        let Client { session, state } = self;
        let single: bool = match &session.single_prompt {
            Some(_) => true,
            None => false,
        };
        match (state, event) {
            (ClientState::Connecting(purpose), ClientEvent::Connected) => {
                let nodes: Vec<NodeDiscoveryInfo> = no_nodes();
                session.enter(
                    ClientState::Asking(purpose),
                    ClientAction::Send(CaravanMessage::DiscoveryRequest(nodes)),
                    Ghost(v),
                )
            },
            (ClientState::Connecting(purpose), _) => session.lost(purpose, Ghost(v)),
            (ClientState::Asking(purpose), ClientEvent::Sent) => {
                session.enter(ClientState::Discovering(purpose), ClientAction::Receive, Ghost(v))
            },
            (ClientState::Discovering(purpose), ClientEvent::Received(reply)) => {
                match reply {
                    CaravanMessage::DiscoveryResponse(nodes) => status.go_online(nodes),
                    _ => status.go_online(no_nodes()),
                }
                session.found(purpose, Ghost(v))
            },
            (ClientState::Asking(purpose), _) | (ClientState::Discovering(purpose), _) => {
                match purpose {
                    Purpose::Single => session.lost(purpose, Ghost(v)),
                    _ => {
                        status.go_online(no_nodes());
                        session.found(purpose, Ghost(v))
                    },
                }
            },
            (ClientState::Turning, ClientEvent::TurnDone) => {
                if single {
                    session.enter(ClientState::Finished, ClientAction::Finish, Ghost(v))
                } else {
                    session.enter(ClientState::Reading, ClientAction::ReadLine, Ghost(v))
                }
            },
            (ClientState::Turning, _) => {
                if single {
                    session.enter(ClientState::Failed, ClientAction::Fail, Ghost(v))
                } else {
                    status.go_offline();
                    let session = Session {
                        single_prompt: session.single_prompt,
                        has_connection: false,
                    };
                    session.enter(
                        ClientState::Reading,
                        ClientAction::ReadLine,
                        Ghost(ClientView { has_connection: false, ..v }),
                    )
                }
            },
            (ClientState::Reading, ClientEvent::Line(line)) => session.read(
                line.as_str(),
                Ghost(v),
            ),
            _ => session.enter(ClientState::Finished, ClientAction::Finish, Ghost(v)),
        }
    }
}

/// A client that reads lines never ends with an error: whatever goes wrong, it reads on.
pub proof fn lemma_chat_never_fails(v: ClientView, e: ClientEventView)
    requires
        v.wf(),
        v.expects(e),
        v.single_prompt is None,
    ensures
        v.next(e).0.single_prompt is None,
        v.next(e).0.state != ClientStateView::Failed,
        v.next(e).1 != ClientActionView::Fail,
{
}

/// A turn is only ever run on a connection, and only on a prompt that was asked for: the one
/// prompt, the line just read, or the line for which the connection was made.
pub proof fn lemma_turns_run_on_connection(v: ClientView, e: ClientEventView)
    requires
        v.wf(),
        v.expects(e),
    ensures
        v.next(e).0.state == ClientStateView::Turning <==> v.next(e).1 is RunTurn,
        v.next(e).1 matches ClientActionView::RunTurn(prompt) ==> {
            &&& v.next(e).0.has_connection
            &&& match v.single_prompt {
                Some(single) => prompt == single,
                None => (e matches ClientEventView::Line(line) && prompt == trimmed(line)) || v.state
                    == ClientStateView::Asking(PurposeView::Chat(prompt)) || v.state
                    == ClientStateView::Discovering(PurposeView::Chat(prompt)),
            }
        },
{
}

/// A line that is read while the swarm is away is not lost: if a connection can be made, its
/// prompt is run, whatever the nodes answer when they are asked what they are.
pub proof fn lemma_line_survives_reconnect(v: ClientView, line: Seq<char>, reply: MessageView)
    requires
        v.wf(),
        v.state == ClientStateView::Reading,
        !v.has_connection,
        trimmed(line).len() > 0,
        !is_farewell(trimmed(line)),
    ensures
        ({
            let (v1, a1) = v.next(ClientEventView::Line(line));
            let (v2, a2) = v1.next(ClientEventView::Connected);
            let (v3, a3) = v2.next(ClientEventView::Sent);
            let (v4, a4) = v3.next(ClientEventView::Received(reply));
            &&& a1 == ClientActionView::Connect
            &&& a2 == ClientActionView::Send(discovery_request())
            &&& a3 == ClientActionView::Receive
            &&& a4 == ClientActionView::RunTurn(trimmed(line))
        }),
{
}

/// After a turn has gone wrong the swarm counts as lost, and the next line makes a new connection.
pub proof fn lemma_failed_turn_reconnects(v: ClientView, line: Seq<char>, status: StatusView)
    requires
        v.wf(),
        v.state == ClientStateView::Turning,
        v.single_prompt is None,
        trimmed(line).len() > 0,
        !is_farewell(trimmed(line)),
    ensures
        v.next_status(ClientEventView::TurnFailed, status) == status.offline(),
        v.next(ClientEventView::TurnFailed).1 == ClientActionView::ReadLine,
        v.next(ClientEventView::TurnFailed).0.next(ClientEventView::Line(line)).1
            == ClientActionView::Connect,
{
}

/// A client that asked the nodes what they are shows exactly the nodes that the answer lists: as
/// many, each as it says of itself, in pipeline order. With any other answer the swarm is there, but
/// no nodes are known.
pub proof fn lemma_status_shows_discovered_nodes(
    v: ClientView,
    nodes: Seq<NodeView>,
    other: MessageView,
    status: StatusView,
)
    requires
        v.state is Discovering,
        !(other is DiscoveryResponse),
    ensures
        ({
            let answer = MessageView::DiscoveryResponse(nodes);
            let shown = v.next_status(ClientEventView::Received(answer), status);
            let blank = v.next_status(ClientEventView::Received(other), status);
            &&& shown.connected
            &&& shown.nodes.len() == nodes.len()
            &&& forall|i: int| 0 <= i < nodes.len() ==> #[trigger] shown.nodes[i] == nodes[i]
            &&& shown.model_name == status.model_name
            &&& shown.ttft_ms == status.ttft_ms
            &&& shown.latency_report == status.latency_report
            &&& blank.connected
            &&& blank.nodes.len() == 0
            &&& blank.model_name == status.model_name
            &&& blank.ttft_ms == status.ttft_ms
            &&& blank.latency_report == status.latency_report
        }),
{
}

/// A client changes what it shows of the swarm only where it learns something: when the nodes have
/// answered, when a connection was made on which they did not, or when a turn on a line has gone
/// wrong. A connection that fails, a line, and a turn that goes well change nothing.
pub proof fn lemma_status_changes_only_on_news(
    v: ClientView,
    e: ClientEventView,
    status: StatusView,
)
    requires
        v.wf(),
        v.expects(e),
    ensures
        v.next_status(e, status) != status ==> {
            ||| v.state is Discovering
            ||| v.state is Asking && e is SendFailed
            ||| v.state is Turning && e is TurnFailed && v.single_prompt is None
        },
        v.state is Turning && e is TurnFailed && v.single_prompt is None ==> {
            &&& !v.next_status(e, status).connected
            &&& v.next_status(e, status).nodes.len() == 0
        },
{
}

/// A connection on which the nodes do not say what they are is used all the same, and shown without
/// nodes, unless it was made anew for the one prompt: that prompt fails.
pub proof fn lemma_silent_swarm_is_used(v: ClientView, purpose: PurposeView, status: StatusView)
    requires
        v.wf(),
        v.serves(purpose),
    ensures
        ({
            let asking = ClientView { state: ClientStateView::Asking(purpose), ..v };
            let waiting = ClientView { state: ClientStateView::Discovering(purpose), ..v };
            let unsent = asking.next(ClientEventView::SendFailed);
            let unanswered = waiting.next(ClientEventView::ReceiveFailed);
            let a = asking.next_status(ClientEventView::SendFailed, status);
            let b = waiting.next_status(ClientEventView::ReceiveFailed, status);
            &&& unsent == unanswered
            &&& a == b
            &&& purpose == PurposeView::Single ==> {
                &&& unsent.1 == ClientActionView::Fail
                &&& unsent.0.state == ClientStateView::Failed
                &&& a == status
            }
            &&& purpose != PurposeView::Single ==> {
                &&& unsent.0.has_connection
                &&& a.connected
                &&& a.nodes.len() == 0
            }
            &&& purpose matches PurposeView::Chat(line) ==> unsent.1 == ClientActionView::RunTurn(
                line,
            )
        }),
{
}

/// The one prompt is run on the first connection that can be made, or else on a second one, as it
/// was given; then the client ends, well or with an error as the turn did. Where the second
/// connection fails as well, so does the client.
pub proof fn lemma_single_prompt_is_run(prompt: Seq<char>, answer: MessageView)
    ensures
        ({
            let v = ClientView {
                single_prompt: Some(prompt),
                has_connection: false,
                state: ClientStateView::Connecting(PurposeView::First),
            };
            let v1 = v.next(ClientEventView::Connected).0;
            let v2 = v1.next(ClientEventView::Sent).0;
            let (v3, a3) = v2.next(ClientEventView::Received(answer));
            let (w, b) = v.next(ClientEventView::ConnectFailed);
            let w1 = w.next(ClientEventView::Connected).0;
            let w2 = w1.next(ClientEventView::Sent).0;
            let (w3, b3) = w2.next(ClientEventView::Received(answer));
            &&& a3 == ClientActionView::RunTurn(prompt)
            &&& b == ClientActionView::Connect
            &&& b3 == ClientActionView::RunTurn(prompt)
            &&& v3 == w3
            &&& w.next(ClientEventView::ConnectFailed).1 == ClientActionView::Fail
            &&& v3.next(ClientEventView::TurnDone).1 == ClientActionView::Finish
            &&& v3.next(ClientEventView::TurnFailed).1 == ClientActionView::Fail
        }),
{
}

/// What a client that reads lines does with one: a line of white space is passed over, `/exit` and
/// `/quit` end the conversation, white space around them or not, and any other line is run without
/// the white space around it, at once where there is a connection.
pub proof fn lemma_line_is_run(v: ClientView, line: Seq<char>)
    requires
        v.wf(),
        v.state == ClientStateView::Reading,
    ensures
        ({
            let (next, action) = v.next(ClientEventView::Line(line));
            let prompt = trimmed(line);
            if forall|i: int| 0 <= i < line.len() ==> is_white(#[trigger] line[i]) {
                action == ClientActionView::ReadLine && next == v
            } else if prompt == seq!['/', 'e', 'x', 'i', 't'] || prompt == seq![
                '/',
                'q',
                'u',
                'i',
                't',
            ] {
                action == ClientActionView::Finish && next.state == ClientStateView::Finished
            } else if v.has_connection {
                action == ClientActionView::RunTurn(prompt)
            } else {
                &&& action == ClientActionView::Connect
                &&& next.state == ClientStateView::Connecting(PurposeView::Chat(prompt))
            }
        }),
{
    reveal_strlit("/exit");
    reveal_strlit("/quit");
    lemma_trimmed(line);
    assert("/exit"@ =~= seq!['/', 'e', 'x', 'i', 't']);
    assert("/quit"@ =~= seq!['/', 'q', 'u', 'i', 't']);
    let (a, b) = choose|a: int, b: int| #[trigger] is_core(line, a, b) && trimmed(line) == line.subrange(a, b);
    if trimmed(line).len() > 0 {
        assert(!is_white(line[a]));
    } else {
        assert forall|i: int| 0 <= i < line.len() implies is_white(#[trigger] line[i]) by {}
    }
}

/// A client that reads lines reads on after a turn, whether the turn went well or not, and after a
/// connection that could not be made for a line; it keeps its connection exactly where the turn
/// went well. It ends when the input does.
pub proof fn lemma_client_reads_on(v: ClientView, line: Seq<char>)
    requires
        v.wf(),
        v.single_prompt is None,
    ensures
        v.state is Turning ==> {
            let (well, a) = v.next(ClientEventView::TurnDone);
            let (badly, b) = v.next(ClientEventView::TurnFailed);
            &&& a == ClientActionView::ReadLine
            &&& b == ClientActionView::ReadLine
            &&& well == (ClientView { state: ClientStateView::Reading, ..v })
            &&& badly == (ClientView {
                state: ClientStateView::Reading,
                has_connection: false,
                ..v
            })
        },
        v.state == ClientStateView::Connecting(PurposeView::Chat(line)) ==> v.next(
            ClientEventView::ConnectFailed,
        ) == (ClientView { state: ClientStateView::Reading, ..v }, ClientActionView::ReadLine),
        v.state == ClientStateView::Connecting(PurposeView::First) ==> v.next(
            ClientEventView::ConnectFailed,
        ) == (ClientView { state: ClientStateView::Reading, ..v }, ClientActionView::ReadLine),
        v.state is Reading ==> {
            &&& v.next(ClientEventView::InputEnded).1 == ClientActionView::Finish
            &&& v.next(ClientEventView::InputFailed).1 == ClientActionView::Finish
        },
{
}

/// On every connection that it makes, whatever for, a client first asks the nodes what they are, and
/// waits for their answer.
pub proof fn lemma_client_asks_first(v: ClientView, purpose: PurposeView)
    ensures
        v.state == ClientStateView::Connecting(purpose) ==> v.next(ClientEventView::Connected) == (
            ClientView { state: ClientStateView::Asking(purpose), ..v },
            ClientActionView::Send(MessageView::DiscoveryRequest(Seq::empty())),
        ),
        v.state == ClientStateView::Asking(purpose) ==> v.next(ClientEventView::Sent) == (
            ClientView { state: ClientStateView::Discovering(purpose), ..v },
            ClientActionView::Receive,
        ),
{
}

/// A client that reads lines starts to read them once its first attempt to find the swarm is over;
/// where the nodes have answered, in whatever way, it has a connection.
pub proof fn lemma_client_starts_reading(v: ClientView, answer: MessageView)
    requires
        v.wf(),
        v.single_prompt is None,
        v.state == ClientStateView::Discovering(PurposeView::First),
    ensures
        v.next(ClientEventView::Received(answer)) == (
            ClientView { state: ClientStateView::Reading, has_connection: true, ..v },
            ClientActionView::ReadLine,
        ),
        v.next(ClientEventView::ReceiveFailed) == v.next(ClientEventView::Received(answer)),
{
}

} // verus!
