//! A chat over the console of a client: one turn on a connection of its own, told as a stream of
//! events.
//!
//! The chat is a machine that is told what happened and says what is to be done next. Whatever goes
//! wrong is told as an event, and every stream ends with the same last event.

use crate::client::discovery_request;
use crate::http::{event, event_line, event_text, lemma_event_carries_text};
use crate::network::{CaravanMessage, MessageView, NodeDiscoveryInfo, NodeView, node_views};
use crate::status::{StatusView, SwarmStatus};
use crate::turn::{Turn, TurnAction, TurnActionView, TurnPhase, TurnView, lemma_advanced, lemma_answer_ends_in_time, lemma_replied, lemma_start, new_bytes, played, turn_messages};
use vstd::prelude::*;
use vstd::string::StringSliceAdditionalSpecFns;
use vstd::utf8::{decode_utf8, encode_utf8, encode_utf8_decode_utf8, is_char_boundary};

verus! {

/// How many tokens an answer over the console has at most.
pub const CHAT_MAX_TOKENS: usize = 128;

/// What a chat is waiting for.
#[derive(Debug)]
pub enum ChatState {
    /// For a connection, with the first message of the turn at hand.
    Connecting(CaravanMessage),
    /// For the nodes to have been asked what they are.
    Asking(CaravanMessage),
    /// For the nodes to answer.
    Discovering(CaravanMessage),
    /// For a message of the turn to have been sent.
    Sending,
    /// For the swarm to answer.
    Awaiting,
    /// For the text of the answer to have been shown.
    Showing,
    /// For nothing.
    Ended,
}

/// A [`ChatState`] as mathematical values.
#[verifier::ext_equal]
pub enum ChatStateView {
    Connecting(MessageView),
    Asking(MessageView),
    Discovering(MessageView),
    Sending,
    Awaiting,
    Showing,
    Ended,
}

impl View for ChatState {
    type V = ChatStateView;

    open spec fn view(&self) -> ChatStateView {
        match self {
            ChatState::Connecting(msg) => ChatStateView::Connecting(msg@),
            ChatState::Asking(msg) => ChatStateView::Asking(msg@),
            ChatState::Discovering(msg) => ChatStateView::Discovering(msg@),
            ChatState::Sending => ChatStateView::Sending,
            ChatState::Awaiting => ChatStateView::Awaiting,
            ChatState::Showing => ChatStateView::Showing,
            ChatState::Ended => ChatStateView::Ended,
        }
    }
}

/// What happened; what went wrong comes with words for it.
#[derive(Debug)]
pub enum ChatEvent {
    Connected,
    ConnectFailed(String),
    Sent,
    SendFailed(String),
    Received(CaravanMessage),
    ReceiveFailed(String),
    Shown,
}

/// A [`ChatEvent`] as mathematical values.
#[verifier::ext_equal]
pub enum ChatEventView {
    Connected,
    ConnectFailed(Seq<char>),
    Sent,
    SendFailed(Seq<char>),
    Received(MessageView),
    ReceiveFailed(Seq<char>),
    Shown,
}

impl View for ChatEvent {
    type V = ChatEventView;

    open spec fn view(&self) -> ChatEventView {
        match self {
            ChatEvent::Connected => ChatEventView::Connected,
            ChatEvent::ConnectFailed(e) => ChatEventView::ConnectFailed(e@),
            ChatEvent::Sent => ChatEventView::Sent,
            ChatEvent::SendFailed(e) => ChatEventView::SendFailed(e@),
            ChatEvent::Received(msg) => ChatEventView::Received(msg@),
            ChatEvent::ReceiveFailed(e) => ChatEventView::ReceiveFailed(e@),
            ChatEvent::Shown => ChatEventView::Shown,
        }
    }
}

/// What is to be done next.
#[derive(Debug)]
pub enum ChatAction {
    /// Connect to the first node.
    Connect,
    /// Send this message to it.
    Send(CaravanMessage),
    /// Receive a message from it.
    Receive,
    /// Show the text of the answer so far; `first` tells whether it is the first token.
    Show { first: bool },
    /// Write this and end.
    End(String),
}

/// A [`ChatAction`] as mathematical values.
#[verifier::ext_equal]
pub enum ChatActionView {
    Connect,
    Send(MessageView),
    Receive,
    Show { first: bool },
    End(Seq<char>),
}

impl View for ChatAction {
    type V = ChatActionView;

    open spec fn view(&self) -> ChatActionView {
        match self {
            ChatAction::Connect => ChatActionView::Connect,
            ChatAction::Send(msg) => ChatActionView::Send(msg@),
            ChatAction::Receive => ChatActionView::Receive,
            ChatAction::Show { first } => ChatActionView::Show { first: *first },
            ChatAction::End(text) => ChatActionView::End(text@),
        }
    }
}

/// The event with which every chat ends.
pub open spec fn done() -> Seq<char> {
    event("[DONE]"@)
}

/// How a chat ends on which something went wrong: it tells `what`, and `detail` behind it.
pub open spec fn failure(what: Seq<char>, detail: Seq<char>) -> Seq<char> {
    event("[ERROR: "@ + what + detail + "]"@) + done()
}

/// What is told when a message of the turn could not be sent.
pub open spec fn send_failure(phase: TurnPhase) -> Seq<char> {
    match phase {
        TurnPhase::Prefill => "Prefill send failed: "@,
        TurnPhase::FirstToken => "Prefill final send failed: "@,
        _ => "Decode send failed: "@,
    }
}

/// What is told when the swarm does not answer.
pub open spec fn receive_failure(phase: TurnPhase) -> Seq<char> {
    match phase {
        TurnPhase::Prefill => "Prefill response failed: "@,
        TurnPhase::FirstToken => "Prefill final response failed: "@,
        _ => "Decode response failed: "@,
    }
}

/// What is told when the swarm gives something other than a token.
pub open spec fn unexpected_reply(phase: TurnPhase) -> Seq<char> {
    match phase {
        TurnPhase::FirstToken => "Unexpected prefill response type"@,
        _ => "Unexpected decode response type"@,
    }
}

/// A chat.
#[derive(Debug)]
pub struct Chat {
    turn: Turn,
    state: ChatState,
}

/// A [`Chat`] as mathematical values.
#[verifier::ext_equal]
pub struct ChatView {
    pub turn: TurnView,
    pub state: ChatStateView,
}

impl View for Chat {
    type V = ChatView;

    closed spec fn view(&self) -> ChatView {
        ChatView { turn: self.turn@, state: self.state@ }
    }
}

impl ChatView {
    /// What always holds: the turn waits for what the chat waits for, and its positions fit.
    pub open spec fn wf(self) -> bool {
        &&& self.turn.wf()
        &&& self.turn.max_tokens == CHAT_MAX_TOKENS
        &&& self.turn.prompt.len() + CHAT_MAX_TOKENS <= usize::MAX
        &&& match self.state {
            ChatStateView::Ended => true,
            ChatStateView::Showing => self.turn.phase == TurnPhase::Showing,
            _ => self.turn.awaits_reply(),
        }
    }

    /// Whether the chat can be told `e`.
    pub open spec fn expects(self, e: ChatEventView) -> bool {
        match self.state {
            ChatStateView::Connecting(_) => e is Connected || e is ConnectFailed,
            ChatStateView::Asking(_) | ChatStateView::Sending => e is Sent || e is SendFailed,
            ChatStateView::Discovering(_) | ChatStateView::Awaiting => e is Received
                || e is ReceiveFailed,
            ChatStateView::Showing => e is Shown,
            ChatStateView::Ended => false,
        }
    }

    /// The chat in `state`, with `action` to be done.
    pub open spec fn enter(
        self,
        state: ChatStateView,
        action: ChatActionView,
    ) -> (ChatView, ChatActionView) {
        (ChatView { state, ..self }, action)
    }

    /// How it goes on when something went wrong.
    pub open spec fn fail(self, what: Seq<char>, detail: Seq<char>) -> (ChatView, ChatActionView) {
        self.enter(ChatStateView::Ended, ChatActionView::End(failure(what, detail)))
    }

    /// How the chat follows its turn.
    pub open spec fn follow(self, turn: TurnView, action: TurnActionView) -> (
        ChatView,
        ChatActionView,
    ) {
        let v = ChatView { turn, ..self };
        match action {
            TurnActionView::Send(msg) => v.enter(ChatStateView::Sending, ChatActionView::Send(msg)),
            TurnActionView::Show => v.enter(
                ChatStateView::Showing,
                ChatActionView::Show { first: self.turn.phase == TurnPhase::FirstToken },
            ),
            TurnActionView::Done => v.enter(ChatStateView::Ended, ChatActionView::End(done())),
            TurnActionView::Fail(_) => v.fail(unexpected_reply(self.turn.phase), Seq::empty()),
        }
    }

    /// What `e` leads to.
    pub open spec fn next(self, e: ChatEventView) -> (ChatView, ChatActionView) {
        match (self.state, e) {
            (ChatStateView::Connecting(msg), ChatEventView::Connected) => self.enter(
                ChatStateView::Asking(msg),
                ChatActionView::Send(discovery_request()),
            ),
            (ChatStateView::Connecting(_), ChatEventView::ConnectFailed(detail)) => self.fail(
                "Failed to connect to swarm backend: "@,
                detail,
            ),
            (ChatStateView::Asking(msg), ChatEventView::Sent) => self.enter(
                ChatStateView::Discovering(msg),
                ChatActionView::Receive,
            ),
            (ChatStateView::Asking(_), ChatEventView::SendFailed(detail)) => self.fail(
                "Failed to write handshake: "@,
                detail,
            ),
            (ChatStateView::Discovering(msg), ChatEventView::Received(_)) => self.enter(
                ChatStateView::Sending,
                ChatActionView::Send(msg),
            ),
            (ChatStateView::Discovering(_), ChatEventView::ReceiveFailed(detail)) => self.fail(
                "Failed to read handshake response: "@,
                detail,
            ),
            (ChatStateView::Sending, ChatEventView::Sent) => self.enter(
                ChatStateView::Awaiting,
                ChatActionView::Receive,
            ),
            (ChatStateView::Sending, ChatEventView::SendFailed(detail)) => self.fail(
                send_failure(self.turn.phase),
                detail,
            ),
            (ChatStateView::Awaiting, ChatEventView::Received(reply)) => {
                let (turn, action) = self.turn.replied(reply);
                self.follow(turn, action)
            },
            (ChatStateView::Awaiting, ChatEventView::ReceiveFailed(detail)) => self.fail(
                receive_failure(self.turn.phase),
                detail,
            ),
            (ChatStateView::Showing, _) => {
                let (turn, action) = self.turn.advanced();
                self.follow(turn, action)
            },
            _ => self.enter(ChatStateView::Ended, ChatActionView::End(done())),
        }
    }

    /// What the status of the swarm becomes when `e` happens. Trouble before the turn means that
    /// the swarm is lost; an answer that lists nodes means that it is there.
    pub open spec fn next_status(self, e: ChatEventView, status: StatusView) -> StatusView {
        match (self.state, e) {
            (
                ChatStateView::Discovering(_),
                ChatEventView::Received(MessageView::DiscoveryResponse(nodes)),
            ) => status.online(nodes),
            (ChatStateView::Connecting(_), ChatEventView::ConnectFailed(_))
            | (ChatStateView::Asking(_), ChatEventView::SendFailed(_))
            | (ChatStateView::Discovering(_), ChatEventView::ReceiveFailed(_)) => status.offline(),
            _ => status,
        }
    }
}

fn done_event() -> (r: String)
    ensures
        r@ == done(),
{
    event_line("[DONE]")
}

fn failure_text(what: &str, detail: &str) -> (r: String)
    ensures
        r@ == failure(what@, detail@),
{
    let mut told = "[ERROR: ".to_owned();
    told.append(what);
    told.append(detail);
    told.append("]");
    let mut text: String = event_line(told.as_str());
    text.append(done_event().as_str());
    text
}

fn send_failure_text(phase: TurnPhase) -> (r: &'static str)
    ensures
        r@ == send_failure(phase),
{
    match phase {
        TurnPhase::Prefill => "Prefill send failed: ",
        TurnPhase::FirstToken => "Prefill final send failed: ",
        _ => "Decode send failed: ",
    }
}

fn receive_failure_text(phase: TurnPhase) -> (r: &'static str)
    ensures
        r@ == receive_failure(phase),
{
    match phase {
        TurnPhase::Prefill => "Prefill response failed: ",
        TurnPhase::FirstToken => "Prefill final response failed: ",
        _ => "Decode response failed: ",
    }
}

fn unexpected_reply_text(phase: TurnPhase) -> (r: &'static str)
    ensures
        r@ == unexpected_reply(phase),
{
    match phase {
        TurnPhase::FirstToken => "Unexpected prefill response type",
        _ => "Unexpected decode response type",
    }
}

/// A chat with `turn` whose swarm is to be told nothing more.
fn fail(turn: Turn, what: &str, detail: &str) -> (r: (Chat, ChatAction))
    ensures
        r.0@ == (ChatView { turn: turn@, state: ChatStateView::Ended }),
        r.1@ == ChatActionView::End(failure(what@, detail@)),
{
    (Chat { turn, state: ChatState::Ended }, ChatAction::End(failure_text(what, detail)))
}

/// A chat that follows its turn, which was in `before` when it was told.
fn follow(before: TurnPhase, turn: Turn, action: TurnAction, Ghost(v): Ghost<ChatView>) -> (r: (
    Chat,
    ChatAction,
))
    requires
        before == v.turn.phase,
    ensures
        (r.0@, r.1@) == v.follow(turn@, action@),
{
    match action {
        TurnAction::Send(msg) => (Chat { turn, state: ChatState::Sending }, ChatAction::Send(msg)),
        TurnAction::Show => (
            Chat { turn, state: ChatState::Showing },
            ChatAction::Show { first: before == TurnPhase::FirstToken },
        ),
        TurnAction::Done => (Chat { turn, state: ChatState::Ended }, ChatAction::End(done_event())),
        TurnAction::Fail(_) => {
            proof {
                reveal_strlit("");
                assert(""@ =~= Seq::<char>::empty());
            }
            fail(turn, unexpected_reply_text(before), "")
        },
    }
}

impl Chat {
    /// Starts a chat on the tokens of a prompt, by making a connection. Without tokens there is no
    /// chat, only what is to be written instead.
    pub fn start(prompt: Vec<u32>, eos: Option<u32>, eot: Option<u32>) -> (r: Result<
        (Chat, ChatAction),
        String,
    >)
        requires
            prompt@.len() + CHAT_MAX_TOKENS <= usize::MAX,
        ensures
            match r {
                Ok((chat, action)) => {
                    let (turn, first) = TurnView::start(prompt@, CHAT_MAX_TOKENS, eos, eot);
                    &&& prompt@.len() > 0
                    &&& first is Send
                    &&& chat@ == (ChatView {
                        turn,
                        state: ChatStateView::Connecting(first->Send_0),
                    })
                    &&& chat@.wf()
                    &&& action@ == ChatActionView::Connect
                },
                Err(text) => {
                    &&& prompt@.len() == 0
                    &&& text@ == failure("Empty prompt"@, Seq::empty())
                },
            },
    {
        match Turn::begin(prompt, CHAT_MAX_TOKENS, eos, eot) {
            Ok((turn, TurnAction::Send(msg))) => {
                Ok((Chat { turn, state: ChatState::Connecting(msg) }, ChatAction::Connect))
            },
            _ => {
                proof {
                    reveal_strlit("");
                    assert(""@ =~= Seq::<char>::empty());
                }
                Err(failure_text("Empty prompt", ""))
            },
        }
    }

    /// The tokens of the answer so far.
    pub fn generated(&self) -> (tokens: &[u32])
        ensures
            tokens@ == self@.turn.generated,
    {
        self.turn.generated()
    }

    /// How many bytes of the text of the answer have been shown.
    pub fn printed(&self) -> (printed: usize)
        ensures
            printed == self@.turn.printed,
    {
        self.turn.printed()
    }

    /// The event that shows the part of the text of the answer which has not been shown yet, if
    /// there is any. It counts as shown from then on.
    pub fn show(&mut self, full: &str) -> (r: Option<String>)
        requires
            full.spec_bytes().len() > old(self)@.turn.printed ==> is_char_boundary(
                full.spec_bytes(),
                old(self)@.turn.printed as int,
            ),
        ensures
            match r {
                Some(line) => {
                    &&& full.spec_bytes().len() > old(self)@.turn.printed
                    &&& line@ == event(
                        decode_utf8(
                            new_bytes(full.spec_bytes(), old(self)@.turn.printed as nat),
                        ),
                    )
                    &&& encode_utf8(event_text(line@)) == full.spec_bytes().skip(
                        old(self)@.turn.printed as int,
                    )
                    &&& final(self)@.turn.printed == full.spec_bytes().len()
                },
                None => {
                    &&& full.spec_bytes().len() <= old(self)@.turn.printed
                    &&& final(self)@.turn.printed == old(self)@.turn.printed
                },
            },
            final(self)@ == (ChatView {
                turn: TurnView { printed: final(self)@.turn.printed, ..old(self)@.turn },
                ..old(self)@
            }),
            old(self)@.wf() ==> final(self)@.wf(),
    {
        match self.turn.take_new_text(full) {
            Some(text) => {
                proof {
                    encode_utf8_decode_utf8(text@);
                    lemma_event_carries_text(text@);
                }
                Some(event_line(text))
            },
            None => None,
        }
    }

    /// Reacts to what happened: the chat afterwards, and what is to be done next. The status is
    /// brought up to date.
    pub fn step(self, event: ChatEvent, status: &mut SwarmStatus) -> (r: (Chat, ChatAction))
        requires
            self@.wf(),
            self@.expects(event@),
        ensures
            (r.0@, r.1@) == self@.next(event@),
            r.0@.wf(),
            final(status)@ == self@.next_status(event@, old(status)@),
            old(status)@.wf() ==> final(status)@.wf(),
    {
        let ghost v = self@;
        proof {
            lemma_answer_ends_in_time(v.turn, 0);
            lemma_next_is_wf(v, event@);
        }
        let Chat { turn, state } = self;
        let phase: TurnPhase = turn.phase();
        match (state, event) {
            (ChatState::Connecting(msg), ChatEvent::Connected) => {
                let nodes: Vec<NodeDiscoveryInfo> = Vec::new();
                assert(node_views(nodes@) =~= Seq::<NodeView>::empty());
                (
                    Chat { turn, state: ChatState::Asking(msg) },
                    ChatAction::Send(CaravanMessage::DiscoveryRequest(nodes)),
                )
            },
            (ChatState::Connecting(_), ChatEvent::ConnectFailed(detail)) => {
                status.go_offline();
                fail(turn, "Failed to connect to swarm backend: ", detail.as_str())
            },
            (ChatState::Asking(msg), ChatEvent::Sent) => {
                (Chat { turn, state: ChatState::Discovering(msg) }, ChatAction::Receive)
            },
            (ChatState::Asking(_), ChatEvent::SendFailed(detail)) => {
                status.go_offline();
                fail(turn, "Failed to write handshake: ", detail.as_str())
            },
            (ChatState::Discovering(msg), ChatEvent::Received(reply)) => {
                if let CaravanMessage::DiscoveryResponse(nodes) = reply {
                    status.go_online(nodes);
                }
                (Chat { turn, state: ChatState::Sending }, ChatAction::Send(msg))
            },
            (ChatState::Discovering(_), ChatEvent::ReceiveFailed(detail)) => {
                status.go_offline();
                fail(turn, "Failed to read handshake response: ", detail.as_str())
            },
            (ChatState::Sending, ChatEvent::Sent) => {
                (Chat { turn, state: ChatState::Awaiting }, ChatAction::Receive)
            },
            (ChatState::Sending, ChatEvent::SendFailed(detail)) => {
                fail(turn, send_failure_text(phase), detail.as_str())
            },
            (ChatState::Awaiting, ChatEvent::Received(reply)) => {
                let mut turn = turn;
                let action = turn.on_reply(&reply);
                follow(phase, turn, action, Ghost(v))
            },
            (ChatState::Awaiting, ChatEvent::ReceiveFailed(detail)) => {
                fail(turn, receive_failure_text(phase), detail.as_str())
            },
            (ChatState::Showing, _) => {
                let mut turn = turn;
                let action = turn.advance();
                follow(phase, turn, action, Ghost(v))
            },
            _ => (Chat { turn, state: ChatState::Ended }, ChatAction::End(done_event())),
        }
    }
}

/// Whatever happens, a chat that ends has told so with the same last event.
pub proof fn lemma_chat_tells_its_end(v: ChatView, e: ChatEventView)
    requires
        v.wf(),
        v.expects(e),
    ensures
        v.next(e).0.state == ChatStateView::Ended <==> v.next(e).1 is End,
        v.next(e).1 matches ChatActionView::End(text) ==> done().is_suffix_of(text),
{
    if let ChatActionView::End(text) = v.next(e).1 {
        assert(text.subrange(text.len() - done().len(), text.len() as int) =~= done());
    }
}

/// What a chat does when `events` happen one after the other, as far as it can be told them.
pub open spec fn told(v: ChatView, events: Seq<ChatEventView>) -> (ChatView, Seq<ChatActionView>)
    decreases events.len(),
{
    if events.len() == 0 || !v.expects(events.first()) {
        (v, Seq::empty())
    } else {
        let (next, action) = v.next(events.first());
        let (end, actions) = told(next, events.drop_first());
        (end, seq![action] + actions)
    }
}

/// Whatever happens, a chat ends at most once, and with its last action; what it writes then ends
/// with the last event. As long as it has not ended, it has written no end.
pub proof fn lemma_chat_ends_once(v: ChatView, events: Seq<ChatEventView>)
    requires
        v.wf(),
        v.state != ChatStateView::Ended,
    ensures
        ({
            let (end, actions) = told(v, events);
            &&& end.wf()
            &&& forall|i: int|
                0 <= i < actions.len() ==> (#[trigger] actions[i] is End <==> i == actions.len() - 1
                    && end.state == ChatStateView::Ended)
            &&& end.state == ChatStateView::Ended ==> actions.len() > 0 && done().is_suffix_of(
                actions.last()->End_0,
            )
        }),
    decreases events.len(),
{
    if events.len() > 0 && v.expects(events.first()) {
        let e = events.first();
        let (next, action) = v.next(e);
        let (end, rest) = told(next, events.drop_first());
        let actions = told(v, events).1;
        lemma_next_is_wf(v, e);
        lemma_chat_tells_its_end(v, e);
        if next.state == ChatStateView::Ended {
            assert(rest.len() == 0);
        } else {
            lemma_chat_ends_once(next, events.drop_first());
            assert forall|i: int| 0 <= i < actions.len() implies (#[trigger] actions[i] is End <==> i
                == actions.len() - 1 && end.state == ChatStateView::Ended) by {
                if i > 0 {
                    assert(actions[i] == rest[i - 1]);
                }
            }
            if end.state == ChatStateView::Ended {
                assert(actions.last() == rest.last());
            }
        }
    }
}

/// A chat in order stays in order.
proof fn lemma_next_is_wf(v: ChatView, e: ChatEventView)
    requires
        v.wf(),
        v.expects(e),
    ensures
        v.next(e).0.wf(),
{
    lemma_answer_ends_in_time(v.turn, 0);
    if v.turn.awaits_reply() && e is Received {
        lemma_replied(v.turn, e->Received_0);
    }
    if v.turn.phase == TurnPhase::Showing {
        lemma_advanced(v.turn);
    }
}

/// A chat runs the same turn as any other: it hands the messages of its turn to the swarm as they
/// are, and the replies of the swarm to its turn.
pub proof fn lemma_chat_follows_turn(v: ChatView, reply: MessageView)
    requires
        v.wf(),
    ensures
        v.state == ChatStateView::Awaiting ==> v.next(ChatEventView::Received(reply)).0.turn
            == v.turn.replied(reply).0,
        v.state == ChatStateView::Showing ==> v.next(ChatEventView::Shown).0.turn
            == v.turn.advanced().0,
        v.state == ChatStateView::Awaiting ==> (v.turn.replied(
            reply,
        ).1 matches TurnActionView::Send(msg) ==> v.next(ChatEventView::Received(reply)).1
            == ChatActionView::Send(msg)),
        v.state == ChatStateView::Showing ==> (v.turn.advanced().1 matches TurnActionView::Send(
            msg,
        ) ==> v.next(ChatEventView::Shown).1 == ChatActionView::Send(msg)),
{
}

/// What a chat whose message is on its way has come to, and the messages that it has sent since,
/// once the swarm has given `replies` and nothing has gone wrong.
pub open spec fn chatted(v: ChatView, replies: Seq<MessageView>) -> (ChatView, Seq<MessageView>)
    decreases replies.len(),
{
    if replies.len() == 0 || v.state != ChatStateView::Sending {
        (v, Seq::empty())
    } else {
        let awaiting = v.next(ChatEventView::Sent).0;
        let (v1, a1) = awaiting.next(ChatEventView::Received(replies.first()));
        let (v2, a2) = if v1.state == ChatStateView::Showing {
            v1.next(ChatEventView::Shown)
        } else {
            (v1, a1)
        };
        match a2 {
            ChatActionView::Send(msg) => {
                let (end, rest) = chatted(v2, replies.drop_first());
                (end, seq![msg] + rest)
            },
            _ => (v2, Seq::empty()),
        }
    }
}

proof fn lemma_chatted_is_played(v: ChatView, replies: Seq<MessageView>)
    requires
        v.wf(),
        v.state == ChatStateView::Sending,
    ensures
        chatted(v, replies).0.turn == played(v.turn, replies).0,
        chatted(v, replies).1 == played(v.turn, replies).1,
        chatted(v, replies).0.wf(),
    decreases replies.len(),
{
    if replies.len() > 0 {
        let awaiting = v.next(ChatEventView::Sent).0;
        let reply = ChatEventView::Received(replies.first());
        lemma_next_is_wf(v, ChatEventView::Sent);
        lemma_next_is_wf(awaiting, reply);
        let (v1, a1) = awaiting.next(reply);
        if v1.state == ChatStateView::Showing {
            lemma_next_is_wf(v1, ChatEventView::Shown);
        }
        let (v2, a2) = if v1.state == ChatStateView::Showing {
            v1.next(ChatEventView::Shown)
        } else {
            (v1, a1)
        };
        if let ChatActionView::Send(_) = a2 {
            lemma_chatted_is_played(v2, replies.drop_first());
        }
    }
}

/// A chat hands the swarm what any turn with the same prompt and budget hands it: once the nodes
/// have answered, in whatever way, what they are, it sends the messages of the turn, in order and
/// no others, whatever the swarm replies.
pub proof fn lemma_chat_sends_messages_of_turn(
    prompt: Seq<u32>,
    eos: Option<u32>,
    eot: Option<u32>,
    answer: MessageView,
    replies: Seq<MessageView>,
)
    requires
        prompt.len() > 0,
        prompt.len() + CHAT_MAX_TOKENS <= usize::MAX,
    ensures
        ({
            let (turn, first) = TurnView::start(prompt, CHAT_MAX_TOKENS, eos, eot);
            let v = ChatView { turn, state: ChatStateView::Connecting(first->Send_0) };
            let (v1, a1) = v.next(ChatEventView::Connected);
            let (v2, a2) = v1.next(ChatEventView::Sent);
            let (v3, a3) = v2.next(ChatEventView::Received(answer));
            let (end, rest) = chatted(v3, replies);
            &&& a1 == ChatActionView::Send(discovery_request())
            &&& a2 == ChatActionView::Receive
            &&& a3 == ChatActionView::Send(first->Send_0)
            &&& seq![first->Send_0] + rest == turn_messages(turn, first, replies)
            &&& end.turn == played(turn, replies).0
        }),
{
    let (turn, first) = TurnView::start(prompt, CHAT_MAX_TOKENS, eos, eot);
    lemma_start(prompt, CHAT_MAX_TOKENS, eos, eot);
    let v3 = ChatView { turn, state: ChatStateView::Sending };
    lemma_chatted_is_played(v3, replies);
}

/// The event lines that a chat writes when it is given `texts` to show one after the other and
/// `printed` bytes have been shown before.
pub open spec fn shown_lines(printed: nat, texts: Seq<Seq<char>>) -> Seq<Seq<char>>
    decreases texts.len(),
{
    if texts.len() == 0 {
        Seq::empty()
    } else {
        let full = encode_utf8(texts[0]);
        if full.len() > printed {
            seq![event(decode_utf8(new_bytes(full, printed)))] + shown_lines(
                full.len(),
                texts.drop_first(),
            )
        } else {
            shown_lines(printed, texts.drop_first())
        }
    }
}

/// The texts that event lines carry, put together.
pub open spec fn carried_text(lines: Seq<Seq<char>>) -> Seq<char>
    decreases lines.len(),
{
    if lines.len() == 0 {
        Seq::empty()
    } else {
        event_text(lines[0]) + carried_text(lines.drop_first())
    }
}

proof fn lemma_encode_concat(a: Seq<char>, b: Seq<char>)
    ensures
        encode_utf8(a + b) == encode_utf8(a) + encode_utf8(b),
    decreases a.len(),
{
    if a.len() == 0 {
        assert(a + b =~= b);
        assert(encode_utf8(a) + encode_utf8(b) =~= encode_utf8(b));
    } else {
        lemma_encode_concat(a.drop_first(), b);
        assert((a + b).drop_first() =~= a.drop_first() + b);
        assert(encode_utf8(a + b) =~= encode_utf8(a) + encode_utf8(b));
    }
}

/// The events of an answer carry its text, whole and unchanged: as long as the text only grows at
/// its end, what the events carry, put together behind what was shown `before`, is the text as it
/// was last given.
pub proof fn lemma_events_carry_answer(before: Seq<char>, texts: Seq<Seq<char>>)
    requires
        texts.len() > 0 ==> before.is_prefix_of(texts[0]),
        forall|i: int| 0 < i < texts.len() ==> (#[trigger] texts[i - 1]).is_prefix_of(texts[i]),
    ensures
        before + carried_text(shown_lines(encode_utf8(before).len(), texts)) == if texts.len()
            == 0 {
            before
        } else {
            texts.last()
        },
    decreases texts.len(),
{
    let lines = shown_lines(encode_utf8(before).len(), texts);
    if texts.len() == 0 {
        assert(before + carried_text(lines) =~= before);
    } else {
        let text = texts[0];
        let rest = texts.drop_first();
        let new = text.skip(before.len() as int);
        assert(text =~= before + new);
        lemma_encode_concat(before, new);
        assert forall|i: int| 0 < i < rest.len() implies (#[trigger] rest[i - 1]).is_prefix_of(
            rest[i],
        ) by {
            assert(texts[i + 1 - 1].is_prefix_of(texts[i + 1]));
        }
        if rest.len() > 0 {
            assert(texts[1 - 1].is_prefix_of(texts[1]));
        }
        if encode_utf8(new).len() > 0 {
            let line = event(new);
            assert(encode_utf8(text).skip(encode_utf8(before).len() as int) =~= encode_utf8(new));
            encode_utf8_decode_utf8(new);
            lemma_event_carries_text(new);
            let tail = shown_lines(encode_utf8(text).len(), rest);
            assert(lines =~= seq![line] + tail);
            assert(lines.drop_first() =~= tail);
            lemma_events_carry_answer(text, rest);
            assert(before + carried_text(lines) =~= text + carried_text(tail));
        } else {
            encode_utf8_decode_utf8(new);
            encode_utf8_decode_utf8(Seq::empty());
            assert(encode_utf8(new) =~= encode_utf8(Seq::empty()));
            assert(text =~= before);
            lemma_events_carry_answer(before, rest);
        }
        if rest.len() > 0 {
            assert(rest.last() == texts.last());
        }
    }
}

/// What a chat writes at its end tells what went wrong in full: an event with the words for it and,
/// unchanged, the detail behind them, and then the event that ends every chat.
pub proof fn lemma_failure_tells_detail(what: Seq<char>, detail: Seq<char>)
    ensures
        ({
            let text = failure(what, detail);
            let k = text.len() - 14;
            &&& k == what.len() + detail.len() + 17
            &&& text.take(k) == "data: [ERROR: "@ + what + detail + "]\n\n"@
            &&& text.skip(k) == "data: [DONE]\n\n"@
            &&& text.skip(k) == done()
        }),
{
    let told = "[ERROR: "@ + what + detail + "]"@;
    let text = failure(what, detail);
    let k = text.len() - 14;
    assert(done() =~= "data: [DONE]\n\n"@ && done().len() == 14) by {
        reveal_strlit("data: ");
        reveal_strlit("\n\n");
        reveal_strlit("[DONE]");
        reveal_strlit("data: [DONE]\n\n");
    }
    assert(event(told) =~= "data: [ERROR: "@ + what + detail + "]\n\n"@ && event(told).len()
        == what.len() + detail.len() + 17) by {
        reveal_strlit("data: ");
        reveal_strlit("\n\n");
        reveal_strlit("[ERROR: ");
        reveal_strlit("]");
        reveal_strlit("data: [ERROR: ");
        reveal_strlit("]\n\n");
    }
    assert(text.take(k) =~= event(told));
    assert(text.skip(k) =~= done());
}

/// A chat that can no longer go on says in which step that was, with the detail that it is told:
/// connecting, asking the nodes or hearing from them, and sending or receiving while the prompt is
/// filled in, for its last token, or afterwards.
pub proof fn lemma_chat_tells_failed_step(v: ChatView, detail: Seq<char>)
    requires
        v.wf(),
    ensures
        v.state is Connecting ==> v.next(ChatEventView::ConnectFailed(detail)).1
            == ChatActionView::End(failure("Failed to connect to swarm backend: "@, detail)),
        v.state is Asking ==> v.next(ChatEventView::SendFailed(detail)).1 == ChatActionView::End(
            failure("Failed to write handshake: "@, detail),
        ),
        v.state is Discovering ==> v.next(ChatEventView::ReceiveFailed(detail)).1
            == ChatActionView::End(failure("Failed to read handshake response: "@, detail)),
        v.state is Sending ==> v.next(ChatEventView::SendFailed(detail)).1 == ChatActionView::End(
            failure(
                if v.turn.phase == TurnPhase::Prefill {
                    "Prefill send failed: "@
                } else if v.turn.generated.len() == 0 {
                    "Prefill final send failed: "@
                } else {
                    "Decode send failed: "@
                },
                detail,
            ),
        ),
        v.state is Awaiting ==> v.next(ChatEventView::ReceiveFailed(detail)).1
            == ChatActionView::End(
            failure(
                if v.turn.phase == TurnPhase::Prefill {
                    "Prefill response failed: "@
                } else if v.turn.generated.len() == 0 {
                    "Prefill final response failed: "@
                } else {
                    "Decode response failed: "@
                },
                detail,
            ),
        ),
{
}

/// While a chat waits for a token, a token is shown, and told apart as the first one exactly where
/// it is; any other reply ends the chat and is told as such. Whatever comes back for a prompt that
/// is filled in first, the chat goes on.
pub proof fn lemma_chat_shows_tokens(v: ChatView, token: u32, other: MessageView)
    requires
        v.wf(),
        v.state == ChatStateView::Awaiting,
        !(other is TokenResponse),
    ensures
        ({
            let (shown, a) = v.next(
                ChatEventView::Received(MessageView::TokenResponse(token)),
            );
            let (ended, b) = v.next(ChatEventView::Received(other));
            if v.turn.phase == TurnPhase::Prefill {
                &&& (shown, a) == (ended, b)
                &&& a is Send
                &&& shown.turn.generated.len() == 0
            } else {
                &&& shown.turn.generated == v.turn.generated.push(token)
                &&& a == ChatActionView::Show { first: v.turn.generated.len() == 0 }
                &&& ended.turn.generated == v.turn.generated
                &&& ended.state == ChatStateView::Ended
                &&& b == ChatActionView::End(
                    failure(
                        if v.turn.generated.len() == 0 {
                            "Unexpected prefill response type"@
                        } else {
                            "Unexpected decode response type"@
                        },
                        Seq::empty(),
                    ),
                )
            }
        }),
{
}

/// A chat brings the status of the swarm up to date as far as it learns something: an answer that
/// lists nodes means that exactly these are there, in this order; trouble before the turn means that
/// the swarm is lost. Nothing else changes the status: not another answer, and nothing that happens
/// in the turn.
pub proof fn lemma_chat_updates_status(v: ChatView, e: ChatEventView, status: StatusView)
    requires
        v.wf(),
        v.expects(e),
    ensures
        ({
            let after = v.next_status(e, status);
            if v.state is Discovering && e is Received && e->Received_0 is DiscoveryResponse {
                let nodes = e->Received_0->DiscoveryResponse_0;
                &&& after.connected
                &&& after.nodes.len() == nodes.len()
                &&& forall|i: int| 0 <= i < nodes.len() ==> #[trigger] after.nodes[i] == nodes[i]
            } else if e is ConnectFailed || (v.state is Asking && e is SendFailed) || (
            v.state is Discovering && e is ReceiveFailed) {
                !after.connected && after.nodes.len() == 0
            } else {
                after.connected == status.connected && after.nodes == status.nodes
            }
        }),
        v.next_status(e, status).model_name == status.model_name,
        v.next_status(e, status).ttft_ms == status.ttft_ms,
        v.next_status(e, status).latency_report == status.latency_report,
{
}

/// A chat on a prompt connects first, then asks the nodes what they are and hears from them, and
/// then sends the first message of its turn; after each message it waits for the reply.
pub proof fn lemma_chat_asks_first(v: ChatView, msg: MessageView, answer: MessageView)
    ensures
        v.state == ChatStateView::Connecting(msg) ==> v.next(ChatEventView::Connected) == (
            ChatView { state: ChatStateView::Asking(msg), ..v },
            ChatActionView::Send(MessageView::DiscoveryRequest(Seq::empty())),
        ),
        v.state == ChatStateView::Asking(msg) ==> v.next(ChatEventView::Sent) == (
            ChatView { state: ChatStateView::Discovering(msg), ..v },
            ChatActionView::Receive,
        ),
        v.state == ChatStateView::Discovering(msg) ==> v.next(ChatEventView::Received(answer)) == (
            ChatView { state: ChatStateView::Sending, ..v },
            ChatActionView::Send(msg),
        ),
        v.state == ChatStateView::Sending ==> v.next(ChatEventView::Sent) == (
            ChatView { state: ChatStateView::Awaiting, ..v },
            ChatActionView::Receive,
        ),
{
}

/// A chat ends with nothing but its last event exactly where its answer is complete: with the last
/// token shown, it is the budget that is used up or a token that ends the answer.
pub proof fn lemma_chat_ends_with_its_answer(v: ChatView)
    requires
        v.wf(),
        v.state == ChatStateView::Showing,
    ensures
        ({
            let (next, action) = v.next(ChatEventView::Shown);
            let last = v.turn.generated.last();
            if v.turn.generated.len() == 128 || v.turn.eos == Some(last) || v.turn.eot == Some(
                last,
            ) {
                &&& action == ChatActionView::End("data: [DONE]\n\n"@)
                &&& next.state == ChatStateView::Ended
            } else {
                &&& action is Send
                &&& next.state == ChatStateView::Sending
            }
        }),
{
    reveal_strlit("data: ");
    reveal_strlit("\n\n");
    reveal_strlit("[DONE]");
    reveal_strlit("data: [DONE]\n\n");
    assert(done() =~= "data: [DONE]\n\n"@);
}

} // verus!
