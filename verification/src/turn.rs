//! One turn of a conversation: from the tokens of a prompt to the tokens of an answer.
//!
//! The swarm first fills in all tokens of the prompt but the last, then the last one, and then
//! decodes one token after the other. Every message covers the next tokens of the context, which
//! is the prompt followed by what has been generated.

use crate::network::{CaravanMessage, MessageView, PayloadView, PipelinePayload};
use vstd::prelude::*;
use vstd::string::StringSliceAdditionalSpecFns;
use vstd::utf8::is_char_boundary;

verus! {

/// What a turn is waiting for.
#[derive(Debug, Clone, Copy, PartialEq, Eq, Structural)]
pub enum TurnPhase {
    /// The answer to the prompt without its last token.
    Prefill,
    /// The answer to the last token of the prompt.
    FirstToken,
    /// A new token is there: its text can be shown, then the turn goes on.
    Showing,
    /// The answer to the token that was generated last.
    Decoding,
    /// Nothing: the answer is complete.
    Finished,
    /// Nothing: the swarm gave something other than a token.
    Failed,
}

/// A turn.
#[derive(Debug)]
pub struct Turn {
    prompt: Vec<u32>,
    max_tokens: usize,
    eos: Option<u32>,
    eot: Option<u32>,
    generated: Vec<u32>,
    pos: usize,
    printed: usize,
    phase: TurnPhase,
}

/// A [`Turn`] as mathematical values.
#[verifier::ext_equal]
pub struct TurnView {
    pub prompt: Seq<u32>,
    pub max_tokens: usize,
    pub eos: Option<u32>,
    pub eot: Option<u32>,
    pub generated: Seq<u32>,
    /// Context position of the next token.
    pub pos: usize,
    /// How many bytes of the text of the answer have been shown.
    pub printed: usize,
    pub phase: TurnPhase,
}

impl View for Turn {
    type V = TurnView;

    closed spec fn view(&self) -> TurnView {
        TurnView {
            prompt: self.prompt@,
            max_tokens: self.max_tokens,
            eos: self.eos,
            eot: self.eot,
            generated: self.generated@,
            pos: self.pos,
            printed: self.printed,
            phase: self.phase,
        }
    }
}

/// What is to be done next in a turn.
#[derive(Debug)]
pub enum TurnAction {
    /// Send a message to the swarm and wait for its answer.
    Send(CaravanMessage),
    /// Show the text of what has been generated, then advance.
    Show,
    /// Nothing: the answer is complete.
    Done,
    /// Nothing: there is no answer.
    Fail(TurnError),
}

/// A [`TurnAction`] as mathematical values.
#[verifier::ext_equal]
pub enum TurnActionView {
    Send(MessageView),
    Show,
    Done,
    Fail(TurnError),
}

impl View for TurnAction {
    type V = TurnActionView;

    open spec fn view(&self) -> TurnActionView {
        match self {
            TurnAction::Send(msg) => TurnActionView::Send(msg@),
            TurnAction::Show => TurnActionView::Show,
            TurnAction::Done => TurnActionView::Done,
            TurnAction::Fail(e) => TurnActionView::Fail(*e),
        }
    }
}

/// Why a turn gives no answer.
#[derive(Debug, Clone, Copy, PartialEq, Eq, Structural)]
pub enum TurnError {
    /// The prompt has no tokens.
    EmptyPrompt,
    /// The swarm gave something other than a token.
    UnexpectedReply,
}

impl TurnError {
    pub open spec fn text(self) -> Seq<char> {
        match self {
            TurnError::EmptyPrompt => "Prompt resulted in empty tokens"@,
            TurnError::UnexpectedReply =>
                "Unexpected non-token-response message received from pipeline"@,
        }
    }

    /// The error in words.
    pub fn message(&self) -> (r: String)
        ensures
            r@ == self.text(),
    {
        match self {
            TurnError::EmptyPrompt => "Prompt resulted in empty tokens".to_owned(),
            TurnError::UnexpectedReply => {
                "Unexpected non-token-response message received from pipeline".to_owned()
            },
        }
    }
}

/// The message that asks the swarm to fill in `tokens` from position `pos` on.
pub open spec fn prefill_message(tokens: Seq<u32>, pos: usize) -> MessageView {
    MessageView::Forward(
        PayloadView {
            token_ids: tokens,
            activations: Seq::empty(),
            batch_size: tokens.len() as usize,
            is_prefill: true,
            position: pos,
        },
    )
}

/// The message that asks the swarm for the token after `token`, which stands at `pos`.
pub open spec fn decode_message(token: u32, pos: usize) -> MessageView {
    MessageView::Forward(
        PayloadView {
            token_ids: seq![token],
            activations: Seq::empty(),
            batch_size: 1,
            is_prefill: false,
            position: pos,
        },
    )
}

fn make_decode_message(token: u32, pos: usize) -> (r: CaravanMessage)
    ensures
        r@ == decode_message(token, pos),
{
    let mut token_ids: Vec<u32> = Vec::new();
    token_ids.push(token);
    assert(token_ids@ =~= seq![token]);
    CaravanMessage::Forward(
        PipelinePayload {
            token_ids,
            activations: Vec::new(),
            batch_size: 1,
            is_prefill: false,
            position: pos,
        },
    )
}

/// Whether an answer is complete: it ends with an end-of-sequence or end-of-turn token, or its
/// token budget is used up.
pub open spec fn complete(
    generated: Seq<u32>,
    max_tokens: usize,
    eos: Option<u32>,
    eot: Option<u32>,
) -> bool {
    ||| Some(generated.last()) == eos
    ||| Some(generated.last()) == eot
    ||| generated.len() >= max_tokens
}

impl TurnView {
    /// The prompt followed by what has been generated.
    pub open spec fn context(self) -> Seq<u32> {
        self.prompt + self.generated
    }

    /// Whether the answer is complete after its first `n` tokens.
    pub open spec fn complete_at(self, n: int) -> bool {
        complete(self.generated.take(n), self.max_tokens, self.eos, self.eot)
    }

    /// How many tokens of the context the swarm has been sent.
    pub open spec fn sent(self) -> int {
        match self.phase {
            TurnPhase::Prefill => self.prompt.len() - 1,
            TurnPhase::Finished if self.generated.len() == 0 => 0,
            TurnPhase::Showing | TurnPhase::Finished => self.context().len() - 1,
            _ => self.context().len() as int,
        }
    }

    /// What holds throughout a turn: the answer stays within its budget, the position is that of
    /// the next token, and the answer was not complete before its last token.
    pub open spec fn wf(self) -> bool {
        &&& 0 < self.prompt.len() <= usize::MAX
        &&& self.generated.len() <= self.max_tokens
        &&& match self.phase {
            TurnPhase::Prefill => {
                &&& self.prompt.len() > 1
                &&& self.max_tokens > 0
                &&& self.pos == 0
                &&& self.generated.len() == 0
            },
            TurnPhase::FirstToken => {
                &&& self.max_tokens > 0
                &&& self.pos == self.prompt.len() - 1
                &&& self.generated.len() == 0
            },
            TurnPhase::Failed => forall|n: int|
                0 < n <= self.generated.len() ==> !self.complete_at(n),
            TurnPhase::Finished if self.generated.len() == 0 => self.max_tokens == 0,
            _ => {
                &&& self.generated.len() > 0
                &&& self.pos == self.context().len() - 1
                &&& forall|n: int| 0 < n < self.generated.len() ==> !self.complete_at(n)
                &&& self.phase == TurnPhase::Decoding ==> !self.complete_at(
                    self.generated.len() as int,
                )
                &&& self.phase == TurnPhase::Finished ==> self.complete_at(
                    self.generated.len() as int,
                )
            },
        }
    }

    /// How a turn starts. Without a budget it is over at once, and the swarm is not asked.
    pub open spec fn start(
        prompt: Seq<u32>,
        max_tokens: usize,
        eos: Option<u32>,
        eot: Option<u32>,
    ) -> (TurnView, TurnActionView) {
        let fresh = TurnView {
            prompt,
            max_tokens,
            eos,
            eot,
            generated: Seq::empty(),
            pos: 0,
            printed: 0,
            phase: TurnPhase::FirstToken,
        };
        if max_tokens == 0 {
            (TurnView { phase: TurnPhase::Finished, ..fresh }, TurnActionView::Done)
        } else if prompt.len() > 1 {
            (
                TurnView { phase: TurnPhase::Prefill, ..fresh },
                TurnActionView::Send(prefill_message(prompt.drop_last(), 0)),
            )
        } else {
            (fresh, TurnActionView::Send(decode_message(prompt.last(), 0)))
        }
    }

    /// What an answer of the swarm leads to.
    pub open spec fn replied(self, reply: MessageView) -> (TurnView, TurnActionView) {
        if self.phase == TurnPhase::Prefill {
            let pos = (self.prompt.len() - 1) as usize;
            (
                TurnView { pos, phase: TurnPhase::FirstToken, ..self },
                TurnActionView::Send(decode_message(self.prompt.last(), pos)),
            )
        } else {
            match reply {
                MessageView::TokenResponse(token) => (
                    TurnView {
                        generated: self.generated.push(token),
                        pos: (self.pos + 1) as usize,
                        phase: TurnPhase::Showing,
                        ..self
                    },
                    TurnActionView::Show,
                ),
                _ => (
                    TurnView { phase: TurnPhase::Failed, ..self },
                    TurnActionView::Fail(TurnError::UnexpectedReply),
                ),
            }
        }
    }

    /// How a turn goes on after a new token.
    pub open spec fn advanced(self) -> (TurnView, TurnActionView) {
        if complete(self.generated, self.max_tokens, self.eos, self.eot) {
            (TurnView { phase: TurnPhase::Finished, ..self }, TurnActionView::Done)
        } else {
            (
                TurnView { phase: TurnPhase::Decoding, ..self },
                TurnActionView::Send(decode_message(self.generated.last(), self.pos)),
            )
        }
    }

    /// Whether the turn waits for an answer of the swarm.
    pub open spec fn awaits_reply(self) -> bool {
        self.phase == TurnPhase::Prefill || self.phase == TurnPhase::FirstToken || self.phase
            == TurnPhase::Decoding
    }
}

/// The bytes of a text that come after the first `printed` ones.
pub open spec fn new_bytes(full: Seq<u8>, printed: nat) -> Seq<u8> {
    if full.len() > printed {
        full.skip(printed as int)
    } else {
        Seq::empty()
    }
}

impl Turn {
    /// Starts a turn: the turn and what is to be done first. Without tokens there is no turn.
    pub fn begin(
        prompt: Vec<u32>,
        max_tokens: usize,
        eos: Option<u32>,
        eot: Option<u32>,
    ) -> (r: Result<(Turn, TurnAction), TurnError>)
        ensures
            match r {
                Ok((turn, action)) => {
                    &&& prompt@.len() > 0
                    &&& (turn@, action@) == TurnView::start(prompt@, max_tokens, eos, eot)
                    &&& turn@.wf()
                },
                Err(e) => prompt@.len() == 0 && e == TurnError::EmptyPrompt,
            },
    {
        let n: usize = prompt.len();
        if n == 0 {
            return Err(TurnError::EmptyPrompt);
        }
        let mut turn = Turn {
            prompt,
            max_tokens,
            eos,
            eot,
            generated: Vec::new(),
            pos: 0,
            printed: 0,
            phase: TurnPhase::FirstToken,
        };
        if max_tokens == 0 {
            turn.phase = TurnPhase::Finished;
            return Ok((turn, TurnAction::Done));
        }
        if n == 1 {
            let msg = make_decode_message(turn.prompt[0], 0);
            return Ok((turn, TurnAction::Send(msg)));
        }
        let mut prefix: Vec<u32> = Vec::new();
        let mut i: usize = 0;
        while i < n - 1
            invariant
                n == turn.prompt@.len(),
                n > 1,
                i <= n - 1,
                prefix@ =~= turn.prompt@.take(i as int),
            decreases n - i,
        {
            prefix.push(turn.prompt[i]);
            i = i + 1;
        }
        assert(prefix@ =~= turn.prompt@.drop_last());
        let msg = CaravanMessage::Forward(
            PipelinePayload {
                token_ids: prefix,
                activations: Vec::new(),
                batch_size: n - 1,
                is_prefill: true,
                position: 0,
            },
        );
        turn.phase = TurnPhase::Prefill;
        Ok((turn, TurnAction::Send(msg)))
    }

    /// What the turn is waiting for.
    pub fn phase(&self) -> (phase: TurnPhase)
        ensures
            phase == self@.phase,
    {
        self.phase
    }

    /// The tokens of the answer so far.
    pub fn generated(&self) -> (tokens: &[u32])
        ensures
            tokens@ == self@.generated,
    {
        self.generated.as_slice()
    }

    /// Context position of the next token.
    pub fn position(&self) -> (pos: usize)
        ensures
            pos == self@.pos,
    {
        self.pos
    }

    /// How many bytes of the text of the answer have been shown.
    pub fn printed(&self) -> (printed: usize)
        ensures
            printed == self@.printed,
    {
        self.printed
    }

    /// Takes in an answer of the swarm.
    pub fn on_reply(&mut self, reply: &CaravanMessage) -> (action: TurnAction)
        requires
            old(self)@.wf(),
            old(self)@.awaits_reply(),
            old(self)@.pos < usize::MAX,
        ensures
            (final(self)@, action@) == old(self)@.replied(reply@),
            final(self)@.wf(),
            final(self)@.generated == match reply@ {
                MessageView::TokenResponse(token) if old(self)@.phase != TurnPhase::Prefill =>
                    old(self)@.generated.push(token),
                _ => old(self)@.generated,
            },
    {
        proof {
            lemma_replied(self@, reply@);
        }
        if self.phase == TurnPhase::Prefill {
            self.pos = self.prompt.len() - 1;
            self.phase = TurnPhase::FirstToken;
            let last: u32 = self.prompt[self.prompt.len() - 1];
            TurnAction::Send(make_decode_message(last, self.pos))
        } else {
            match reply {
                CaravanMessage::TokenResponse(token) => {
                    self.generated.push(*token);
                    self.pos = self.pos + 1;
                    self.phase = TurnPhase::Showing;
                    TurnAction::Show
                },
                _ => {
                    self.phase = TurnPhase::Failed;
                    TurnAction::Fail(TurnError::UnexpectedReply)
                },
            }
        }
    }

    /// The part of the text of the answer that has not been shown yet, if there is any. It counts
    /// as shown from then on.
    pub fn take_new_text<'a>(&mut self, full: &'a str) -> (r: Option<&'a str>)
        requires
            full.spec_bytes().len() > old(self)@.printed ==> is_char_boundary(
                full.spec_bytes(),
                old(self)@.printed as int,
            ),
        ensures
            match r {
                Some(text) => {
                    &&& full.spec_bytes().len() > old(self)@.printed
                    &&& text.spec_bytes() == new_bytes(
                        full.spec_bytes(),
                        old(self)@.printed as nat,
                    )
                    &&& final(self)@ == (TurnView {
                        printed: full.spec_bytes().len() as usize,
                        ..old(self)@
                    })
                    &&& final(self)@.printed == full.spec_bytes().len()
                },
                None => {
                    &&& full.spec_bytes().len() <= old(self)@.printed
                    &&& final(self)@ == old(self)@
                },
            },
            old(self)@.wf() ==> final(self)@.wf(),
    {
        let ghost before = self@;
        let len: usize = full.as_bytes().len();
        if len > self.printed {
            let (_, text) = full.split_at(self.printed);
            self.printed = len;
            assert(forall|n: int| #[trigger] self@.complete_at(n) == before.complete_at(n));
            Some(text)
        } else {
            None
        }
    }

    /// Goes on after a new token: either the answer is complete, or the swarm is asked for the
    /// next token.
    pub fn advance(&mut self) -> (action: TurnAction)
        requires
            old(self)@.wf(),
            old(self)@.phase == TurnPhase::Showing,
        ensures
            (final(self)@, action@) == old(self)@.advanced(),
            final(self)@.wf(),
            final(self)@.generated == old(self)@.generated,
    {
        proof {
            lemma_advanced(self@);
        }
        let n: usize = self.generated.len();
        let last: u32 = self.generated[n - 1];
        let at_eos: bool = match self.eos {
            Some(token) => token == last,
            None => false,
        };
        let at_eot: bool = match self.eot {
            Some(token) => token == last,
            None => false,
        };
        if at_eos || at_eot || n >= self.max_tokens {
            self.phase = TurnPhase::Finished;
            TurnAction::Done
        } else {
            self.phase = TurnPhase::Decoding;
            TurnAction::Send(make_decode_message(last, self.pos))
        }
    }
}

/// Whether a message asks the swarm to work on the tokens of a context from `from` to `to`, and on
/// nothing else.
pub open spec fn covers(msg: MessageView, context: Seq<u32>, from: int, to: int) -> bool {
    match msg {
        MessageView::Forward(p) => {
            &&& p.position == from
            &&& p.batch_size == to - from
            &&& p.token_ids == context.subrange(from, to)
            &&& p.activations.len() == 0
        },
        _ => false,
    }
}

/// A turn starts well: its first message covers the context from the beginning, and there is one
/// exactly where there is a budget.
pub proof fn lemma_start(prompt: Seq<u32>, max_tokens: usize, eos: Option<u32>, eot: Option<u32>)
    requires
        0 < prompt.len() <= usize::MAX,
    ensures
        ({
            let (v, action) = TurnView::start(prompt, max_tokens, eos, eot);
            &&& v.wf()
            &&& v.context() == prompt
            &&& match action {
                TurnActionView::Send(msg) => {
                    &&& max_tokens > 0
                    &&& v.awaits_reply()
                    &&& covers(msg, v.context(), 0, v.sent())
                },
                _ => {
                    &&& max_tokens == 0
                    &&& v.phase == TurnPhase::Finished
                    &&& v.sent() == 0
                },
            }
        }),
{
    let (v, action) = TurnView::start(prompt, max_tokens, eos, eot);
    assert(v.context() =~= prompt);
    if let TurnActionView::Send(msg) = action {
        assert(msg->Forward_0.token_ids =~= v.context().subrange(0, v.sent()));
    }
}

/// What an answer of the swarm leads to is again a turn in order, and a message that it leads to
/// covers the next tokens of the context.
pub proof fn lemma_replied(v: TurnView, reply: MessageView)
    requires
        v.wf(),
        v.awaits_reply(),
        v.pos < usize::MAX,
    ensures
        ({
            let (after, action) = v.replied(reply);
            &&& after.wf()
            &&& after.prompt == v.prompt
            &&& match action {
                TurnActionView::Send(msg) => {
                    &&& after.awaits_reply()
                    &&& covers(msg, after.context(), v.sent(), after.sent())
                },
                TurnActionView::Show => {
                    &&& after.phase == TurnPhase::Showing
                    &&& after.sent() == v.sent()
                },
                _ => {
                    &&& !after.awaits_reply()
                    &&& after.sent() == v.sent()
                },
            }
        }),
{
    let (after, action) = v.replied(reply);
    if v.phase == TurnPhase::Prefill {
        assert(action->Send_0->Forward_0.token_ids =~= after.context().subrange(
            v.sent(),
            after.sent(),
        ));
    } else {
        assert forall|n: int| 0 < n <= v.generated.len() implies !after.complete_at(n) by {
            assert(!v.complete_at(n));
            assert(after.generated.take(n) =~= v.generated.take(n));
        }
    }
}

/// How a turn goes on after a new token is again in order, and a message that it leads to covers
/// the next tokens of the context.
pub proof fn lemma_advanced(v: TurnView)
    requires
        v.wf(),
        v.phase == TurnPhase::Showing,
    ensures
        ({
            let (after, action) = v.advanced();
            &&& after.wf()
            &&& after.prompt == v.prompt
            &&& match action {
                TurnActionView::Send(msg) => {
                    &&& after.awaits_reply()
                    &&& covers(msg, after.context(), v.sent(), after.sent())
                },
                _ => {
                    &&& after.phase == TurnPhase::Finished
                    &&& after.sent() == v.sent()
                },
            }
        }),
{
    let (after, action) = v.advanced();
    assert(v.generated.take(v.generated.len() as int) =~= v.generated);
    assert(forall|n: int| #[trigger] after.complete_at(n) == v.complete_at(n));
    if let TurnActionView::Send(msg) = action {
        assert(msg->Forward_0.token_ids =~= after.context().subrange(v.sent(), after.sent()));
    }
}

/// An answer never holds more tokens than its budget allows, and only its last token can be one
/// that ends it.
pub proof fn lemma_answer_ends_in_time(v: TurnView, i: int)
    requires
        v.wf(),
    ensures
        v.generated.len() <= v.max_tokens,
        0 <= i < v.generated.len() - 1 ==> Some(v.generated[i]) != v.eos && Some(v.generated[i])
            != v.eot,
{
    if 0 <= i < v.generated.len() - 1 {
        assert(!v.complete_at(i + 1));
        assert(v.generated.take(i + 1).last() == v.generated[i]);
    }
}

/// A turn that has finished has an answer that is complete.
pub proof fn lemma_finished_is_complete(v: TurnView)
    requires
        v.wf(),
        v.phase == TurnPhase::Finished,
    ensures
        complete(v.generated, v.max_tokens, v.eos, v.eot),
{
    assert(v.generated.take(v.generated.len() as int) =~= v.generated);
}

/// What a turn has come to, and the messages it has sent, once the swarm has given `replies`.
pub open spec fn played(v: TurnView, replies: Seq<MessageView>) -> (TurnView, Seq<MessageView>)
    decreases replies.len(),
{
    if replies.len() == 0 || !v.awaits_reply() {
        (v, Seq::empty())
    } else {
        let (v1, a1) = v.replied(replies.first());
        let (v2, a2) = if a1 == TurnActionView::Show {
            v1.advanced()
        } else {
            (v1, a1)
        };
        match a2 {
            TurnActionView::Send(msg) => {
                let (end, rest) = played(v2, replies.drop_first());
                (end, seq![msg] + rest)
            },
            _ => (v2, Seq::empty()),
        }
    }
}

/// The tokens of messages, one message after the other.
pub open spec fn message_tokens(messages: Seq<MessageView>) -> Seq<u32>
    decreases messages.len(),
{
    if messages.len() == 0 {
        Seq::empty()
    } else {
        messages.first()->Forward_0.token_ids + message_tokens(messages.drop_first())
    }
}

/// Whether each message starts at the position where the one before it ended, the first one at
/// `from`, and says how many tokens it has.
pub open spec fn gapless(messages: Seq<MessageView>, from: int) -> bool
    decreases messages.len(),
{
    messages.len() == 0 || {
        &&& messages.first() is Forward
        &&& messages.first()->Forward_0.position == from
        &&& messages.first()->Forward_0.batch_size == messages.first()->Forward_0.token_ids.len()
        &&& gapless(
            messages.drop_first(),
            from + messages.first()->Forward_0.token_ids.len(),
        )
    }
}

/// Whether all messages are passes without activations.
pub open spec fn no_activations(messages: Seq<MessageView>) -> bool {
    forall|i: int|
        0 <= i < messages.len() ==> #[trigger] messages[i] is Forward
            && messages[i]->Forward_0.activations.len() == 0
}

/// Whether all messages decode a single token.
pub open spec fn all_decode(messages: Seq<MessageView>) -> bool {
    forall|i: int|
        0 <= i < messages.len() ==> {
            &&& #[trigger] messages[i] is Forward
            &&& !messages[i]->Forward_0.is_prefill
            &&& messages[i]->Forward_0.token_ids.len() == 1
        }
}

proof fn lemma_played(v: TurnView, replies: Seq<MessageView>)
    requires
        v.wf(),
        v.awaits_reply(),
        v.context().len() + replies.len() <= usize::MAX,
    ensures
        ({
            let (end, messages) = played(v, replies);
            &&& end.wf()
            &&& v.sent() <= end.sent()
            &&& end.max_tokens == v.max_tokens
            &&& v.context().len() <= end.context().len()
            &&& v.context() == end.context().take(v.context().len() as int)
            &&& gapless(messages, v.sent())
            &&& all_decode(messages)
            &&& no_activations(messages)
            &&& message_tokens(messages) == end.context().subrange(v.sent(), end.sent())
        }),
    decreases replies.len(),
{
    let (end, messages) = played(v, replies);
    if replies.len() == 0 {
        assert(v.context() =~= end.context().take(v.context().len() as int));
    } else {
        let (v1, a1) = v.replied(replies.first());
        lemma_replied(v, replies.first());
        if a1 == TurnActionView::Show {
            lemma_advanced(v1);
        }
        let (v2, a2) = if a1 == TurnActionView::Show {
            v1.advanced()
        } else {
            (v1, a1)
        };
        assert(v.context() =~= v2.context().take(v.context().len() as int));
        if let TurnActionView::Send(msg) = a2 {
            lemma_played(v2, replies.drop_first());
            let rest = played(v2, replies.drop_first()).1;
            assert(messages.drop_first() =~= rest);
            assert(v.context() =~= end.context().take(v.context().len() as int));
            assert(msg->Forward_0.token_ids =~= end.context().subrange(v.sent(), v2.sent()));
            assert(message_tokens(messages) =~= end.context().subrange(v.sent(), end.sent()));
        }
    }
}

/// All messages of a turn, once the swarm has given `replies`.
pub open spec fn turn_messages(v: TurnView, first: TurnActionView, replies: Seq<MessageView>) -> Seq<
    MessageView,
> {
    match first {
        TurnActionView::Send(msg) => seq![msg] + played(v, replies).1,
        _ => Seq::empty(),
    }
}

/// Whatever the swarm replies, the messages of a turn hand it the tokens of the context once each,
/// in order, and at the positions where they stand. They carry no activations. The first message
/// fills in a batch where the prompt has more than one token; all others decode a single token.
pub proof fn lemma_turn_hands_over_context(
    prompt: Seq<u32>,
    max_tokens: usize,
    eos: Option<u32>,
    eot: Option<u32>,
    replies: Seq<MessageView>,
)
    requires
        prompt.len() > 0,
        prompt.len() + replies.len() <= usize::MAX,
    ensures
        ({
            let (v, first) = TurnView::start(prompt, max_tokens, eos, eot);
            let end = played(v, replies).0;
            let messages = turn_messages(v, first, replies);
            &&& gapless(messages, 0)
            &&& end.wf()
            &&& no_activations(messages)
            &&& messages.len() > 0 ==> {
                &&& messages[0]->Forward_0.is_prefill == (prompt.len() > 1)
                &&& all_decode(messages.drop_first())
            }
            &&& messages.len() == 0 <==> max_tokens == 0
            &&& message_tokens(messages) == end.context().take(end.sent())
            &&& prompt == end.context().take(prompt.len() as int)
            &&& end.generated.len() <= max_tokens
        }),
{
    let (v, first) = TurnView::start(prompt, max_tokens, eos, eot);
    let (end, rest) = played(v, replies);
    let messages = turn_messages(v, first, replies);
    lemma_start(prompt, max_tokens, eos, eot);
    if let TurnActionView::Send(msg) = first {
        lemma_played(v, replies);
        assert(messages.drop_first() =~= rest);
        assert(msg->Forward_0.token_ids =~= end.context().subrange(0, v.sent())) by {
            assert(forall|i: int|
                0 <= i < prompt.len() ==> prompt[i] == #[trigger] end.context().take(
                    prompt.len() as int,
                )[i]);
        }
        assert(message_tokens(messages) =~= end.context().take(end.sent()));
    } else {
        assert(prompt =~= end.context().take(prompt.len() as int));
        assert(message_tokens(messages) =~= end.context().take(end.sent()));
    }
}

/// How many tokens the swarm still has to reply before an answer is complete for certain.
spec fn replies_needed(v: TurnView) -> int {
    v.max_tokens - v.generated.len() + if v.phase == TurnPhase::Prefill {
        1int
    } else {
        0
    }
}

proof fn lemma_tokens_finish(v: TurnView, replies: Seq<MessageView>)
    requires
        v.wf(),
        v.awaits_reply(),
        v.prompt.len() + v.max_tokens <= usize::MAX,
        forall|i: int| 0 <= i < replies.len() ==> #[trigger] replies[i] is TokenResponse,
        replies.len() >= replies_needed(v),
    ensures
        played(v, replies).0.wf(),
        played(v, replies).0.phase == TurnPhase::Finished,
        played(v, replies).0.prompt == v.prompt,
        played(v, replies).0.max_tokens == v.max_tokens,
        played(v, replies).0.eos == v.eos,
        played(v, replies).0.eot == v.eot,
    decreases replies.len(),
{
    if v.phase == TurnPhase::Decoding {
        assert(!v.complete_at(v.generated.len() as int));
        assert(v.generated.take(v.generated.len() as int) =~= v.generated);
    }
    assert(replies[0] is TokenResponse);
    let (v1, a1) = v.replied(replies.first());
    lemma_replied(v, replies.first());
    if a1 == TurnActionView::Show {
        lemma_advanced(v1);
    }
    let (v2, a2) = if a1 == TurnActionView::Show {
        v1.advanced()
    } else {
        (v1, a1)
    };
    if let TurnActionView::Send(_) = a2 {
        let rest = replies.drop_first();
        assert forall|i: int| 0 <= i < rest.len() implies #[trigger] rest[i] is TokenResponse by {
            assert(rest[i] == replies[i + 1]);
        }
        lemma_tokens_finish(v2, rest);
    }
}

/// A turn ends: once the swarm has replied with one token more than the budget, the answer is
/// complete. The one more is for a prompt that is filled in first.
pub proof fn lemma_turn_ends(
    prompt: Seq<u32>,
    max_tokens: usize,
    eos: Option<u32>,
    eot: Option<u32>,
    replies: Seq<MessageView>,
)
    requires
        prompt.len() > 0,
        prompt.len() + max_tokens <= usize::MAX,
        forall|i: int| 0 <= i < replies.len() ==> #[trigger] replies[i] is TokenResponse,
        replies.len() >= max_tokens + 1,
    ensures
        ({
            let end = played(TurnView::start(prompt, max_tokens, eos, eot).0, replies).0;
            &&& end.phase == TurnPhase::Finished
            &&& end.generated.len() <= max_tokens
            &&& complete(end.generated, max_tokens, eos, eot)
        }),
{
    let v = TurnView::start(prompt, max_tokens, eos, eot).0;
    lemma_start(prompt, max_tokens, eos, eot);
    if max_tokens > 0 {
        lemma_tokens_finish(v, replies);
    }
    lemma_finished_is_complete(played(v, replies).0);
}

/// Whether a message asks the swarm to decode `token` at `position`.
pub open spec fn asks_to_decode(msg: MessageView, token: u32, position: int) -> bool {
    &&& msg is Forward
    &&& msg->Forward_0.token_ids == seq![token]
    &&& msg->Forward_0.activations.len() == 0
    &&& msg->Forward_0.batch_size == 1
    &&& !msg->Forward_0.is_prefill
    &&& msg->Forward_0.position == position
}

/// Whether an answer goes on after `token`, as far as the token decides it.
pub open spec fn goes_on_after(token: u32, eos: Option<u32>, eot: Option<u32>) -> bool {
    eos != Some(token) && eot != Some(token)
}

/// Where an answer stops, and why, when the swarm has given `replies`, of which the first `skip`
/// do not count: each of its tokens is the one that the swarm replied at its place, and no token
/// is left out that belongs to it.
pub open spec fn is_answer(
    end: TurnView,
    max_tokens: usize,
    eos: Option<u32>,
    eot: Option<u32>,
    replies: Seq<MessageView>,
    skip: int,
) -> bool {
    let answer = end.generated;
    let n = answer.len();
    &&& n <= max_tokens
    &&& forall|i: int|
        0 <= i < n ==> skip + i < replies.len() && replies[skip + i] == MessageView::TokenResponse(
            #[trigger] answer[i],
        )
    &&& forall|i: int| 0 <= i < n - 1 ==> goes_on_after(#[trigger] answer[i], eos, eot)
    &&& match end.phase {
        TurnPhase::Finished => n == max_tokens || (n > 0 && !goes_on_after(answer[n - 1], eos, eot)),
        TurnPhase::Failed => {
            &&& n < max_tokens
            &&& n > 0 ==> goes_on_after(answer[n - 1], eos, eot)
            &&& skip + n < replies.len()
            &&& !(replies[skip + n] is TokenResponse)
        },
        TurnPhase::Prefill => n == 0 && replies.len() == 0 && skip == 1,
        TurnPhase::FirstToken => n == 0 && replies.len() == skip && max_tokens > 0,
        TurnPhase::Decoding => {
            &&& 0 < n < max_tokens
            &&& goes_on_after(answer[n - 1], eos, eot)
            &&& replies.len() == skip + n
        },
        TurnPhase::Showing => false,
    }
}

/// How many tokens of its answer a turn has sent back to the swarm.
pub open spec fn sent_back(end: TurnView) -> int {
    if end.phase == TurnPhase::Finished && end.generated.len() > 0 {
        end.generated.len() - 1
    } else {
        end.generated.len() as int
    }
}

proof fn lemma_played_tokens(v: TurnView, replies: Seq<MessageView>)
    requires
        v.wf(),
        v.awaits_reply(),
        v.context().len() + replies.len() <= usize::MAX,
    ensures
        ({
            let (end, messages) = played(v, replies);
            let g = v.generated.len();
            let skip = if v.phase == TurnPhase::Prefill {
                1int
            } else {
                0
            };
            let asked = if replies.len() == 0 {
                0
            } else {
                skip
            };
            &&& end.wf()
            &&& end.prompt == v.prompt
            &&& end.max_tokens == v.max_tokens
            &&& end.eos == v.eos
            &&& end.eot == v.eot
            &&& end.printed == v.printed
            &&& g <= end.generated.len()
            &&& end.generated.take(g as int) == v.generated
            &&& forall|i: int|
                g <= i < end.generated.len() ==> skip + i - g < replies.len() && replies[skip + i
                    - g] == MessageView::TokenResponse(#[trigger] end.generated[i])
            &&& match end.phase {
                TurnPhase::Finished => end.generated.len() > g,
                TurnPhase::Failed => {
                    &&& skip + end.generated.len() - g < replies.len()
                    &&& !(replies[skip + end.generated.len() - g] is TokenResponse)
                    &&& end.generated.len() < end.max_tokens
                },
                TurnPhase::Prefill => replies.len() == 0 && v.phase == TurnPhase::Prefill,
                TurnPhase::FirstToken => replies.len() == skip && end.max_tokens > 0,
                TurnPhase::Decoding => replies.len() == skip + end.generated.len() - g,
                TurnPhase::Showing => false,
            }
            &&& messages.len() == asked + sent_back(end) - g
            &&& asked == 1 ==> asks_to_decode(messages[0], v.prompt.last(), v.prompt.len() - 1)
            &&& forall|i: int|
                asked <= i < messages.len() ==> asks_to_decode(
                    #[trigger] messages[i],
                    end.generated[g + i - asked],
                    v.prompt.len() + g + i - asked,
                )
        }),
    decreases replies.len(),
{
    let (end, messages) = played(v, replies);
    let g = v.generated.len() as int;
    if replies.len() == 0 {
        assert(end.generated.take(g) =~= v.generated);
    } else {
        let (v1, a1) = v.replied(replies.first());
        lemma_replied(v, replies.first());
        if v.phase == TurnPhase::Decoding {
            assert(!v.complete_at(g));
            assert(v.generated.take(g) =~= v.generated);
        }
        if a1 == TurnActionView::Show {
            lemma_advanced(v1);
        }
        let (v2, a2) = if a1 == TurnActionView::Show {
            v1.advanced()
        } else {
            (v1, a1)
        };
        if let TurnActionView::Send(msg) = a2 {
            let later = replies.drop_first();
            lemma_played_tokens(v2, later);
            let rest = played(v2, later).1;
            assert(messages =~= seq![msg] + rest);
            assert(end.generated.take(g) =~= v.generated) by {
                assert(end.generated.take(v2.generated.len() as int) =~= v2.generated);
                assert(forall|i: int|
                    0 <= i < g ==> end.generated[i] == #[trigger] v2.generated[i]);
            }
            if v.phase == TurnPhase::Prefill {
                assert forall|i: int| g <= i < end.generated.len() implies 1 + i - g < replies.len()
                    && replies[1 + i - g] == MessageView::TokenResponse(
                    #[trigger] end.generated[i],
                ) by {
                    assert(later[i - g] == replies[1 + i - g]);
                }
                assert forall|i: int| 1 <= i < messages.len() implies asks_to_decode(
                    #[trigger] messages[i],
                    end.generated[g + i - 1],
                    v.prompt.len() + g + i - 1,
                ) by {
                    assert(messages[i] == rest[i - 1]);
                }
            } else {
                assert(v2.generated[g] == replies[0]->TokenResponse_0);
                assert(end.generated[g] == end.generated.take(g + 1)[g]);
                assert forall|i: int| g <= i < end.generated.len() implies i - g < replies.len()
                    && replies[i - g] == MessageView::TokenResponse(#[trigger] end.generated[i]) by {
                    if i > g {
                        assert(later[i - g - 1] == replies[i - g]);
                    }
                }
                assert forall|i: int| 0 <= i < messages.len() implies asks_to_decode(
                    #[trigger] messages[i],
                    end.generated[g + i],
                    v.prompt.len() + g + i,
                ) by {
                    if i > 0 {
                        assert(messages[i] == rest[i - 1]);
                    }
                }
            }
        } else {
            assert(end.generated.take(g) =~= v.generated);
        }
    }
}

/// The answer of a turn is made of the tokens that the swarm replies, unchanged and in order. The
/// reply to a prompt that is filled in first does not count. The answer ends with the first
/// end-of-sequence or end-of-turn token, or with the last token of the budget, and no earlier; a
/// reply that is not a token before that is a failure.
pub proof fn lemma_answer_is_what_was_replied(
    prompt: Seq<u32>,
    max_tokens: usize,
    eos: Option<u32>,
    eot: Option<u32>,
    replies: Seq<MessageView>,
)
    requires
        prompt.len() > 0,
        prompt.len() + replies.len() <= usize::MAX,
    ensures
        ({
            let end = played(TurnView::start(prompt, max_tokens, eos, eot).0, replies).0;
            let skip = if prompt.len() > 1 {
                1int
            } else {
                0
            };
            &&& max_tokens > 0 ==> is_answer(end, max_tokens, eos, eot, replies, skip)
            &&& max_tokens == 0 ==> end.generated.len() == 0 && end.phase == TurnPhase::Finished
            &&& end.printed == 0
        }),
{
    let v = TurnView::start(prompt, max_tokens, eos, eot).0;
    lemma_start(prompt, max_tokens, eos, eot);
    if max_tokens > 0 {
        lemma_played_tokens(v, replies);
        let end = played(v, replies).0;
        let n = end.generated.len() as int;
        assert forall|i: int| 0 <= i < n - 1 implies goes_on_after(
            #[trigger] end.generated[i],
            eos,
            eot,
        ) by {
            lemma_answer_ends_in_time(end, i);
        }
        let skip = if prompt.len() > 1 {
            1int
        } else {
            0
        };
        assert forall|i: int| 0 <= i < n implies skip + i < replies.len() && replies[skip + i]
            == MessageView::TokenResponse(#[trigger] end.generated[i]) by {
            assert(replies[skip + i - 0] == MessageView::TokenResponse(end.generated[i]));
        }
        assert(end.phase == TurnPhase::Failed ==> !(replies[skip + n] is TokenResponse));
        if n > 0 {
            assert(end.generated.take(n) =~= end.generated);
            if end.phase == TurnPhase::Decoding || end.phase == TurnPhase::Failed {
                assert(!end.complete_at(n));
            }
        }
        assert(is_answer(end, max_tokens, eos, eot, replies, skip));
    }
}

/// What a turn asks of the swarm: a prompt with more than one token is filled in first, all but its
/// last token; then its last token is decoded, and then every token of the answer at the position
/// behind it, but for one that ends the answer.
pub proof fn lemma_turn_decodes_its_answer(
    prompt: Seq<u32>,
    max_tokens: usize,
    eos: Option<u32>,
    eot: Option<u32>,
    replies: Seq<MessageView>,
)
    requires
        prompt.len() > 0,
        max_tokens > 0,
        prompt.len() + replies.len() <= usize::MAX,
    ensures
        ({
            let (v, first) = TurnView::start(prompt, max_tokens, eos, eot);
            let end = played(v, replies).0;
            let messages = turn_messages(v, first, replies);
            let skip = if prompt.len() > 1 {
                1int
            } else {
                0
            };
            &&& prompt.len() > 1 ==> {
                &&& messages[0] is Forward
                &&& messages[0]->Forward_0.token_ids == prompt.drop_last()
                &&& messages[0]->Forward_0.activations.len() == 0
                &&& messages[0]->Forward_0.batch_size == prompt.len() - 1
                &&& messages[0]->Forward_0.is_prefill
                &&& messages[0]->Forward_0.position == 0
            }
            &&& messages.len() == if replies.len() < skip {
                1
            } else {
                skip + 1 + sent_back(end)
            }
            &&& replies.len() >= skip ==> asks_to_decode(
                messages[skip],
                prompt.last(),
                prompt.len() - 1,
            )
            &&& forall|i: int|
                skip < i < messages.len() ==> asks_to_decode(
                    #[trigger] messages[i],
                    end.generated[i - skip - 1],
                    prompt.len() + i - skip - 1,
                )
        }),
{
    let (v, first) = TurnView::start(prompt, max_tokens, eos, eot);
    lemma_start(prompt, max_tokens, eos, eot);
    lemma_played_tokens(v, replies);
    let (end, rest) = played(v, replies);
    let messages = turn_messages(v, first, replies);
    assert(messages =~= seq![first->Send_0] + rest);
    assert forall|i: int| 1 <= i < messages.len() implies #[trigger] messages[i] == rest[i - 1] by {}
}

/// Messages without a gap work on every position that they reach once: exactly one of them works
/// on it.
pub proof fn lemma_each_position_once(messages: Seq<MessageView>, from: int, position: int)
    requires
        gapless(messages, from),
        from <= position < from + message_tokens(messages).len(),
    ensures
        exists|i: int| 0 <= i < messages.len() && works_on(#[trigger] messages[i], position),
        forall|i: int, j: int|
            0 <= i < messages.len() && 0 <= j < messages.len() && works_on(
                #[trigger] messages[i],
                position,
            ) && works_on(#[trigger] messages[j], position) ==> i == j,
    decreases messages.len(),
{
    let first = messages.first();
    let rest = messages.drop_first();
    let next = from + first->Forward_0.token_ids.len();
    lemma_works_from(rest, next);
    if position < next {
        assert(works_on(messages[0], position));
        assert forall|i: int| 0 < i < messages.len() implies !works_on(
            #[trigger] messages[i],
            position,
        ) by {
            assert(messages[i] == rest[i - 1]);
        }
    } else {
        lemma_each_position_once(rest, next, position);
        let k = choose|i: int| 0 <= i < rest.len() && works_on(#[trigger] rest[i], position);
        assert(messages[k + 1] == rest[k]);
        assert(!works_on(messages[0], position));
        assert forall|i: int, j: int|
            0 <= i < messages.len() && 0 <= j < messages.len() && works_on(
                #[trigger] messages[i],
                position,
            ) && works_on(#[trigger] messages[j], position) implies i == j by {
            assert(messages[i] == rest[i - 1]);
            assert(messages[j] == rest[j - 1]);
        }
    }
}

/// Whether a message asks the swarm to work on the token at `position`.
pub open spec fn works_on(msg: MessageView, position: int) -> bool {
    match msg {
        MessageView::Forward(p) => p.position <= position < p.position + p.token_ids.len(),
        _ => false,
    }
}

/// Messages without a gap work on nothing before their first position.
proof fn lemma_works_from(messages: Seq<MessageView>, from: int)
    requires
        gapless(messages, from),
    ensures
        forall|i: int, position: int|
            0 <= i < messages.len() && #[trigger] works_on(messages[i], position) ==> from
                <= position,
    decreases messages.len(),
{
    if messages.len() > 0 {
        let rest = messages.drop_first();
        lemma_works_from(rest, from + messages.first()->Forward_0.token_ids.len());
        assert forall|i: int, position: int|
            0 <= i < messages.len() && #[trigger] works_on(messages[i], position) implies from
            <= position by {
            if i > 0 {
                assert(messages[i] == rest[i - 1]);
            }
        }
    }
}

/// How many bytes have been shown after `texts` were given for showing.
pub open spec fn printed_after(texts: Seq<Seq<u8>>) -> nat
    decreases texts.len(),
{
    if texts.len() == 0 {
        0
    } else if texts.last().len() > printed_after(texts.drop_last()) {
        texts.last().len()
    } else {
        printed_after(texts.drop_last())
    }
}

/// All bytes that have been shown after `texts` were given for showing.
pub open spec fn shown(texts: Seq<Seq<u8>>) -> Seq<u8>
    decreases texts.len(),
{
    if texts.len() == 0 {
        Seq::empty()
    } else {
        shown(texts.drop_last()) + new_bytes(texts.last(), printed_after(texts.drop_last()))
    }
}

/// As long as the text of the answer only grows at its end, the pieces that are shown make up
/// exactly the text.
pub proof fn lemma_pieces_make_up_text(texts: Seq<Seq<u8>>)
    requires
        texts.len() > 0,
        forall|i: int|
            0 < i < texts.len() ==> (#[trigger] texts[i - 1]).is_prefix_of(texts[i]),
    ensures
        shown(texts) == texts.last(),
        printed_after(texts) == texts.last().len(),
    decreases texts.len(),
{
    let before = texts.drop_last();
    if before.len() > 0 {
        assert forall|i: int| 0 < i < before.len() implies (#[trigger] before[i
            - 1]).is_prefix_of(before[i]) by {
            assert(texts[i - 1].is_prefix_of(texts[i]));
        }
        lemma_pieces_make_up_text(before);
        assert(texts[texts.len() - 1 - 1].is_prefix_of(texts[texts.len() - 1]));
        assert(shown(texts) =~= texts.last());
    } else {
        assert(shown(before) =~= Seq::<u8>::empty());
        assert(shown(texts) =~= texts.last());
    }
}

} // verus!
