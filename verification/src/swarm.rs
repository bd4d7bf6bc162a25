//! What holds of a chain of workers as a whole.

use crate::client::{ClientEventView, ClientView, discovery_request};
use crate::network::{MessageView, NodeView, PayloadView};
use crate::settings::{LayerRangeError, layer_range, lemma_layer_range_round_trip};
use crate::status::StatusView;
use crate::text::decimal;
use crate::turn::{TurnPhase, TurnView, lemma_answer_is_what_was_replied, played};
use crate::worker::{ActionView, EventView, HeaderView, RunView, StateView, Worker};
use vstd::prelude::*;

verus! {

/// What happens after an action when nothing goes wrong: the layers give `out`, the sampler gives
/// `token`, and the next node answers with `reply`.
pub open spec fn success(a: ActionView, out: Seq<u32>, token: u32, reply: MessageView) -> EventView {
    match a {
        ActionView::Run(_) => EventView::Ran(out),
        ActionView::Sample(_) => EventView::Sampled(token),
        ActionView::ReceiveNext => EventView::Received(reply),
        _ => EventView::Sent,
    }
}

/// What a worker in state `s` does from action `a` on until it waits for the next message, when
/// nothing goes wrong; at most `fuel` actions.
pub open spec fn actions_until_idle(
    w: Worker,
    s: StateView,
    a: ActionView,
    out: Seq<u32>,
    token: u32,
    reply: MessageView,
    fuel: nat,
) -> Seq<ActionView>
    decreases fuel,
{
    if fuel == 0 || s is Receiving {
        Seq::empty()
    } else {
        let (s2, a2) = w.next(s, success(a, out, token, reply));
        seq![a] + actions_until_idle(w, s2, a2, out, token, reply, (fuel - 1) as nat)
    }
}

/// What a worker does on a message, when nothing goes wrong.
pub open spec fn served(
    w: Worker,
    msg: MessageView,
    out: Seq<u32>,
    token: u32,
    reply: MessageView,
) -> Seq<ActionView> {
    let (s, a) = w.next(StateView::Receiving, EventView::Received(msg));
    actions_until_idle(w, s, a, out, token, reply, 5)
}

/// The payload `p` with other activations.
pub open spec fn with_activations(p: PayloadView, activations: Seq<u32>) -> PayloadView {
    PayloadView { activations, ..p }
}

/// A worker answers every request exactly once and then waits for the next one. On a pass it runs
/// its layers; the last worker samples a token and answers with it, any other hands the pass on
/// with nothing changed but the activations, and answers with what comes back. On a discovery it
/// adds itself to the list; the last worker answers with the list, any other hands it on and
/// answers with what comes back. A message that travels backward is not answered.
pub proof fn lemma_worker_answers_once(
    w: Worker,
    msg: MessageView,
    out: Seq<u32>,
    token: u32,
    reply: MessageView,
)
    ensures
        served(w, msg, out, token, reply) == (match msg {
            MessageView::Forward(p) => if w.has_next {
                seq![
                    ActionView::Run(w.request(p)),
                    ActionView::SendNext(MessageView::Forward(with_activations(p, out))),
                    ActionView::ReceiveNext,
                    ActionView::SendPrevious(reply),
                ]
            } else {
                seq![
                    ActionView::Run(w.request(p)),
                    ActionView::Sample(out),
                    ActionView::SendPrevious(MessageView::TokenResponse(token)),
                ]
            },
            MessageView::DiscoveryRequest(nodes) => if w.has_next {
                seq![
                    ActionView::SendNext(MessageView::DiscoveryRequest(nodes.push(w.node()))),
                    ActionView::ReceiveNext,
                    ActionView::SendPrevious(reply),
                ]
            } else {
                seq![
                    ActionView::SendPrevious(MessageView::DiscoveryResponse(nodes.push(w.node()))),
                ]
            },
            _ => Seq::empty(),
        }),
{
    reveal_with_fuel(actions_until_idle, 6);
    match msg {
        MessageView::Forward(p) => {
            if w.has_next {
                assert(served(w, msg, out, token, reply) =~= seq![
                    ActionView::Run(w.request(p)),
                    ActionView::SendNext(MessageView::Forward(with_activations(p, out))),
                    ActionView::ReceiveNext,
                    ActionView::SendPrevious(reply),
                ]);
            } else {
                assert(served(w, msg, out, token, reply) =~= seq![
                    ActionView::Run(w.request(p)),
                    ActionView::Sample(out),
                    ActionView::SendPrevious(MessageView::TokenResponse(token)),
                ]);
            }
        },
        MessageView::DiscoveryRequest(nodes) => {
            if w.has_next {
                assert(served(w, msg, out, token, reply) =~= seq![
                    ActionView::SendNext(MessageView::DiscoveryRequest(nodes.push(w.node()))),
                    ActionView::ReceiveNext,
                    ActionView::SendPrevious(reply),
                ]);
            } else {
                assert(served(w, msg, out, token, reply) =~= seq![
                    ActionView::SendPrevious(MessageView::DiscoveryResponse(nodes.push(w.node()))),
                ]);
            }
        },
        _ => {},
    }
}

/// A worker never starts its layers without the input that they need: the first node has tokens,
/// any other node has activations. A batch is filled in exactly where the pass says so, and all is
/// as it came in.
pub proof fn lemma_worker_supplies_input(w: Worker, p: PayloadView)
    ensures
        match w.request(p) {
            RunView::Decode { token_id, activations, position } => {
                &&& !p.is_prefill
                &&& w.start_layer == 0 ==> token_id == Some(p.token_ids[0]) && activations is None
                &&& w.start_layer != 0 ==> activations == Some(p.activations) && token_id is None
                &&& position == p.position
            },
            RunView::Prefill { token_ids, activations, position, batch_size } => {
                &&& p.is_prefill
                &&& w.start_layer == 0 ==> token_ids == Some(p.token_ids) && activations is None
                &&& w.start_layer != 0 ==> activations == Some(p.activations) && token_ids is None
                &&& position == p.position
                &&& batch_size == p.batch_size
            },
        },
{
}

/// A worker outlives its connections: that the previous node goes away or that its layers fail on a
/// pass does not stop it. It stops only when it can take no connection, when a message of its own
/// cannot be sent, or when the next node does not answer.
pub proof fn lemma_worker_outlives_connections(w: Worker, s: StateView, e: EventView)
    requires
        w.expects(s, e),
    ensures
        w.next(s, e).0 == StateView::Stopped <==> {
            ||| e == EventView::AcceptFailed
            ||| e == EventView::SendFailed
            ||| s == StateView::AwaitingReply && e == EventView::ReceiveFailed
        },
{
}

/// What becomes of the connections of a worker: one that it takes is served once the next node is
/// connected, or at once where there is none; without the next node it is given up. One from which
/// no more comes, or on which the layers fail, is given up as well, and another one is taken.
pub proof fn lemma_worker_serves_connections(w: Worker, header: HeaderView)
    ensures
        w.next(StateView::Accepting, EventView::Accepted) == if w.has_next {
            (StateView::Connecting, ActionView::ConnectNext)
        } else {
            (StateView::Receiving, ActionView::ReceivePrevious)
        },
        w.next(StateView::Connecting, EventView::Connected) == (
            StateView::Receiving,
            ActionView::ReceivePrevious,
        ),
        w.next(StateView::Connecting, EventView::ConnectFailed) == (
            StateView::Accepting,
            ActionView::Accept,
        ),
        w.next(StateView::Receiving, EventView::ReceiveFailed) == (
            StateView::Accepting,
            ActionView::Accept,
        ),
        w.next(StateView::Running(header), EventView::RunFailed) == (
            StateView::Accepting,
            ActionView::Accept,
        ),
        w.next(StateView::Replying, EventView::Sent) == (
            StateView::Receiving,
            ActionView::ReceivePrevious,
        ),
{
}

/// A worker passes on what comes back as it is: the answer of the next node, and the token that was
/// sampled.
pub proof fn lemma_worker_relays(w: Worker, reply: MessageView, token: u32)
    ensures
        w.next(StateView::AwaitingReply, EventView::Received(reply)) == (
            StateView::Replying,
            ActionView::SendPrevious(reply),
        ),
        w.next(StateView::Sampling, EventView::Sampled(token)) == (
            StateView::Replying,
            ActionView::SendPrevious(MessageView::TokenResponse(token)),
        ),
{
}

/// Whether `ws` are the workers of a pipeline in order: each but the last has a next node.
pub open spec fn is_chain(ws: Seq<Worker>) -> bool {
    &&& ws.len() > 0
    &&& forall|i: int| 0 <= i < ws.len() ==> (#[trigger] ws[i]).has_next == (i < ws.len() - 1)
}

/// What the workers say of themselves.
pub open spec fn nodes_of(ws: Seq<Worker>) -> Seq<NodeView> {
    Seq::new(ws.len(), |i: int| ws[i].node())
}

/// What the previous node of the first worker of a chain gets back for a message; worker `i` gives
/// `outs[i]` for a pass, and the last one samples `token`.
pub open spec fn answer(
    ws: Seq<Worker>,
    msg: MessageView,
    outs: Seq<Seq<u32>>,
    token: u32,
) -> Option<MessageView>
    decreases ws.len(),
{
    if ws.len() == 0 {
        None
    } else {
        let w = ws[0];
        let (s, a) = w.next(StateView::Receiving, EventView::Received(msg));
        let (s, a) = match a {
            ActionView::Run(_) => w.next(s, EventView::Ran(outs[0])),
            _ => (s, a),
        };
        let (s, a) = match a {
            ActionView::Sample(_) => w.next(s, EventView::Sampled(token)),
            _ => (s, a),
        };
        match a {
            ActionView::SendPrevious(reply) => Some(reply),
            ActionView::SendNext(forwarded) => match answer(
                ws.drop_first(),
                forwarded,
                outs.drop_first(),
                token,
            ) {
                Some(reply) => match w.next(
                    w.next(s, EventView::Sent).0,
                    EventView::Received(reply),
                ).1 {
                    ActionView::SendPrevious(relayed) => Some(relayed),
                    _ => None,
                },
                None => None,
            },
            _ => None,
        }
    }
}

proof fn lemma_rest_of_chain(ws: Seq<Worker>)
    requires
        is_chain(ws),
        ws.len() > 1,
    ensures
        is_chain(ws.drop_first()),
{
    let rest = ws.drop_first();
    assert forall|i: int| 0 <= i < rest.len() implies (#[trigger] rest[i]).has_next == (i
        < rest.len() - 1) by {
        assert(rest[i] == ws[i + 1]);
    }
}

/// Discovery finds the whole pipeline: the answer lists every worker of the chain, in order, after
/// the nodes that were listed already.
pub proof fn lemma_discovery_lists_chain(
    ws: Seq<Worker>,
    nodes: Seq<NodeView>,
    outs: Seq<Seq<u32>>,
    token: u32,
)
    requires
        is_chain(ws),
    ensures
        answer(ws, MessageView::DiscoveryRequest(nodes), outs, token) == Some(
            MessageView::DiscoveryResponse(nodes + nodes_of(ws)),
        ),
    decreases ws.len(),
{
    let w = ws[0];
    let all = nodes.push(w.node());
    if ws.len() > 1 {
        assert(w.has_next);
        lemma_rest_of_chain(ws);
        lemma_discovery_lists_chain(ws.drop_first(), all, outs.drop_first(), token);
        assert(all + nodes_of(ws.drop_first()) =~= nodes + nodes_of(ws));
    } else {
        assert(!w.has_next);
        assert(all =~= nodes + nodes_of(ws));
    }
}

/// Of the workers that discovery lists exactly the last is marked final, and each names the host and
/// port at which it is reached, the range of layers that it runs, and what it is for: it starts with
/// the tokens, it ends with the sampler, or it stands in between.
pub proof fn lemma_discovered_nodes(ws: Seq<Worker>)
    requires
        is_chain(ws),
    ensures
        nodes_of(ws).len() == ws.len(),
        forall|i: int|
            0 <= i < ws.len() ==> {
                &&& (#[trigger] nodes_of(ws)[i]).is_final == (i == ws.len() - 1)
                &&& nodes_of(ws)[i].addr == ws[i].host@ + ":"@ + decimal(ws[i].port as nat)
                &&& nodes_of(ws)[i].layers == decimal(ws[i].start_layer as nat) + "-"@ + decimal(
                    ws[i].end_layer as nat,
                )
                &&& layer_range(nodes_of(ws)[i].layers) == Ok::<(nat, nat), LayerRangeError>(
                    (ws[i].start_layer as nat, ws[i].end_layer as nat),
                )
                &&& nodes_of(ws)[i].role == if ws[i].start_layer == 0 {
                    "Node 0 / Prefill"@
                } else if i == ws.len() - 1 {
                    "Sampler / Final"@
                } else {
                    "Worker Node"@
                }
            },
{
    assert forall|i: int| 0 <= i < ws.len() implies {
        &&& (#[trigger] nodes_of(ws)[i]).is_final == (i == ws.len() - 1)
        &&& nodes_of(ws)[i].addr == ws[i].host@ + ":"@ + decimal(ws[i].port as nat)
        &&& nodes_of(ws)[i].layers == decimal(ws[i].start_layer as nat) + "-"@ + decimal(
            ws[i].end_layer as nat,
        )
        &&& layer_range(nodes_of(ws)[i].layers) == Ok::<(nat, nat), LayerRangeError>(
            (ws[i].start_layer as nat, ws[i].end_layer as nat),
        )
        &&& nodes_of(ws)[i].role == if ws[i].start_layer == 0 {
            "Node 0 / Prefill"@
        } else if i == ws.len() - 1 {
            "Sampler / Final"@
        } else {
            "Worker Node"@
        }
    } by {
        assert(ws[i].has_next == (i < ws.len() - 1));
        lemma_layer_range_round_trip(ws[i].start_layer as nat, ws[i].end_layer as nat);
    }
}

/// The passes that the workers of a chain run for a message, in order.
pub open spec fn passes(ws: Seq<Worker>, msg: MessageView, outs: Seq<Seq<u32>>) -> Seq<RunView>
    decreases ws.len(),
{
    if ws.len() == 0 {
        Seq::empty()
    } else {
        let (s, a) = ws[0].next(StateView::Receiving, EventView::Received(msg));
        match a {
            ActionView::Run(request) => match ws[0].next(s, EventView::Ran(outs[0])).1 {
                ActionView::SendNext(forwarded) => seq![request] + passes(
                    ws.drop_first(),
                    forwarded,
                    outs.drop_first(),
                ),
                _ => seq![request],
            },
            _ => Seq::empty(),
        }
    }
}

/// A pass goes through the whole pipeline: every worker runs it once, in order, on the same
/// tokens, batch and position, with the activations that the worker before it gave; the token that
/// the last worker samples is what comes back.
pub proof fn lemma_pass_runs_through_chain(
    ws: Seq<Worker>,
    p: PayloadView,
    outs: Seq<Seq<u32>>,
    token: u32,
)
    requires
        is_chain(ws),
        outs.len() == ws.len(),
    ensures
        answer(ws, MessageView::Forward(p), outs, token) == Some(MessageView::TokenResponse(token)),
        passes(ws, MessageView::Forward(p), outs).len() == ws.len(),
        forall|i: int|
            0 <= i < ws.len() ==> (#[trigger] passes(ws, MessageView::Forward(p), outs)[i])
                == ws[i].request(
                if i == 0 {
                    p
                } else {
                    with_activations(p, outs[i - 1])
                },
            ),
    decreases ws.len(),
{
    let w = ws[0];
    let all = passes(ws, MessageView::Forward(p), outs);
    if ws.len() > 1 {
        assert(w.has_next);
        lemma_rest_of_chain(ws);
        let q = with_activations(p, outs[0]);
        let rest = ws.drop_first();
        let rest_outs = outs.drop_first();
        lemma_pass_runs_through_chain(rest, q, rest_outs, token);
        let tail = passes(rest, MessageView::Forward(q), rest_outs);
        assert(w.on_output(
            w.next(StateView::Receiving, EventView::Received(MessageView::Forward(p))).0->Running_0,
            outs[0],
        ).1 == ActionView::SendNext(MessageView::Forward(q)));
        assert(all == seq![w.request(p)] + tail);
        assert forall|i: int| 0 <= i < ws.len() implies (#[trigger] all[i]) == ws[i].request(
            if i == 0 {
                p
            } else {
                with_activations(p, outs[i - 1])
            },
        ) by {
            if i > 0 {
                assert(all[i] == tail[i - 1]);
                assert(rest[i - 1] == ws[i]);
                if i > 1 {
                    assert(rest_outs[i - 2] == outs[i - 1]);
                }
            }
        }
    } else {
        assert(!w.has_next);
    }
}

/// A client that has asked a chain what its nodes are shows every worker of the chain, in order,
/// with its address and its layers.
pub proof fn lemma_client_shows_chain(
    ws: Seq<Worker>,
    v: ClientView,
    status: StatusView,
    outs: Seq<Seq<u32>>,
    token: u32,
)
    requires
        is_chain(ws),
        v.state is Discovering,
    ensures
        ({
            let reply = answer(ws, discovery_request(), outs, token);
            let shown = v.next_status(ClientEventView::Received(reply->0), status);
            &&& reply is Some
            &&& shown.connected
            &&& shown.nodes.len() == ws.len()
            &&& forall|i: int|
                0 <= i < ws.len() ==> {
                    &&& (#[trigger] shown.nodes[i]).addr == ws[i].host@ + ":"@ + decimal(
                        ws[i].port as nat,
                    )
                    &&& shown.nodes[i].layers == decimal(ws[i].start_layer as nat) + "-"@ + decimal(
                        ws[i].end_layer as nat,
                    )
                    &&& shown.nodes[i].is_final == (i == ws.len() - 1)
                }
        }),
{
    lemma_discovery_lists_chain(ws, Seq::empty(), outs, token);
    assert(Seq::<NodeView>::empty() + nodes_of(ws) =~= nodes_of(ws));
    lemma_discovered_nodes(ws);
    let shown = v.next_status(
        ClientEventView::Received(MessageView::DiscoveryResponse(nodes_of(ws))),
        status,
    );
    assert(shown.nodes == nodes_of(ws));
}

/// The answer of a turn on a chain is what the last worker of the chain samples: for pass `i`, with
/// whatever payload and outputs of the workers, it samples `tokens[i]`, and these are the tokens of
/// the answer, in order. The token that is sampled for a prompt which is filled in first does not
/// count.
pub proof fn lemma_answer_is_sampled_by_chain(
    ws: Seq<Worker>,
    prompt: Seq<u32>,
    max_tokens: usize,
    eos: Option<u32>,
    eot: Option<u32>,
    payloads: Seq<PayloadView>,
    outs: Seq<Seq<Seq<u32>>>,
    tokens: Seq<u32>,
    replies: Seq<MessageView>,
)
    requires
        is_chain(ws),
        prompt.len() > 0,
        max_tokens > 0,
        prompt.len() + replies.len() <= usize::MAX,
        replies.len() == tokens.len(),
        forall|i: int|
            0 <= i < tokens.len() ==> (#[trigger] outs[i]).len() == ws.len() && answer(
                ws,
                MessageView::Forward(payloads[i]),
                outs[i],
                tokens[i],
            ) == Some(replies[i]),
    ensures
        ({
            let end = played(TurnView::start(prompt, max_tokens, eos, eot).0, replies).0;
            let skip = if prompt.len() > 1 {
                1int
            } else {
                0
            };
            &&& skip + end.generated.len() <= tokens.len() || end.generated.len() == 0
            &&& forall|i: int|
                0 <= i < end.generated.len() ==> #[trigger] end.generated[i] == tokens[skip + i]
            &&& end.phase != TurnPhase::Failed
        }),
{
    let end = played(TurnView::start(prompt, max_tokens, eos, eot).0, replies).0;
    let skip = if prompt.len() > 1 {
        1int
    } else {
        0
    };
    lemma_answer_is_what_was_replied(prompt, max_tokens, eos, eot, replies);
    assert forall|i: int| 0 <= i < replies.len() implies #[trigger] replies[i]
        == MessageView::TokenResponse(tokens[i]) by {
        assert(outs[i].len() == ws.len());
        lemma_pass_runs_through_chain(ws, payloads[i], outs[i], tokens[i]);
    }
    let n = end.generated.len() as int;
    assert forall|i: int| 0 <= i < n implies #[trigger] end.generated[i] == tokens[skip + i] by {
        assert(replies[skip + i] == MessageView::TokenResponse(end.generated[i]));
    }
    if n > 0 {
        assert(replies[skip + n - 1] == MessageView::TokenResponse(end.generated[n - 1]));
    }
}

} // verus!
