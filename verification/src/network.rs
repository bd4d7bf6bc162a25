//! The messages that the nodes of a swarm exchange, and how they travel over a byte stream.
//!
//! A message travels as a frame: the length of its binary form in eight bytes, most significant
//! first, then the binary form itself.

use crate::bytes::{be_bytes, be_value, le_bytes, lemma_be_bytes_len, lemma_be_bytes_places, lemma_be_value_of_be_bytes, lemma_le_bytes_len, lemma_pow256_widths, pow256, push_be, read_be};
use crate::wire::{deserialize_nodes, deserialize_payload, deserialize_token, deserialize_variant, lemma_node_bytes_len, lemma_nodes_message_unique, lemma_number_unique, lemma_payload_message_unique, lemma_prefix_of_concat, lemma_token_message_unique, lemma_word_bytes_len, list_bytes, node_list_bytes, flag_bytes, nodes_message_bytes, payload_message_bytes, row_ref_views, row_views, serialize_nodes, serialize_payload, serialize_token, token_message_bytes};
use vstd::arithmetic::power::pow;
use vstd::prelude::*;
use vstd::slice::slice_subrange;
use vstd::utf8::encode_utf8;

verus! {

/// One forward pass on its way through the pipeline.
#[derive(Debug, Clone)]
pub struct PipelinePayload {
    /// Token IDs of this pass.
    pub token_ids: Vec<u32>,
    /// The flattened activation matrix, `[batch_size, hidden_dim]`: each element is the bit
    /// pattern of a 32-bit floating-point number.
    pub activations: Vec<u32>,
    /// Number of tokens in this pass.
    pub batch_size: usize,
    /// Whether this pass fills in the prompt or decodes one token.
    pub is_prefill: bool,
    /// Absolute context position of the first token.
    pub position: usize,
}

/// What a node says of itself while the topology is discovered.
#[derive(Debug, Clone)]
pub struct NodeDiscoveryInfo {
    /// Address at which the node listens.
    pub addr: String,
    /// Range of layers that the node runs, as `start-end`.
    pub layers: String,
    /// Whether the pipeline ends at the node.
    pub is_final: bool,
    /// What the node is for, in words.
    pub role: String,
}

/// A message between two neighbours of the pipeline.
#[derive(Debug, Clone)]
pub enum CaravanMessage {
    /// Sent forward through the pipeline nodes.
    Forward(PipelinePayload),
    /// Returned from the final node back to the client.
    TokenResponse(u32),
    /// Sent forward to collect the nodes of the pipeline.
    DiscoveryRequest(Vec<NodeDiscoveryInfo>),
    /// Returned from the final node with all nodes of the pipeline.
    DiscoveryResponse(Vec<NodeDiscoveryInfo>),
}

/// A [`PipelinePayload`] as mathematical values.
#[verifier::ext_equal]
pub struct PayloadView {
    pub token_ids: Seq<u32>,
    pub activations: Seq<u32>,
    pub batch_size: usize,
    pub is_prefill: bool,
    pub position: usize,
}

/// A [`NodeDiscoveryInfo`] as mathematical values.
#[verifier::ext_equal]
pub struct NodeView {
    pub addr: Seq<char>,
    pub layers: Seq<char>,
    pub is_final: bool,
    pub role: Seq<char>,
}

/// A [`CaravanMessage`] as mathematical values.
#[verifier::ext_equal]
pub enum MessageView {
    Forward(PayloadView),
    TokenResponse(u32),
    DiscoveryRequest(Seq<NodeView>),
    DiscoveryResponse(Seq<NodeView>),
}

impl View for PipelinePayload {
    type V = PayloadView;

    open spec fn view(&self) -> PayloadView {
        PayloadView {
            token_ids: self.token_ids@,
            activations: self.activations@,
            batch_size: self.batch_size,
            is_prefill: self.is_prefill,
            position: self.position,
        }
    }
}

impl View for NodeDiscoveryInfo {
    type V = NodeView;

    open spec fn view(&self) -> NodeView {
        NodeView {
            addr: self.addr@,
            layers: self.layers@,
            is_final: self.is_final,
            role: self.role@,
        }
    }
}

/// The views of a list of nodes.
pub open spec fn node_views(nodes: Seq<NodeDiscoveryInfo>) -> Seq<NodeView> {
    Seq::new(nodes.len(), |i: int| nodes[i]@)
}

impl View for CaravanMessage {
    type V = MessageView;

    open spec fn view(&self) -> MessageView {
        match self {
            CaravanMessage::Forward(payload) => MessageView::Forward(payload@),
            CaravanMessage::TokenResponse(token) => MessageView::TokenResponse(*token),
            CaravanMessage::DiscoveryRequest(nodes) => MessageView::DiscoveryRequest(
                node_views(nodes@),
            ),
            CaravanMessage::DiscoveryResponse(nodes) => MessageView::DiscoveryResponse(
                node_views(nodes@),
            ),
        }
    }
}

/// Number of the variant of a message in its binary form: the order of declaration.
pub open spec fn variant_of(msg: MessageView) -> u32 {
    match msg {
        MessageView::Forward(_) => 0,
        MessageView::TokenResponse(_) => 1,
        MessageView::DiscoveryRequest(_) => 2,
        MessageView::DiscoveryResponse(_) => 3,
    }
}

/// The fields of `msg` behind the variant number `tag`.
pub open spec fn tagged_bytes(tag: u32, msg: MessageView) -> Seq<u8> {
    match msg {
        MessageView::Forward(payload) => payload_message_bytes(tag, payload),
        MessageView::TokenResponse(token) => token_message_bytes(tag, token),
        MessageView::DiscoveryRequest(nodes) => nodes_message_bytes(tag, nodes),
        MessageView::DiscoveryResponse(nodes) => nodes_message_bytes(tag, nodes),
    }
}

/// The binary form of a message: its fields behind the number of its variant.
pub open spec fn message_bytes(msg: MessageView) -> Seq<u8> {
    tagged_bytes(variant_of(msg), msg)
}

/// A message as it travels: its length, then its binary form.
pub open spec fn frame(msg: MessageView) -> Seq<u8> {
    be_bytes(message_bytes(msg).len(), 8) + message_bytes(msg)
}

/// The message whose binary form `body` starts with, if there is one.
pub open spec fn decoded(body: Seq<u8>) -> Option<MessageView> {
    if exists|msg: MessageView| (#[trigger] message_bytes(msg)).is_prefix_of(body) {
        Some(choose|msg: MessageView| (#[trigger] message_bytes(msg)).is_prefix_of(body))
    } else {
        None
    }
}

/// Whether `stream` starts with a whole frame: a length and as many bytes as it says.
pub open spec fn frame_complete(stream: Seq<u8>) -> bool {
    8 <= stream.len() && 8 + be_value(stream.take(8)) <= stream.len()
}

/// What follows the length in the frame that `stream` starts with.
pub open spec fn frame_body(stream: Seq<u8>) -> Seq<u8> {
    stream.subrange(8, 8 + be_value(stream.take(8)) as int)
}

/// The first message of `stream` and the length of its frame, if the stream starts with a whole
/// frame that holds a message.
pub open spec fn received(stream: Seq<u8>) -> Option<(MessageView, nat)> {
    if frame_complete(stream) {
        match decoded(frame_body(stream)) {
            Some(msg) => Some((msg, 8 + be_value(stream.take(8)))),
            None => None,
        }
    } else {
        None
    }
}

/// Why no message could be taken from, or put on, a stream.
#[derive(Debug)]
pub enum NetworkError {
    /// The stream ends before the frame does.
    Closed,
    /// The frame holds a message of a kind that is not known: its variant number.
    UnknownVariant(u32),
    /// The frame does not hold a message.
    Codec(bincode::Error),
}

/// What stands in front of the fields of a message comes first.
proof fn lemma_tag_comes_first(tag: u32, msg: MessageView, body: Seq<u8>)
    requires
        tagged_bytes(tag, msg).is_prefix_of(body),
    ensures
        le_bytes(tag as nat, 4).is_prefix_of(body),
{
    let v = le_bytes(tag as nat, 4);
    match msg {
        MessageView::Forward(p) => {
            let rest = list_bytes(p.token_ids) + (list_bytes(p.activations) + (le_bytes(
                p.batch_size as nat,
                8,
            ) + (flag_bytes(p.is_prefill) + le_bytes(p.position as nat, 8))));
            lemma_prefix_of_concat(v, rest, body);
        },
        MessageView::TokenResponse(token) => {
            lemma_prefix_of_concat(v, le_bytes(token as nat, 4), body);
        },
        MessageView::DiscoveryRequest(nodes) | MessageView::DiscoveryResponse(nodes) => {
            lemma_prefix_of_concat(v, le_bytes(nodes.len(), 8) + node_list_bytes(nodes), body);
        },
    }
}

/// The binary form determines the message: bytes start with the binary form of one message at
/// most.
pub proof fn lemma_message_unique(a: MessageView, b: MessageView, body: Seq<u8>)
    requires
        body.len() < pow256(8),
        message_bytes(a).is_prefix_of(body),
        message_bytes(b).is_prefix_of(body),
    ensures
        a == b,
{
    lemma_pow256_widths();
    lemma_tag_comes_first(variant_of(a), a, body);
    lemma_tag_comes_first(variant_of(b), b, body);
    lemma_number_unique(variant_of(a) as nat, variant_of(b) as nat, 4, body);
    match (a, b) {
        (MessageView::Forward(p), MessageView::Forward(q)) => {
            lemma_payload_message_unique(0, p, 0, q, body);
        },
        (MessageView::TokenResponse(t), MessageView::TokenResponse(u)) => {
            lemma_token_message_unique(1, t, 1, u, body);
        },
        (MessageView::DiscoveryRequest(m), MessageView::DiscoveryRequest(n)) => {
            lemma_nodes_message_unique(2, m, 2, n, body);
        },
        (MessageView::DiscoveryResponse(m), MessageView::DiscoveryResponse(n)) => {
            lemma_nodes_message_unique(3, m, 3, n, body);
        },
        _ => {},
    }
}

/// What `decoded` gives for bytes that start with the binary form of `msg`.
proof fn lemma_decoded(msg: MessageView, body: Seq<u8>)
    requires
        body.len() < pow256(8),
        message_bytes(msg).is_prefix_of(body),
    ensures
        decoded(body) == Some(msg),
{
    let found = choose|m: MessageView| (#[trigger] message_bytes(m)).is_prefix_of(body);
    lemma_message_unique(msg, found, body);
}

/// A read gives back what a write wrote: from a stream on which `msg` was put, whatever comes
/// after it, `msg` is received and exactly its frame is used up.
pub proof fn lemma_receive_gives_back_sent(msg: MessageView, rest: Seq<u8>)
    requires
        message_bytes(msg).len() < pow256(8),
    ensures
        received(frame(msg) + rest) == Some((msg, frame(msg).len())),
{
    broadcast use lemma_be_bytes_len;

    let body = message_bytes(msg);
    let stream = frame(msg) + rest;
    assert(stream.take(8) =~= be_bytes(body.len(), 8));
    lemma_be_value_of_be_bytes(body.len(), 8);
    assert(frame_body(stream) =~= body);
    assert(body =~= body.subrange(0, body.len() as int));
    lemma_decoded(msg, body);
}

/// A frame is eight bytes that give the length of what follows, most significant first, and then the
/// binary form of its message and nothing else.
pub proof fn lemma_frame_starts_with_length(msg: MessageView)
    ensures
        frame(msg).len() == 8 + message_bytes(msg).len(),
        frame(msg).skip(8) == message_bytes(msg),
        forall|i: int|
            0 <= i < 8 ==> (#[trigger] frame(msg)[i]) as int == (message_bytes(msg).len() as int
                / pow(256, (7 - i) as nat)) % 256,
{
    let n = message_bytes(msg).len();
    lemma_be_bytes_places(n, 8);
    assert(frame(msg).skip(8) =~= message_bytes(msg));
    assert forall|i: int| 0 <= i < 8 implies (#[trigger] frame(msg)[i]) as int == (n as int / pow(
        256,
        (7 - i) as nat,
    )) % 256 by {
        assert(frame(msg)[i] == be_bytes(n, 8)[8 - 1 - (7 - i)]);
    }
}

/// A stream that ends before its first frame does brings no message.
pub proof fn lemma_only_whole_frames_are_received(msg: MessageView, cut: int)
    requires
        message_bytes(msg).len() < pow256(8),
        0 <= cut < frame(msg).len(),
    ensures
        !frame_complete(frame(msg).take(cut)),
        received(frame(msg).take(cut)) is None,
{
    broadcast use lemma_be_bytes_len;

    let n = message_bytes(msg).len();
    let part = frame(msg).take(cut);
    lemma_be_value_of_be_bytes(n, 8);
    if 8 <= cut {
        assert(part.take(8) =~= be_bytes(n, 8));
    }
}

/// What a pass costs on its way to the next node: besides the tokens and activations, four bytes
/// each, a frame of a forward message takes 45 bytes. So a hop of a decode pass costs little more
/// than its one row of activations.
pub proof fn lemma_forward_frame_len(payload: PayloadView)
    ensures
        frame(MessageView::Forward(payload)).len() == 45 + 4 * payload.token_ids.len() + 4
            * payload.activations.len(),
{
    broadcast use {lemma_be_bytes_len, lemma_le_bytes_len};

    lemma_word_bytes_len(payload.token_ids);
    lemma_word_bytes_len(payload.activations);
}

/// The stream on which the messages of a list were put in order.
pub open spec fn stream_of(msgs: Seq<MessageView>) -> Seq<u8>
    decreases msgs.len(),
{
    if msgs.len() == 0 {
        Seq::empty()
    } else {
        frame(msgs[0]) + stream_of(msgs.drop_first())
    }
}

/// The messages that `count` receives in a row take from `stream`; it ends early where one of
/// them fails.
pub open spec fn received_in_row(stream: Seq<u8>, count: nat) -> Seq<MessageView>
    decreases count,
{
    if count == 0 {
        Seq::empty()
    } else {
        match received(stream) {
            Some((msg, used)) => seq![msg] + received_in_row(
                stream.skip(used as int),
                (count - 1) as nat,
            ),
            None => Seq::empty(),
        }
    }
}

/// Messages arrive complete and in the order in which they were sent.
pub proof fn lemma_messages_arrive_in_order(msgs: Seq<MessageView>)
    requires
        forall|i: int| 0 <= i < msgs.len() ==> (#[trigger] message_bytes(msgs[i])).len() < pow256(8),
    ensures
        received_in_row(stream_of(msgs), msgs.len()) == msgs,
    decreases msgs.len(),
{
    if msgs.len() > 0 {
        let rest = msgs.drop_first();
        assert(message_bytes(msgs[0]).len() < pow256(8));
        assert forall|i: int| 0 <= i < rest.len() implies (#[trigger] message_bytes(rest[i])).len()
            < pow256(8) by {
            assert(rest[i] == msgs[i + 1]);
        }
        lemma_receive_gives_back_sent(msgs[0], stream_of(rest));
        lemma_messages_arrive_in_order(rest);
        assert(stream_of(msgs).skip(frame(msgs[0]).len() as int) =~= stream_of(rest));
        assert(seq![msgs[0]] + rest =~= msgs);
    } else {
        assert(msgs =~= Seq::empty());
    }
}

/// The binary form of a message.
fn encode_message(msg: &CaravanMessage) -> (r: Result<Vec<u8>, bincode::Error>)
    requires
        message_bytes(msg@).len() <= isize::MAX,
    ensures
        r is Ok,
        r->Ok_0@ == message_bytes(msg@),
{
    match msg {
        CaravanMessage::Forward(payload) => serialize_payload(
            0,
            &payload.token_ids,
            &payload.activations,
            payload.batch_size,
            payload.is_prefill,
            payload.position,
        ),
        CaravanMessage::TokenResponse(token) => serialize_token(1, *token),
        CaravanMessage::DiscoveryRequest(nodes) => {
            let rows = node_rows(nodes);
            serialize_nodes(2, &rows)
        },
        CaravanMessage::DiscoveryResponse(nodes) => {
            let rows = node_rows(nodes);
            serialize_nodes(3, &rows)
        },
    }
}

/// The fields of each node of a list.
fn node_rows(nodes: &Vec<NodeDiscoveryInfo>) -> (rows: Vec<(&str, &str, bool, &str)>)
    ensures
        row_ref_views(rows@) == node_views(nodes@),
{
    let mut rows: Vec<(&str, &str, bool, &str)> = Vec::new();
    let mut i: usize = 0;
    while i < nodes.len()
        invariant
            i <= nodes@.len(),
            rows@.len() == i,
            forall|j: int|
                0 <= j < i ==> (#[trigger] row_ref_views(rows@)[j]) == node_views(nodes@)[j],
        decreases nodes@.len() - i,
    {
        let node = &nodes[i];
        let ghost before = rows@;
        rows.push((node.addr.as_str(), node.layers.as_str(), node.is_final, node.role.as_str()));
        assert forall|j: int| 0 <= j < i implies (#[trigger] row_ref_views(rows@)[j])
            == node_views(nodes@)[j] by {
            assert(rows@[j] == before[j]);
            assert(row_ref_views(before)[j] == node_views(nodes@)[j]);
        }
        assert(row_ref_views(rows@)[i as int] == node_views(nodes@)[i as int]);
        i = i + 1;
    }
    assert(row_ref_views(rows@) =~= node_views(nodes@));
    rows
}

/// Nodes made of their fields.
fn nodes_from_rows(rows: &Vec<(String, String, bool, String)>) -> (nodes: Vec<NodeDiscoveryInfo>)
    ensures
        node_views(nodes@) == row_views(rows@),
{
    let mut nodes: Vec<NodeDiscoveryInfo> = Vec::new();
    let mut i: usize = 0;
    while i < rows.len()
        invariant
            i <= rows@.len(),
            nodes@.len() == i,
            forall|j: int|
                0 <= j < i ==> (#[trigger] node_views(nodes@)[j]) == row_views(rows@)[j],
        decreases rows@.len() - i,
    {
        let row = &rows[i];
        let ghost before = nodes@;
        nodes.push(
            NodeDiscoveryInfo {
                addr: row.0.clone(),
                layers: row.1.clone(),
                is_final: row.2,
                role: row.3.clone(),
            },
        );
        assert forall|j: int| 0 <= j < i implies (#[trigger] node_views(nodes@)[j]) == row_views(
            rows@,
        )[j] by {
            assert(nodes@[j] == before[j]);
            assert(node_views(before)[j] == row_views(rows@)[j]);
        }
        assert(node_views(nodes@)[i as int] == row_views(rows@)[i as int]);
        i = i + 1;
    }
    assert(node_views(nodes@) =~= row_views(rows@));
    nodes
}

/// The message whose binary form `body` starts with.
fn decode_message(body: &[u8]) -> (r: Result<CaravanMessage, NetworkError>)
    ensures
        match r {
            Ok(msg) => decoded(body@) == Some(msg@),
            Err(NetworkError::Closed) => false,
            Err(NetworkError::UnknownVariant(variant)) => {
                &&& decoded(body@) is None
                &&& variant > 3
                &&& le_bytes(variant as nat, 4).is_prefix_of(body@)
            },
            Err(NetworkError::Codec(_)) => {
                &&& decoded(body@) is None
                &&& forall|variant: u32|
                    (#[trigger] le_bytes(variant as nat, 4)).is_prefix_of(body@) ==> variant <= 3
            },
        },
{
    let len: usize = body.len();
    proof {
        lemma_pow256_widths();
        assert(body@.len() == len);
        assert forall|msg: MessageView|
            (#[trigger] message_bytes(msg)).is_prefix_of(body@) implies le_bytes(
            variant_of(msg) as nat,
            4,
        ).is_prefix_of(body@) && decoded(body@) == Some(msg) by {
            lemma_tag_comes_first(variant_of(msg), msg, body@);
            lemma_decoded(msg, body@);
        }
        assert forall|v: u32, w: u32|
            (#[trigger] le_bytes(v as nat, 4)).is_prefix_of(body@) && (#[trigger] le_bytes(
                w as nat,
                4,
            )).is_prefix_of(body@) implies v == w by {
            lemma_number_unique(v as nat, w as nat, 4, body@);
        }
    }
    broadcast use lemma_le_bytes_len;

    let variant: u32 = match deserialize_variant(body) {
        Ok(variant) => variant,
        Err(e) => return Err(NetworkError::Codec(e)),
    };
    if variant == 0 {
        match deserialize_payload(body) {
            Ok((tag, token_ids, activations, batch_size, is_prefill, position)) => {
                let payload = PipelinePayload {
                    token_ids,
                    activations,
                    batch_size,
                    is_prefill,
                    position,
                };
                proof {
                    lemma_tag(tag, MessageView::Forward(payload@), body@);
                }
                Ok(CaravanMessage::Forward(payload))
            },
            Err(e) => Err(NetworkError::Codec(e)),
        }
    } else if variant == 1 {
        match deserialize_token(body) {
            Ok((tag, token)) => {
                proof {
                    lemma_tag(tag, MessageView::TokenResponse(token), body@);
                }
                Ok(CaravanMessage::TokenResponse(token))
            },
            Err(e) => Err(NetworkError::Codec(e)),
        }
    } else if variant == 2 {
        match deserialize_nodes(body) {
            Ok((tag, rows)) => {
                let nodes = nodes_from_rows(&rows);
                proof {
                    lemma_tag(tag, MessageView::DiscoveryRequest(node_views(nodes@)), body@);
                }
                Ok(CaravanMessage::DiscoveryRequest(nodes))
            },
            Err(e) => Err(NetworkError::Codec(e)),
        }
    } else if variant == 3 {
        match deserialize_nodes(body) {
            Ok((tag, rows)) => {
                let nodes = nodes_from_rows(&rows);
                proof {
                    lemma_tag(tag, MessageView::DiscoveryResponse(node_views(nodes@)), body@);
                }
                Ok(CaravanMessage::DiscoveryResponse(nodes))
            },
            Err(e) => Err(NetworkError::Codec(e)),
        }
    } else {
        Err(NetworkError::UnknownVariant(variant))
    }
}

/// Where the variant number of `msg` stands at the start of `body`, it is the one in front of
/// fields read from `body`.
proof fn lemma_tag(tag: u32, msg: MessageView, body: Seq<u8>)
    requires
        tagged_bytes(tag, msg).is_prefix_of(body),
        le_bytes(variant_of(msg) as nat, 4).is_prefix_of(body),
    ensures
        tag == variant_of(msg),
        message_bytes(msg).is_prefix_of(body),
{
    lemma_pow256_widths();
    lemma_tag_comes_first(tag, msg, body);
    lemma_number_unique(tag as nat, variant_of(msg) as nat, 4, body);
}

/// How many bytes a text takes in UTF-8.
fn utf8_len(s: &String) -> (n: usize)
    ensures
        n == encode_utf8(s@).len(),
{
    s.as_str().as_bytes().len()
}

/// How many bytes the binary form of a list of nodes takes besides the first `before` bytes, if
/// all fit in one allocation.
fn nodes_len(nodes: &Vec<NodeDiscoveryInfo>, before: usize) -> (r: Option<usize>)
    requires
        before <= isize::MAX,
    ensures
        match r {
            Some(n) => {
                &&& n == before + node_list_bytes(node_views(nodes@)).len()
                &&& n <= isize::MAX
            },
            None => before + node_list_bytes(node_views(nodes@)).len() > isize::MAX,
        },
{
    broadcast use lemma_le_bytes_len;

    let ghost all = node_views(nodes@);
    let most: u128 = isize::MAX as u128;
    let mut total: u128 = before as u128;
    let mut i: usize = 0;
    assert(all.skip(0) =~= all);
    while i < nodes.len()
        invariant
            all == node_views(nodes@),
            i <= nodes@.len(),
            most == isize::MAX,
            total <= most,
            before + node_list_bytes(all).len() == total + node_list_bytes(
                all.skip(i as int),
            ).len(),
        decreases nodes@.len() - i,
    {
        let node = &nodes[i];
        let addr: usize = utf8_len(&node.addr);
        let layers: usize = utf8_len(&node.layers);
        let role: usize = utf8_len(&node.role);
        total = total + 25 + addr as u128 + layers as u128 + role as u128;
        proof {
            let rest = all.skip(i as int);
            assert(rest[0] == node@);
            assert(rest.drop_first() =~= all.skip(i + 1));
            lemma_node_bytes_len(node@);
        }
        if total > most {
            return None;
        }
        i = i + 1;
    }
    assert(node_list_bytes(all.skip(i as int)).len() == 0);
    Some(total as usize)
}

/// How many bytes the binary form of a message takes, if they fit in one allocation.
pub fn encoded_len(msg: &CaravanMessage) -> (r: Option<usize>)
    ensures
        match r {
            Some(n) => n == message_bytes(msg@).len() && n <= isize::MAX,
            None => message_bytes(msg@).len() > isize::MAX,
        },
{
    broadcast use lemma_le_bytes_len;

    match msg {
        CaravanMessage::Forward(payload) => {
            let tokens: usize = payload.token_ids.len();
            let activations: usize = payload.activations.len();
            proof {
                lemma_word_bytes_len(payload.token_ids@);
                lemma_word_bytes_len(payload.activations@);
            }
            let total: u128 = 37 + 4 * tokens as u128 + 4 * activations as u128;
            if total <= isize::MAX as u128 {
                Some(total as usize)
            } else {
                None
            }
        },
        CaravanMessage::TokenResponse(_) => Some(8),
        CaravanMessage::DiscoveryRequest(nodes) => nodes_len(nodes, 12),
        CaravanMessage::DiscoveryResponse(nodes) => nodes_len(nodes, 12),
    }
}

/// Puts `msg` on a stream: appends its frame to the bytes that are to be sent.
pub fn send_message(stream: &mut Vec<u8>, msg: &CaravanMessage) -> (r: Result<(), NetworkError>)
    requires
        message_bytes(msg@).len() <= isize::MAX,
    ensures
        r is Ok,
        final(stream)@ == old(stream)@ + frame(msg@),
{
    let mut bytes = match encode_message(msg) {
        Ok(bytes) => bytes,
        Err(e) => return Err(NetworkError::Codec(e)),
    };
    push_be(stream, bytes.len() as u64, 8);
    stream.append(&mut bytes);
    Ok(())
}

/// The length that the first eight bytes of a frame announce.
pub fn announced_len(header: &[u8]) -> (len: u64)
    requires
        header@.len() == 8,
    ensures
        len as nat == be_value(header@),
{
    read_be(header)
}

/// Takes the first message from the bytes that a stream has brought: the message, and how many
/// bytes its frame took.
pub fn recv_message(stream: &[u8]) -> (r: Result<(CaravanMessage, usize), NetworkError>)
    ensures
        match r {
            Ok((msg, used)) => received(stream@) == Some((msg@, used as nat)),
            Err(NetworkError::Closed) => !frame_complete(stream@),
            Err(NetworkError::UnknownVariant(variant)) => {
                &&& frame_complete(stream@)
                &&& received(stream@) is None
                &&& variant > 3
                &&& le_bytes(variant as nat, 4).is_prefix_of(frame_body(stream@))
            },
            Err(NetworkError::Codec(_)) => {
                &&& frame_complete(stream@)
                &&& received(stream@) is None
                &&& forall|variant: u32|
                    (#[trigger] le_bytes(variant as nat, 4)).is_prefix_of(frame_body(stream@))
                        ==> variant <= 3
            },
        },
{
    if stream.len() < 8 {
        return Err(NetworkError::Closed);
    }
    let header = slice_subrange(stream, 0, 8);
    assert(header@ =~= stream@.take(8));
    let len: u64 = announced_len(header);
    let available: usize = stream.len() - 8;
    if len > available as u64 {
        return Err(NetworkError::Closed);
    }
    let used: usize = 8 + len as usize;
    let body = slice_subrange(stream, 8, used);
    assert(body@ =~= frame_body(stream@));
    match decode_message(body) {
        Ok(msg) => Ok((msg, used)),
        Err(e) => Err(e),
    }
}

} // verus!
