//! The binary form of messages: what bincode writes for them, and its reader and writer.
//!
//! A message is written as the number of its variant followed by its fields. Integers are little
//! endian: the variant number takes four bytes, lengths and sizes take eight. A list or a text is
//! its length followed by its elements or its UTF-8 bytes; a truth value is one byte.

use crate::bytes::{le_bytes, lemma_le_bytes_injective, lemma_le_bytes_len, lemma_pow256_widths, pow256};
use crate::network::{NodeView, PayloadView};
use vstd::prelude::*;
use vstd::utf8::{encode_utf8, encode_utf8_decode_utf8};

verus! {

broadcast use lemma_le_bytes_len;

/// The elements of a list of 32-bit words, one after the other.
pub open spec fn word_bytes(words: Seq<u32>) -> Seq<u8>
    decreases words.len(),
{
    if words.len() == 0 {
        Seq::empty()
    } else {
        le_bytes(words[0] as nat, 4) + word_bytes(words.drop_first())
    }
}

/// A list of 32-bit words: its length, then its elements.
pub open spec fn list_bytes(words: Seq<u32>) -> Seq<u8> {
    le_bytes(words.len(), 8) + word_bytes(words)
}

/// A text: the number of its UTF-8 bytes, then those bytes.
pub open spec fn text_bytes(text: Seq<char>) -> Seq<u8> {
    le_bytes(encode_utf8(text).len(), 8) + encode_utf8(text)
}

/// A truth value: one byte.
pub open spec fn flag_bytes(flag: bool) -> Seq<u8> {
    seq![if flag { 1u8 } else { 0u8 }]
}

/// The fields of one node.
pub open spec fn node_bytes(node: NodeView) -> Seq<u8> {
    text_bytes(node.addr) + (text_bytes(node.layers) + (flag_bytes(node.is_final) + text_bytes(
        node.role,
    )))
}

/// The nodes of a list, one after the other.
pub open spec fn node_list_bytes(nodes: Seq<NodeView>) -> Seq<u8>
    decreases nodes.len(),
{
    if nodes.len() == 0 {
        Seq::empty()
    } else {
        node_bytes(nodes[0]) + node_list_bytes(nodes.drop_first())
    }
}

/// A variant number followed by the fields of a payload.
pub open spec fn payload_message_bytes(variant: u32, payload: PayloadView) -> Seq<u8> {
    le_bytes(variant as nat, 4) + (list_bytes(payload.token_ids) + (list_bytes(payload.activations)
        + (le_bytes(payload.batch_size as nat, 8) + (flag_bytes(payload.is_prefill) + le_bytes(
        payload.position as nat,
        8,
    )))))
}

/// A variant number followed by a token.
pub open spec fn token_message_bytes(variant: u32, token: u32) -> Seq<u8> {
    le_bytes(variant as nat, 4) + le_bytes(token as nat, 4)
}

/// A variant number followed by a list of nodes.
pub open spec fn nodes_message_bytes(variant: u32, nodes: Seq<NodeView>) -> Seq<u8> {
    le_bytes(variant as nat, 4) + (le_bytes(nodes.len(), 8) + node_list_bytes(nodes))
}

/// `rows` as nodes: address, layers, whether final, role.
pub open spec fn row_views(rows: Seq<(String, String, bool, String)>) -> Seq<NodeView> {
    Seq::new(
        rows.len(),
        |i: int|
            NodeView {
                addr: rows[i].0@,
                layers: rows[i].1@,
                is_final: rows[i].2,
                role: rows[i].3@,
            },
    )
}

/// Borrowed `rows` as nodes: address, layers, whether final, role.
pub open spec fn row_ref_views(rows: Seq<(&str, &str, bool, &str)>) -> Seq<NodeView> {
    Seq::new(
        rows.len(),
        |i: int|
            NodeView {
                addr: rows[i].0@,
                layers: rows[i].1@,
                is_final: rows[i].2,
                role: rows[i].3@,
            },
    )
}

/// The fields of a payload, put together.
pub open spec fn payload_view(
    token_ids: Seq<u32>,
    activations: Seq<u32>,
    batch_size: usize,
    is_prefill: bool,
    position: usize,
) -> PayloadView {
    PayloadView { token_ids, activations, batch_size, is_prefill, position }
}

/// The error of bincode's reader and writer.
#[verifier::external_type_specification]
#[verifier::external_body]
pub struct ExErrorKind(bincode::ErrorKind);

/// `bincode::serialize` on a variant number and the fields of a payload: it succeeds, with the
/// fields in their fixed-width form one after the other. What it would have to allocate fits in
/// one allocation.
#[verifier::external_body]
pub(crate) fn serialize_payload(
    variant: u32,
    token_ids: &Vec<u32>,
    activations: &Vec<u32>,
    batch_size: usize,
    is_prefill: bool,
    position: usize,
) -> (r: Result<Vec<u8>, bincode::Error>)
    requires
        payload_message_bytes(
            variant,
            payload_view(token_ids@, activations@, batch_size, is_prefill, position),
        ).len() <= isize::MAX,
    ensures
        r is Ok,
        r->Ok_0@ == payload_message_bytes(
            variant,
            payload_view(token_ids@, activations@, batch_size, is_prefill, position),
        ),
{
    bincode::serialize(&(variant, token_ids, activations, batch_size, is_prefill, position))
}

/// `bincode::serialize` on a variant number and a token: it succeeds, with the two numbers in
/// their fixed-width form.
#[verifier::external_body]
pub(crate) fn serialize_token(variant: u32, token: u32) -> (r: Result<Vec<u8>, bincode::Error>)
    ensures
        r is Ok,
        r->Ok_0@ == token_message_bytes(variant, token),
{
    bincode::serialize(&(variant, token))
}

/// `bincode::serialize` on a variant number and a list of nodes: it succeeds, with the length of
/// the list and the fields of each node one after the other. What it would have to allocate fits
/// in one allocation.
#[verifier::external_body]
pub(crate) fn serialize_nodes(variant: u32, nodes: &Vec<(&str, &str, bool, &str)>) -> (r: Result<
    Vec<u8>,
    bincode::Error,
>)
    requires
        nodes_message_bytes(variant, row_ref_views(nodes@)).len() <= isize::MAX,
    ensures
        r is Ok,
        r->Ok_0@ == nodes_message_bytes(variant, row_ref_views(nodes@)),
{
    bincode::serialize(&(variant, nodes))
}

/// `bincode::deserialize` of a variant number: the first four bytes, or an error if there are
/// fewer. Further bytes are left alone.
#[verifier::external_body]
pub(crate) fn deserialize_variant(bytes: &[u8]) -> (r: Result<u32, bincode::Error>)
    ensures
        match r {
            Ok(variant) => le_bytes(variant as nat, 4).is_prefix_of(bytes@),
            Err(_) => bytes@.len() < 4,
        },
{
    bincode::deserialize(bytes)
}

/// `bincode::deserialize` of a variant number and the fields of a payload: the values whose
/// written form `bytes` starts with, or an error if there are none. Further bytes are left alone.
#[verifier::external_body]
pub(crate) fn deserialize_payload(bytes: &[u8]) -> (r: Result<
    (u32, Vec<u32>, Vec<u32>, usize, bool, usize),
    bincode::Error,
>)
    ensures
        match r {
            Ok((variant, token_ids, activations, batch_size, is_prefill, position)) =>
                payload_message_bytes(
                    variant,
                    payload_view(token_ids@, activations@, batch_size, is_prefill, position),
                ).is_prefix_of(bytes@),
            Err(_) => forall|variant: u32, payload: PayloadView|
                !(#[trigger] payload_message_bytes(variant, payload)).is_prefix_of(bytes@),
        },
{
    bincode::deserialize(bytes)
}

/// `bincode::deserialize` of a variant number and a token: the two numbers that `bytes` starts
/// with, or an error if it is too short. Further bytes are left alone.
#[verifier::external_body]
pub(crate) fn deserialize_token(bytes: &[u8]) -> (r: Result<(u32, u32), bincode::Error>)
    ensures
        match r {
            Ok((variant, token)) => token_message_bytes(variant, token).is_prefix_of(bytes@),
            Err(_) => bytes@.len() < 8,
        },
{
    bincode::deserialize(bytes)
}

/// `bincode::deserialize` of a variant number and a list of nodes: the values whose written form
/// `bytes` starts with, or an error if there are none. Further bytes are left alone.
#[verifier::external_body]
pub(crate) fn deserialize_nodes(bytes: &[u8]) -> (r: Result<
    (u32, Vec<(String, String, bool, String)>),
    bincode::Error,
>)
    ensures
        match r {
            Ok((variant, rows)) => nodes_message_bytes(variant, row_views(rows@)).is_prefix_of(
                bytes@,
            ),
            Err(_) => forall|variant: u32, nodes: Seq<NodeView>|
                !(#[trigger] nodes_message_bytes(variant, nodes)).is_prefix_of(bytes@),
        },
{
    bincode::deserialize(bytes)
}

/// `s` starts with `a` followed by `b` when it starts with `a` and what comes then starts with
/// `b`.
pub proof fn lemma_prefix_of_concat(a: Seq<u8>, b: Seq<u8>, s: Seq<u8>)
    ensures
        (a + b).is_prefix_of(s) <==> a.is_prefix_of(s) && b.is_prefix_of(s.skip(a.len() as int)),
{
    let ab = a + b;
    if ab.is_prefix_of(s) {
        assert(a =~= s.subrange(0, a.len() as int)) by {
            assert forall|i: int| 0 <= i < a.len() implies a[i] == s[i] by {
                assert(ab[i] == s.subrange(0, ab.len() as int)[i]);
            }
        }
        assert(b =~= s.skip(a.len() as int).subrange(0, b.len() as int)) by {
            assert forall|i: int| 0 <= i < b.len() implies b[i] == s[a.len() + i] by {
                assert(ab[a.len() + i] == s.subrange(0, ab.len() as int)[a.len() + i]);
            }
        }
    }
    if a.is_prefix_of(s) && b.is_prefix_of(s.skip(a.len() as int)) {
        assert forall|i: int| 0 <= i < ab.len() implies ab[i] == s[i] by {
            if i < a.len() {
                assert(a[i] == s.subrange(0, a.len() as int)[i]);
            } else {
                let t = s.skip(a.len() as int);
                assert(b[i - a.len()] == t.subrange(0, b.len() as int)[i - a.len()]);
            }
        }
        assert(ab =~= s.subrange(0, ab.len() as int));
    }
}

/// Two numbers of one width at the start of the same bytes are equal.
pub proof fn lemma_number_unique(x: nat, y: nat, width: nat, s: Seq<u8>)
    requires
        x < pow256(width),
        y < pow256(width),
        le_bytes(x, width).is_prefix_of(s),
        le_bytes(y, width).is_prefix_of(s),
    ensures
        x == y,
{
    assert(le_bytes(x, width) == le_bytes(y, width));
    lemma_le_bytes_injective(x, y, width);
}

/// Every word takes four bytes.
pub proof fn lemma_word_bytes_len(words: Seq<u32>)
    ensures
        word_bytes(words).len() == 4 * words.len(),
    decreases words.len(),
{
    if words.len() > 0 {
        lemma_word_bytes_len(words.drop_first());
    }
}

proof fn lemma_words_unique(a: Seq<u32>, b: Seq<u32>, s: Seq<u8>)
    requires
        a.len() == b.len(),
        word_bytes(a).is_prefix_of(s),
        word_bytes(b).is_prefix_of(s),
    ensures
        a == b,
    decreases a.len(),
{
    if a.len() > 0 {
        lemma_prefix_of_concat(le_bytes(a[0] as nat, 4), word_bytes(a.drop_first()), s);
        lemma_prefix_of_concat(le_bytes(b[0] as nat, 4), word_bytes(b.drop_first()), s);
        lemma_pow256_widths();
        lemma_number_unique(a[0] as nat, b[0] as nat, 4, s);
        lemma_words_unique(a.drop_first(), b.drop_first(), s.skip(4));
        assert(a =~= seq![a[0]] + a.drop_first());
        assert(b =~= seq![b[0]] + b.drop_first());
    } else {
        assert(a =~= b);
    }
}

/// Two lists at the start of the same bytes are equal.
proof fn lemma_list_unique(a: Seq<u32>, b: Seq<u32>, s: Seq<u8>)
    requires
        s.len() < pow256(8),
        list_bytes(a).is_prefix_of(s),
        list_bytes(b).is_prefix_of(s),
    ensures
        a == b,
{
    lemma_prefix_of_concat(le_bytes(a.len(), 8), word_bytes(a), s);
    lemma_prefix_of_concat(le_bytes(b.len(), 8), word_bytes(b), s);
    lemma_word_bytes_len(a);
    lemma_word_bytes_len(b);
    lemma_number_unique(a.len(), b.len(), 8, s);
    lemma_words_unique(a, b, s.skip(8));
}

/// Two texts at the start of the same bytes are equal.
proof fn lemma_text_unique(a: Seq<char>, b: Seq<char>, s: Seq<u8>)
    requires
        s.len() < pow256(8),
        text_bytes(a).is_prefix_of(s),
        text_bytes(b).is_prefix_of(s),
    ensures
        a == b,
{
    lemma_prefix_of_concat(le_bytes(encode_utf8(a).len(), 8), encode_utf8(a), s);
    lemma_prefix_of_concat(le_bytes(encode_utf8(b).len(), 8), encode_utf8(b), s);
    lemma_number_unique(encode_utf8(a).len(), encode_utf8(b).len(), 8, s);
    assert(encode_utf8(a) == encode_utf8(b));
    encode_utf8_decode_utf8(a);
    encode_utf8_decode_utf8(b);
}

/// Two truth values at the start of the same bytes are equal.
proof fn lemma_flag_unique(a: bool, b: bool, s: Seq<u8>)
    requires
        flag_bytes(a).is_prefix_of(s),
        flag_bytes(b).is_prefix_of(s),
    ensures
        a == b,
{
    assert(flag_bytes(a)[0] == s.subrange(0, 1)[0]);
    assert(flag_bytes(b)[0] == s.subrange(0, 1)[0]);
}

/// Two nodes at the start of the same bytes are equal.
proof fn lemma_node_unique(a: NodeView, b: NodeView, s: Seq<u8>)
    requires
        s.len() < pow256(8),
        node_bytes(a).is_prefix_of(s),
        node_bytes(b).is_prefix_of(s),
    ensures
        a == b,
{
    let a3 = flag_bytes(a.is_final) + text_bytes(a.role);
    let b3 = flag_bytes(b.is_final) + text_bytes(b.role);
    let a2 = text_bytes(a.layers) + a3;
    let b2 = text_bytes(b.layers) + b3;
    lemma_prefix_of_concat(text_bytes(a.addr), a2, s);
    lemma_prefix_of_concat(text_bytes(b.addr), b2, s);
    lemma_text_unique(a.addr, b.addr, s);
    let s1 = s.skip(text_bytes(a.addr).len() as int);
    lemma_prefix_of_concat(text_bytes(a.layers), a3, s1);
    lemma_prefix_of_concat(text_bytes(b.layers), b3, s1);
    lemma_text_unique(a.layers, b.layers, s1);
    let s2 = s1.skip(text_bytes(a.layers).len() as int);
    lemma_prefix_of_concat(flag_bytes(a.is_final), text_bytes(a.role), s2);
    lemma_prefix_of_concat(flag_bytes(b.is_final), text_bytes(b.role), s2);
    lemma_flag_unique(a.is_final, b.is_final, s2);
    lemma_text_unique(a.role, b.role, s2.skip(1));
}

proof fn lemma_nodes_unique(a: Seq<NodeView>, b: Seq<NodeView>, s: Seq<u8>)
    requires
        s.len() < pow256(8),
        a.len() == b.len(),
        node_list_bytes(a).is_prefix_of(s),
        node_list_bytes(b).is_prefix_of(s),
    ensures
        a == b,
    decreases a.len(),
{
    if a.len() > 0 {
        lemma_prefix_of_concat(node_bytes(a[0]), node_list_bytes(a.drop_first()), s);
        lemma_prefix_of_concat(node_bytes(b[0]), node_list_bytes(b.drop_first()), s);
        lemma_node_unique(a[0], b[0], s);
        lemma_nodes_unique(a.drop_first(), b.drop_first(), s.skip(node_bytes(a[0]).len() as int));
        assert(a =~= seq![a[0]] + a.drop_first());
        assert(b =~= seq![b[0]] + b.drop_first());
    } else {
        assert(a =~= b);
    }
}

/// A node takes 25 bytes besides its texts.
pub proof fn lemma_node_bytes_len(node: NodeView)
    ensures
        node_bytes(node).len() == 25 + encode_utf8(node.addr).len() + encode_utf8(node.layers).len()
            + encode_utf8(node.role).len(),
{
    assert(text_bytes(node.addr).len() == 8 + encode_utf8(node.addr).len());
    assert(text_bytes(node.layers).len() == 8 + encode_utf8(node.layers).len());
    assert(text_bytes(node.role).len() == 8 + encode_utf8(node.role).len());
}

/// A list of nodes takes at least one byte for each of them.
proof fn lemma_node_list_len(nodes: Seq<NodeView>)
    ensures
        node_list_bytes(nodes).len() >= nodes.len(),
    decreases nodes.len(),
{
    if nodes.len() > 0 {
        lemma_node_list_len(nodes.drop_first());
    }
}

/// Two payload messages at the start of the same bytes are equal.
pub proof fn lemma_payload_message_unique(v: u32, a: PayloadView, w: u32, b: PayloadView, s: Seq<u8>)
    requires
        s.len() < pow256(8),
        payload_message_bytes(v, a).is_prefix_of(s),
        payload_message_bytes(w, b).is_prefix_of(s),
    ensures
        v == w,
        a == b,
{
    lemma_pow256_widths();
    let a5 = flag_bytes(a.is_prefill) + le_bytes(a.position as nat, 8);
    let b5 = flag_bytes(b.is_prefill) + le_bytes(b.position as nat, 8);
    let a4 = le_bytes(a.batch_size as nat, 8) + a5;
    let b4 = le_bytes(b.batch_size as nat, 8) + b5;
    let a3 = list_bytes(a.activations) + a4;
    let b3 = list_bytes(b.activations) + b4;
    let a2 = list_bytes(a.token_ids) + a3;
    let b2 = list_bytes(b.token_ids) + b3;
    lemma_prefix_of_concat(le_bytes(v as nat, 4), a2, s);
    lemma_prefix_of_concat(le_bytes(w as nat, 4), b2, s);
    lemma_number_unique(v as nat, w as nat, 4, s);
    let s1 = s.skip(4);
    lemma_prefix_of_concat(list_bytes(a.token_ids), a3, s1);
    lemma_prefix_of_concat(list_bytes(b.token_ids), b3, s1);
    lemma_list_unique(a.token_ids, b.token_ids, s1);
    let s2 = s1.skip(list_bytes(a.token_ids).len() as int);
    lemma_prefix_of_concat(list_bytes(a.activations), a4, s2);
    lemma_prefix_of_concat(list_bytes(b.activations), b4, s2);
    lemma_list_unique(a.activations, b.activations, s2);
    let s3 = s2.skip(list_bytes(a.activations).len() as int);
    lemma_prefix_of_concat(le_bytes(a.batch_size as nat, 8), a5, s3);
    lemma_prefix_of_concat(le_bytes(b.batch_size as nat, 8), b5, s3);
    lemma_number_unique(a.batch_size as nat, b.batch_size as nat, 8, s3);
    let s4 = s3.skip(8);
    lemma_prefix_of_concat(flag_bytes(a.is_prefill), le_bytes(a.position as nat, 8), s4);
    lemma_prefix_of_concat(flag_bytes(b.is_prefill), le_bytes(b.position as nat, 8), s4);
    lemma_flag_unique(a.is_prefill, b.is_prefill, s4);
    lemma_number_unique(a.position as nat, b.position as nat, 8, s4.skip(1));
}

/// Two token messages at the start of the same bytes are equal.
pub proof fn lemma_token_message_unique(v: u32, a: u32, w: u32, b: u32, s: Seq<u8>)
    requires
        token_message_bytes(v, a).is_prefix_of(s),
        token_message_bytes(w, b).is_prefix_of(s),
    ensures
        v == w,
        a == b,
{
    lemma_pow256_widths();
    lemma_prefix_of_concat(le_bytes(v as nat, 4), le_bytes(a as nat, 4), s);
    lemma_prefix_of_concat(le_bytes(w as nat, 4), le_bytes(b as nat, 4), s);
    lemma_number_unique(v as nat, w as nat, 4, s);
    lemma_number_unique(a as nat, b as nat, 4, s.skip(4));
}

/// Two node messages at the start of the same bytes are equal.
pub proof fn lemma_nodes_message_unique(
    v: u32,
    a: Seq<NodeView>,
    w: u32,
    b: Seq<NodeView>,
    s: Seq<u8>,
)
    requires
        s.len() < pow256(8),
        nodes_message_bytes(v, a).is_prefix_of(s),
        nodes_message_bytes(w, b).is_prefix_of(s),
    ensures
        v == w,
        a == b,
{
    lemma_pow256_widths();
    lemma_prefix_of_concat(le_bytes(v as nat, 4), le_bytes(a.len(), 8) + node_list_bytes(a), s);
    lemma_prefix_of_concat(le_bytes(w as nat, 4), le_bytes(b.len(), 8) + node_list_bytes(b), s);
    lemma_number_unique(v as nat, w as nat, 4, s);
    let s1 = s.skip(4);
    lemma_prefix_of_concat(le_bytes(a.len(), 8), node_list_bytes(a), s1);
    lemma_prefix_of_concat(le_bytes(b.len(), 8), node_list_bytes(b), s1);
    lemma_node_list_len(a);
    lemma_node_list_len(b);
    lemma_number_unique(a.len(), b.len(), 8, s1);
    lemma_nodes_unique(a, b, s1.skip(8));
}

} // verus!
