//! What holds of a model whose layers are spread over several nodes.

use crate::pipeline::executor_for;
use crate::steps::{ExecutorView, LayerBiases, ModelConfig, PassOutput, Step, decode_layer, decode_layers, decode_steps, embeds, final_steps, logits_steps, pass_output, prefill_layer, prefill_layers, prefill_steps};
use vstd::prelude::*;

verus! {

/// A model with all its layers.
#[verifier::ext_equal]
pub struct ModelView {
    pub config: ModelConfig,
    pub layers: Seq<LayerBiases>,
    pub token_embeddings: usize,
    pub output_projection: bool,
}

impl ModelView {
    /// The executor for the layers `start..=end`.
    pub open spec fn slice(self, start: usize, end: usize) -> ExecutorView {
        executor_for(
            self.config,
            self.layers,
            self.token_embeddings,
            self.output_projection,
            start,
            end,
        )
    }

    /// The executor of a node that holds the model alone.
    pub open spec fn whole(self) -> ExecutorView {
        self.slice(0, (self.config.block_count - 1) as usize)
    }

    /// The model has layers, as many as its shape says.
    pub open spec fn wf(self) -> bool {
        &&& self.config.block_count > 0
        &&& self.layers.len() == self.config.block_count
    }

    /// `bounds` cuts the layers into contiguous slices: node `i` of the chain runs the layers
    /// from `bounds[i]` up to, and without, `bounds[i + 1]`.
    pub open spec fn is_partition(self, bounds: Seq<usize>) -> bool {
        &&& bounds.len() >= 2
        &&& bounds[0] == 0
        &&& bounds.last() == self.config.block_count
        &&& forall|i: int, j: int| 0 <= i < j < bounds.len() ==> bounds[i] < bounds[j]
    }

    /// The executor of node `i` of the chain.
    pub open spec fn node(self, bounds: Seq<usize>, i: int) -> ExecutorView {
        self.slice(bounds[i], (bounds[i + 1] - 1) as usize)
    }

    /// The steps of a decode pass on node `i` of the chain.
    pub open spec fn node_decode(self, bounds: Seq<usize>, i: int, token: u32, pos: usize) -> Seq<
        Step,
    > {
        decode_steps(
            self.node(bounds, i),
            bounds[i],
            (bounds[i + 1] - 1) as usize,
            Some(token),
            pos,
        )
    }

    /// The steps of a prefill pass on node `i` of the chain.
    pub open spec fn node_prefill(
        self,
        bounds: Seq<usize>,
        i: int,
        ids: Seq<u32>,
        start_pos: usize,
        batch: usize,
    ) -> Seq<Step> {
        prefill_steps(
            self.node(bounds, i),
            bounds[i],
            (bounds[i + 1] - 1) as usize,
            Some(ids),
            start_pos,
            batch,
        )
    }
}

/// What the first `n` nodes of the chain do in a decode pass, one after the other, without the
/// copying of the activations that they hand on.
pub open spec fn swarm_decode(
    m: ModelView,
    bounds: Seq<usize>,
    token: u32,
    pos: usize,
    n: int,
) -> Seq<Step>
    decreases n,
{
    if n <= 0 {
        Seq::empty()
    } else if n == 1 {
        m.node_decode(bounds, 0, token, pos)
    } else {
        swarm_decode(m, bounds, token, pos, n - 1) + m.node_decode(
            bounds,
            n - 1,
            token,
            pos,
        ).drop_first()
    }
}

/// What the first `n` nodes of the chain do in a prefill pass, one after the other, without the
/// copying of the activations that they hand on.
pub open spec fn swarm_prefill(
    m: ModelView,
    bounds: Seq<usize>,
    ids: Seq<u32>,
    start_pos: usize,
    batch: usize,
    n: int,
) -> Seq<Step>
    decreases n,
{
    if n <= 0 {
        Seq::empty()
    } else if n == 1 {
        m.node_prefill(bounds, 0, ids, start_pos, batch)
    } else {
        swarm_prefill(m, bounds, ids, start_pos, batch, n - 1) + m.node_prefill(
            bounds,
            n - 1,
            ids,
            start_pos,
            batch,
        ).drop_first()
    }
}

proof fn lemma_decode_layers_join(x: ExecutorView, lo: int, mid: int, hi: int, pos: usize)
    requires
        lo <= mid <= hi,
    ensures
        decode_layers(x, lo, mid, pos) + decode_layers(x, mid, hi, pos) == decode_layers(
            x,
            lo,
            hi,
            pos,
        ),
    decreases hi - mid,
{
    if mid < hi {
        lemma_decode_layers_join(x, lo, mid, hi - 1, pos);
        let last = decode_layer(x.config, x.biases(hi - 1), (hi - 1) as usize, pos);
        assert(decode_layers(x, lo, mid, pos) + (decode_layers(x, mid, hi - 1, pos) + last) =~= (
        decode_layers(x, lo, mid, pos) + decode_layers(x, mid, hi - 1, pos)) + last);
    } else {
        assert(decode_layers(x, lo, mid, pos) + decode_layers(x, mid, hi, pos) =~= decode_layers(
            x,
            lo,
            hi,
            pos,
        ));
    }
}

proof fn lemma_prefill_layers_join(
    c: ModelConfig,
    lo: int,
    mid: int,
    hi: int,
    start_pos: usize,
    batch: usize,
)
    requires
        lo <= mid <= hi,
    ensures
        prefill_layers(c, lo, mid, start_pos, batch) + prefill_layers(c, mid, hi, start_pos, batch)
            == prefill_layers(c, lo, hi, start_pos, batch),
    decreases hi - mid,
{
    let a = prefill_layers(c, lo, mid, start_pos, batch);
    if mid < hi {
        lemma_prefill_layers_join(c, lo, mid, hi - 1, start_pos, batch);
        let b = prefill_layers(c, mid, hi - 1, start_pos, batch);
        let last = prefill_layer(c, (hi - 1) as usize, start_pos, batch);
        assert(a + (b + last) =~= (a + b) + last);
    } else {
        assert(a + prefill_layers(c, mid, hi, start_pos, batch) =~= prefill_layers(
            c,
            lo,
            hi,
            start_pos,
            batch,
        ));
    }
}

/// A node runs a layer with the biases that the model has for it.
proof fn lemma_slice_layers(
    m: ModelView,
    start: usize,
    end: usize,
    lo: int,
    hi: int,
    pos: usize,
)
    requires
        m.wf(),
        start <= end < m.config.block_count,
        start <= lo,
        hi <= end + 1,
    ensures
        decode_layers(m.slice(start, end), lo, hi, pos) == decode_layers(m.whole(), lo, hi, pos),
    decreases hi - lo,
{
    if lo < hi {
        lemma_slice_layers(m, start, end, lo, hi - 1, pos);
        assert(m.slice(start, end).biases(hi - 1) == m.layers[hi - 1]);
        assert(m.whole().biases(hi - 1) == m.layers[hi - 1]);
    }
}

/// Spreading a model over a chain of nodes does not change what is computed in a decode pass: the
/// nodes together take exactly the steps that a node with the whole model takes, in the same
/// order. Each node but the first starts with the hidden state that the one before it hands on,
/// and only the last node ends with logits.
pub proof fn lemma_swarm_decodes_like_one_node(
    m: ModelView,
    bounds: Seq<usize>,
    token: u32,
    pos: usize,
)
    requires
        m.wf(),
        m.is_partition(bounds),
    ensures
        swarm_decode(m, bounds, token, pos, bounds.len() - 1) == decode_steps(
            m.whole(),
            0,
            (m.config.block_count - 1) as usize,
            Some(token),
            pos,
        ),
        forall|i: int|
            0 < i < bounds.len() - 1 ==> (#[trigger] m.node_decode(bounds, i, token, pos))[0] == (
            Step::CopyActivations { tokens: 1, len: m.config.embedding_length }),
        forall|i: int|
            0 <= i < bounds.len() - 1 ==> pass_output(
                #[trigger] m.node(bounds, i),
                (bounds[i + 1] - 1) as usize,
                1,
            ) == (if i == bounds.len() - 2 {
                PassOutput::Logits
            } else {
                PassOutput::Hidden { len: m.config.embedding_length }
            }),
{
    lemma_swarm_decode_prefix(m, bounds, token, pos, bounds.len() - 1);
    assert forall|i: int| 0 <= i < bounds.len() - 1 implies pass_output(
        #[trigger] m.node(bounds, i),
        (bounds[i + 1] - 1) as usize,
        1,
    ) == (if i == bounds.len() - 2 {
        PassOutput::Logits
    } else {
        PassOutput::Hidden { len: m.config.embedding_length }
    }) by {
        if i < bounds.len() - 2 {
            assert(bounds[i + 1] < bounds[bounds.len() - 1]);
        }
    }
    assert forall|i: int| 0 < i < bounds.len() - 1 implies (#[trigger] m.node_decode(
        bounds,
        i,
        token,
        pos,
    ))[0] == (Step::CopyActivations { tokens: 1, len: m.config.embedding_length }) by {
        assert(bounds[0] < bounds[i]);
    }
}

proof fn lemma_swarm_decode_prefix(m: ModelView, bounds: Seq<usize>, token: u32, pos: usize, n: int)
    requires
        m.wf(),
        m.is_partition(bounds),
        1 <= n <= bounds.len() - 1,
    ensures
        swarm_decode(m, bounds, token, pos, n) == seq![m.whole().embed(token, 0)] + decode_layers(
            m.whole(),
            0,
            bounds[n] as int,
            pos,
        ) + (if n == bounds.len() - 1 {
            logits_steps(m.whole(), 0)
        } else {
            Seq::empty()
        }),
    decreases n,
{
    let w = m.whole();
    let input = seq![w.embed(token, 0)];
    let start = bounds[n - 1];
    let end = (bounds[n] - 1) as usize;
    assert(bounds[n - 1] < bounds[n]);
    if n < bounds.len() - 1 {
        assert(bounds[n] < bounds[bounds.len() - 1]);
    }
    let x = m.node(bounds, n - 1);
    let own = decode_layers(x, start as int, end + 1, pos);
    let last = final_steps(x, end, 0);
    lemma_slice_layers(m, start, end, start as int, end + 1, pos);
    lemma_decode_layers_join(w, 0, start as int, end + 1, pos);
    assert(last == if n == bounds.len() - 1 {
        logits_steps(w, 0)
    } else {
        Seq::empty()
    });
    if n == 1 {
        assert(x.embed(token, 0) == w.embed(token, 0));
        assert(swarm_decode(m, bounds, token, pos, n) =~= input + own + last);
    } else {
        assert(bounds[0] < bounds[n - 1]);
        lemma_swarm_decode_prefix(m, bounds, token, pos, n - 1);
        let copy = Step::CopyActivations { tokens: 1, len: x.config.embedding_length };
        assert(m.node_decode(bounds, n - 1, token, pos) == seq![copy] + own + last);
        assert((seq![copy] + own + last).drop_first() =~= own + last);
        let before = decode_layers(w, 0, start as int, pos);
        assert((input + before + Seq::empty()) + (own + last) =~= input + (before + own) + last);
    }
}

/// Spreading a model over a chain of nodes does not change what is computed in a prefill pass: the
/// nodes together take exactly the steps that a node with the whole model takes, in the same
/// order. Each node but the first starts with the hidden state that the one before it hands on,
/// and only the last node ends with logits.
pub proof fn lemma_swarm_prefills_like_one_node(
    m: ModelView,
    bounds: Seq<usize>,
    ids: Seq<u32>,
    start_pos: usize,
    batch: usize,
)
    requires
        m.wf(),
        m.is_partition(bounds),
    ensures
        swarm_prefill(m, bounds, ids, start_pos, batch, bounds.len() - 1) == prefill_steps(
            m.whole(),
            0,
            (m.config.block_count - 1) as usize,
            Some(ids),
            start_pos,
            batch,
        ),
        forall|i: int|
            0 < i < bounds.len() - 1 ==> (#[trigger] m.node_prefill(
                bounds,
                i,
                ids,
                start_pos,
                batch,
            ))[0] == (Step::CopyActivations { tokens: batch, len: (batch * m.config.embedding_length) as usize }),
        forall|i: int|
            0 <= i < bounds.len() - 1 ==> pass_output(
                #[trigger] m.node(bounds, i),
                (bounds[i + 1] - 1) as usize,
                batch,
            ) == (if i == bounds.len() - 2 {
                PassOutput::Logits
            } else {
                PassOutput::Hidden { len: (batch * m.config.embedding_length) as usize }
            }),
{
    lemma_swarm_prefill_prefix(m, bounds, ids, start_pos, batch, bounds.len() - 1);
    assert forall|i: int| 0 <= i < bounds.len() - 1 implies pass_output(
        #[trigger] m.node(bounds, i),
        (bounds[i + 1] - 1) as usize,
        batch,
    ) == (if i == bounds.len() - 2 {
        PassOutput::Logits
    } else {
        PassOutput::Hidden { len: (batch * m.config.embedding_length) as usize }
    }) by {
        if i < bounds.len() - 2 {
            assert(bounds[i + 1] < bounds[bounds.len() - 1]);
        }
    }
    assert forall|i: int| 0 < i < bounds.len() - 1 implies (#[trigger] m.node_prefill(
        bounds,
        i,
        ids,
        start_pos,
        batch,
    ))[0] == (Step::CopyActivations { tokens: batch, len: (batch * m.config.embedding_length) as usize }) by {
        assert(bounds[0] < bounds[i]);
    }
}

proof fn lemma_swarm_prefill_prefix(
    m: ModelView,
    bounds: Seq<usize>,
    ids: Seq<u32>,
    start_pos: usize,
    batch: usize,
    n: int,
)
    requires
        m.wf(),
        m.is_partition(bounds),
        1 <= n <= bounds.len() - 1,
    ensures
        swarm_prefill(m, bounds, ids, start_pos, batch, n) == embeds(m.whole(), ids)
            + prefill_layers(m.config, 0, bounds[n] as int, start_pos, batch) + (if n
            == bounds.len() - 1 {
            logits_steps(m.whole(), batch - 1)
        } else {
            Seq::empty()
        }),
    decreases n,
{
    let w = m.whole();
    let input = embeds(w, ids);
    let start = bounds[n - 1];
    let end = (bounds[n] - 1) as usize;
    assert(bounds[n - 1] < bounds[n]);
    if n < bounds.len() - 1 {
        assert(bounds[n] < bounds[bounds.len() - 1]);
    }
    let x = m.node(bounds, n - 1);
    let own = prefill_layers(m.config, start as int, end + 1, start_pos, batch);
    let last = final_steps(x, end, batch - 1);
    lemma_prefill_layers_join(m.config, 0, start as int, end + 1, start_pos, batch);
    assert(last == if n == bounds.len() - 1 {
        logits_steps(w, batch - 1)
    } else {
        Seq::empty()
    });
    if n == 1 {
        assert(embeds(x, ids) =~= input) by {
            assert forall|i: int| 0 <= i < ids.len() implies x.embed(ids[i], i) == w.embed(
                ids[i],
                i,
            ) by {}
        }
        assert(swarm_prefill(m, bounds, ids, start_pos, batch, n) =~= input + own + last);
    } else {
        assert(bounds[0] < bounds[n - 1]);
        lemma_swarm_prefill_prefix(m, bounds, ids, start_pos, batch, n - 1);
        let copy = Step::CopyActivations { tokens: batch, len: (batch * m.config.embedding_length) as usize };
        assert(m.node_prefill(bounds, n - 1, ids, start_pos, batch) == seq![copy] + own + last);
        assert((seq![copy] + own + last).drop_first() =~= own + last);
        let before = prefill_layers(m.config, 0, start as int, start_pos, batch);
        assert((input + before + Seq::empty()) + (own + last) =~= input + (before + own) + last);
    }
}

/// Every layer of a model that is spread over a chain of nodes is held by exactly one of them.
pub proof fn lemma_each_layer_held_once(m: ModelView, bounds: Seq<usize>, layer: int)
    requires
        m.wf(),
        m.is_partition(bounds),
        0 <= layer < m.config.block_count,
    ensures
        exists|i: int| 0 <= i < bounds.len() - 1 && (#[trigger] m.node(bounds, i)).holds(layer),
        forall|i: int, j: int|
            0 <= i < bounds.len() - 1 && 0 <= j < bounds.len() - 1 && (#[trigger] m.node(
                bounds,
                i,
            )).holds(layer) && (#[trigger] m.node(bounds, j)).holds(layer) ==> i == j,
{
    lemma_node_slice(m, bounds);
    let i = lemma_find_node(bounds, layer, bounds.len() - 1);
    assert(m.node(bounds, i).holds(layer));
    assert forall|i: int, j: int|
        0 <= i < bounds.len() - 1 && 0 <= j < bounds.len() - 1 && (#[trigger] m.node(
            bounds,
            i,
        )).holds(layer) && (#[trigger] m.node(bounds, j)).holds(layer) implies i == j by {
        if i < j {
            assert(i + 1 == j || bounds[i + 1] < bounds[j]);
        }
        if j < i {
            assert(j + 1 == i || bounds[j + 1] < bounds[i]);
        }
    }
}

/// What node `i` holds is what lies between its bounds.
proof fn lemma_node_slice(m: ModelView, bounds: Seq<usize>)
    requires
        m.wf(),
        m.is_partition(bounds),
    ensures
        forall|i: int, layer: int|
            0 <= i < bounds.len() - 1 ==> (#[trigger] m.node(bounds, i).holds(layer) <==> bounds[i]
                <= layer < bounds[i + 1]),
{
    assert forall|i: int, layer: int| 0 <= i < bounds.len() - 1 implies (#[trigger] m.node(
        bounds,
        i,
    ).holds(layer) <==> bounds[i] <= layer < bounds[i + 1]) by {
        assert(bounds[i] < bounds[i + 1]);
        assert(i + 1 == bounds.len() - 1 || bounds[i + 1] < bounds[bounds.len() - 1]);
    }
}

proof fn lemma_find_node(bounds: Seq<usize>, layer: int, n: int) -> (i: int)
    requires
        1 <= n < bounds.len(),
        bounds[0] <= layer < bounds[n],
    ensures
        0 <= i < n,
        bounds[i] <= layer < bounds[i + 1],
    decreases n,
{
    if bounds[n - 1] <= layer {
        n - 1
    } else {
        lemma_find_node(bounds, layer, n - 1)
    }
}

/// A decode pass over any range of layers can be cut in two at any layer: a node with the first
/// part and one with the second take together the steps of a node with both. The second one starts
/// with the hidden state that the first one hands on.
pub proof fn lemma_decode_can_be_cut(
    m: ModelView,
    start: usize,
    cut: usize,
    end: usize,
    token: Option<u32>,
    pos: usize,
)
    requires
        m.wf(),
        start < cut <= end < m.config.block_count,
    ensures
        ({
            let last = (cut - 1) as usize;
            let first = decode_steps(m.slice(start, last), start, last, token, pos);
            let second = decode_steps(m.slice(cut, end), cut, end, token, pos);
            &&& pass_output(m.slice(start, last), last, 1) == (PassOutput::Hidden {
                len: m.config.embedding_length,
            })
            &&& second[0] == (Step::CopyActivations { tokens: 1, len: m.config.embedding_length })
            &&& decode_steps(m.slice(start, end), start, end, token, pos) == first
                + second.drop_first()
        }),
{
    let last = (cut - 1) as usize;
    let x = m.slice(start, end);
    let y = m.slice(cut, end);
    let w = m.whole();
    let first = decode_steps(m.slice(start, last), start, last, token, pos);
    let second = decode_steps(y, cut, end, token, pos);
    lemma_slice_layers(m, start, last, start as int, cut as int, pos);
    lemma_slice_layers(m, cut, end, cut as int, end + 1, pos);
    lemma_slice_layers(m, start, end, start as int, end + 1, pos);
    lemma_decode_layers_join(w, start as int, cut as int, end + 1, pos);
    let a = decode_layers(w, start as int, cut as int, pos);
    let b = decode_layers(w, cut as int, end + 1, pos);
    let tail = final_steps(y, end, 0);
    assert(first =~= seq![first[0]] + a);
    assert(second =~= seq![second[0]] + b + tail);
    assert(second.drop_first() =~= b + tail);
    assert(tail == final_steps(x, end, 0));
    assert(decode_steps(x, start, end, token, pos) =~= seq![first[0]] + (a + b) + tail);
    assert(first + second.drop_first() =~= seq![first[0]] + (a + b) + tail);
}

/// A prefill pass over any range of layers can be cut in two at any layer: a node with the first
/// part and one with the second take together the steps of a node with both. The second one starts
/// with the hidden state that the first one hands on.
pub proof fn lemma_prefill_can_be_cut(
    m: ModelView,
    start: usize,
    cut: usize,
    end: usize,
    tokens: Option<Seq<u32>>,
    start_pos: usize,
    batch: usize,
)
    requires
        m.wf(),
        start < cut <= end < m.config.block_count,
    ensures
        ({
            let last = (cut - 1) as usize;
            let len = (batch * m.config.embedding_length) as usize;
            let first = prefill_steps(m.slice(start, last), start, last, tokens, start_pos, batch);
            let second = prefill_steps(m.slice(cut, end), cut, end, tokens, start_pos, batch);
            &&& pass_output(m.slice(start, last), last, batch) == (PassOutput::Hidden { len })
            &&& second[0] == (Step::CopyActivations { tokens: batch, len })
            &&& prefill_steps(m.slice(start, end), start, end, tokens, start_pos, batch) == first
                + second.drop_first()
        }),
{
    let c = m.config;
    let last = (cut - 1) as usize;
    let x = m.slice(start, end);
    let y = m.slice(cut, end);
    let z = m.slice(start, last);
    let first = prefill_steps(z, start, last, tokens, start_pos, batch);
    let second = prefill_steps(y, cut, end, tokens, start_pos, batch);
    lemma_prefill_layers_join(c, start as int, cut as int, end + 1, start_pos, batch);
    let a = prefill_layers(c, start as int, cut as int, start_pos, batch);
    let b = prefill_layers(c, cut as int, end + 1, start_pos, batch);
    let tail = final_steps(y, end, batch - 1);
    let input = if start == 0 {
        embeds(x, tokens->0)
    } else {
        seq![Step::CopyActivations { tokens: batch, len: (batch * c.embedding_length) as usize }]
    };
    if start == 0 {
        assert(embeds(z, tokens->0) =~= input);
    }
    assert(first =~= input + a);
    assert(second =~= seq![second[0]] + b + tail);
    assert(second.drop_first() =~= b + tail);
    assert(tail == final_steps(x, end, batch - 1));
    assert(prefill_steps(x, start, end, tokens, start_pos, batch) =~= input + (a + b) + tail);
    assert(first + second.drop_first() =~= input + (a + b) + tail);
}

/// A node holds exactly the layers of its range that the model has, each with the biases that it has
/// in the model, and all else that a pass depends on.
pub proof fn lemma_slice_holds_its_range(m: ModelView, start: usize, end: usize, layer: int)
    requires
        m.wf(),
    ensures
        ({
            let x = m.slice(start, end);
            &&& x.holds(layer) <==> start <= layer <= end && layer < m.config.block_count
            &&& x.holds(layer) ==> x.biases(layer) == m.layers[layer]
            &&& x.config == m.config
            &&& x.token_embeddings == m.token_embeddings
            &&& x.output_projection == m.output_projection
        }),
{
}

/// Which decode passes a node can be asked for on its layers: the first node for every token that
/// has a row in the embedding table, any other node for one row of activations, and both at every
/// position of the context.
pub proof fn lemma_node_can_decode(
    m: ModelView,
    start: usize,
    end: usize,
    token: u32,
    count: nat,
    pos: usize,
)
    requires
        m.wf(),
        start <= end < m.config.block_count,
    ensures
        ({
            let x = m.slice(start, end);
            let e = m.config.embedding_length;
            let ready = x.decode_ready(start, end, Some(token), Some(count), pos);
            ready <==> pos < m.config.context_length && if start == 0 {
                (token + 1) * e <= m.token_embeddings
            } else {
                count == e
            }
        }),
{
    let e = m.config.embedding_length;
    assert((token + 1) * e == token * e + e) by (nonlinear_arith);
}

/// Which prefill passes a node can be asked for on its layers: those over at most 32 rows that lie
/// in the context, the first node where every token has a row in the embedding table, any other node
/// where all rows have come in. On the last node there must be a row to take logits from.
pub proof fn lemma_node_can_prefill(
    m: ModelView,
    start: usize,
    end: usize,
    ids: Seq<u32>,
    count: nat,
    start_pos: usize,
    batch: usize,
)
    requires
        m.wf(),
        start <= end < m.config.block_count,
        ids.len() == batch,
    ensures
        ({
            let x = m.slice(start, end);
            let e = m.config.embedding_length;
            let ready = x.prefill_ready(start, end, Some(ids), Some(count), start_pos, batch);
            ready <==> {
                &&& batch <= 32
                &&& batch > 0 ==> start_pos + batch <= m.config.context_length
                &&& batch == 0 ==> end + 1 < m.config.block_count
                &&& if start == 0 {
                    forall|i: int|
                        0 <= i < batch ==> (#[trigger] ids[i] + 1) * e <= m.token_embeddings
                } else {
                    batch * e <= count
                }
            }
        }),
{
    let x = m.slice(start, end);
    let e = m.config.embedding_length;
    assert forall|i: int| 0 <= i < batch implies x.has_token(#[trigger] ids[i]) == ((ids[i] + 1) * e
        <= m.token_embeddings) by {
        let token = ids[i];
        assert((token + 1) * e == token * e + e) by (nonlinear_arith);
    }
}

} // verus!
