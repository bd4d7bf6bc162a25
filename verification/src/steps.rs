//! The steps of a forward pass over a slice of the layers of a model.
//!
//! The shape of the model and the slice determine every step of a pass, with all offsets, lengths
//! and positions. The definitions here say which steps a pass has, and in which order.

use vstd::prelude::*;

verus! {

/// Largest number of tokens in one prefill pass.
pub const MAX_BATCH: usize = 32;

/// The shape of a model.
#[derive(Debug, Clone, Copy)]
pub struct ModelConfig {
    pub embedding_length: usize,
    pub kv_width: usize,
    pub block_count: usize,
    pub context_length: usize,
    pub attention_head_count: usize,
    pub attention_head_count_kv: usize,
    pub feed_forward_length: usize,
    pub vocab_size: usize,
    /// Number of elements that share one scale in quantized form.
    pub q8_block_size: usize,
}

/// Which projections of a layer have a bias.
#[derive(Debug, Clone, Copy)]
pub struct LayerBiases {
    pub wq: bool,
    pub wk: bool,
    pub wav: bool,
}

/// A buffer of the workspace.
#[derive(Debug, Clone, Copy, PartialEq, Eq, Structural)]
pub enum Buffer {
    Hidden,
    NormX,
    Q,
    K,
    V,
    AttnOutput,
    FfnGate,
    FfnUp,
    FfnGateUp,
}

/// A quantized matrix of a layer.
#[derive(Debug, Clone, Copy, PartialEq, Eq, Structural)]
pub enum Matrix {
    Wq,
    Wk,
    Wav,
    Wo,
    W1,
    W2,
    W3,
}

/// A norm of a layer.
#[derive(Debug, Clone, Copy, PartialEq, Eq, Structural)]
pub enum LayerNorm {
    Attention,
    Ffn,
}

/// One step of a forward pass.
#[derive(Debug, Clone, Copy, PartialEq, Eq, Structural)]
pub enum Step {
    /// Copy `len` elements of the embedding table, starting `from`, to a row of the hidden state,
    /// which starts at `to`.
    EmbedToken { row: usize, from: usize, to: usize, len: usize },
    /// Copy `tokens` received rows, `len` activations in all, to the hidden state.
    CopyActivations { tokens: usize, len: usize },
    /// Keep `tokens` rows of the hidden state, `len` elements in all, as the residual.
    SaveResidual { tokens: usize, len: usize },
    /// Normalise `tokens` rows of the hidden state with a norm of a layer.
    Norm { layer: usize, norm: LayerNorm, tokens: usize, width: usize },
    /// Quantize `tokens` rows of a buffer, with `scales` scales in all.
    Quantize { source: Buffer, tokens: usize, width: usize, scales: usize },
    /// Multiply the quantized rows with a matrix of a layer, `rows` by `cols`.
    Multiply {
        target: Buffer,
        layer: usize,
        matrix: Matrix,
        tokens: usize,
        rows: usize,
        cols: usize,
    },
    /// Add the bias of a projection to `tokens` rows of its buffer.
    AddBias { target: Buffer, layer: usize, tokens: usize, width: usize },
    /// Turn a row of queries or keys by its position.
    Rotate {
        target: Buffer,
        row: usize,
        start: usize,
        len: usize,
        position: usize,
        heads: usize,
    },
    /// Put a row of keys and values into the cache of a layer.
    StoreKv { layer: usize, position: usize, row: usize, start: usize, len: usize },
    /// Set `tokens` rows of the attention output, `len` elements in all, to zero.
    ClearAttention { tokens: usize, len: usize },
    /// Attend from one row over the cache of a layer up to a position.
    Attend {
        layer: usize,
        position: usize,
        row: usize,
        start: usize,
        len: usize,
        scores_start: usize,
        scores_len: usize,
    },
    /// Add `tokens` rows of the residual, `len` elements in all, to the hidden state.
    AddResidual { tokens: usize, len: usize },
    /// Combine gate and up projection of one row.
    Activate { row: usize, start: usize, len: usize },
    /// Normalise one row of the hidden state with the output norm.
    FinalNorm { row: usize, start: usize, len: usize },
    /// Quantize the normalised row.
    QuantizeFinal { width: usize },
    /// Multiply the quantized row with the output projection to get the logits.
    ProjectOutput { rows: usize, cols: usize },
    /// Multiply the normalised row with the embedding table to get the logits.
    ProjectEmbeddings { rows: usize, cols: usize },
}

/// What a pass hands on.
#[derive(Debug, Clone, Copy, PartialEq, Eq, Structural)]
pub enum PassOutput {
    /// The logits of the last token.
    Logits,
    /// The first `len` elements of the hidden state.
    Hidden { len: usize },
}

/// A [`SwarmPipelineExecutor`] as mathematical values.
#[verifier::ext_equal]
pub struct ExecutorView {
    pub config: ModelConfig,
    pub first_layer: int,
    pub layers: Seq<LayerBiases>,
    pub token_embeddings: usize,
    pub output_projection: bool,
}

impl ModelConfig {
    /// A workspace for the largest batch can be addressed.
    pub open spec fn fits(self) -> bool {
        &&& MAX_BATCH * self.embedding_length <= usize::MAX
        &&& MAX_BATCH * self.kv_width <= usize::MAX
        &&& MAX_BATCH * self.feed_forward_length <= usize::MAX
        &&& MAX_BATCH * self.context_length <= usize::MAX
        &&& self.q8_block_size > 0
    }

    /// Whether a workspace for the largest batch can be addressed.
    pub fn can_be_addressed(&self) -> (r: bool)
        ensures
            r == self.fits(),
    {
        let most: usize = usize::MAX / MAX_BATCH;
        self.embedding_length <= most && self.kv_width <= most && self.feed_forward_length <= most
            && self.context_length <= most && self.q8_block_size > 0
    }
}

/// The layers of `start..=end` that a model of `block_count` layers has, as a half-open range.
pub open spec fn slice_end(start: usize, end: usize, block_count: usize) -> int {
    if start > end || start >= block_count {
        start as int
    } else if end < block_count {
        end + 1
    } else {
        block_count as int
    }
}

impl ExecutorView {
    /// The shape fits the machine, and the slice lies in the model.
    pub open spec fn wf(self) -> bool {
        &&& self.config.fits()
        &&& 0 <= self.first_layer
        &&& self.layers.len() > 0 ==> self.first_layer + self.layers.len()
            <= self.config.block_count
    }

    /// Whether the node holds layer `layer`.
    pub open spec fn holds(self, layer: int) -> bool {
        self.first_layer <= layer < self.first_layer + self.layers.len()
    }

    /// The biases of a layer that the node holds.
    pub open spec fn biases(self, layer: int) -> LayerBiases {
        self.layers[layer - self.first_layer]
    }

    /// Whether the layers `start..=end` are the node's to run for `count` positions from `pos` on.
    pub open spec fn can_run(self, start: usize, end: usize, pos: usize, count: usize) -> bool {
        &&& self.config.block_count > 0
        &&& start <= end ==> {
            &&& self.holds(start as int)
            &&& self.holds(end as int)
            &&& count > 0 ==> pos + count <= self.config.context_length
        }
    }

    /// Whether the embedding table has a row for `token`.
    pub open spec fn has_token(self, token: u32) -> bool {
        token * self.config.embedding_length + self.config.embedding_length <= self.token_embeddings
    }

    /// What a decode pass can be asked for: where its input is there, it has the right size, and
    /// the layers and the position are the node's.
    pub open spec fn decode_ready(
        self,
        start: usize,
        end: usize,
        token: Option<u32>,
        activations: Option<nat>,
        pos: usize,
    ) -> bool {
        if start == 0 {
            token matches Some(t) ==> self.has_token(t) && self.can_run(start, end, pos, 1)
        } else {
            activations matches Some(n) ==> n == self.config.embedding_length && self.can_run(
                start,
                end,
                pos,
                1,
            )
        }
    }

    /// What a prefill pass can be asked for: where its input is there, it has the right size, the
    /// batch is not too large, and the layers and positions are the node's. The last node needs a
    /// token to take logits from.
    pub open spec fn prefill_ready(
        self,
        start: usize,
        end: usize,
        tokens: Option<Seq<u32>>,
        activations: Option<nat>,
        start_pos: usize,
        batch: usize,
    ) -> bool {
        let common = {
            &&& batch <= MAX_BATCH
            &&& self.can_run(start, end, start_pos, batch)
            &&& end == self.config.block_count - 1 ==> batch > 0
        };
        if start == 0 {
            tokens matches Some(ids) ==> {
                &&& ids.len() <= MAX_BATCH
                &&& forall|i: int| 0 <= i < ids.len() ==> self.has_token(#[trigger] ids[i])
                &&& common
            }
        } else {
            activations matches Some(n) ==> batch * self.config.embedding_length <= n && common
        }
    }

    /// The step that looks up `token` for the row `row`.
    pub open spec fn embed(self, token: u32, row: int) -> Step {
        let e = self.config.embedding_length;
        Step::EmbedToken {
            row: row as usize,
            from: (token * e) as usize,
            to: (row * e) as usize,
            len: e,
        }
    }
}

/// Scales for `tokens` rows of `width` elements.
pub open spec fn scales(c: ModelConfig, tokens: usize, width: usize) -> usize {
    (tokens * (width / c.q8_block_size)) as usize
}

/// The step that adds a bias, where there is one.
pub open spec fn optional_bias(present: bool, target: Buffer, layer: usize, width: usize) -> Seq<
    Step,
> {
    if present {
        seq![Step::AddBias { target, layer, tokens: 1, width }]
    } else {
        Seq::empty()
    }
}

/// The projections to queries, keys and values of one token.
pub open spec fn decode_projections(c: ModelConfig, b: LayerBiases, layer: usize) -> Seq<Step> {
    let e = c.embedding_length;
    let kv = c.kv_width;
    seq![
        Step::SaveResidual { tokens: 1, len: e },
        Step::Norm { layer, norm: LayerNorm::Attention, tokens: 1, width: e },
        Step::Quantize { source: Buffer::NormX, tokens: 1, width: e, scales: scales(c, 1, e) },
        Step::Multiply { target: Buffer::Q, layer, matrix: Matrix::Wq, tokens: 1, rows: e, cols: e },
    ] + optional_bias(b.wq, Buffer::Q, layer, e) + seq![
        Step::Multiply {
            target: Buffer::K,
            layer,
            matrix: Matrix::Wk,
            tokens: 1,
            rows: kv,
            cols: e,
        },
    ] + optional_bias(b.wk, Buffer::K, layer, kv) + seq![
        Step::Multiply {
            target: Buffer::V,
            layer,
            matrix: Matrix::Wav,
            tokens: 1,
            rows: kv,
            cols: e,
        },
    ] + optional_bias(b.wav, Buffer::V, layer, kv)
}

/// The attention of one token at `pos`.
pub open spec fn decode_attention(c: ModelConfig, layer: usize, pos: usize) -> Seq<Step> {
    let e = c.embedding_length;
    let kv = c.kv_width;
    seq![
        Step::Rotate {
            target: Buffer::Q,
            row: 0,
            start: 0,
            len: e,
            position: pos,
            heads: c.attention_head_count,
        },
        Step::Rotate {
            target: Buffer::K,
            row: 0,
            start: 0,
            len: kv,
            position: pos,
            heads: c.attention_head_count_kv,
        },
        Step::StoreKv { layer, position: pos, row: 0, start: 0, len: kv },
        Step::ClearAttention { tokens: 1, len: e },
        Step::Attend {
            layer,
            position: pos,
            row: 0,
            start: 0,
            len: e,
            scores_start: 0,
            scores_len: c.context_length,
        },
        Step::Quantize { source: Buffer::AttnOutput, tokens: 1, width: e, scales: scales(c, 1, e) },
        Step::Multiply {
            target: Buffer::Hidden,
            layer,
            matrix: Matrix::Wo,
            tokens: 1,
            rows: e,
            cols: e,
        },
        Step::AddResidual { tokens: 1, len: e },
    ]
}

/// The feed-forward part of a layer up to its two projections, for `tokens` rows.
pub open spec fn feed_forward_in(c: ModelConfig, layer: usize, tokens: usize) -> Seq<Step> {
    let e = c.embedding_length;
    let f = c.feed_forward_length;
    seq![
        Step::SaveResidual { tokens, len: (tokens * e) as usize },
        Step::Norm { layer, norm: LayerNorm::Ffn, tokens, width: e },
        Step::Quantize { source: Buffer::NormX, tokens, width: e, scales: scales(c, tokens, e) },
        Step::Multiply {
            target: Buffer::FfnGate,
            layer,
            matrix: Matrix::W1,
            tokens,
            rows: f,
            cols: e,
        },
        Step::Multiply { target: Buffer::FfnUp, layer, matrix: Matrix::W3, tokens, rows: f, cols: e },
    ]
}

/// The feed-forward part of a layer: one activation per row.
pub open spec fn activations(c: ModelConfig, tokens: usize) -> Seq<Step> {
    Seq::new(
        tokens as nat,
        |t: int|
            Step::Activate {
                row: t as usize,
                start: (t * c.feed_forward_length) as usize,
                len: c.feed_forward_length,
            },
    )
}

/// The feed-forward part of a layer from its activations on, for `tokens` rows.
pub open spec fn feed_forward_out(c: ModelConfig, layer: usize, tokens: usize) -> Seq<Step> {
    let e = c.embedding_length;
    let f = c.feed_forward_length;
    seq![
        Step::Quantize { source: Buffer::FfnGateUp, tokens, width: f, scales: scales(c, tokens, f) },
        Step::Multiply {
            target: Buffer::Hidden,
            layer,
            matrix: Matrix::W2,
            tokens,
            rows: e,
            cols: f,
        },
        Step::AddResidual { tokens, len: (tokens * e) as usize },
    ]
}

/// The feed-forward part of a layer for `tokens` rows.
pub open spec fn feed_forward(c: ModelConfig, layer: usize, tokens: usize) -> Seq<Step> {
    feed_forward_in(c, layer, tokens) + activations(c, tokens) + feed_forward_out(c, layer, tokens)
}

/// One layer of a decode pass.
pub open spec fn decode_layer(c: ModelConfig, b: LayerBiases, layer: usize, pos: usize) -> Seq<
    Step,
> {
    decode_projections(c, b, layer) + decode_attention(c, layer, pos) + feed_forward(c, layer, 1)
}

/// The layers `lo..hi` of a decode pass.
pub open spec fn decode_layers(x: ExecutorView, lo: int, hi: int, pos: usize) -> Seq<Step>
    decreases hi - lo,
{
    if hi <= lo {
        Seq::empty()
    } else {
        decode_layers(x, lo, hi - 1, pos) + decode_layer(
            x.config,
            x.biases(hi - 1),
            (hi - 1) as usize,
            pos,
        )
    }
}

/// The projections to queries, keys and values of a batch.
pub open spec fn prefill_projections(c: ModelConfig, layer: usize, tokens: usize) -> Seq<Step> {
    let e = c.embedding_length;
    let kv = c.kv_width;
    seq![
        Step::SaveResidual { tokens, len: (tokens * e) as usize },
        Step::Norm { layer, norm: LayerNorm::Attention, tokens, width: e },
        Step::Quantize { source: Buffer::NormX, tokens, width: e, scales: scales(c, tokens, e) },
        Step::Multiply { target: Buffer::Q, layer, matrix: Matrix::Wq, tokens, rows: e, cols: e },
        Step::AddBias { target: Buffer::Q, layer, tokens, width: e },
        Step::Multiply { target: Buffer::K, layer, matrix: Matrix::Wk, tokens, rows: kv, cols: e },
        Step::AddBias { target: Buffer::K, layer, tokens, width: kv },
        Step::Multiply { target: Buffer::V, layer, matrix: Matrix::Wav, tokens, rows: kv, cols: e },
        Step::AddBias { target: Buffer::V, layer, tokens, width: kv },
    ]
}

/// Turning and caching the row `t` of a batch that starts at `start_pos`.
pub open spec fn prefill_row(c: ModelConfig, layer: usize, start_pos: usize, t: int) -> Seq<Step> {
    let e = c.embedding_length;
    let kv = c.kv_width;
    let pos = (start_pos + t) as usize;
    seq![
        Step::Rotate {
            target: Buffer::Q,
            row: t as usize,
            start: (t * e) as usize,
            len: e,
            position: pos,
            heads: c.attention_head_count,
        },
        Step::Rotate {
            target: Buffer::K,
            row: t as usize,
            start: (t * kv) as usize,
            len: kv,
            position: pos,
            heads: c.attention_head_count_kv,
        },
        Step::StoreKv { layer, position: pos, row: t as usize, start: (t * kv) as usize, len: kv },
    ]
}

/// Turning and caching the first `tokens` rows of a batch, in order.
pub open spec fn prefill_rows(c: ModelConfig, layer: usize, start_pos: usize, tokens: int) -> Seq<
    Step,
>
    decreases tokens,
{
    if tokens <= 0 {
        Seq::empty()
    } else {
        prefill_rows(c, layer, start_pos, tokens - 1) + prefill_row(c, layer, start_pos, tokens - 1)
    }
}

/// The attention of each row of a batch, in order.
pub open spec fn prefill_attends(c: ModelConfig, layer: usize, start_pos: usize, tokens: usize) -> Seq<
    Step,
> {
    Seq::new(
        tokens as nat,
        |t: int|
            Step::Attend {
                layer,
                position: (start_pos + t) as usize,
                row: t as usize,
                start: (t * c.embedding_length) as usize,
                len: c.embedding_length,
                scores_start: (t * c.context_length) as usize,
                scores_len: c.context_length,
            },
    )
}

/// The attention of a batch that starts at `start_pos`.
pub open spec fn prefill_attention(c: ModelConfig, layer: usize, start_pos: usize, tokens: usize) -> Seq<
    Step,
> {
    let e = c.embedding_length;
    prefill_rows(c, layer, start_pos, tokens as int) + seq![
        Step::ClearAttention { tokens, len: (tokens * e) as usize },
    ] + prefill_attends(c, layer, start_pos, tokens) + seq![
        Step::Quantize {
            source: Buffer::AttnOutput,
            tokens,
            width: e,
            scales: scales(c, tokens, e),
        },
        Step::Multiply {
            target: Buffer::Hidden,
            layer,
            matrix: Matrix::Wo,
            tokens,
            rows: e,
            cols: e,
        },
        Step::AddResidual { tokens, len: (tokens * e) as usize },
    ]
}

/// One layer of a prefill pass.
pub open spec fn prefill_layer(c: ModelConfig, layer: usize, start_pos: usize, tokens: usize) -> Seq<
    Step,
> {
    prefill_projections(c, layer, tokens) + prefill_attention(c, layer, start_pos, tokens)
        + feed_forward(c, layer, tokens)
}

/// The layers `lo..hi` of a prefill pass.
pub open spec fn prefill_layers(
    c: ModelConfig,
    lo: int,
    hi: int,
    start_pos: usize,
    tokens: usize,
) -> Seq<Step>
    decreases hi - lo,
{
    if hi <= lo {
        Seq::empty()
    } else {
        prefill_layers(c, lo, hi - 1, start_pos, tokens) + prefill_layer(
            c,
            (hi - 1) as usize,
            start_pos,
            tokens,
        )
    }
}

/// The embedding lookups of a batch.
pub open spec fn embeds(x: ExecutorView, ids: Seq<u32>) -> Seq<Step> {
    Seq::new(ids.len(), |i: int| x.embed(ids[i], i))
}

/// The steps from the hidden state of one row to logits.
pub open spec fn logits_steps(x: ExecutorView, row: int) -> Seq<Step> {
    let e = x.config.embedding_length;
    let v = x.config.vocab_size;
    let norm = Step::FinalNorm { row: row as usize, start: (row * e) as usize, len: e };
    if x.output_projection {
        seq![norm, Step::QuantizeFinal { width: e }, Step::ProjectOutput { rows: v, cols: e }]
    } else {
        seq![norm, Step::ProjectEmbeddings { rows: v, cols: e }]
    }
}

/// Whether a slice that ends with layer `end` is the last of the model.
pub open spec fn is_last(x: ExecutorView, end: usize) -> bool {
    end == x.config.block_count - 1
}

/// How a pass ends: with logits where the slice is the last of the model.
pub open spec fn final_steps(x: ExecutorView, end: usize, row: int) -> Seq<Step> {
    if is_last(x, end) {
        logits_steps(x, row)
    } else {
        Seq::empty()
    }
}

/// What a pass over `tokens` rows hands on.
pub open spec fn pass_output(x: ExecutorView, end: usize, tokens: usize) -> PassOutput {
    if is_last(x, end) {
        PassOutput::Logits
    } else {
        PassOutput::Hidden { len: (tokens * x.config.embedding_length) as usize }
    }
}

/// All steps of a decode pass that has its input.
pub open spec fn decode_steps(
    x: ExecutorView,
    start: usize,
    end: usize,
    token: Option<u32>,
    pos: usize,
) -> Seq<Step> {
    let input = if start == 0 {
        x.embed(token->0, 0)
    } else {
        Step::CopyActivations { tokens: 1, len: x.config.embedding_length }
    };
    seq![input] + decode_layers(x, start as int, end + 1, pos) + final_steps(x, end, 0)
}

/// All steps of a prefill pass that has its input.
pub open spec fn prefill_steps(
    x: ExecutorView,
    start: usize,
    end: usize,
    tokens: Option<Seq<u32>>,
    start_pos: usize,
    batch: usize,
) -> Seq<Step> {
    let input = if start == 0 {
        embeds(x, tokens->0)
    } else {
        seq![Step::CopyActivations { tokens: batch, len: (batch * x.config.embedding_length) as usize }]
    };
    input + prefill_layers(x.config, start as int, end + 1, start_pos, batch) + final_steps(
        x,
        end,
        batch - 1,
    )
}

/// Every shape can be run whose rows are narrow enough that 32 of them can be addressed, and whose
/// elements share scales at all.
pub proof fn lemma_narrow_shapes_fit(c: ModelConfig)
    ensures
        c.fits() <==> {
            &&& 32 * c.embedding_length <= usize::MAX
            &&& 32 * c.kv_width <= usize::MAX
            &&& 32 * c.feed_forward_length <= usize::MAX
            &&& 32 * c.context_length <= usize::MAX
            &&& c.q8_block_size > 0
        },
{
}

} // verus!
