//! What one node computes in a forward pass.
//!
//! A node holds a contiguous slice of the layers of a model. For a pass it works out, from the
//! shape of the model and its slice, every step of the computation. The numeric kernels then carry
//! the steps out in order.

use crate::steps::{Buffer, ExecutorView, LayerBiases, LayerNorm, MAX_BATCH, Matrix, ModelConfig, PassOutput, Step, activations, decode_attention, decode_layers, decode_projections, decode_steps, embeds, feed_forward, feed_forward_in, feed_forward_out, logits_steps, pass_output, prefill_attends, prefill_attention, prefill_layers, prefill_projections, prefill_row, prefill_rows, prefill_steps, slice_end};
use crate::text::{append_number, decimal};
use vstd::prelude::*;

verus! {

/// What of the weights decides which steps a pass takes.
#[derive(Debug)]
pub struct WeightLayout {
    /// Number of elements of the token embedding table.
    pub token_embeddings: usize,
    /// The biases of every layer of the model.
    pub layers: Vec<LayerBiases>,
    /// Whether the model has an output projection of its own.
    pub output_projection: bool,
}

/// The steps of a pass and what it hands on.
#[derive(Debug)]
pub struct PassPlan {
    pub steps: Vec<Step>,
    pub output: PassOutput,
}

/// Why a pass cannot start.
#[derive(Debug, Clone, Copy, PartialEq, Eq, Structural)]
pub enum PipelineError {
    /// The first node got no token to decode.
    MissingTokenId,
    /// The first node got no tokens to fill in.
    MissingTokenIds,
    /// A later node, whose slice starts at this layer, got no activations.
    MissingActivations(usize),
}

impl PipelineError {
    pub open spec fn text(self) -> Seq<char> {
        match self {
            PipelineError::MissingTokenId => "Node 0 requires a token_id input"@,
            PipelineError::MissingTokenIds => "Node 0 requires token_ids input during prefill"@,
            PipelineError::MissingActivations(start) => "Intermediate layer range starting at "@
                + decimal(start as nat) + " requires input_activations"@,
        }
    }

    /// The error in words.
    pub fn message(&self) -> (r: String)
        ensures
            r@ == self.text(),
    {
        match self {
            PipelineError::MissingTokenId => "Node 0 requires a token_id input".to_owned(),
            PipelineError::MissingTokenIds => {
                "Node 0 requires token_ids input during prefill".to_owned()
            },
            PipelineError::MissingActivations(start) => {
                let mut r = "Intermediate layer range starting at ".to_owned();
                append_number(&mut r, *start);
                r.append(" requires input_activations");
                r
            },
        }
    }
}

/// The slice of a model that one node holds, with what its passes depend on.
#[derive(Debug)]
pub struct SwarmPipelineExecutor {
    pub config: ModelConfig,
    /// First layer of the slice.
    pub first_layer: usize,
    /// The biases of the layers of the slice: only these layers are held and cached.
    pub layers: Vec<LayerBiases>,
    /// Number of elements of the token embedding table.
    pub token_embeddings: usize,
    /// Whether the model has an output projection of its own.
    pub output_projection: bool,
}

impl View for SwarmPipelineExecutor {
    type V = ExecutorView;

    open spec fn view(&self) -> ExecutorView {
        ExecutorView {
            config: self.config,
            first_layer: self.first_layer as int,
            layers: self.layers@,
            token_embeddings: self.token_embeddings,
            output_projection: self.output_projection,
        }
    }
}

/// A product with a smaller first factor is not larger.
proof fn lemma_product_bound(a: int, b: int, c: int)
    requires
        0 <= a <= b,
        0 <= c,
    ensures
        0 <= a * c <= b * c,
{
    assert(0 <= a * c <= b * c) by (nonlinear_arith)
        requires
            0 <= a <= b,
            0 <= c,
    ;
}

/// A batch of at most [`MAX_BATCH`] rows can be addressed, with its scales.
proof fn lemma_batch_bounds(c: ModelConfig, t: int)
    requires
        c.fits(),
        0 <= t <= MAX_BATCH,
    ensures
        0 <= t * c.embedding_length <= usize::MAX,
        0 <= t * c.kv_width <= usize::MAX,
        0 <= t * c.feed_forward_length <= usize::MAX,
        0 <= t * c.context_length <= usize::MAX,
        0 <= t * (c.embedding_length / c.q8_block_size) <= usize::MAX,
        0 <= t * (c.feed_forward_length / c.q8_block_size) <= usize::MAX,
{
    lemma_product_bound(t, MAX_BATCH as int, c.embedding_length as int);
    lemma_product_bound(t, MAX_BATCH as int, c.kv_width as int);
    lemma_product_bound(t, MAX_BATCH as int, c.feed_forward_length as int);
    lemma_product_bound(t, MAX_BATCH as int, c.context_length as int);
    let q = c.q8_block_size as int;
    lemma_quotient(c.embedding_length as int, q);
    lemma_quotient(c.feed_forward_length as int, q);
    lemma_product_bound(t, MAX_BATCH as int, c.embedding_length as int / q);
    lemma_product_bound(t, MAX_BATCH as int, c.feed_forward_length as int / q);
}

proof fn lemma_quotient(x: int, q: int)
    requires
        0 <= x,
        0 < q,
    ensures
        0 <= x / q <= x,
{
    assert(0 <= x / q <= x) by (nonlinear_arith)
        requires
            0 <= x,
            0 < q,
    ;
}

/// Appends the projections of one token.
fn push_decode_projections(steps: &mut Vec<Step>, c: &ModelConfig, b: &LayerBiases, layer: usize)
    requires
        c.fits(),
    ensures
        final(steps)@ == old(steps)@ + decode_projections(*c, *b, layer),
{
    proof {
        lemma_batch_bounds(*c, 1);
    }
    let e: usize = c.embedding_length;
    let kv: usize = c.kv_width;
    let ghost before = steps@;
    steps.push(Step::SaveResidual { tokens: 1, len: e });
    steps.push(Step::Norm { layer, norm: LayerNorm::Attention, tokens: 1, width: e });
    steps.push(
        Step::Quantize {
            source: Buffer::NormX,
            tokens: 1,
            width: e,
            scales: e / c.q8_block_size,
        },
    );
    steps.push(
        Step::Multiply {
            target: Buffer::Q,
            layer,
            matrix: Matrix::Wq,
            tokens: 1,
            rows: e,
            cols: e,
        },
    );
    if b.wq {
        steps.push(Step::AddBias { target: Buffer::Q, layer, tokens: 1, width: e });
    }
    steps.push(
        Step::Multiply {
            target: Buffer::K,
            layer,
            matrix: Matrix::Wk,
            tokens: 1,
            rows: kv,
            cols: e,
        },
    );
    if b.wk {
        steps.push(Step::AddBias { target: Buffer::K, layer, tokens: 1, width: kv });
    }
    steps.push(
        Step::Multiply {
            target: Buffer::V,
            layer,
            matrix: Matrix::Wav,
            tokens: 1,
            rows: kv,
            cols: e,
        },
    );
    if b.wav {
        steps.push(Step::AddBias { target: Buffer::V, layer, tokens: 1, width: kv });
    }
    assert(steps@ =~= before + decode_projections(*c, *b, layer));
}

/// Appends the attention of one token.
fn push_decode_attention(steps: &mut Vec<Step>, c: &ModelConfig, layer: usize, pos: usize)
    requires
        c.fits(),
    ensures
        final(steps)@ == old(steps)@ + decode_attention(*c, layer, pos),
{
    proof {
        lemma_batch_bounds(*c, 1);
    }
    let e: usize = c.embedding_length;
    let kv: usize = c.kv_width;
    let ghost before = steps@;
    steps.push(
        Step::Rotate {
            target: Buffer::Q,
            row: 0,
            start: 0,
            len: e,
            position: pos,
            heads: c.attention_head_count,
        },
    );
    steps.push(
        Step::Rotate {
            target: Buffer::K,
            row: 0,
            start: 0,
            len: kv,
            position: pos,
            heads: c.attention_head_count_kv,
        },
    );
    steps.push(Step::StoreKv { layer, position: pos, row: 0, start: 0, len: kv });
    steps.push(Step::ClearAttention { tokens: 1, len: e });
    steps.push(
        Step::Attend {
            layer,
            position: pos,
            row: 0,
            start: 0,
            len: e,
            scores_start: 0,
            scores_len: c.context_length,
        },
    );
    steps.push(
        Step::Quantize {
            source: Buffer::AttnOutput,
            tokens: 1,
            width: e,
            scales: e / c.q8_block_size,
        },
    );
    steps.push(
        Step::Multiply {
            target: Buffer::Hidden,
            layer,
            matrix: Matrix::Wo,
            tokens: 1,
            rows: e,
            cols: e,
        },
    );
    steps.push(Step::AddResidual { tokens: 1, len: e });
    assert(steps@ =~= before + decode_attention(*c, layer, pos));
}

/// Appends the feed-forward part of a layer.
fn push_feed_forward(steps: &mut Vec<Step>, c: &ModelConfig, layer: usize, tokens: usize)
    requires
        c.fits(),
        tokens <= MAX_BATCH,
    ensures
        final(steps)@ == old(steps)@ + feed_forward(*c, layer, tokens),
{
    proof {
        lemma_batch_bounds(*c, tokens as int);
    }
    let e: usize = c.embedding_length;
    let f: usize = c.feed_forward_length;
    let ghost before = steps@;
    steps.push(Step::SaveResidual { tokens, len: tokens * e });
    steps.push(Step::Norm { layer, norm: LayerNorm::Ffn, tokens, width: e });
    steps.push(
        Step::Quantize {
            source: Buffer::NormX,
            tokens,
            width: e,
            scales: tokens * (e / c.q8_block_size),
        },
    );
    steps.push(
        Step::Multiply {
            target: Buffer::FfnGate,
            layer,
            matrix: Matrix::W1,
            tokens,
            rows: f,
            cols: e,
        },
    );
    steps.push(
        Step::Multiply {
            target: Buffer::FfnUp,
            layer,
            matrix: Matrix::W3,
            tokens,
            rows: f,
            cols: e,
        },
    );
    assert(steps@ =~= before + feed_forward_in(*c, layer, tokens));
    let ghost middle = steps@;
    let mut t: usize = 0;
    while t < tokens
        invariant
            t <= tokens <= MAX_BATCH,
            c.fits(),
            f == c.feed_forward_length,
            steps@ =~= middle + activations(*c, tokens).take(t as int),
        decreases tokens - t,
    {
        proof {
            lemma_batch_bounds(*c, t as int);
        }
        steps.push(Step::Activate { row: t, start: t * f, len: f });
        t = t + 1;
    }
    assert(activations(*c, tokens).take(tokens as int) =~= activations(*c, tokens));
    let ghost active = steps@;
    steps.push(
        Step::Quantize {
            source: Buffer::FfnGateUp,
            tokens,
            width: f,
            scales: tokens * (f / c.q8_block_size),
        },
    );
    steps.push(
        Step::Multiply {
            target: Buffer::Hidden,
            layer,
            matrix: Matrix::W2,
            tokens,
            rows: e,
            cols: f,
        },
    );
    steps.push(Step::AddResidual { tokens, len: tokens * e });
    assert(steps@ =~= active + feed_forward_out(*c, layer, tokens));
    assert(steps@ =~= before + feed_forward(*c, layer, tokens));
}

/// Appends the projections of a batch.
fn push_prefill_projections(steps: &mut Vec<Step>, c: &ModelConfig, layer: usize, tokens: usize)
    requires
        c.fits(),
        tokens <= MAX_BATCH,
    ensures
        final(steps)@ == old(steps)@ + prefill_projections(*c, layer, tokens),
{
    proof {
        lemma_batch_bounds(*c, tokens as int);
    }
    let e: usize = c.embedding_length;
    let kv: usize = c.kv_width;
    let ghost before = steps@;
    steps.push(Step::SaveResidual { tokens, len: tokens * e });
    steps.push(Step::Norm { layer, norm: LayerNorm::Attention, tokens, width: e });
    steps.push(
        Step::Quantize {
            source: Buffer::NormX,
            tokens,
            width: e,
            scales: tokens * (e / c.q8_block_size),
        },
    );
    steps.push(
        Step::Multiply { target: Buffer::Q, layer, matrix: Matrix::Wq, tokens, rows: e, cols: e },
    );
    steps.push(Step::AddBias { target: Buffer::Q, layer, tokens, width: e });
    steps.push(
        Step::Multiply { target: Buffer::K, layer, matrix: Matrix::Wk, tokens, rows: kv, cols: e },
    );
    steps.push(Step::AddBias { target: Buffer::K, layer, tokens, width: kv });
    steps.push(
        Step::Multiply { target: Buffer::V, layer, matrix: Matrix::Wav, tokens, rows: kv, cols: e },
    );
    steps.push(Step::AddBias { target: Buffer::V, layer, tokens, width: kv });
    assert(steps@ =~= before + prefill_projections(*c, layer, tokens));
}

/// Appends the attention of a batch.
fn push_prefill_attention(
    steps: &mut Vec<Step>,
    c: &ModelConfig,
    layer: usize,
    start_pos: usize,
    tokens: usize,
)
    requires
        c.fits(),
        tokens <= MAX_BATCH,
        start_pos + tokens <= usize::MAX,
    ensures
        final(steps)@ == old(steps)@ + prefill_attention(*c, layer, start_pos, tokens),
{
    let e: usize = c.embedding_length;
    let kv: usize = c.kv_width;
    let ctx: usize = c.context_length;
    let ghost before = steps@;
    let mut t: usize = 0;
    while t < tokens
        invariant
            t <= tokens <= MAX_BATCH,
            c.fits(),
            e == c.embedding_length,
            kv == c.kv_width,
            start_pos + tokens <= usize::MAX,
            steps@ =~= before + prefill_rows(*c, layer, start_pos, t as int),
        decreases tokens - t,
    {
        proof {
            lemma_batch_bounds(*c, t as int);
        }
        let pos: usize = start_pos + t;
        let ghost rows = steps@;
        steps.push(
            Step::Rotate {
                target: Buffer::Q,
                row: t,
                start: t * e,
                len: e,
                position: pos,
                heads: c.attention_head_count,
            },
        );
        steps.push(
            Step::Rotate {
                target: Buffer::K,
                row: t,
                start: t * kv,
                len: kv,
                position: pos,
                heads: c.attention_head_count_kv,
            },
        );
        steps.push(Step::StoreKv { layer, position: pos, row: t, start: t * kv, len: kv });
        assert(steps@ =~= rows + prefill_row(*c, layer, start_pos, t as int));
        t = t + 1;
    }
    proof {
        lemma_batch_bounds(*c, tokens as int);
    }
    steps.push(Step::ClearAttention { tokens, len: tokens * e });
    let ghost middle = steps@;
    t = 0;
    while t < tokens
        invariant
            t <= tokens <= MAX_BATCH,
            c.fits(),
            e == c.embedding_length,
            ctx == c.context_length,
            start_pos + tokens <= usize::MAX,
            steps@ =~= middle + prefill_attends(*c, layer, start_pos, tokens).take(t as int),
        decreases tokens - t,
    {
        proof {
            lemma_batch_bounds(*c, t as int);
        }
        steps.push(
            Step::Attend {
                layer,
                position: start_pos + t,
                row: t,
                start: t * e,
                len: e,
                scores_start: t * ctx,
                scores_len: ctx,
            },
        );
        t = t + 1;
    }
    assert(prefill_attends(*c, layer, start_pos, tokens).take(tokens as int) =~= prefill_attends(
        *c,
        layer,
        start_pos,
        tokens,
    ));
    steps.push(
        Step::Quantize {
            source: Buffer::AttnOutput,
            tokens,
            width: e,
            scales: tokens * (e / c.q8_block_size),
        },
    );
    steps.push(
        Step::Multiply {
            target: Buffer::Hidden,
            layer,
            matrix: Matrix::Wo,
            tokens,
            rows: e,
            cols: e,
        },
    );
    steps.push(Step::AddResidual { tokens, len: tokens * e });
    assert(steps@ =~= before + prefill_attention(*c, layer, start_pos, tokens));
}

/// Appends the steps from the hidden state of one row to logits.
fn push_logits(steps: &mut Vec<Step>, x: &SwarmPipelineExecutor, row: usize)
    requires
        row * x.config.embedding_length <= usize::MAX,
    ensures
        final(steps)@ == old(steps)@ + logits_steps(x@, row as int),
{
    let e: usize = x.config.embedding_length;
    let v: usize = x.config.vocab_size;
    let ghost before = steps@;
    assert(0 <= row * e) by (nonlinear_arith)
        requires
            0 <= row,
            0 <= e,
    ;
    steps.push(Step::FinalNorm { row, start: row * e, len: e });
    if x.output_projection {
        steps.push(Step::QuantizeFinal { width: e });
        steps.push(Step::ProjectOutput { rows: v, cols: e });
    } else {
        steps.push(Step::ProjectEmbeddings { rows: v, cols: e });
    }
    assert(steps@ =~= before + logits_steps(x@, row as int));
}

/// The executor for the layers `start..=end` of a model.
pub open spec fn executor_for(
    config: ModelConfig,
    layers: Seq<LayerBiases>,
    token_embeddings: usize,
    output_projection: bool,
    start: usize,
    end: usize,
) -> ExecutorView {
    let stop = slice_end(start, end, config.block_count);
    ExecutorView {
        config,
        first_layer: start as int,
        layers: Seq::new((stop - start) as nat, |i: int| layers[start + i]),
        token_embeddings,
        output_projection,
    }
}

impl SwarmPipelineExecutor {
    /// An executor for the layers `start_layer..=end_layer` of a model: of the layers it keeps
    /// those of its slice only.
    pub fn new(
        config: ModelConfig,
        weights: WeightLayout,
        start_layer: usize,
        end_layer: usize,
    ) -> (r: Self)
        requires
            config.fits(),
            weights.layers@.len() == config.block_count,
        ensures
            r@ == executor_for(
                config,
                weights.layers@,
                weights.token_embeddings,
                weights.output_projection,
                start_layer,
                end_layer,
            ),
            r@.wf(),
    {
        let mut layers: Vec<LayerBiases> = Vec::new();
        if start_layer <= end_layer {
            let mut l: usize = start_layer;
            while l < weights.layers.len() && l <= end_layer
                invariant
                    start_layer <= l,
                    start_layer <= end_layer,
                    weights.layers@.len() == config.block_count,
                    l == start_layer || l <= slice_end(start_layer, end_layer, config.block_count),
                    layers@ =~= Seq::new(
                        (l - start_layer) as nat,
                        |i: int| weights.layers@[start_layer + i],
                    ),
                decreases weights.layers@.len() - l,
            {
                layers.push(weights.layers[l]);
                l = l + 1;
            }
        }
        let r = SwarmPipelineExecutor {
            config,
            first_layer: start_layer,
            layers,
            token_embeddings: weights.token_embeddings,
            output_projection: weights.output_projection,
        };
        assert(r@.layers =~= executor_for(
            config,
            weights.layers@,
            weights.token_embeddings,
            weights.output_projection,
            start_layer,
            end_layer,
        ).layers);
        r
    }

    /// How many layers the node holds, and caches keys and values for.
    pub fn held_layers(&self) -> (n: usize)
        ensures
            n == self@.layers.len(),
    {
        self.layers.len()
    }

    /// Where a layer stands among those that the node holds.
    pub fn slot(&self, layer: usize) -> (slot: usize)
        requires
            self@.holds(layer as int),
        ensures
            slot == layer - self@.first_layer,
            slot < self@.layers.len(),
    {
        layer - self.first_layer
    }

    /// Whether the embedding table has a row for `token`.
    fn has_token(&self, token: u32) -> (r: bool)
        ensures
            r == self@.has_token(token),
    {
        let e: usize = self.config.embedding_length;
        proof {
            lemma_product_bound(token as int, u32::MAX as int, e as int);
            lemma_product_bound(e as int, usize::MAX as int, u32::MAX as int);
            assert(u32::MAX as int * e as int == e as int * u32::MAX as int) by (nonlinear_arith);
        }
        token as u128 * e as u128 + e as u128 <= self.token_embeddings as u128
    }

    /// Whether the layers `start..=end` are the node's to run for `count` positions from `pos` on.
    fn can_run(&self, start: usize, end: usize, pos: usize, count: usize) -> (r: bool)
        ensures
            r == self@.can_run(start, end, pos, count),
    {
        if self.config.block_count == 0 {
            return false;
        }
        if start > end {
            return true;
        }
        let n: usize = self.layers.len();
        let first: usize = self.first_layer;
        let ctx: usize = self.config.context_length;
        start >= first && end >= first && start - first < n && end - first < n && (count == 0 || (pos
            <= ctx && count <= ctx - pos))
    }

    /// Whether [`SwarmPipelineExecutor::run_decode_range`] can be asked for this pass.
    pub fn can_decode(
        &self,
        start_layer: usize,
        end_layer: usize,
        token_id: Option<u32>,
        input_activations: Option<&[u32]>,
        pos: usize,
    ) -> (r: bool)
        ensures
            r == self@.decode_ready(
                start_layer,
                end_layer,
                token_id,
                activation_count(input_activations),
                pos,
            ),
    {
        if start_layer == 0 {
            match token_id {
                Some(t) => self.has_token(t) && self.can_run(start_layer, end_layer, pos, 1),
                None => true,
            }
        } else {
            match input_activations {
                Some(a) => a.len() == self.config.embedding_length && self.can_run(
                    start_layer,
                    end_layer,
                    pos,
                    1,
                ),
                None => true,
            }
        }
    }

    /// Whether [`SwarmPipelineExecutor::run_prefill_range`] can be asked for this pass.
    pub fn can_prefill(
        &self,
        start_layer: usize,
        end_layer: usize,
        token_ids: Option<&[u32]>,
        input_activations: Option<&[u32]>,
        start_pos: usize,
        batch_size: usize,
    ) -> (r: bool)
        requires
            self@.wf(),
        ensures
            r == self@.prefill_ready(
                start_layer,
                end_layer,
                token_seq(token_ids),
                activation_count(input_activations),
                start_pos,
                batch_size,
            ),
    {
        let common: bool = batch_size <= MAX_BATCH && self.can_run(
            start_layer,
            end_layer,
            start_pos,
            batch_size,
        ) && (end_layer != self.config.block_count - 1 || batch_size > 0);
        if start_layer == 0 {
            match token_ids {
                Some(ids) => {
                    if ids.len() > MAX_BATCH {
                        return false;
                    }
                    let mut i: usize = 0;
                    while i < ids.len()
                        invariant
                            start_layer == 0,
                            token_ids == Some(ids),
                            i <= ids@.len(),
                            forall|j: int| 0 <= j < i ==> self@.has_token(#[trigger] ids@[j]),
                        decreases ids@.len() - i,
                    {
                        if !self.has_token(ids[i]) {
                            assert(!self@.has_token(ids@[i as int]));
                            return false;
                        }
                        i = i + 1;
                    }
                    common
                },
                None => true,
            }
        } else {
            match input_activations {
                Some(a) => {
                    if !common {
                        return false;
                    }
                    proof {
                        lemma_batch_bounds(self.config, batch_size as int);
                    }
                    batch_size * self.config.embedding_length <= a.len()
                },
                None => true,
            }
        }
    }

    /// The steps of the layers `start_layer..=end_layer` for the decode pass of a single token.
    pub fn run_decode_range(
        &self,
        start_layer: usize,
        end_layer: usize,
        token_id: Option<u32>,
        input_activations: Option<&[u32]>,
        pos: usize,
    ) -> (r: Result<PassPlan, PipelineError>)
        requires
            self@.wf(),
            self@.decode_ready(
                start_layer,
                end_layer,
                token_id,
                activation_count(input_activations),
                pos,
            ),
        ensures
            match r {
                Ok(plan) => {
                    &&& start_layer == 0 ==> token_id is Some
                    &&& start_layer != 0 ==> input_activations is Some
                    &&& plan.steps@ == decode_steps(self@, start_layer, end_layer, token_id, pos)
                    &&& plan.output == pass_output(self@, end_layer, 1)
                },
                Err(PipelineError::MissingTokenId) => start_layer == 0 && token_id is None,
                Err(PipelineError::MissingTokenIds) => false,
                Err(PipelineError::MissingActivations(start)) => {
                    &&& start_layer != 0
                    &&& input_activations is None
                    &&& start == start_layer
                },
            },
    {
        let e: usize = self.config.embedding_length;
        let mut steps: Vec<Step> = Vec::new();
        if start_layer == 0 {
            let tid: u32 = match token_id {
                Some(tid) => tid,
                None => return Err(PipelineError::MissingTokenId),
            };
            assert(0 <= tid * e) by (nonlinear_arith)
                requires
                    0 <= tid,
                    0 <= e,
            ;
            steps.push(Step::EmbedToken { row: 0, from: tid as usize * e, to: 0, len: e });
        } else {
            if input_activations.is_none() {
                return Err(PipelineError::MissingActivations(start_layer));
            }
            steps.push(Step::CopyActivations { tokens: 1, len: e });
        }
        let ghost input = steps@;

        if start_layer <= end_layer {
            let mut layer: usize = start_layer;
            while layer <= end_layer
                invariant
                    start_layer <= layer <= end_layer + 1,
                    start_layer <= end_layer,
                    self@.wf(),
                    self@.holds(start_layer as int),
                    self@.holds(end_layer as int),
                    end_layer < usize::MAX,
                    steps@ =~= input + decode_layers(self@, start_layer as int, layer as int, pos),
                decreases end_layer + 1 - layer,
            {
                let b: LayerBiases = self.layers[layer - self.first_layer];
                push_decode_projections(&mut steps, &self.config, &b, layer);
                push_decode_attention(&mut steps, &self.config, layer, pos);
                push_feed_forward(&mut steps, &self.config, layer, 1);
                layer = layer + 1;
            }
        }
        assert(steps@ =~= input + decode_layers(self@, start_layer as int, end_layer + 1, pos));

        if end_layer == self.config.block_count - 1 {
            push_logits(&mut steps, self, 0);
            return Ok(PassPlan { steps, output: PassOutput::Logits });
        }
        assert(steps@ + Seq::<Step>::empty() =~= steps@);
        Ok(PassPlan { steps, output: PassOutput::Hidden { len: e } })
    }

    /// The steps of the layers `start_layer..=end_layer` for the prefill pass of a batch.
    pub fn run_prefill_range(
        &self,
        start_layer: usize,
        end_layer: usize,
        token_ids: Option<&[u32]>,
        input_activations: Option<&[u32]>,
        start_pos: usize,
        batch_size: usize,
    ) -> (r: Result<PassPlan, PipelineError>)
        requires
            self@.wf(),
            self@.prefill_ready(
                start_layer,
                end_layer,
                token_seq(token_ids),
                activation_count(input_activations),
                start_pos,
                batch_size,
            ),
        ensures
            match r {
                Ok(plan) => {
                    &&& start_layer == 0 ==> token_ids is Some
                    &&& start_layer != 0 ==> input_activations is Some
                    &&& plan.steps@ == prefill_steps(
                        self@,
                        start_layer,
                        end_layer,
                        token_seq(token_ids),
                        start_pos,
                        batch_size,
                    )
                    &&& plan.output == pass_output(self@, end_layer, batch_size)
                },
                Err(PipelineError::MissingTokenId) => false,
                Err(PipelineError::MissingTokenIds) => start_layer == 0 && token_ids is None,
                Err(PipelineError::MissingActivations(start)) => {
                    &&& start_layer != 0
                    &&& input_activations is None
                    &&& start == start_layer
                },
            },
    {
        let e: usize = self.config.embedding_length;
        let mut steps: Vec<Step> = Vec::new();
        if start_layer == 0 {
            let ids = match token_ids {
                Some(ids) => ids,
                None => return Err(PipelineError::MissingTokenIds),
            };
            let mut i: usize = 0;
            while i < ids.len()
                invariant
                    i <= ids@.len() <= MAX_BATCH,
                    e == self.config.embedding_length,
                    self@.wf(),
                    forall|j: int| 0 <= j < ids@.len() ==> self@.has_token(#[trigger] ids@[j]),
                    steps@ =~= embeds(self@, ids@).take(i as int),
                decreases ids@.len() - i,
            {
                let id: u32 = ids[i];
                proof {
                    assert(self@.has_token(ids@[i as int]));
                    lemma_batch_bounds(self.config, i as int);
                    assert(0 <= id * e) by (nonlinear_arith)
                        requires
                            0 <= id,
                            0 <= e,
                    ;
                }
                steps.push(Step::EmbedToken { row: i, from: id as usize * e, to: i * e, len: e });
                i = i + 1;
            }
            assert(embeds(self@, ids@).take(ids@.len() as int) =~= embeds(self@, ids@));
        } else {
            if input_activations.is_none() {
                return Err(PipelineError::MissingActivations(start_layer));
            }
            proof {
                lemma_batch_bounds(self.config, batch_size as int);
            }
            steps.push(Step::CopyActivations { tokens: batch_size, len: batch_size * e });
        }
        let ghost input = steps@;

        if start_layer <= end_layer {
            let mut layer: usize = start_layer;
            while layer <= end_layer
                invariant
                    start_layer <= layer <= end_layer + 1,
                    start_layer <= end_layer,
                    self@.wf(),
                    end_layer < usize::MAX,
                    batch_size <= MAX_BATCH,
                    start_pos + batch_size <= usize::MAX,
                    steps@ =~= input + prefill_layers(
                        self.config,
                        start_layer as int,
                        layer as int,
                        start_pos,
                        batch_size,
                    ),
                decreases end_layer + 1 - layer,
            {
                push_prefill_projections(&mut steps, &self.config, layer, batch_size);
                push_prefill_attention(&mut steps, &self.config, layer, start_pos, batch_size);
                push_feed_forward(&mut steps, &self.config, layer, batch_size);
                layer = layer + 1;
            }
        }
        assert(steps@ =~= input + prefill_layers(
            self.config,
            start_layer as int,
            end_layer + 1,
            start_pos,
            batch_size,
        ));

        proof {
            lemma_batch_bounds(self.config, batch_size as int);
        }
        if end_layer == self.config.block_count - 1 {
            let last: usize = batch_size - 1;
            proof {
                lemma_batch_bounds(self.config, last as int);
            }
            push_logits(&mut steps, self, last);
            return Ok(PassPlan { steps, output: PassOutput::Logits });
        }
        assert(steps@ + Seq::<Step>::empty() =~= steps@);
        Ok(PassPlan { steps, output: PassOutput::Hidden { len: batch_size * e } })
    }

    /// The token that stands for the index which the sampler picked: its low 32 bits.
    pub fn sample(&self, index: usize) -> (token: u32)
        ensures
            token as int == index as int % 0x1_0000_0000,
    {
        (index as u64 % 0x1_0000_0000) as u32
    }
}

/// How many activations came in.
pub open spec fn activation_count(activations: Option<&[u32]>) -> Option<nat> {
    match activations {
        Some(a) => Some(a@.len()),
        None => None,
    }
}

/// The tokens that came in.
pub open spec fn token_seq(tokens: Option<&[u32]>) -> Option<Seq<u32>> {
    match tokens {
        Some(ids) => Some(ids@),
        None => None,
    }
}

/// A node that got no activations is told for which layer it would have needed them.
pub proof fn lemma_missing_activations_name_layer(start: usize)
    ensures
        ({
            let text = PipelineError::MissingActivations(start).text();
            let n = decimal(start as nat).len() as int;
            &&& text.take(37) == "Intermediate layer range starting at "@
            &&& text.subrange(37, 37 + n) == decimal(start as nat)
            &&& text.skip(37 + n) == " requires input_activations"@
        }),
{
    reveal_strlit("Intermediate layer range starting at ");
    reveal_strlit(" requires input_activations");
    let text = PipelineError::MissingActivations(start).text();
    let n = decimal(start as nat).len() as int;
    assert(text.take(37) =~= "Intermediate layer range starting at "@);
    assert(text.subrange(37, 37 + n) =~= decimal(start as nat));
    assert(text.skip(37 + n) =~= " requires input_activations"@);
}

} // verus!
