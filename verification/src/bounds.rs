//! That a pass never leaves what its node has.

use crate::steps::{Buffer, ExecutorView, LayerBiases, MAX_BATCH, Matrix, ModelConfig, PassOutput, Step, activations, decode_attention, decode_layer, decode_layers, decode_projections, decode_steps, embeds, feed_forward, feed_forward_in, feed_forward_out, final_steps, optional_bias, pass_output, prefill_attends, prefill_attention, prefill_layer, prefill_layers, prefill_projections, prefill_row, prefill_rows, prefill_steps};
use vstd::prelude::*;

verus! {

/// The row width of a buffer.
pub open spec fn buffer_width(c: ModelConfig, buffer: Buffer) -> usize {
    match buffer {
        Buffer::Hidden | Buffer::NormX | Buffer::Q | Buffer::AttnOutput => c.embedding_length,
        Buffer::K | Buffer::V => c.kv_width,
        Buffer::FfnGate | Buffer::FfnUp | Buffer::FfnGateUp => c.feed_forward_length,
    }
}

/// The buffer that is quantized for a matrix.
pub open spec fn fed_by(matrix: Matrix) -> Buffer {
    match matrix {
        Matrix::Wq | Matrix::Wk | Matrix::Wav | Matrix::W1 | Matrix::W3 => Buffer::NormX,
        Matrix::Wo => Buffer::AttnOutput,
        Matrix::W2 => Buffer::FfnGateUp,
    }
}

/// The buffer that a matrix fills.
pub open spec fn filled_by(matrix: Matrix) -> Buffer {
    match matrix {
        Matrix::Wq => Buffer::Q,
        Matrix::Wk => Buffer::K,
        Matrix::Wav => Buffer::V,
        Matrix::W1 => Buffer::FfnGate,
        Matrix::W3 => Buffer::FfnUp,
        Matrix::Wo | Matrix::W2 => Buffer::Hidden,
    }
}

/// Whether `tokens` rows of the hidden state have `len` elements and fit in `rows` rows.
pub open spec fn is_hidden(c: ModelConfig, rows: nat, tokens: usize, len: usize) -> bool {
    &&& tokens <= rows
    &&& len == tokens * c.embedding_length
    &&& len <= rows * c.embedding_length
}

/// Whether a step stays inside what a node has: layers of its slice, positions of the context,
/// rows of the embedding table, and workspace buffers of `rows` rows with their scales. A row
/// starts where the rows before it end, a matrix is as wide as what was quantized for it and fills
/// its own buffer, and queries and keys are turned with their own number of heads.
pub open spec fn in_bounds(x: ExecutorView, rows: nat, step: Step) -> bool {
    let c = x.config;
    let hidden = rows * c.embedding_length;
    match step {
        Step::EmbedToken { row, from, to, len } => {
            &&& from + len <= x.token_embeddings
            &&& to == row * len
            &&& len == c.embedding_length
            &&& to + len <= hidden
        },
        Step::CopyActivations { tokens, len } => is_hidden(c, rows, tokens, len),
        Step::SaveResidual { tokens, len } => is_hidden(c, rows, tokens, len),
        Step::Norm { layer, norm: _, tokens, width } => {
            &&& x.holds(layer as int)
            &&& tokens <= rows
            &&& width == c.embedding_length
        },
        Step::Quantize { source, tokens, width, scales } => {
            &&& tokens <= rows
            &&& width == buffer_width(c, source)
            &&& scales == tokens * (width / c.q8_block_size)
            &&& scales <= rows * (width / c.q8_block_size)
        },
        Step::Multiply { target, layer, matrix, tokens, rows: out, cols } => {
            &&& x.holds(layer as int)
            &&& tokens <= rows
            &&& target == filled_by(matrix)
            &&& out == buffer_width(c, target)
            &&& cols == buffer_width(c, fed_by(matrix))
        },
        Step::AddBias { target, layer, tokens, width } => {
            &&& target == Buffer::Q || target == Buffer::K || target == Buffer::V
            &&& x.holds(layer as int)
            &&& tokens <= rows
            &&& width == buffer_width(c, target)
        },
        Step::Rotate { target, row, start, len, position, heads } => {
            &&& target == Buffer::Q && heads == c.attention_head_count || target == Buffer::K
                && heads == c.attention_head_count_kv
            &&& start == row * len
            &&& len == buffer_width(c, target)
            &&& start + len <= rows * buffer_width(c, target)
            &&& position < c.context_length
        },
        Step::StoreKv { layer, position, row, start, len } => {
            &&& start == row * len
            &&& len == c.kv_width
            &&& x.holds(layer as int)
            &&& position < c.context_length
            &&& start + len <= rows * c.kv_width
        },
        Step::ClearAttention { tokens, len } => is_hidden(c, rows, tokens, len),
        Step::Attend { layer, position, row, start, len, scores_start, scores_len } => {
            &&& start == row * len
            &&& len == c.embedding_length
            &&& scores_start == row * scores_len
            &&& scores_len == c.context_length
            &&& x.holds(layer as int)
            &&& position < c.context_length
            &&& start + len <= hidden
            &&& scores_start + scores_len <= rows * c.context_length
        },
        Step::AddResidual { tokens, len } => is_hidden(c, rows, tokens, len),
        Step::Activate { row, start, len } => {
            &&& start == row * len
            &&& len == c.feed_forward_length
            &&& start + len <= rows * c.feed_forward_length
        },
        Step::FinalNorm { row, start, len } => {
            &&& start == row * len
            &&& len == c.embedding_length
            &&& start + len <= hidden
        },
        Step::QuantizeFinal { width } => width == c.embedding_length,
        Step::ProjectOutput { rows: out, cols } => out == c.vocab_size && cols
            == c.embedding_length,
        Step::ProjectEmbeddings { rows: out, cols } => {
            &&& out == c.vocab_size
            &&& cols == c.embedding_length
        },
    }
}

/// Whether all steps of a list stay inside what a node with `rows` rows has.
pub open spec fn all_in_bounds(x: ExecutorView, rows: nat, steps: Seq<Step>) -> bool {
    forall|i: int| 0 <= i < steps.len() ==> in_bounds(x, rows, #[trigger] steps[i])
}

proof fn lemma_all_of_concat(x: ExecutorView, rows: nat, a: Seq<Step>, b: Seq<Step>)
    requires
        all_in_bounds(x, rows, a),
        all_in_bounds(x, rows, b),
    ensures
        all_in_bounds(x, rows, a + b),
{
    assert forall|i: int| 0 <= i < (a + b).len() implies in_bounds(x, rows, #[trigger] (a + b)[i]) by {
        if i < a.len() {
            assert((a + b)[i] == a[i]);
        } else {
            assert((a + b)[i] == b[i - a.len()]);
        }
    }
}

/// A row of a batch ends inside a buffer of `rows` rows.
proof fn lemma_row_fits(t: int, width: usize, rows: nat)
    requires
        0 <= t < rows <= MAX_BATCH,
        MAX_BATCH * width <= usize::MAX,
    ensures
        0 <= t * width,
        t * width + width <= rows * width <= usize::MAX,
        0 <= (t + 1) * width <= rows * width,
{
    assert(0 <= t * width && t * width + width <= rows * width && rows * width <= MAX_BATCH * width
        && 0 <= (t + 1) * width <= rows * width) by (nonlinear_arith)
        requires
            0 <= t,
            t + 1 <= rows <= MAX_BATCH,
            0 <= width,
    ;
}

/// Some rows of a batch fit in a buffer of `rows` rows, and so do their scales.
proof fn lemma_rows_fit(t: int, width: usize, block: usize, rows: nat)
    requires
        0 <= t <= rows <= MAX_BATCH,
        MAX_BATCH * width <= usize::MAX,
        block > 0,
    ensures
        0 <= t * width <= rows * width <= usize::MAX,
        0 <= t * (width / block) <= rows * (width / block) <= usize::MAX,
{
    let w = (width / block) as int;
    assert(0 <= w <= width) by (nonlinear_arith)
        requires
            w == width as int / block as int,
            0 <= width,
            0 < block,
    ;
    assert(0 <= t * width <= rows * width && rows * width <= MAX_BATCH * width) by (nonlinear_arith)
        requires
            0 <= t <= rows <= MAX_BATCH,
            0 <= width,
    ;
    assert(0 <= t * w <= rows * w && rows * w <= MAX_BATCH * width) by (nonlinear_arith)
        requires
            0 <= t <= rows <= MAX_BATCH,
            0 <= w <= width,
    ;
}

proof fn lemma_feed_forward_in_bounds(x: ExecutorView, rows: nat, layer: usize, tokens: usize)
    requires
        x.wf(),
        1 <= rows <= MAX_BATCH,
        x.holds(layer as int),
        tokens <= rows,
    ensures
        all_in_bounds(x, rows, feed_forward(x.config, layer, tokens)),
{
    let c = x.config;
    lemma_rows_fit(tokens as int, c.embedding_length, c.q8_block_size, rows);
    lemma_rows_fit(tokens as int, c.feed_forward_length, c.q8_block_size, rows);
    assert forall|i: int| 0 <= i < tokens implies in_bounds(
        x,
        rows,
        #[trigger] activations(c, tokens)[i],
    ) by {
        lemma_row_fits(i, c.feed_forward_length, rows);
    }
    lemma_all_of_concat(x, rows, feed_forward_in(c, layer, tokens), activations(c, tokens));
    lemma_all_of_concat(
        x,
        rows,
        feed_forward_in(c, layer, tokens) + activations(c, tokens),
        feed_forward_out(c, layer, tokens),
    );
}

proof fn lemma_decode_layer_in_bounds(x: ExecutorView, rows: nat, b: LayerBiases, layer: usize, pos: usize)
    requires
        x.wf(),
        1 <= rows <= MAX_BATCH,
        x.holds(layer as int),
        pos < x.config.context_length,
    ensures
        all_in_bounds(x, rows, decode_layer(x.config, b, layer, pos)),
{
    let c = x.config;
    lemma_row_fits(0, c.embedding_length, rows);
    lemma_row_fits(0, c.kv_width, rows);
    lemma_row_fits(0, c.context_length, rows);
    lemma_rows_fit(1, c.embedding_length, c.q8_block_size, rows);
    let p = decode_projections(c, b, layer);
    let a = decode_attention(c, layer, pos);
    assert(all_in_bounds(x, rows, p)) by {
        assert(all_in_bounds(x, rows, optional_bias(b.wq, Buffer::Q, layer, c.embedding_length)));
        assert(all_in_bounds(x, rows, optional_bias(b.wk, Buffer::K, layer, c.kv_width)));
        assert(all_in_bounds(x, rows, optional_bias(b.wav, Buffer::V, layer, c.kv_width)));
    }
    assert(all_in_bounds(x, rows, a));
    lemma_feed_forward_in_bounds(x, rows, layer, 1);
    lemma_all_of_concat(x, rows, p, a);
    lemma_all_of_concat(x, rows, p + a, feed_forward(c, layer, 1));
}

proof fn lemma_decode_layers_in_bounds(x: ExecutorView, rows: nat, lo: int, hi: int, pos: usize)
    requires
        x.wf(),
        1 <= rows <= MAX_BATCH,
        lo < hi ==> x.holds(lo) && x.holds(hi - 1) && pos < x.config.context_length,
    ensures
        all_in_bounds(x, rows, decode_layers(x, lo, hi, pos)),
    decreases hi - lo,
{
    if lo < hi {
        lemma_decode_layers_in_bounds(x, rows, lo, hi - 1, pos);
        lemma_decode_layer_in_bounds(x, rows, x.biases(hi - 1), (hi - 1) as usize, pos);
        lemma_all_of_concat(
            x,
            rows,
            decode_layers(x, lo, hi - 1, pos),
            decode_layer(x.config, x.biases(hi - 1), (hi - 1) as usize, pos),
        );
    }
}

proof fn lemma_prefill_rows_in_bounds(x: ExecutorView, rows: nat, layer: usize, start_pos: usize, tokens: int)
    requires
        x.wf(),
        1 <= rows <= MAX_BATCH,
        x.holds(layer as int),
        0 <= tokens <= rows,
        tokens > 0 ==> start_pos + tokens <= x.config.context_length,
    ensures
        all_in_bounds(x, rows, prefill_rows(x.config, layer, start_pos, tokens)),
    decreases tokens,
{
    if tokens > 0 {
        lemma_prefill_rows_in_bounds(x, rows, layer, start_pos, tokens - 1);
        lemma_row_fits(tokens - 1, x.config.embedding_length, rows);
        lemma_row_fits(tokens - 1, x.config.kv_width, rows);
        lemma_all_of_concat(
            x,
            rows,
            prefill_rows(x.config, layer, start_pos, tokens - 1),
            prefill_row(x.config, layer, start_pos, tokens - 1),
        );
    }
}

proof fn lemma_prefill_layer_in_bounds(x: ExecutorView, rows: nat,
    layer: usize,
    start_pos: usize,
    tokens: usize,
)
    requires
        x.wf(),
        1 <= rows <= MAX_BATCH,
        x.holds(layer as int),
        tokens <= rows,
        tokens > 0 ==> start_pos + tokens <= x.config.context_length,
    ensures
        all_in_bounds(x, rows, prefill_layer(x.config, layer, start_pos, tokens)),
{
    let c = x.config;
    lemma_rows_fit(tokens as int, c.embedding_length, c.q8_block_size, rows);
    lemma_prefill_rows_in_bounds(x, rows, layer, start_pos, tokens as int);
    let clear = seq![Step::ClearAttention { tokens, len: (tokens * c.embedding_length) as usize }];
    let stored = prefill_rows(c, layer, start_pos, tokens as int);
    let attends = prefill_attends(c, layer, start_pos, tokens);
    assert forall|i: int| 0 <= i < tokens implies in_bounds(x, rows, #[trigger] attends[i]) by {
        lemma_row_fits(i, c.embedding_length, rows);
        lemma_row_fits(i, c.context_length, rows);
    }
    let attention = prefill_attention(c, layer, start_pos, tokens);
    let tail = attention.subrange(
        (stored + clear + attends).len() as int,
        attention.len() as int,
    );
    assert(attention =~= stored + clear + attends + tail);
    assert(all_in_bounds(x, rows, clear));
    assert(all_in_bounds(x, rows, tail));
    lemma_all_of_concat(x, rows, stored, clear);
    lemma_all_of_concat(x, rows, stored + clear, attends);
    lemma_all_of_concat(x, rows, stored + clear + attends, tail);
    let p = prefill_projections(c, layer, tokens);
    assert(all_in_bounds(x, rows, p));
    lemma_feed_forward_in_bounds(x, rows, layer, tokens);
    lemma_all_of_concat(x, rows, p, attention);
    lemma_all_of_concat(x, rows, p + attention, feed_forward(c, layer, tokens));
}

proof fn lemma_prefill_layers_in_bounds(x: ExecutorView, rows: nat,
    lo: int,
    hi: int,
    start_pos: usize,
    tokens: usize,
)
    requires
        x.wf(),
        1 <= rows <= MAX_BATCH,
        tokens <= rows,
        lo < hi ==> x.holds(lo) && x.holds(hi - 1) && (tokens > 0 ==> start_pos + tokens
            <= x.config.context_length),
    ensures
        all_in_bounds(x, rows, prefill_layers(x.config, lo, hi, start_pos, tokens)),
    decreases hi - lo,
{
    if lo < hi {
        lemma_prefill_layers_in_bounds(x, rows, lo, hi - 1, start_pos, tokens);
        lemma_prefill_layer_in_bounds(x, rows, (hi - 1) as usize, start_pos, tokens);
        lemma_all_of_concat(
            x,
            rows,
            prefill_layers(x.config, lo, hi - 1, start_pos, tokens),
            prefill_layer(x.config, (hi - 1) as usize, start_pos, tokens),
        );
    }
}

/// A decode pass stays inside what the node has: it touches the layers of its slice only, caches
/// inside the context, and leaves no buffer of a workspace of one row.
pub proof fn lemma_decode_stays_in_bounds(
    x: ExecutorView,
    start: usize,
    end: usize,
    token: Option<u32>,
    activations: Option<nat>,
    pos: usize,
)
    requires
        x.wf(),
        x.decode_ready(start, end, token, activations, pos),
        start == 0 ==> token is Some,
        start != 0 ==> activations is Some,
    ensures
        all_in_bounds(x, 1, decode_steps(x, start, end, token, pos)),
{
    let rows = 1nat;
    let e = x.config.embedding_length;
    lemma_row_fits(0, e, rows);
    let steps = decode_steps(x, start, end, token, pos);
    let input = steps.take(1);
    let layers = decode_layers(x, start as int, end + 1, pos);
    let last = final_steps(x, end, 0);
    if start == 0 {
        lemma_token_row(x, token->0);
    }
    assert(all_in_bounds(x, rows, input));
    assert(all_in_bounds(x, rows, last));
    lemma_decode_layers_in_bounds(x, rows, start as int, end + 1, pos);
    lemma_all_of_concat(x, rows, input, layers);
    lemma_all_of_concat(x, rows, input + layers, last);
    assert(steps =~= input + layers + last);
}

/// The row of a token in the embedding table can be addressed.
proof fn lemma_token_row(x: ExecutorView, token: u32)
    requires
        x.has_token(token),
    ensures
        0 <= token * x.config.embedding_length <= usize::MAX,
{
    let e = x.config.embedding_length;
    assert(0 <= token * e) by (nonlinear_arith)
        requires
            0 <= token,
            0 <= e,
    ;
}

/// A prefill pass stays inside what the node has: it touches the layers of its slice only, caches
/// inside the context, and leaves no buffer of a workspace of [`MAX_BATCH`] rows.
pub proof fn lemma_prefill_stays_in_bounds(
    x: ExecutorView,
    start: usize,
    end: usize,
    tokens: Option<Seq<u32>>,
    activations: Option<nat>,
    start_pos: usize,
    batch: usize,
)
    requires
        x.wf(),
        x.prefill_ready(start, end, tokens, activations, start_pos, batch),
        start == 0 ==> tokens is Some,
        start != 0 ==> activations is Some,
    ensures
        all_in_bounds(x, MAX_BATCH as nat, prefill_steps(x, start, end, tokens, start_pos, batch)),
{
    let rows = MAX_BATCH as nat;
    let e = x.config.embedding_length;
    lemma_rows_fit(batch as int, e, x.config.q8_block_size, rows);
    let input = if start == 0 {
        embeds(x, tokens->0)
    } else {
        seq![Step::CopyActivations { tokens: batch, len: (batch * e) as usize }]
    };
    let layers = prefill_layers(x.config, start as int, end + 1, start_pos, batch);
    let last = final_steps(x, end, batch - 1);
    if start == 0 {
        let ids = tokens->0;
        assert forall|i: int| 0 <= i < ids.len() implies in_bounds(x, rows, #[trigger] input[i]) by {
            assert(x.has_token(ids[i]));
            lemma_token_row(x, ids[i]);
            lemma_row_fits(i, e, rows);
        }
    }
    assert(all_in_bounds(x, rows, input));
    if end == x.config.block_count - 1 {
        lemma_row_fits(batch - 1, e, rows);
    }
    assert(all_in_bounds(x, rows, last));
    lemma_prefill_layers_in_bounds(x, rows, start as int, end + 1, start_pos, batch);
    lemma_all_of_concat(x, rows, input, layers);
    lemma_all_of_concat(x, rows, input + layers, last);
}

/// How a decode pass starts: the first node copies the row of its token from the embedding table,
/// which lies behind those of all smaller tokens, and any other node copies the one row that came
/// in.
pub proof fn lemma_decode_starts_with_its_token(
    x: ExecutorView,
    start: usize,
    end: usize,
    token: u32,
    pos: usize,
)
    requires
        x.has_token(token),
    ensures
        ({
            let e = x.config.embedding_length;
            let steps = decode_steps(x, start, end, Some(token), pos);
            &&& steps.len() > 0
            &&& match steps[0] {
                Step::EmbedToken { row, from, to, len } => {
                    &&& start == 0
                    &&& row == 0
                    &&& from == token * e
                    &&& to == 0
                    &&& len == e
                },
                Step::CopyActivations { tokens, len } => start != 0 && tokens == 1 && len == e,
                _ => false,
            }
        }),
{
    lemma_token_row(x, token);
    assert(0 * x.config.embedding_length == 0);
}

/// How a prefill pass starts: the first node copies for each row the row of its token from the
/// embedding table, which lies behind those of all smaller tokens, and any other node copies all
/// rows that came in.
pub proof fn lemma_prefill_starts_with_its_tokens(
    x: ExecutorView,
    start: usize,
    end: usize,
    ids: Seq<u32>,
    start_pos: usize,
    batch: usize,
    i: int,
)
    requires
        x.wf(),
        batch <= MAX_BATCH,
        ids.len() == batch,
        0 <= i < batch,
        x.has_token(ids[i]),
    ensures
        ({
            let e = x.config.embedding_length;
            let steps = prefill_steps(x, start, end, Some(ids), start_pos, batch);
            if start == 0 {
                &&& i < steps.len()
                &&& match steps[i] {
                    Step::EmbedToken { row, from, to, len } => {
                        &&& row == i
                        &&& from == ids[i] * e
                        &&& to == i * e
                        &&& len == e
                    },
                    _ => false,
                }
            } else {
                &&& steps.len() > 0
                &&& match steps[0] {
                    Step::CopyActivations { tokens, len } => tokens == batch && len == batch * e,
                    _ => false,
                }
            }
        }),
{
    lemma_token_row(x, ids[i]);
    lemma_row_fits(i, x.config.embedding_length, MAX_BATCH as nat);
    lemma_rows_fit(
        batch as int,
        x.config.embedding_length,
        x.config.q8_block_size,
        MAX_BATCH as nat,
    );
}

/// What a pass hands on: logits where it ends with the last layer of the model, and otherwise all of
/// its rows.
pub proof fn lemma_pass_hands_on_all_rows(x: ExecutorView, end: usize, tokens: usize)
    requires
        tokens * x.config.embedding_length <= usize::MAX,
    ensures
        match pass_output(x, end, tokens) {
            PassOutput::Logits => end + 1 == x.config.block_count,
            PassOutput::Hidden { len } => {
                &&& end + 1 != x.config.block_count
                &&& len == tokens * x.config.embedding_length
            },
        },
{
    assert(0 <= tokens * x.config.embedding_length) by (nonlinear_arith)
        requires
            0 <= tokens,
            0 <= x.config.embedding_length,
    ;
}

} // verus!
