//! What a prefill pass computes, and how it relates to decode passes.

use crate::compute::{Kernel, Memory, Place, Row, after_attention, after_decode, attended, cache_prefix, cached_row, decode_result, fed_forward, first_row, handed_on, hidden_row, kept, key_row, layer_row, lemma_decode_computes, logits_row, normed, pair, place_of, projected, query_row, same_cache, stored, token_step, turned_query, value_row};
use crate::steps::{Buffer, ExecutorView, LayerBiases, LayerNorm, MAX_BATCH, Matrix, ModelConfig, Step, activations, embeds, feed_forward, feed_forward_in, feed_forward_out, final_steps, is_last, prefill_attends, prefill_attention, prefill_layer, prefill_layers, prefill_projections, prefill_row, prefill_rows, prefill_steps, scales};
use vstd::prelude::*;

verus! {

/// A step of a pass over a batch as it is for one of its rows: the step of a decode pass.
pub open spec fn one_row(c: ModelConfig, s: Step) -> Step {
    let e = c.embedding_length;
    match s {
        Step::EmbedToken { row: _, from, to: _, len } => Step::EmbedToken { row: 0, from, to: 0, len },
        Step::CopyActivations { tokens: _, len: _ } => Step::CopyActivations { tokens: 1, len: e },
        Step::SaveResidual { tokens: _, len: _ } => Step::SaveResidual { tokens: 1, len: e },
        Step::Norm { layer, norm, tokens: _, width } => Step::Norm { layer, norm, tokens: 1, width },
        Step::Quantize { source, tokens: _, width, scales: _ } => Step::Quantize {
            source,
            tokens: 1,
            width,
            scales: scales(c, 1, width),
        },
        Step::Multiply { target, layer, matrix, tokens: _, rows, cols } => Step::Multiply {
            target,
            layer,
            matrix,
            tokens: 1,
            rows,
            cols,
        },
        Step::AddBias { target, layer, tokens: _, width } => Step::AddBias {
            target,
            layer,
            tokens: 1,
            width,
        },
        Step::Rotate { target, row: _, start: _, len, position, heads } => Step::Rotate {
            target,
            row: 0,
            start: 0,
            len,
            position,
            heads,
        },
        Step::StoreKv { layer, position, row: _, start: _, len } => Step::StoreKv {
            layer,
            position,
            row: 0,
            start: 0,
            len,
        },
        Step::ClearAttention { tokens: _, len: _ } => Step::ClearAttention { tokens: 1, len: e },
        Step::Attend { layer, position, row: _, start: _, len, scores_start: _, scores_len } =>
            Step::Attend { layer, position, row: 0, start: 0, len, scores_start: 0, scores_len },
        Step::AddResidual { tokens: _, len: _ } => Step::AddResidual { tokens: 1, len: e },
        Step::Activate { row: _, start: _, len } => Step::Activate { row: 0, start: 0, len },
        Step::FinalNorm { row: _, start: _, len } => Step::FinalNorm { row: 0, start: 0, len },
        _ => s,
    }
}

/// Whether a layer has a bias for what is projected into a buffer.
pub open spec fn has_bias(x: ExecutorView, layer: usize, target: Buffer) -> bool {
    match target {
        Buffer::Q => x.biases(layer as int).wq,
        Buffer::K => x.biases(layer as int).wk,
        _ => x.biases(layer as int).wav,
    }
}

/// What a step of a prefill pass does to the memory; `inputs` are the rows that came in. A bias that
/// a layer does not have changes nothing.
pub open spec fn batch_step(k: Kernel, x: ExecutorView, inputs: Seq<Row>, m: Memory, s: Step) -> Memory {
    let c = x.config;
    let r = one_row(c, s);
    match s {
        Step::EmbedToken { row, from: _, to: _, len: _ } => m.put_rows(
            Place::Hidden,
            row as int,
            row as int + 1,
            |t: int| k(r, Seq::empty()),
        ),
        Step::CopyActivations { tokens, len: _ } => m.put_rows(
            Place::Hidden,
            0,
            tokens as int,
            |t: int| k(r, seq![inputs[t]]),
        ),
        Step::SaveResidual { tokens, len: _ } => m.put_rows(
            Place::Residual,
            0,
            tokens as int,
            |t: int| k(r, seq![m.row(Place::Hidden, t)]),
        ),
        Step::Norm { layer: _, norm: _, tokens, width: _ } => m.put_rows(
            Place::NormX,
            0,
            tokens as int,
            |t: int| k(r, seq![m.row(Place::Hidden, t)]),
        ),
        Step::Quantize { source, tokens, width: _, scales: _ } => m.put_rows(
            Place::Quantized,
            0,
            tokens as int,
            |t: int| k(r, seq![m.row(place_of(source), t)]),
        ),
        Step::Multiply { target, layer: _, matrix: _, tokens, rows: _, cols: _ } => m.put_rows(
            place_of(target),
            0,
            tokens as int,
            |t: int| k(r, seq![m.row(Place::Quantized, t)]),
        ),
        Step::AddBias { target, layer, tokens, width: _ } => if has_bias(x, layer, target) {
            m.put_rows(
                place_of(target),
                0,
                tokens as int,
                |t: int| k(r, seq![m.row(place_of(target), t)]),
            )
        } else {
            m
        },
        Step::Rotate { target, row, start: _, len: _, position: _, heads: _ } => m.put_rows(
            place_of(target),
            row as int,
            row as int + 1,
            |t: int| k(r, seq![m.row(place_of(target), t)]),
        ),
        Step::StoreKv { layer, position, row, start: _, len: _ } => {
            let t = row as int;
            m.store(layer, position, k(r, pair(m.row(Place::K, t), m.row(Place::V, t))))
        },
        Step::ClearAttention { tokens, len: _ } => m.put_rows(
            Place::AttnOutput,
            0,
            tokens as int,
            |t: int| k(r, Seq::empty()),
        ),
        Step::Attend { layer, position, row, start: _, len: _, scores_start: _, scores_len: _ } => m.put_rows(
            Place::AttnOutput,
            row as int,
            row as int + 1,
            |t: int|
                k(
                    r,
                    pair(m.row(Place::AttnOutput, t), m.row(Place::Q, t)) + m.prefix(
                        layer as int,
                        position + 1,
                    ),
                ),
        ),
        Step::AddResidual { tokens, len: _ } => m.put_rows(
            Place::Hidden,
            0,
            tokens as int,
            |t: int| k(r, pair(m.row(Place::Hidden, t), m.row(Place::Residual, t))),
        ),
        Step::Activate { row, start: _, len: _ } => m.put_rows(
            Place::FfnGateUp,
            row as int,
            row as int + 1,
            |t: int| k(r, pair(m.row(Place::FfnGate, t), m.row(Place::FfnUp, t))),
        ),
        Step::FinalNorm { row, start: _, len: _ } => m.put(
            Place::NormX,
            k(r, seq![m.row(Place::Hidden, row as int)]),
        ),
        _ => token_step(k, Seq::empty(), m, s),
    }
}

/// What the steps of a prefill pass do to the memory, one after the other.
pub open spec fn run_batch(
    k: Kernel,
    x: ExecutorView,
    inputs: Seq<Row>,
    m: Memory,
    steps: Seq<Step>,
) -> Memory
    decreases steps.len(),
{
    if steps.len() == 0 {
        m
    } else {
        batch_step(k, x, inputs, run_batch(k, x, inputs, m, steps.drop_last()), steps.last())
    }
}

broadcast proof fn lemma_run_batch_concat(
    k: Kernel,
    x: ExecutorView,
    inputs: Seq<Row>,
    m: Memory,
    a: Seq<Step>,
    b: Seq<Step>,
)
    ensures
        #[trigger] run_batch(k, x, inputs, m, a + b) == run_batch(
            k,
            x,
            inputs,
            run_batch(k, x, inputs, m, a),
            b,
        ),
    decreases b.len(),
{
    if b.len() == 0 {
        assert(a + b =~= a);
    } else {
        lemma_run_batch_concat(k, x, inputs, m, a, b.drop_last());
        assert((a + b).drop_last() =~= a + b.drop_last());
    }
}

#[verifier::rlimit(30)]
proof fn lemma_batch_projections(
    k: Kernel,
    x: ExecutorView,
    inputs: Seq<Row>,
    layer: usize,
    n: usize,
    m: Memory,
)
    requires
        n <= MAX_BATCH,
    ensures
        ({
            let c = x.config;
            let b = x.biases(layer as int);
            let r = run_batch(k, x, inputs, m, prefill_projections(c, layer, n));
            &&& forall|t: int|
                0 <= t < n ==> #[trigger] r.row(Place::Residual, t) == kept(
                    k,
                    c,
                    m.row(Place::Hidden, t),
                )
            &&& forall|t: int|
                0 <= t < n ==> #[trigger] r.row(Place::Q, t) == query_row(
                    k,
                    c,
                    b,
                    layer,
                    m.row(Place::Hidden, t),
                )
            &&& forall|t: int|
                0 <= t < n ==> #[trigger] r.row(Place::K, t) == key_row(
                    k,
                    c,
                    b,
                    layer,
                    m.row(Place::Hidden, t),
                )
            &&& forall|t: int|
                0 <= t < n ==> #[trigger] r.row(Place::V, t) == value_row(
                    k,
                    c,
                    b,
                    layer,
                    m.row(Place::Hidden, t),
                )
            &&& r.cache == m.cache
        }),
{
    reveal_with_fuel(run_batch, 10);
}

proof fn lemma_batch_rows(
    k: Kernel,
    x: ExecutorView,
    inputs: Seq<Row>,
    layer: usize,
    start_pos: usize,
    n: int,
    m: Memory,
)
    requires
        0 <= n <= MAX_BATCH,
        start_pos + n <= usize::MAX,
    ensures
        ({
            let c = x.config;
            let r = run_batch(k, x, inputs, m, prefill_rows(c, layer, start_pos, n));
            &&& forall|t: int|
                0 <= t < n ==> #[trigger] r.row(Place::Q, t) == turned_query(
                    k,
                    c,
                    (start_pos + t) as usize,
                    m.row(Place::Q, t),
                )
            &&& forall|t: int| n <= t ==> #[trigger] r.row(Place::Q, t) == m.row(Place::Q, t)
            &&& forall|t: int| n <= t ==> #[trigger] r.row(Place::K, t) == m.row(Place::K, t)
            &&& forall|t: int| #[trigger] r.row(Place::V, t) == m.row(Place::V, t)
            &&& forall|t: int| #[trigger] r.row(Place::Residual, t) == m.row(Place::Residual, t)
            &&& forall|p: int|
                start_pos <= p < start_pos + n ==> #[trigger] r.cache[(layer as int, p)] == stored(
                    k,
                    c,
                    layer,
                    p as usize,
                    m.row(Place::K, p - start_pos),
                    m.row(Place::V, p - start_pos),
                )
            &&& forall|l: int, p: int|
                !(l == layer && start_pos <= p < start_pos + n) ==> #[trigger] r.cache[(l, p)]
                    == m.cache[(l, p)]
        }),
    decreases n,
{
    let c = x.config;
    if n > 0 {
        lemma_batch_rows(k, x, inputs, layer, start_pos, n - 1, m);
        lemma_run_batch_concat(
            k,
            x,
            inputs,
            m,
            prefill_rows(c, layer, start_pos, n - 1),
            prefill_row(c, layer, start_pos, n - 1),
        );
        reveal_with_fuel(run_batch, 4);
    }
}

proof fn lemma_batch_attends(
    k: Kernel,
    x: ExecutorView,
    inputs: Seq<Row>,
    layer: usize,
    start_pos: usize,
    tokens: usize,
    n: int,
    m: Memory,
)
    requires
        0 <= n <= tokens <= MAX_BATCH,
        start_pos + tokens <= usize::MAX,
    ensures
        ({
            let c = x.config;
            let r = run_batch(
                k,
                x,
                inputs,
                m,
                prefill_attends(c, layer, start_pos, tokens).take(n),
            );
            &&& forall|t: int|
                0 <= t < n ==> #[trigger] r.row(Place::AttnOutput, t) == k(
                    Step::Attend {
                        layer,
                        position: (start_pos + t) as usize,
                        row: 0,
                        start: 0,
                        len: c.embedding_length,
                        scores_start: 0,
                        scores_len: c.context_length,
                    },
                    pair(m.row(Place::AttnOutput, t), m.row(Place::Q, t)) + m.prefix(
                        layer as int,
                        start_pos + t + 1,
                    ),
                )
            &&& forall|t: int|
                n <= t ==> #[trigger] r.row(Place::AttnOutput, t) == m.row(Place::AttnOutput, t)
            &&& forall|t: int| #[trigger] r.row(Place::Q, t) == m.row(Place::Q, t)
            &&& forall|t: int| #[trigger] r.row(Place::Residual, t) == m.row(Place::Residual, t)
            &&& r.cache == m.cache
        }),
    decreases n,
{
    let c = x.config;
    let all = prefill_attends(c, layer, start_pos, tokens);
    if n > 0 {
        lemma_batch_attends(k, x, inputs, layer, start_pos, tokens, n - 1, m);
        assert(all.take(n).drop_last() =~= all.take(n - 1));
        assert(all.take(n).last() == all[n - 1]);
    } else {
        assert(all.take(0).len() == 0);
    }
}

/// What is cached of a layer at the first `n` positions once the keys and values in the workspace
/// have been cached from `start_pos` on.
spec fn prefix_with_batch(
    k: Kernel,
    c: ModelConfig,
    layer: usize,
    start_pos: usize,
    m: Memory,
    n: int,
) -> Seq<Row> {
    Seq::new(
        n as nat,
        |p: int|
            if p < start_pos {
                m.cache[(layer as int, p)]
            } else {
                stored(
                    k,
                    c,
                    layer,
                    p as usize,
                    m.row(Place::K, p - start_pos),
                    m.row(Place::V, p - start_pos),
                )
            },
    )
}

#[verifier::rlimit(30)]
proof fn lemma_batch_attention(
    k: Kernel,
    x: ExecutorView,
    inputs: Seq<Row>,
    layer: usize,
    start_pos: usize,
    n: usize,
    m: Memory,
)
    requires
        n <= MAX_BATCH,
        start_pos + n <= usize::MAX,
    ensures
        ({
            let c = x.config;
            let r = run_batch(k, x, inputs, m, prefill_attention(c, layer, start_pos, n));
            &&& forall|t: int|
                0 <= t < n ==> #[trigger] r.row(Place::Hidden, t) == after_attention(
                    k,
                    c,
                    layer,
                    attended(
                        k,
                        c,
                        layer,
                        (start_pos + t) as usize,
                        turned_query(k, c, (start_pos + t) as usize, m.row(Place::Q, t)),
                        prefix_with_batch(k, c, layer, start_pos, m, start_pos + t + 1),
                    ),
                    m.row(Place::Residual, t),
                )
            &&& forall|p: int|
                start_pos <= p < start_pos + n ==> #[trigger] r.cache[(layer as int, p)] == stored(
                    k,
                    c,
                    layer,
                    p as usize,
                    m.row(Place::K, p - start_pos),
                    m.row(Place::V, p - start_pos),
                )
            &&& forall|l: int, p: int|
                !(l == layer && start_pos <= p < start_pos + n) ==> #[trigger] r.cache[(l, p)]
                    == m.cache[(l, p)]
        }),
{
    let c = x.config;
    let e = c.embedding_length;
    let rows = prefill_rows(c, layer, start_pos, n as int);
    let clear = seq![Step::ClearAttention { tokens: n, len: (n * e) as usize }];
    let attends = prefill_attends(c, layer, start_pos, n);
    let attention = prefill_attention(c, layer, start_pos, n);
    let tail = attention.skip((rows + clear + attends).len() as int);
    assert(attention =~= rows + clear + attends + tail);
    let m1 = run_batch(k, x, inputs, m, rows);
    let m2 = run_batch(k, x, inputs, m1, clear);
    let m3 = run_batch(k, x, inputs, m2, attends);
    let m4 = run_batch(k, x, inputs, m3, tail);
    lemma_run_batch_concat(k, x, inputs, m, rows, clear);
    lemma_run_batch_concat(k, x, inputs, m, rows + clear, attends);
    lemma_run_batch_concat(k, x, inputs, m, rows + clear + attends, tail);
    lemma_batch_rows(k, x, inputs, layer, start_pos, n as int, m);
    assert(m2 == batch_step(k, x, inputs, m1, clear[0])) by {
        reveal_with_fuel(run_batch, 2);
        assert(clear.drop_last() =~= Seq::<Step>::empty());
    }
    assert(attends.take(n as int) =~= attends);
    lemma_batch_attends(k, x, inputs, layer, start_pos, n, n as int, m2);
    assert forall|t: int| 0 <= t < n implies #[trigger] m3.row(Place::AttnOutput, t) == attended(
        k,
        c,
        layer,
        (start_pos + t) as usize,
        turned_query(k, c, (start_pos + t) as usize, m.row(Place::Q, t)),
        prefix_with_batch(k, c, layer, start_pos, m, start_pos + t + 1),
    ) by {
        assert(m2.row(Place::Q, t) == m1.row(Place::Q, t));
        assert(m2.row(Place::AttnOutput, t) == k(Step::ClearAttention { tokens: 1, len: e }, Seq::empty()));
        assert(m2.prefix(layer as int, start_pos + t + 1) =~= prefix_with_batch(
            k,
            c,
            layer,
            start_pos,
            m,
            start_pos + t + 1,
        ));
    }
    assert(tail.len() == 3);
    assert(tail[0] == attention[attention.len() - 3]);
    assert forall|t: int| 0 <= t < n implies m3.row(Place::Residual, t) == m.row(
        Place::Residual,
        t,
    ) by {
        assert(m2.row(Place::Residual, t) == m1.row(Place::Residual, t));
    }
    reveal_with_fuel(run_batch, 4);
}

proof fn lemma_batch_activations(
    k: Kernel,
    x: ExecutorView,
    inputs: Seq<Row>,
    tokens: usize,
    n: int,
    m: Memory,
)
    requires
        0 <= n <= tokens <= MAX_BATCH,
    ensures
        ({
            let c = x.config;
            let r = run_batch(k, x, inputs, m, activations(c, tokens).take(n));
            &&& forall|t: int|
                0 <= t < n ==> #[trigger] r.row(Place::FfnGateUp, t) == k(
                    Step::Activate { row: 0, start: 0, len: c.feed_forward_length },
                    pair(m.row(Place::FfnGate, t), m.row(Place::FfnUp, t)),
                )
            &&& forall|t: int| #[trigger] r.row(Place::FfnGate, t) == m.row(Place::FfnGate, t)
            &&& forall|t: int| #[trigger] r.row(Place::FfnUp, t) == m.row(Place::FfnUp, t)
            &&& forall|t: int| #[trigger] r.row(Place::Residual, t) == m.row(Place::Residual, t)
            &&& r.cache == m.cache
        }),
    decreases n,
{
    let c = x.config;
    let all = activations(c, tokens);
    if n > 0 {
        lemma_batch_activations(k, x, inputs, tokens, n - 1, m);
        assert(all.take(n).drop_last() =~= all.take(n - 1));
        assert(all.take(n).last() == all[n - 1]);
    } else {
        assert(all.take(0).len() == 0);
    }
}

proof fn lemma_batch_feed_forward_in(
    k: Kernel,
    x: ExecutorView,
    inputs: Seq<Row>,
    layer: usize,
    n: usize,
    m: Memory,
)
    requires
        n <= MAX_BATCH,
    ensures
        ({
            let c = x.config;
            let f = c.feed_forward_length;
            let e = c.embedding_length;
            let r = run_batch(k, x, inputs, m, feed_forward_in(c, layer, n));
            &&& forall|t: int|
                0 <= t < n ==> #[trigger] r.row(Place::Residual, t) == kept(
                    k,
                    c,
                    m.row(Place::Hidden, t),
                )
            &&& forall|t: int|
                0 <= t < n ==> #[trigger] r.row(Place::FfnGate, t) == projected(
                    k,
                    normed(k, c, layer, LayerNorm::Ffn, m.row(Place::Hidden, t)),
                    Buffer::FfnGate,
                    layer,
                    Matrix::W1,
                    f,
                    e,
                    false,
                )
            &&& forall|t: int|
                0 <= t < n ==> #[trigger] r.row(Place::FfnUp, t) == projected(
                    k,
                    normed(k, c, layer, LayerNorm::Ffn, m.row(Place::Hidden, t)),
                    Buffer::FfnUp,
                    layer,
                    Matrix::W3,
                    f,
                    e,
                    false,
                )
            &&& r.cache == m.cache
        }),
{
    reveal_with_fuel(run_batch, 6);
}

proof fn lemma_batch_feed_forward_out(
    k: Kernel,
    x: ExecutorView,
    inputs: Seq<Row>,
    layer: usize,
    n: usize,
    m: Memory,
)
    requires
        n <= MAX_BATCH,
    ensures
        ({
            let c = x.config;
            let f = c.feed_forward_length;
            let r = run_batch(k, x, inputs, m, feed_forward_out(c, layer, n));
            &&& forall|t: int|
                0 <= t < n ==> #[trigger] r.row(Place::Hidden, t) == k(
                    Step::AddResidual { tokens: 1, len: c.embedding_length },
                    pair(
                        projected(
                            k,
                            k(
                                Step::Quantize {
                                    source: Buffer::FfnGateUp,
                                    tokens: 1,
                                    width: f,
                                    scales: scales(c, 1, f),
                                },
                                seq![m.row(Place::FfnGateUp, t)],
                            ),
                            Buffer::Hidden,
                            layer,
                            Matrix::W2,
                            c.embedding_length,
                            f,
                            false,
                        ),
                        m.row(Place::Residual, t),
                    ),
                )
            &&& r.cache == m.cache
        }),
{
    reveal_with_fuel(run_batch, 4);
}

proof fn lemma_batch_feed_forward(
    k: Kernel,
    x: ExecutorView,
    inputs: Seq<Row>,
    layer: usize,
    n: usize,
    m: Memory,
)
    requires
        n <= MAX_BATCH,
    ensures
        ({
            let r = run_batch(k, x, inputs, m, feed_forward(x.config, layer, n));
            &&& forall|t: int|
                0 <= t < n ==> #[trigger] r.row(Place::Hidden, t) == fed_forward(
                    k,
                    x.config,
                    layer,
                    m.row(Place::Hidden, t),
                )
            &&& r.cache == m.cache
        }),
{
    let c = x.config;
    let a = feed_forward_in(c, layer, n);
    let b = activations(c, n);
    let d = feed_forward_out(c, layer, n);
    let m1 = run_batch(k, x, inputs, m, a);
    let m2 = run_batch(k, x, inputs, m1, b);
    lemma_run_batch_concat(k, x, inputs, m, a, b);
    lemma_run_batch_concat(k, x, inputs, m, a + b, d);
    assert(b.take(n as int) =~= b);
    lemma_batch_feed_forward_in(k, x, inputs, layer, n, m);
    lemma_batch_activations(k, x, inputs, n, n as int, m1);
    lemma_batch_feed_forward_out(k, x, inputs, layer, n, m2);
    assert forall|t: int| 0 <= t < n implies #[trigger] run_batch(k, x, inputs, m2, d).row(
        Place::Hidden,
        t,
    ) == fed_forward(k, c, layer, m.row(Place::Hidden, t)) by {
        assert(m2.row(Place::Residual, t) == m1.row(Place::Residual, t));
        assert(m2.row(Place::FfnGateUp, t) == k(
            Step::Activate { row: 0, start: 0, len: c.feed_forward_length },
            pair(m1.row(Place::FfnGate, t), m1.row(Place::FfnUp, t)),
        ));
    }
}

/// What is cached of a layer before row `t` of a batch that starts at `start_pos`: what was cached
/// before the batch, and what the layer caches for the hidden rows `hs` before `t`.
pub open spec fn before_row(
    k: Kernel,
    c: ModelConfig,
    b: LayerBiases,
    layer: usize,
    start_pos: usize,
    hs: spec_fn(int) -> Row,
    cache: Map<(int, int), Row>,
    t: int,
) -> Seq<Row> {
    Seq::new(
        (start_pos + t) as nat,
        |p: int|
            if p < start_pos {
                cache[(layer as int, p)]
            } else {
                cached_row(k, c, b, layer, p as usize, hs(p - start_pos))
            },
    )
}

proof fn lemma_batch_layer(
    k: Kernel,
    x: ExecutorView,
    inputs: Seq<Row>,
    layer: usize,
    start_pos: usize,
    n: usize,
    m: Memory,
)
    requires
        n <= MAX_BATCH,
        start_pos + n <= usize::MAX,
    ensures
        ({
            let c = x.config;
            let b = x.biases(layer as int);
            let hs = |t: int| m.row(Place::Hidden, t);
            let r = run_batch(k, x, inputs, m, prefill_layer(c, layer, start_pos, n));
            &&& forall|t: int|
                0 <= t < n ==> #[trigger] r.row(Place::Hidden, t) == layer_row(
                    k,
                    c,
                    b,
                    layer,
                    (start_pos + t) as usize,
                    hs(t),
                    before_row(k, c, b, layer, start_pos, hs, m.cache, t),
                )
            &&& forall|p: int|
                start_pos <= p < start_pos + n ==> #[trigger] r.cache[(layer as int, p)]
                    == cached_row(k, c, b, layer, p as usize, hs(p - start_pos))
            &&& forall|l: int, p: int|
                !(l == layer && start_pos <= p < start_pos + n) ==> #[trigger] r.cache[(l, p)]
                    == m.cache[(l, p)]
        }),
{
    let c = x.config;
    let b = x.biases(layer as int);
    let hs = |t: int| m.row(Place::Hidden, t);
    let p1 = prefill_projections(c, layer, n);
    let p2 = prefill_attention(c, layer, start_pos, n);
    let p3 = feed_forward(c, layer, n);
    let m1 = run_batch(k, x, inputs, m, p1);
    let m2 = run_batch(k, x, inputs, m1, p2);
    let m3 = run_batch(k, x, inputs, m2, p3);
    lemma_run_batch_concat(k, x, inputs, m, p1, p2);
    lemma_run_batch_concat(k, x, inputs, m, p1 + p2, p3);
    lemma_batch_projections(k, x, inputs, layer, n, m);
    lemma_batch_attention(k, x, inputs, layer, start_pos, n, m1);
    lemma_batch_feed_forward(k, x, inputs, layer, n, m2);
    assert forall|t: int| 0 <= t < n implies #[trigger] m3.row(Place::Hidden, t) == layer_row(
        k,
        c,
        b,
        layer,
        (start_pos + t) as usize,
        hs(t),
        before_row(k, c, b, layer, start_pos, hs, m.cache, t),
    ) by {
        let before = before_row(k, c, b, layer, start_pos, hs, m.cache, t);
        let own = cached_row(k, c, b, layer, (start_pos + t) as usize, hs(t));
        let prefix = prefix_with_batch(k, c, layer, start_pos, m1, start_pos + t + 1);
        assert forall|p: int| 0 <= p < start_pos + t + 1 implies #[trigger] prefix[p]
            == before.push(own)[p] by {
            if p >= start_pos {
                assert(m1.row(Place::K, p - start_pos) == key_row(
                    k,
                    c,
                    b,
                    layer,
                    m.row(Place::Hidden, p - start_pos),
                ));
                assert(m1.row(Place::V, p - start_pos) == value_row(
                    k,
                    c,
                    b,
                    layer,
                    m.row(Place::Hidden, p - start_pos),
                ));
            }
        }
        assert(prefix =~= before.push(own));
        assert(m1.row(Place::Q, t) == query_row(k, c, b, layer, hs(t)));
        assert(m1.row(Place::Residual, t) == kept(k, c, hs(t)));
        assert(m2.row(Place::Hidden, t) == after_attention(
            k,
            c,
            layer,
            attended(
                k,
                c,
                layer,
                (start_pos + t) as usize,
                turned_query(k, c, (start_pos + t) as usize, m1.row(Place::Q, t)),
                prefix,
            ),
            m1.row(Place::Residual, t),
        ));
    }
    assert forall|p: int| start_pos <= p < start_pos + n implies #[trigger] m3.cache[(
        layer as int,
        p,
    )] == cached_row(k, c, b, layer, p as usize, hs(p - start_pos)) by {
        assert(m1.row(Place::K, p - start_pos) == key_row(k, c, b, layer, hs(p - start_pos)));
        assert(m1.row(Place::V, p - start_pos) == value_row(k, c, b, layer, hs(p - start_pos)));
    }
}

/// What the layers `lo..hi` of a node make of the rows of a batch that starts at `start_pos` with
/// the hidden rows `hs`, over what was cached before the batch.
pub open spec fn batch_rows(
    k: Kernel,
    x: ExecutorView,
    lo: int,
    hi: int,
    start_pos: usize,
    hs: Seq<Row>,
    cache: Map<(int, int), Row>,
) -> spec_fn(int) -> Row
    decreases hi - lo,
{
    if hi <= lo {
        |t: int| hs[t]
    } else {
        let c = x.config;
        let b = x.biases(hi - 1);
        let layer = (hi - 1) as usize;
        let rows = batch_rows(k, x, lo, hi - 1, start_pos, hs, cache);
        |t: int|
            layer_row(
                k,
                c,
                b,
                layer,
                (start_pos + t) as usize,
                rows(t),
                before_row(k, c, b, layer, start_pos, rows, cache, t),
            )
    }
}

/// What the layers `lo..hi` of a node make of row `t` of a batch.
pub open spec fn batch_row(
    k: Kernel,
    x: ExecutorView,
    lo: int,
    hi: int,
    start_pos: usize,
    hs: Seq<Row>,
    cache: Map<(int, int), Row>,
    t: int,
) -> Row {
    batch_rows(k, x, lo, hi, start_pos, hs, cache)(t)
}

#[verifier::rlimit(30)]
proof fn lemma_batch_layers(
    k: Kernel,
    x: ExecutorView,
    inputs: Seq<Row>,
    lo: int,
    hi: int,
    start_pos: usize,
    n: usize,
    hs: Seq<Row>,
    m: Memory,
)
    requires
        0 <= lo,
        hi <= usize::MAX + 1,
        n <= MAX_BATCH,
        start_pos + n <= usize::MAX,
        forall|t: int| 0 <= t < n ==> #[trigger] m.row(Place::Hidden, t) == hs[t],
    ensures
        ({
            let r = run_batch(k, x, inputs, m, prefill_layers(x.config, lo, hi, start_pos, n));
            &&& forall|t: int|
                0 <= t < n ==> #[trigger] r.row(Place::Hidden, t) == batch_row(
                    k,
                    x,
                    lo,
                    hi,
                    start_pos,
                    hs,
                    m.cache,
                    t,
                )
            &&& forall|l: int, p: int|
                #[trigger] r.cache[(l, p)] == if lo <= l < hi && start_pos <= p < start_pos + n {
                    cached_row(
                        k,
                        x.config,
                        x.biases(l),
                        l as usize,
                        p as usize,
                        batch_row(k, x, lo, l, start_pos, hs, m.cache, p - start_pos),
                    )
                } else {
                    m.cache[(l, p)]
                }
        }),
    decreases hi - lo,
{
    let c = x.config;
    if lo < hi {
        lemma_batch_layers(k, x, inputs, lo, hi - 1, start_pos, n, hs, m);
        let layer = (hi - 1) as usize;
        let b = x.biases(hi - 1);
        let m0 = run_batch(k, x, inputs, m, prefill_layers(c, lo, hi - 1, start_pos, n));
        let m1 = run_batch(k, x, inputs, m0, prefill_layer(c, layer, start_pos, n));
        lemma_run_batch_concat(
            k,
            x,
            inputs,
            m,
            prefill_layers(c, lo, hi - 1, start_pos, n),
            prefill_layer(c, layer, start_pos, n),
        );
        lemma_batch_layer(k, x, inputs, layer, start_pos, n, m0);
        let rows = |t: int| m0.row(Place::Hidden, t);
        assert forall|t: int| 0 <= t < n implies #[trigger] m1.row(Place::Hidden, t) == batch_row(
            k,
            x,
            lo,
            hi,
            start_pos,
            hs,
            m.cache,
            t,
        ) by {
            let known = batch_rows(k, x, lo, hi - 1, start_pos, hs, m.cache);
            let before = before_row(k, c, b, layer, start_pos, known, m.cache, t);
            let after = before_row(k, c, b, layer, start_pos, rows, m0.cache, t);
            assert forall|p: int| 0 <= p < start_pos + t implies before[p] == #[trigger] after[p] by {
                if p >= start_pos {
                    assert(m0.row(Place::Hidden, p - start_pos) == known(p - start_pos));
                } else {
                    assert(m0.cache[(layer as int, p)] == m.cache[(layer as int, p)]);
                }
            }
            assert(before =~= after);
            assert(m0.row(Place::Hidden, t) == batch_row(
                k,
                x,
                lo,
                hi - 1,
                start_pos,
                hs,
                m.cache,
                t,
            ));
        }
        assert forall|l: int, p: int|
            #[trigger] m1.cache[(l, p)] == if lo <= l < hi && start_pos <= p < start_pos + n {
                cached_row(
                    k,
                    x.config,
                    x.biases(l),
                    l as usize,
                    p as usize,
                    batch_row(k, x, lo, l, start_pos, hs, m.cache, p - start_pos),
                )
            } else {
                m.cache[(l, p)]
            } by {
            if l == hi - 1 && start_pos <= p < start_pos + n {
                assert(m1.cache[(layer as int, p)] == m1.cache[(l, p)]);
                assert(m0.row(Place::Hidden, p - start_pos) == batch_row(
                    k,
                    x,
                    lo,
                    l,
                    start_pos,
                    hs,
                    m.cache,
                    p - start_pos,
                ));
            } else {
                assert(m1.cache[(l, p)] == m0.cache[(l, p)]);
            }
        }
    }
}

/// The hidden rows with which a pass over a batch starts.
pub open spec fn first_rows(
    k: Kernel,
    x: ExecutorView,
    start: usize,
    tokens: Seq<u32>,
    inputs: Seq<Row>,
    n: int,
) -> Seq<Row> {
    Seq::new(n as nat, |t: int| first_row(k, x, start, tokens[t], inputs[t]))
}

proof fn lemma_batch_embeds(
    k: Kernel,
    x: ExecutorView,
    inputs: Seq<Row>,
    ids: Seq<u32>,
    n: int,
    m: Memory,
)
    requires
        0 <= n <= ids.len() <= MAX_BATCH,
    ensures
        ({
            let r = run_batch(k, x, inputs, m, embeds(x, ids).take(n));
            &&& forall|t: int|
                0 <= t < n ==> #[trigger] r.row(Place::Hidden, t) == k(
                    x.embed(ids[t], 0),
                    Seq::empty(),
                )
            &&& r.cache == m.cache
        }),
    decreases n,
{
    let all = embeds(x, ids);
    if n > 0 {
        lemma_batch_embeds(k, x, inputs, ids, n - 1, m);
        assert(all.take(n).drop_last() =~= all.take(n - 1));
        assert(all.take(n).last() == x.embed(ids[n - 1], n - 1));
        assert(one_row(x.config, x.embed(ids[n - 1], n - 1)) == x.embed(ids[n - 1], 0));
    } else {
        assert(all.take(0).len() == 0);
    }
}

/// The steps that bring in the hidden rows of a batch.
spec fn input_steps(x: ExecutorView, start: usize, tokens: Seq<u32>, n: usize) -> Seq<Step> {
    if start == 0 {
        embeds(x, tokens)
    } else {
        seq![Step::CopyActivations { tokens: n, len: (n * x.config.embedding_length) as usize }]
    }
}

proof fn lemma_batch_input(
    k: Kernel,
    x: ExecutorView,
    start: usize,
    tokens: Seq<u32>,
    inputs: Seq<Row>,
    n: usize,
    m: Memory,
)
    requires
        n <= MAX_BATCH,
        tokens.len() == n,
    ensures
        ({
            let r = run_batch(k, x, inputs, m, input_steps(x, start, tokens, n));
            &&& forall|t: int|
                0 <= t < n ==> #[trigger] r.row(Place::Hidden, t) == first_rows(
                    k,
                    x,
                    start,
                    tokens,
                    inputs,
                    n as int,
                )[t]
            &&& r.cache == m.cache
        }),
{
    let steps = input_steps(x, start, tokens, n);
    if start == 0 {
        assert(steps.take(n as int) =~= steps);
        lemma_batch_embeds(k, x, inputs, tokens, n as int, m);
    } else {
        reveal_with_fuel(run_batch, 2);
        assert(steps.drop_last() =~= Seq::<Step>::empty());
    }
}

proof fn lemma_batch_final(
    k: Kernel,
    x: ExecutorView,
    inputs: Seq<Row>,
    end: usize,
    n: usize,
    m: Memory,
)
    requires
        n <= MAX_BATCH,
    ensures
        ({
            let r = run_batch(k, x, inputs, m, final_steps(x, end, n - 1));
            &&& n > 0 && is_last(x, end) ==> r.ws[Place::Logits] == logits_row(
                k,
                x,
                m.row(Place::Hidden, n - 1),
            )
            &&& r.batch == m.batch
            &&& r.cache == m.cache
        }),
{
    reveal_with_fuel(run_batch, 4);
}

/// The memory after a prefill pass.
pub open spec fn after_prefill(
    k: Kernel,
    x: ExecutorView,
    start: usize,
    end: usize,
    tokens: Seq<u32>,
    inputs: Seq<Row>,
    start_pos: usize,
    n: usize,
    m: Memory,
) -> Memory {
    run_batch(k, x, inputs, m, prefill_steps(x, start, end, Some(tokens), start_pos, n))
}

/// What a prefill pass hands on for the last row of its batch: the logits or the hidden state.
pub open spec fn prefill_result(x: ExecutorView, end: usize, n: usize, m: Memory) -> Row {
    if is_last(x, end) {
        m.ws[Place::Logits]
    } else {
        m.row(Place::Hidden, n - 1)
    }
}

/// What a prefill pass can be asked for: a batch that is not too large, with a token and a row for
/// each of its positions. It may be empty: a pass over no rows hands on none and caches nothing.
pub open spec fn is_batch(tokens: Seq<u32>, inputs: Seq<Row>, start_pos: usize, n: usize) -> bool {
    &&& n <= MAX_BATCH
    &&& start_pos + n <= usize::MAX
    &&& tokens.len() == n
    &&& inputs.len() == n
}

/// What a prefill pass hands on and caches depends on nothing but its input, its positions, and what
/// its layers have cached at the positions before.
pub proof fn lemma_prefill_computes(
    k: Kernel,
    x: ExecutorView,
    start: usize,
    end: usize,
    tokens: Seq<u32>,
    inputs: Seq<Row>,
    start_pos: usize,
    n: usize,
    m: Memory,
)
    requires
        is_batch(tokens, inputs, start_pos, n),
    ensures
        ({
            let r = after_prefill(k, x, start, end, tokens, inputs, start_pos, n, m);
            let hs = first_rows(k, x, start, tokens, inputs, n as int);
            let lo = start as int;
            &&& n > 0 ==> prefill_result(x, end, n, r) == handed_on(
                k,
                x,
                end,
                batch_row(k, x, lo, end + 1, start_pos, hs, m.cache, n - 1),
            )
            &&& forall|t: int|
                0 <= t < n ==> #[trigger] r.row(Place::Hidden, t) == batch_row(
                    k,
                    x,
                    lo,
                    end + 1,
                    start_pos,
                    hs,
                    m.cache,
                    t,
                )
            &&& forall|l: int, p: int|
                #[trigger] r.cache[(l, p)] == if lo <= l <= end && start_pos <= p < start_pos + n {
                    cached_row(
                        k,
                        x.config,
                        x.biases(l),
                        l as usize,
                        p as usize,
                        batch_row(k, x, lo, l, start_pos, hs, m.cache, p - start_pos),
                    )
                } else {
                    m.cache[(l, p)]
                }
        }),
{
    let c = x.config;
    let lo = start as int;
    let hs = first_rows(k, x, start, tokens, inputs, n as int);
    let input = input_steps(x, start, tokens, n);
    let layers = prefill_layers(c, lo, end + 1, start_pos, n);
    let last = final_steps(x, end, n - 1);
    let m0 = run_batch(k, x, inputs, m, input);
    let m1 = run_batch(k, x, inputs, m0, layers);
    let m2 = run_batch(k, x, inputs, m1, last);
    assert(prefill_steps(x, start, end, Some(tokens), start_pos, n) == input + layers + last);
    lemma_run_batch_concat(k, x, inputs, m, input, layers);
    lemma_run_batch_concat(k, x, inputs, m, input + layers, last);
    lemma_batch_input(k, x, start, tokens, inputs, n, m);
    lemma_batch_layers(k, x, inputs, lo, end + 1, start_pos, n, hs, m0);
    lemma_batch_final(k, x, inputs, end, n, m1);
    assert(n > 0 ==> m1.row(Place::Hidden, n - 1) == batch_row(
        k,
        x,
        lo,
        end + 1,
        start_pos,
        hs,
        m.cache,
        n - 1,
    ));
    assert(forall|t: int| #[trigger] m2.row(Place::Hidden, t) == m1.row(Place::Hidden, t));
}

/// What the layers make of the first `n` rows of a batch depends on those rows and on what was
/// cached before the batch, not on later rows or on anything else that is cached.
pub proof fn lemma_batch_rows_read(
    k: Kernel,
    x: ExecutorView,
    lo: int,
    hi: int,
    start_pos: usize,
    hs: Seq<Row>,
    gs: Seq<Row>,
    a: Map<(int, int), Row>,
    b: Map<(int, int), Row>,
    n: int,
)
    requires
        forall|t: int| 0 <= t < n ==> #[trigger] hs[t] == gs[t],
        forall|l: int, p: int|
            lo <= l < hi && 0 <= p < start_pos ==> #[trigger] a[(l, p)] == b[(l, p)],
        0 <= lo,
        hi <= usize::MAX + 1,
    ensures
        forall|t: int|
            0 <= t < n ==> #[trigger] batch_row(k, x, lo, hi, start_pos, hs, a, t) == batch_row(
                k,
                x,
                lo,
                hi,
                start_pos,
                gs,
                b,
                t,
            ),
    decreases hi - lo,
{
    if lo < hi {
        lemma_batch_rows_read(k, x, lo, hi - 1, start_pos, hs, gs, a, b, n);
        let c = x.config;
        let w = x.biases(hi - 1);
        let layer = (hi - 1) as usize;
        let r = batch_rows(k, x, lo, hi - 1, start_pos, hs, a);
        let q = batch_rows(k, x, lo, hi - 1, start_pos, gs, b);
        assert forall|t: int| 0 <= t < n implies #[trigger] batch_row(
            k,
            x,
            lo,
            hi,
            start_pos,
            hs,
            a,
            t,
        ) == batch_row(k, x, lo, hi, start_pos, gs, b, t) by {
            let before = before_row(k, c, w, layer, start_pos, r, a, t);
            let other = before_row(k, c, w, layer, start_pos, q, b, t);
            assert forall|p: int| 0 <= p < start_pos + t implies #[trigger] before[p] == other[p] by {
                if p >= start_pos {
                    let i = p - start_pos;
                    assert(batch_row(k, x, lo, hi - 1, start_pos, hs, a, i) == batch_row(
                        k,
                        x,
                        lo,
                        hi - 1,
                        start_pos,
                        gs,
                        b,
                        i,
                    ));
                }
            }
            assert(before =~= other);
            assert(batch_row(k, x, lo, hi - 1, start_pos, hs, a, t) == batch_row(
                k,
                x,
                lo,
                hi - 1,
                start_pos,
                gs,
                b,
                t,
            ));
        }
    }
}

/// Nothing that earlier passes left in a workspace, and nothing that is cached for other layers,
/// reaches the result of a prefill pass or what it caches.
pub proof fn lemma_prefill_ignores_scratch(
    k: Kernel,
    x: ExecutorView,
    start: usize,
    end: usize,
    tokens: Seq<u32>,
    inputs: Seq<Row>,
    start_pos: usize,
    n: usize,
    a: Memory,
    b: Memory,
)
    requires
        is_batch(tokens, inputs, start_pos, n),
        same_cache(a, b, start as int, end as int),
    ensures
        ({
            let after_a = after_prefill(k, x, start, end, tokens, inputs, start_pos, n, a);
            let after_b = after_prefill(k, x, start, end, tokens, inputs, start_pos, n, b);
            &&& n > 0 ==> prefill_result(x, end, n, after_a) == prefill_result(x, end, n, after_b)
            &&& forall|t: int|
                0 <= t < n ==> #[trigger] after_a.row(Place::Hidden, t) == after_b.row(
                    Place::Hidden,
                    t,
                )
            &&& same_cache(after_a, after_b, start as int, end as int)
        }),
{
    let lo = start as int;
    let hs = first_rows(k, x, start, tokens, inputs, n as int);
    lemma_prefill_computes(k, x, start, end, tokens, inputs, start_pos, n, a);
    lemma_prefill_computes(k, x, start, end, tokens, inputs, start_pos, n, b);
    let after_a = after_prefill(k, x, start, end, tokens, inputs, start_pos, n, a);
    let after_b = after_prefill(k, x, start, end, tokens, inputs, start_pos, n, b);
    lemma_batch_rows_read(k, x, lo, end + 1, start_pos, hs, hs, a.cache, b.cache, n as int);
    assert(n > 0 ==> batch_row(k, x, lo, end + 1, start_pos, hs, a.cache, n - 1) == batch_row(
        k,
        x,
        lo,
        end + 1,
        start_pos,
        hs,
        b.cache,
        n - 1,
    ));
    assert forall|l: int, p: int| start <= l <= end implies #[trigger] after_a.cache[(l, p)]
        == after_b.cache[(l, p)] by {
        lemma_batch_rows_read(k, x, lo, l, start_pos, hs, hs, a.cache, b.cache, n as int);
        if start_pos <= p < start_pos + n {
            let t = p - start_pos;
            assert(batch_row(k, x, lo, l, start_pos, hs, a.cache, t) == batch_row(
                k,
                x,
                lo,
                l,
                start_pos,
                hs,
                b.cache,
                t,
            ));
        } else {
            assert(a.cache[(l, p)] == b.cache[(l, p)]);
        }
    }
}

/// A prefill pass can be repeated: done again with the same input at the same positions, it hands
/// on the same and leaves the cache as it is.
pub proof fn lemma_prefill_can_be_repeated(
    k: Kernel,
    x: ExecutorView,
    start: usize,
    end: usize,
    tokens: Seq<u32>,
    inputs: Seq<Row>,
    start_pos: usize,
    n: usize,
    m: Memory,
)
    requires
        is_batch(tokens, inputs, start_pos, n),
    ensures
        ({
            let once = after_prefill(k, x, start, end, tokens, inputs, start_pos, n, m);
            let twice = after_prefill(k, x, start, end, tokens, inputs, start_pos, n, once);
            &&& n > 0 ==> prefill_result(x, end, n, twice) == prefill_result(x, end, n, once)
            &&& forall|t: int|
                0 <= t < n ==> #[trigger] twice.row(Place::Hidden, t) == once.row(Place::Hidden, t)
            &&& forall|l: int, p: int| #[trigger] twice.cache[(l, p)] == once.cache[(l, p)]
        }),
{
    let lo = start as int;
    let hs = first_rows(k, x, start, tokens, inputs, n as int);
    let once = after_prefill(k, x, start, end, tokens, inputs, start_pos, n, m);
    let twice = after_prefill(k, x, start, end, tokens, inputs, start_pos, n, once);
    lemma_prefill_computes(k, x, start, end, tokens, inputs, start_pos, n, m);
    lemma_prefill_computes(k, x, start, end, tokens, inputs, start_pos, n, once);
    lemma_batch_rows_read(k, x, lo, end + 1, start_pos, hs, hs, once.cache, m.cache, n as int);
    assert(n > 0 ==> batch_row(k, x, lo, end + 1, start_pos, hs, once.cache, n - 1) == batch_row(
        k,
        x,
        lo,
        end + 1,
        start_pos,
        hs,
        m.cache,
        n - 1,
    ));
    assert forall|l: int, p: int| #[trigger] twice.cache[(l, p)] == once.cache[(l, p)] by {
        if start <= l <= end && start_pos <= p < start_pos + n {
            lemma_batch_rows_read(k, x, lo, l, start_pos, hs, hs, once.cache, m.cache, n as int);
            let t = p - start_pos;
            assert(batch_row(k, x, lo, l, start_pos, hs, once.cache, t) == batch_row(
                k,
                x,
                lo,
                l,
                start_pos,
                hs,
                m.cache,
                t,
            ));
        }
    }
}

/// The layers make of a token that is decoded after a batch what they make of it as the last row of
/// the batch with it.
proof fn lemma_decode_continues_batch(
    k: Kernel,
    x: ExecutorView,
    lo: int,
    hi: int,
    start_pos: usize,
    hs: Seq<Row>,
    cache: Map<(int, int), Row>,
    filled: Map<(int, int), Row>,
)
    requires
        0 <= lo,
        hi <= usize::MAX + 1,
        0 < hs.len(),
        start_pos + hs.len() <= usize::MAX,
        forall|l: int, p: int|
            lo <= l < hi && 0 <= p < start_pos + hs.len() - 1 ==> #[trigger] filled[(l, p)] == if p
                < start_pos {
                cache[(l, p)]
            } else {
                cached_row(
                    k,
                    x.config,
                    x.biases(l),
                    l as usize,
                    p as usize,
                    batch_row(k, x, lo, l, start_pos, hs, cache, p - start_pos),
                )
            },
    ensures
        hidden_row(
            k,
            x,
            lo,
            hi,
            (start_pos + hs.len() - 1) as usize,
            hs.last(),
            filled,
        ) == batch_row(k, x, lo, hi, start_pos, hs, cache, hs.len() - 1),
    decreases hi - lo,
{
    if lo < hi {
        lemma_decode_continues_batch(k, x, lo, hi - 1, start_pos, hs, cache, filled);
        let layer = (hi - 1) as usize;
        let rows = batch_rows(k, x, lo, hi - 1, start_pos, hs, cache);
        let before = before_row(
            k,
            x.config,
            x.biases(hi - 1),
            layer,
            start_pos,
            rows,
            cache,
            hs.len() - 1,
        );
        let prefix = cache_prefix(filled, hi - 1, start_pos + hs.len() - 1);
        assert forall|p: int| 0 <= p < start_pos + hs.len() - 1 implies #[trigger] prefix[p]
            == before[p] by {
            assert(prefix[p] == filled[(hi - 1, p)]);
        }
        assert(prefix =~= before);
    }
}

/// Filling in all tokens but the last and then decoding the last one gives what filling in all of
/// them gives: the same is handed on for the last token, and the same is cached. A token that is
/// alone is decoded at once. So it does not matter to the answer how a prompt is cut up.
pub proof fn lemma_prefill_and_decode_is_prefill(
    k: Kernel,
    x: ExecutorView,
    start: usize,
    end: usize,
    tokens: Seq<u32>,
    inputs: Seq<Row>,
    start_pos: usize,
    n: usize,
    m: Memory,
)
    requires
        is_batch(tokens, inputs, start_pos, n),
        n > 0,
    ensures
        ({
            let filled = if n == 1 {
                m
            } else {
                after_prefill(
                    k,
                    x,
                    start,
                    end,
                    tokens.drop_last(),
                    inputs.drop_last(),
                    start_pos,
                    (n - 1) as usize,
                    m,
                )
            };
            let decoded = after_decode(
                k,
                x,
                start,
                end,
                Some(tokens.last()),
                inputs.last(),
                (start_pos + n - 1) as usize,
                filled,
            );
            let at_once = after_prefill(k, x, start, end, tokens, inputs, start_pos, n, m);
            &&& decode_result(x, end, decoded) == prefill_result(x, end, n, at_once)
            &&& forall|l: int, p: int| #[trigger] decoded.cache[(l, p)] == at_once.cache[(l, p)]
        }),
{
    let lo = start as int;
    let pos = (start_pos + n - 1) as usize;
    let fewer = (n - 1) as usize;
    let t0 = tokens.drop_last();
    let i0 = inputs.drop_last();
    let hs = first_rows(k, x, start, tokens, inputs, n as int);
    let gs = first_rows(k, x, start, t0, i0, fewer as int);
    let filled = if n == 1 {
        m
    } else {
        after_prefill(k, x, start, end, t0, i0, start_pos, fewer, m)
    };
    let decoded = after_decode(k, x, start, end, Some(tokens.last()), inputs.last(), pos, filled);
    let at_once = after_prefill(k, x, start, end, tokens, inputs, start_pos, n, m);
    lemma_prefill_computes(k, x, start, end, t0, i0, start_pos, fewer, m);
    lemma_decode_computes(k, x, start, end, Some(tokens.last()), inputs.last(), pos, filled);
    lemma_prefill_computes(k, x, start, end, tokens, inputs, start_pos, n, m);
    assert(hs.last() == first_row(k, x, start, tokens.last(), inputs.last()));
    assert forall|l: int, p: int|
        lo <= l <= end && 0 <= p < start_pos + n - 1 implies #[trigger] filled.cache[(l, p)] == if p
        < start_pos {
        m.cache[(l, p)]
    } else {
        cached_row(
            k,
            x.config,
            x.biases(l),
            l as usize,
            p as usize,
            batch_row(k, x, lo, l, start_pos, hs, m.cache, p - start_pos),
        )
    } by {
        lemma_batch_rows_read(k, x, lo, l, start_pos, gs, hs, m.cache, m.cache, fewer as int);
        if p >= start_pos {
            let t = p - start_pos;
            assert(batch_row(k, x, lo, l, start_pos, gs, m.cache, t) == batch_row(
                k,
                x,
                lo,
                l,
                start_pos,
                hs,
                m.cache,
                t,
            ));
        }
    }
    lemma_decode_continues_batch(k, x, lo, end + 1, start_pos, hs, m.cache, filled.cache);
    assert forall|l: int, p: int| #[trigger] decoded.cache[(l, p)] == at_once.cache[(l, p)] by {
        if lo <= l <= end && p == pos {
            lemma_decode_continues_batch(k, x, lo, l, start_pos, hs, m.cache, filled.cache);
            assert(decoded.cache[(l, pos as int)] == at_once.cache[(l, pos as int)]);
        } else {
            assert(decoded.cache[(l, p)] == filled.cache[(l, p)]);
        }
    }
}

} // verus!
