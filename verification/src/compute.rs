//! What a pass computes, whatever its kernels do.
//!
//! The numbers in the buffers are left to the kernels. A kernel is taken to be any function that
//! gives a row for a step and the rows which the step reads; a kernel for a batch acts on each row
//! as the one for a single row does, and attention reads the cache of its layer up to its position.
//! What follows holds for all of them.

use crate::steps::{Buffer, ExecutorView, LayerBiases, LayerNorm, Matrix, ModelConfig, Step, activations, decode_attention, decode_layer, decode_layers, decode_projections, decode_steps, feed_forward, final_steps, is_last, scales};
use vstd::prelude::*;

verus! {

/// One row of a buffer, as bit patterns.
pub type Row = Seq<u32>;

/// What the kernels give for a step on one row, from the rows which it reads.
pub type Kernel = spec_fn(Step, Seq<Seq<u32>>) -> Seq<u32>;

/// Two rows that a step reads.
pub open spec fn pair(a: Row, b: Row) -> Seq<Row> {
    Seq::empty().push(a).push(b)
}

/// Where a workspace keeps a row.
pub enum Place {
    Hidden,
    Residual,
    NormX,
    Quantized,
    Q,
    K,
    V,
    AttnOutput,
    FfnGate,
    FfnUp,
    FfnGateUp,
    Logits,
}

/// What a node keeps between and during passes.
pub struct Memory {
    /// The workspace of a single token.
    pub ws: Map<Place, Row>,
    /// The workspace of a batch, row by row.
    pub batch: spec_fn(Place, int) -> Row,
    /// The cached keys and values, by layer and position.
    pub cache: Map<(int, int), Row>,
}

/// Where the rows of a buffer are kept.
pub open spec fn place_of(buffer: Buffer) -> Place {
    match buffer {
        Buffer::Hidden => Place::Hidden,
        Buffer::NormX => Place::NormX,
        Buffer::Q => Place::Q,
        Buffer::K => Place::K,
        Buffer::V => Place::V,
        Buffer::AttnOutput => Place::AttnOutput,
        Buffer::FfnGate => Place::FfnGate,
        Buffer::FfnUp => Place::FfnUp,
        Buffer::FfnGateUp => Place::FfnGateUp,
    }
}

/// What is cached of a layer at the first `n` positions.
pub open spec fn cache_prefix(cache: Map<(int, int), Row>, layer: int, n: int) -> Seq<Row> {
    Seq::new(n as nat, |p: int| cache[(layer, p)])
}

impl Memory {
    /// A row of the workspace of a batch.
    pub open spec fn row(self, place: Place, t: int) -> Row {
        (self.batch)(place, t)
    }

    /// The memory with another row in the workspace of a single token.
    pub open spec fn put(self, place: Place, row: Row) -> Memory {
        Memory { ws: self.ws.insert(place, row), ..self }
    }

    /// The memory with other rows `lo..hi` in the workspace of a batch.
    pub open spec fn put_rows(
        self,
        place: Place,
        lo: int,
        hi: int,
        rows: spec_fn(int) -> Row,
    ) -> Memory {
        Memory {
            batch: |p: Place, t: int|
                if p == place && lo <= t < hi {
                    rows(t)
                } else {
                    self.row(p, t)
                },
            ..self
        }
    }

    /// The memory with a row cached for a layer at a position.
    pub open spec fn store(self, layer: usize, position: usize, row: Row) -> Memory {
        Memory { cache: self.cache.insert((layer as int, position as int), row), ..self }
    }

    /// What is cached of a layer at the first `n` positions.
    pub open spec fn prefix(self, layer: int, n: int) -> Seq<Row> {
        cache_prefix(self.cache, layer, n)
    }
}

/// What a step of a decode pass does to the memory; `input` is the row that came in.
pub open spec fn token_step(k: Kernel, input: Row, m: Memory, s: Step) -> Memory {
    match s {
        Step::EmbedToken { .. } => m.put(Place::Hidden, k(s, Seq::empty())),
        Step::CopyActivations { .. } => m.put(Place::Hidden, k(s, seq![input])),
        Step::SaveResidual { .. } => m.put(Place::Residual, k(s, seq![m.ws[Place::Hidden]])),
        Step::Norm { .. } => m.put(Place::NormX, k(s, seq![m.ws[Place::Hidden]])),
        Step::Quantize { source, .. } => m.put(
            Place::Quantized,
            k(s, seq![m.ws[place_of(source)]]),
        ),
        Step::Multiply { target, .. } => m.put(
            place_of(target),
            k(s, seq![m.ws[Place::Quantized]]),
        ),
        Step::AddBias { target, .. } => m.put(place_of(target), k(s, seq![m.ws[place_of(target)]])),
        Step::Rotate { target, .. } => m.put(place_of(target), k(s, seq![m.ws[place_of(target)]])),
        Step::StoreKv { layer, position, .. } => m.store(
            layer,
            position,
            k(s, pair(m.ws[Place::K], m.ws[Place::V])),
        ),
        Step::ClearAttention { .. } => m.put(Place::AttnOutput, k(s, Seq::empty())),
        Step::Attend { layer, position, .. } => m.put(
            Place::AttnOutput,
            k(
                s,
                pair(m.ws[Place::AttnOutput], m.ws[Place::Q]) + m.prefix(
                    layer as int,
                    position + 1,
                ),
            ),
        ),
        Step::AddResidual { .. } => m.put(
            Place::Hidden,
            k(s, pair(m.ws[Place::Hidden], m.ws[Place::Residual])),
        ),
        Step::Activate { .. } => m.put(
            Place::FfnGateUp,
            k(s, pair(m.ws[Place::FfnGate], m.ws[Place::FfnUp])),
        ),
        Step::FinalNorm { .. } => m.put(Place::NormX, k(s, seq![m.ws[Place::Hidden]])),
        Step::QuantizeFinal { .. } => m.put(Place::Quantized, k(s, seq![m.ws[Place::NormX]])),
        Step::ProjectOutput { .. } => m.put(Place::Logits, k(s, seq![m.ws[Place::Quantized]])),
        Step::ProjectEmbeddings { .. } => m.put(Place::Logits, k(s, seq![m.ws[Place::NormX]])),
    }
}

/// What the steps of a decode pass do to the memory, one after the other.
pub open spec fn run_token(k: Kernel, input: Row, m: Memory, steps: Seq<Step>) -> Memory
    decreases steps.len(),
{
    if steps.len() == 0 {
        m
    } else {
        token_step(k, input, run_token(k, input, m, steps.drop_last()), steps.last())
    }
}

broadcast proof fn lemma_run_token_push(k: Kernel, input: Row, m: Memory, a: Seq<Step>, s: Step)
    ensures
        #[trigger] run_token(k, input, m, a.push(s)) == token_step(
            k,
            input,
            run_token(k, input, m, a),
            s,
        ),
{
    assert(a.push(s).drop_last() =~= a);
}

broadcast proof fn lemma_run_token_concat(
    k: Kernel,
    input: Row,
    m: Memory,
    a: Seq<Step>,
    b: Seq<Step>,
)
    ensures
        #[trigger] run_token(k, input, m, a + b) == run_token(
            k,
            input,
            run_token(k, input, m, a),
            b,
        ),
    decreases b.len(),
{
    if b.len() == 0 {
        assert(a + b =~= a);
    } else {
        lemma_run_token_concat(k, input, m, a, b.drop_last());
        assert((a + b).drop_last() =~= a + b.drop_last());
    }
}

/// The projection of a normalised and quantized row, with its bias where there is one.
pub open spec fn projected(
    k: Kernel,
    x: Row,
    target: Buffer,
    layer: usize,
    matrix: Matrix,
    rows: usize,
    cols: usize,
    bias: bool,
) -> Row {
    let y = k(Step::Multiply { target, layer, matrix, tokens: 1, rows, cols }, seq![x]);
    if bias {
        k(Step::AddBias { target, layer, tokens: 1, width: rows }, seq![y])
    } else {
        y
    }
}

/// A hidden row, normalised and quantized.
pub open spec fn normed(k: Kernel, c: ModelConfig, layer: usize, norm: LayerNorm, h: Row) -> Row {
    let e = c.embedding_length;
    k(
        Step::Quantize { source: Buffer::NormX, tokens: 1, width: e, scales: scales(c, 1, e) },
        seq![k(Step::Norm { layer, norm, tokens: 1, width: e }, seq![h])],
    )
}

/// A hidden row, kept as the residual.
pub open spec fn kept(k: Kernel, c: ModelConfig, h: Row) -> Row {
    k(Step::SaveResidual { tokens: 1, len: c.embedding_length }, seq![h])
}

/// The query of a hidden row, not turned yet.
pub open spec fn query_row(k: Kernel, c: ModelConfig, b: LayerBiases, layer: usize, h: Row) -> Row {
    let e = c.embedding_length;
    let x = normed(k, c, layer, LayerNorm::Attention, h);
    projected(k, x, Buffer::Q, layer, Matrix::Wq, e, e, b.wq)
}

/// The key of a hidden row, not turned yet.
pub open spec fn key_row(k: Kernel, c: ModelConfig, b: LayerBiases, layer: usize, h: Row) -> Row {
    let x = normed(k, c, layer, LayerNorm::Attention, h);
    projected(k, x, Buffer::K, layer, Matrix::Wk, c.kv_width, c.embedding_length, b.wk)
}

/// The value of a hidden row.
pub open spec fn value_row(k: Kernel, c: ModelConfig, b: LayerBiases, layer: usize, h: Row) -> Row {
    let x = normed(k, c, layer, LayerNorm::Attention, h);
    projected(k, x, Buffer::V, layer, Matrix::Wav, c.kv_width, c.embedding_length, b.wav)
}

/// The query of a row, turned by its position.
pub open spec fn turned_query(k: Kernel, c: ModelConfig, pos: usize, q: Row) -> Row {
    k(
        Step::Rotate {
            target: Buffer::Q,
            row: 0,
            start: 0,
            len: c.embedding_length,
            position: pos,
            heads: c.attention_head_count,
        },
        seq![q],
    )
}

/// The key of a row, turned by its position.
pub open spec fn turned_key(k: Kernel, c: ModelConfig, pos: usize, key: Row) -> Row {
    k(
        Step::Rotate {
            target: Buffer::K,
            row: 0,
            start: 0,
            len: c.kv_width,
            position: pos,
            heads: c.attention_head_count_kv,
        },
        seq![key],
    )
}

/// What is cached of a row with this key, not turned yet, and this value.
pub open spec fn stored(k: Kernel, c: ModelConfig, layer: usize, pos: usize, key: Row, value: Row) -> Row {
    k(
        Step::StoreKv { layer, position: pos, row: 0, start: 0, len: c.kv_width },
        pair(turned_key(k, c, pos, key), value),
    )
}

/// What a layer caches for the hidden row `h` at `pos`.
pub open spec fn cached_row(
    k: Kernel,
    c: ModelConfig,
    b: LayerBiases,
    layer: usize,
    pos: usize,
    h: Row,
) -> Row {
    stored(k, c, layer, pos, key_row(k, c, b, layer, h), value_row(k, c, b, layer, h))
}

/// What attention gives for a turned query over what is cached, up to and with its own position.
pub open spec fn attended(
    k: Kernel,
    c: ModelConfig,
    layer: usize,
    pos: usize,
    q: Row,
    cached: Seq<Row>,
) -> Row {
    let e = c.embedding_length;
    k(
        Step::Attend {
            layer,
            position: pos,
            row: 0,
            start: 0,
            len: e,
            scores_start: 0,
            scores_len: c.context_length,
        },
        pair(k(Step::ClearAttention { tokens: 1, len: e }, Seq::empty()), q) + cached,
    )
}

/// The hidden row after attention, from its output `a` and the residual `r`.
pub open spec fn after_attention(k: Kernel, c: ModelConfig, layer: usize, a: Row, r: Row) -> Row {
    let e = c.embedding_length;
    let x = k(
        Step::Quantize { source: Buffer::AttnOutput, tokens: 1, width: e, scales: scales(c, 1, e) },
        seq![a],
    );
    let o = k(
        Step::Multiply {
            target: Buffer::Hidden,
            layer,
            matrix: Matrix::Wo,
            tokens: 1,
            rows: e,
            cols: e,
        },
        seq![x],
    );
    k(Step::AddResidual { tokens: 1, len: e }, pair(o, r))
}

/// What the feed-forward part of a layer makes of a hidden row.
pub open spec fn fed_forward(k: Kernel, c: ModelConfig, layer: usize, h: Row) -> Row {
    let e = c.embedding_length;
    let f = c.feed_forward_length;
    let x = normed(k, c, layer, LayerNorm::Ffn, h);
    let gate = projected(k, x, Buffer::FfnGate, layer, Matrix::W1, f, e, false);
    let up = projected(k, x, Buffer::FfnUp, layer, Matrix::W3, f, e, false);
    let both = k(Step::Activate { row: 0, start: 0, len: f }, pair(gate, up));
    let y = k(
        Step::Quantize { source: Buffer::FfnGateUp, tokens: 1, width: f, scales: scales(c, 1, f) },
        seq![both],
    );
    let down = projected(k, y, Buffer::Hidden, layer, Matrix::W2, e, f, false);
    k(Step::AddResidual { tokens: 1, len: e }, pair(down, kept(k, c, h)))
}

/// What a layer makes of the hidden row `h` at `pos`, over what it has cached at the positions
/// before.
pub open spec fn layer_row(
    k: Kernel,
    c: ModelConfig,
    b: LayerBiases,
    layer: usize,
    pos: usize,
    h: Row,
    before: Seq<Row>,
) -> Row {
    let q = turned_query(k, c, pos, query_row(k, c, b, layer, h));
    let a = attended(
        k,
        c,
        layer,
        pos,
        q,
        before.push(cached_row(k, c, b, layer, pos, h)),
    );
    fed_forward(k, c, layer, after_attention(k, c, layer, a, kept(k, c, h)))
}

proof fn lemma_token_projections(
    k: Kernel,
    input: Row,
    c: ModelConfig,
    b: LayerBiases,
    layer: usize,
    m: Memory,
)
    ensures
        ({
            let r = run_token(k, input, m, decode_projections(c, b, layer));
            let h = m.ws[Place::Hidden];
            &&& r.ws[Place::Residual] == kept(k, c, h)
            &&& r.ws[Place::Q] == query_row(k, c, b, layer, h)
            &&& r.ws[Place::K] == key_row(k, c, b, layer, h)
            &&& r.ws[Place::V] == value_row(k, c, b, layer, h)
            &&& r.cache == m.cache
        }),
{
    broadcast use {lemma_run_token_concat, lemma_run_token_push};

    reveal_with_fuel(run_token, 5);
}

proof fn lemma_token_attention(
    k: Kernel,
    input: Row,
    c: ModelConfig,
    layer: usize,
    pos: usize,
    m: Memory,
)
    ensures
        ({
            let r = run_token(k, input, m, decode_attention(c, layer, pos));
            let q = turned_query(k, c, pos, m.ws[Place::Q]);
            let own = stored(k, c, layer, pos, m.ws[Place::K], m.ws[Place::V]);
            let a = attended(k, c, layer, pos, q, m.prefix(layer as int, pos as int).push(own));
            &&& r.ws[Place::Hidden] == after_attention(k, c, layer, a, m.ws[Place::Residual])
            &&& r.cache == m.cache.insert((layer as int, pos as int), own)
        }),
{
    broadcast use {lemma_run_token_concat, lemma_run_token_push};

    reveal_with_fuel(run_token, 9);
    let own = stored(k, c, layer, pos, m.ws[Place::K], m.ws[Place::V]);
    let after = m.store(layer, pos, own);
    assert(after.prefix(layer as int, pos + 1) =~= m.prefix(layer as int, pos as int).push(own));
    let r = run_token(k, input, m, decode_attention(c, layer, pos));
    assert(r.cache == after.cache);
}

proof fn lemma_token_feed_forward(k: Kernel, input: Row, c: ModelConfig, layer: usize, m: Memory)
    ensures
        ({
            let r = run_token(k, input, m, feed_forward(c, layer, 1));
            &&& r.ws[Place::Hidden] == fed_forward(k, c, layer, m.ws[Place::Hidden])
            &&& r.cache == m.cache
        }),
{
    broadcast use {lemma_run_token_concat, lemma_run_token_push};

    let f = c.feed_forward_length;
    assert(activations(c, 1) =~= seq![Step::Activate { row: 0, start: 0, len: f }]);
    reveal_with_fuel(run_token, 6);
}

/// What the layers `lo..hi` of a node make of the hidden row `h` at `pos`, over what is cached.
pub open spec fn hidden_row(
    k: Kernel,
    x: ExecutorView,
    lo: int,
    hi: int,
    pos: usize,
    h: Row,
    cache: Map<(int, int), Row>,
) -> Row
    decreases hi - lo,
{
    if hi <= lo {
        h
    } else {
        layer_row(
            k,
            x.config,
            x.biases(hi - 1),
            (hi - 1) as usize,
            pos,
            hidden_row(k, x, lo, hi - 1, pos, h, cache),
            cache_prefix(cache, hi - 1, pos as int),
        )
    }
}

proof fn lemma_token_layers(
    k: Kernel,
    input: Row,
    x: ExecutorView,
    lo: int,
    hi: int,
    pos: usize,
    m: Memory,
)
    requires
        0 <= lo,
        hi <= usize::MAX + 1,
    ensures
        ({
            let r = run_token(k, input, m, decode_layers(x, lo, hi, pos));
            let h = m.ws[Place::Hidden];
            &&& r.ws[Place::Hidden] == hidden_row(k, x, lo, hi, pos, h, m.cache)
            &&& forall|l: int|
                lo <= l < hi ==> #[trigger] r.cache[(l, pos as int)] == cached_row(
                    k,
                    x.config,
                    x.biases(l),
                    l as usize,
                    pos,
                    hidden_row(k, x, lo, l, pos, h, m.cache),
                )
            &&& forall|l: int, p: int|
                !(lo <= l < hi && p == pos) ==> #[trigger] r.cache[(l, p)] == m.cache[(l, p)]
        }),
    decreases hi - lo,
{
    let h = m.ws[Place::Hidden];
    if lo < hi {
        lemma_token_layers(k, input, x, lo, hi - 1, pos, m);
        let c = x.config;
        let b = x.biases(hi - 1);
        let layer = (hi - 1) as usize;
        let m0 = run_token(k, input, m, decode_layers(x, lo, hi - 1, pos));
        let m1 = run_token(k, input, m0, decode_projections(c, b, layer));
        let m2 = run_token(k, input, m1, decode_attention(c, layer, pos));
        lemma_token_projections(k, input, c, b, layer, m0);
        lemma_token_attention(k, input, c, layer, pos, m1);
        lemma_token_feed_forward(k, input, c, layer, m2);
        lemma_run_token_concat(
            k,
            input,
            m,
            decode_layers(x, lo, hi - 1, pos),
            decode_layer(c, b, layer, pos),
        );
        lemma_run_token_concat(
            k,
            input,
            m0,
            decode_projections(c, b, layer),
            decode_attention(c, layer, pos),
        );
        lemma_run_token_concat(
            k,
            input,
            m0,
            decode_projections(c, b, layer) + decode_attention(c, layer, pos),
            feed_forward(c, layer, 1),
        );
        assert(m1.prefix(layer as int, pos as int) =~= cache_prefix(m.cache, hi - 1, pos as int));
    }
}

/// The logits of a hidden row.
pub open spec fn logits_row(k: Kernel, x: ExecutorView, h: Row) -> Row {
    let e = x.config.embedding_length;
    let v = x.config.vocab_size;
    let n = k(Step::FinalNorm { row: 0, start: 0, len: e }, seq![h]);
    if x.output_projection {
        k(
            Step::ProjectOutput { rows: v, cols: e },
            seq![k(Step::QuantizeFinal { width: e }, seq![n])],
        )
    } else {
        k(Step::ProjectEmbeddings { rows: v, cols: e }, seq![n])
    }
}

/// What a pass hands on for a row whose hidden state has become `h`.
pub open spec fn handed_on(k: Kernel, x: ExecutorView, end: usize, h: Row) -> Row {
    if is_last(x, end) {
        logits_row(k, x, h)
    } else {
        h
    }
}

/// The hidden row with which a pass starts: that of a token on the first node, else what came in.
pub open spec fn first_row(k: Kernel, x: ExecutorView, start: usize, token: u32, input: Row) -> Row {
    if start == 0 {
        k(x.embed(token, 0), Seq::empty())
    } else {
        k(Step::CopyActivations { tokens: 1, len: x.config.embedding_length }, seq![input])
    }
}

/// The memory after a decode pass.
pub open spec fn after_decode(
    k: Kernel,
    x: ExecutorView,
    start: usize,
    end: usize,
    token: Option<u32>,
    input: Row,
    pos: usize,
    m: Memory,
) -> Memory {
    run_token(k, input, m, decode_steps(x, start, end, token, pos))
}

/// What a decode pass hands on: the logits or the hidden state.
pub open spec fn decode_result(x: ExecutorView, end: usize, m: Memory) -> Row {
    if is_last(x, end) {
        m.ws[Place::Logits]
    } else {
        m.ws[Place::Hidden]
    }
}

/// What a decode pass hands on and caches depends on nothing but its input, its position, and what
/// its layers have cached at the positions before.
pub proof fn lemma_decode_computes(
    k: Kernel,
    x: ExecutorView,
    start: usize,
    end: usize,
    token: Option<u32>,
    input: Row,
    pos: usize,
    m: Memory,
)
    ensures
        ({
            let r = after_decode(k, x, start, end, token, input, pos, m);
            let h = first_row(k, x, start, token->0, input);
            &&& decode_result(x, end, r) == handed_on(
                k,
                x,
                end,
                hidden_row(k, x, start as int, end + 1, pos, h, m.cache),
            )
            &&& forall|l: int|
                start <= l <= end ==> #[trigger] r.cache[(l, pos as int)] == cached_row(
                    k,
                    x.config,
                    x.biases(l),
                    l as usize,
                    pos,
                    hidden_row(k, x, start as int, l, pos, h, m.cache),
                )
            &&& forall|l: int, p: int|
                !(start <= l <= end && p == pos) ==> #[trigger] r.cache[(l, p)] == m.cache[(l, p)]
        }),
{
    let steps = decode_steps(x, start, end, token, pos);
    let first = steps[0];
    let layers = decode_layers(x, start as int, end + 1, pos);
    let last = final_steps(x, end, 0);
    let m0 = run_token(k, input, m, seq![first]);
    let m1 = run_token(k, input, m0, layers);
    assert(steps =~= seq![first] + layers + last);
    lemma_run_token_concat(k, input, m, seq![first], layers);
    lemma_run_token_concat(k, input, m, seq![first] + layers, last);
    assert(m0 == token_step(k, input, m, first)) by {
        reveal_with_fuel(run_token, 2);
    }
    lemma_token_layers(k, input, x, start as int, end + 1, pos, m0);
    reveal_with_fuel(run_token, 4);
}

/// Whether two memories have the same cached for the layers `lo..=hi`.
pub open spec fn same_cache(a: Memory, b: Memory, lo: int, hi: int) -> bool {
    forall|l: int, p: int| lo <= l <= hi ==> #[trigger] a.cache[(l, p)] == b.cache[(l, p)]
}

/// What the layers make of a hidden row depends on what they have cached at the positions before,
/// and on nothing else that is cached.
pub proof fn lemma_hidden_row_reads(
    k: Kernel,
    x: ExecutorView,
    lo: int,
    hi: int,
    pos: usize,
    h: Row,
    a: Map<(int, int), Row>,
    b: Map<(int, int), Row>,
)
    requires
        forall|l: int, p: int| lo <= l < hi && 0 <= p < pos ==> #[trigger] a[(l, p)] == b[(l, p)],
    ensures
        hidden_row(k, x, lo, hi, pos, h, a) == hidden_row(k, x, lo, hi, pos, h, b),
    decreases hi - lo,
{
    if lo < hi {
        lemma_hidden_row_reads(k, x, lo, hi - 1, pos, h, a, b);
        assert(cache_prefix(a, hi - 1, pos as int) =~= cache_prefix(b, hi - 1, pos as int));
    }
}

/// Nothing that earlier passes left in a workspace, and nothing that is cached for other layers,
/// reaches the result of a decode pass or what it caches.
pub proof fn lemma_decode_ignores_scratch(
    k: Kernel,
    x: ExecutorView,
    start: usize,
    end: usize,
    token: Option<u32>,
    input: Row,
    pos: usize,
    a: Memory,
    b: Memory,
)
    requires
        same_cache(a, b, start as int, end as int),
    ensures
        ({
            let after_a = after_decode(k, x, start, end, token, input, pos, a);
            let after_b = after_decode(k, x, start, end, token, input, pos, b);
            &&& decode_result(x, end, after_a) == decode_result(x, end, after_b)
            &&& same_cache(after_a, after_b, start as int, end as int)
        }),
{
    let h = first_row(k, x, start, token->0, input);
    lemma_decode_computes(k, x, start, end, token, input, pos, a);
    lemma_decode_computes(k, x, start, end, token, input, pos, b);
    lemma_hidden_row_reads(k, x, start as int, end + 1, pos, h, a.cache, b.cache);
    let after_a = after_decode(k, x, start, end, token, input, pos, a);
    let after_b = after_decode(k, x, start, end, token, input, pos, b);
    assert forall|l: int, p: int| start <= l <= end implies #[trigger] after_a.cache[(l, p)]
        == after_b.cache[(l, p)] by {
        lemma_hidden_row_reads(k, x, start as int, l, pos, h, a.cache, b.cache);
        if p == pos {
            assert(after_a.cache[(l, pos as int)] == after_b.cache[(l, pos as int)]);
        }
    }
}

/// A decode pass can be repeated: done again with the same input at the same position, it hands on
/// the same and leaves the cache as it is.
pub proof fn lemma_decode_can_be_repeated(
    k: Kernel,
    x: ExecutorView,
    start: usize,
    end: usize,
    token: Option<u32>,
    input: Row,
    pos: usize,
    m: Memory,
)
    ensures
        ({
            let once = after_decode(k, x, start, end, token, input, pos, m);
            let twice = after_decode(k, x, start, end, token, input, pos, once);
            &&& decode_result(x, end, twice) == decode_result(x, end, once)
            &&& forall|l: int, p: int| #[trigger] twice.cache[(l, p)] == once.cache[(l, p)]
        }),
{
    let h = first_row(k, x, start, token->0, input);
    let once = after_decode(k, x, start, end, token, input, pos, m);
    let twice = after_decode(k, x, start, end, token, input, pos, once);
    lemma_decode_computes(k, x, start, end, token, input, pos, m);
    lemma_decode_computes(k, x, start, end, token, input, pos, once);
    lemma_hidden_row_reads(k, x, start as int, end + 1, pos, h, m.cache, once.cache);
    assert forall|l: int, p: int| #[trigger] twice.cache[(l, p)] == once.cache[(l, p)] by {
        lemma_hidden_row_reads(k, x, start as int, l, pos, h, m.cache, once.cache);
        if p == pos && start <= l <= end {
            assert(twice.cache[(l, pos as int)] == once.cache[(l, pos as int)]);
        }
    }
}

} // verus!
