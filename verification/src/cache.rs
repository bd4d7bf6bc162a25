//! What a pass puts into the cache of its node, and the positions at which it works.

use crate::steps::{ExecutorView, LayerBiases, ModelConfig, Step, activations, decode_attention, decode_layer, decode_layers, decode_projections, decode_steps, embeds, feed_forward, feed_forward_in, feed_forward_out, final_steps, prefill_attends, prefill_attention, prefill_layer, prefill_layers, prefill_projections, prefill_row, prefill_rows, prefill_steps};
use vstd::prelude::*;

verus! {

/// Whether a step caches keys and values of a layer at a position.
pub open spec fn caches(step: Step, layer: int, position: int) -> bool {
    match step {
        Step::StoreKv { layer: l, position: p, row: _, start: _, len: _ } => l == layer && p == position,
        _ => false,
    }
}

/// Whether one of `steps` caches keys and values of a layer at a position.
pub open spec fn cached(steps: Seq<Step>, layer: int, position: int) -> bool {
    exists|i: int| 0 <= i < steps.len() && caches(#[trigger] steps[i], layer, position)
}

proof fn lemma_cached_concat(a: Seq<Step>, b: Seq<Step>, layer: int, position: int)
    ensures
        cached(a + b, layer, position) == (cached(a, layer, position) || cached(
            b,
            layer,
            position,
        )),
{
    let ab = a + b;
    if cached(a, layer, position) {
        let i = choose|i: int| 0 <= i < a.len() && caches(#[trigger] a[i], layer, position);
        assert(caches(ab[i], layer, position));
    }
    if cached(b, layer, position) {
        let i = choose|i: int| 0 <= i < b.len() && caches(#[trigger] b[i], layer, position);
        assert(ab[a.len() + i] == b[i]);
        assert(caches(ab[a.len() + i], layer, position));
    }
    if cached(ab, layer, position) {
        let i = choose|i: int| 0 <= i < ab.len() && caches(#[trigger] ab[i], layer, position);
        if i < a.len() {
            assert(caches(a[i], layer, position));
        } else {
            assert(b[i - a.len()] == ab[i]);
            assert(caches(b[i - a.len()], layer, position));
        }
    }
}

proof fn lemma_feed_forward_caches_nothing(
    c: ModelConfig,
    l: usize,
    tokens: usize,
    layer: int,
    position: int,
)
    ensures
        !cached(feed_forward(c, l, tokens), layer, position),
{
    let a = feed_forward_in(c, l, tokens);
    let b = activations(c, tokens);
    lemma_cached_concat(a, b, layer, position);
    lemma_cached_concat(a + b, feed_forward_out(c, l, tokens), layer, position);
}

proof fn lemma_decode_layer_caches(
    c: ModelConfig,
    b: LayerBiases,
    l: usize,
    pos: usize,
    layer: int,
    position: int,
)
    ensures
        cached(decode_layer(c, b, l, pos), layer, position) == (layer == l && position == pos),
{
    let p = decode_projections(c, b, l);
    let a = decode_attention(c, l, pos);
    assert(!cached(p, layer, position));
    assert(cached(a, layer, position) == (layer == l && position == pos)) by {
        assert(caches(a[2], l as int, pos as int));
    }
    lemma_feed_forward_caches_nothing(c, l, 1, layer, position);
    lemma_cached_concat(p, a, layer, position);
    lemma_cached_concat(p + a, feed_forward(c, l, 1), layer, position);
}

proof fn lemma_decode_layers_cache(
    x: ExecutorView,
    lo: int,
    hi: int,
    pos: usize,
    layer: int,
    position: int,
)
    requires
        0 <= lo,
        hi <= usize::MAX + 1,
    ensures
        cached(decode_layers(x, lo, hi, pos), layer, position) == (lo <= layer < hi && position
            == pos),
    decreases hi - lo,
{
    if lo < hi {
        lemma_decode_layers_cache(x, lo, hi - 1, pos, layer, position);
        lemma_decode_layer_caches(
            x.config,
            x.biases(hi - 1),
            (hi - 1) as usize,
            pos,
            layer,
            position,
        );
        lemma_cached_concat(
            decode_layers(x, lo, hi - 1, pos),
            decode_layer(x.config, x.biases(hi - 1), (hi - 1) as usize, pos),
            layer,
            position,
        );
    }
}

/// A decode pass caches its token, and nothing else: in each layer that it runs, at the position
/// of the token.
pub proof fn lemma_decode_caches_its_token(
    x: ExecutorView,
    start: usize,
    end: usize,
    token: Option<u32>,
    pos: usize,
    layer: int,
    position: int,
)
    ensures
        cached(decode_steps(x, start, end, token, pos), layer, position) <==> start <= layer <= end
            && position == pos,
{
    let steps = decode_steps(x, start, end, token, pos);
    let input = steps.take(1);
    let layers = decode_layers(x, start as int, end + 1, pos);
    let last = final_steps(x, end, 0);
    assert(steps =~= input + layers + last);
    assert(!cached(input, layer, position));
    assert(!cached(last, layer, position));
    lemma_decode_layers_cache(x, start as int, end + 1, pos, layer, position);
    lemma_cached_concat(input, layers, layer, position);
    lemma_cached_concat(input + layers, last, layer, position);
}

proof fn lemma_prefill_rows_cache(
    c: ModelConfig,
    l: usize,
    start_pos: usize,
    tokens: int,
    layer: int,
    position: int,
)
    requires
        0 <= tokens,
        start_pos + tokens <= usize::MAX,
    ensures
        cached(prefill_rows(c, l, start_pos, tokens), layer, position) == (layer == l && start_pos
            <= position < start_pos + tokens),
    decreases tokens,
{
    if tokens > 0 {
        lemma_prefill_rows_cache(c, l, start_pos, tokens - 1, layer, position);
        let row = prefill_row(c, l, start_pos, tokens - 1);
        assert(cached(row, layer, position) == (layer == l && position == start_pos + tokens - 1))
            by {
            assert(caches(row[2], l as int, start_pos + tokens - 1));
        }
        lemma_cached_concat(
            prefill_rows(c, l, start_pos, tokens - 1),
            row,
            layer,
            position,
        );
    }
}

proof fn lemma_prefill_layer_caches(
    c: ModelConfig,
    l: usize,
    start_pos: usize,
    tokens: usize,
    layer: int,
    position: int,
)
    requires
        start_pos + tokens <= usize::MAX,
    ensures
        cached(prefill_layer(c, l, start_pos, tokens), layer, position) == (layer == l && start_pos
            <= position < start_pos + tokens),
{
    let p = prefill_projections(c, l, tokens);
    let rows = prefill_rows(c, l, start_pos, tokens as int);
    let attention = prefill_attention(c, l, start_pos, tokens);
    let rest = attention.skip(rows.len() as int);
    assert(attention =~= rows + rest);
    assert(!cached(rest, layer, position)) by {
        let clear = seq![Step::ClearAttention { tokens, len: (tokens * c.embedding_length) as usize }];
        let attends = prefill_attends(c, l, start_pos, tokens);
        let tail = attention.skip((rows + clear + attends).len() as int);
        assert(rest =~= clear + attends + tail);
        assert(!cached(clear, layer, position));
        assert(!cached(attends, layer, position));
        assert(!cached(tail, layer, position));
        lemma_cached_concat(clear, attends, layer, position);
        lemma_cached_concat(clear + attends, tail, layer, position);
    }
    lemma_prefill_rows_cache(c, l, start_pos, tokens as int, layer, position);
    lemma_cached_concat(rows, rest, layer, position);
    assert(!cached(p, layer, position));
    lemma_feed_forward_caches_nothing(c, l, tokens, layer, position);
    lemma_cached_concat(p, attention, layer, position);
    lemma_cached_concat(p + attention, feed_forward(c, l, tokens), layer, position);
}

proof fn lemma_prefill_layers_cache(
    c: ModelConfig,
    lo: int,
    hi: int,
    start_pos: usize,
    tokens: usize,
    layer: int,
    position: int,
)
    requires
        0 <= lo,
        hi <= usize::MAX + 1,
        start_pos + tokens <= usize::MAX,
    ensures
        cached(prefill_layers(c, lo, hi, start_pos, tokens), layer, position) == (lo <= layer < hi
            && start_pos <= position < start_pos + tokens),
    decreases hi - lo,
{
    if lo < hi {
        lemma_prefill_layers_cache(c, lo, hi - 1, start_pos, tokens, layer, position);
        lemma_prefill_layer_caches(c, (hi - 1) as usize, start_pos, tokens, layer, position);
        lemma_cached_concat(
            prefill_layers(c, lo, hi - 1, start_pos, tokens),
            prefill_layer(c, (hi - 1) as usize, start_pos, tokens),
            layer,
            position,
        );
    }
}

/// A prefill pass caches the tokens of its batch, and nothing else: in each layer that it runs, at
/// the positions from the first one on.
pub proof fn lemma_prefill_caches_its_tokens(
    x: ExecutorView,
    start: usize,
    end: usize,
    tokens: Option<Seq<u32>>,
    start_pos: usize,
    batch: usize,
    layer: int,
    position: int,
)
    requires
        start_pos + batch <= usize::MAX,
    ensures
        cached(prefill_steps(x, start, end, tokens, start_pos, batch), layer, position) <==> start
            <= layer <= end && start_pos <= position < start_pos + batch,
{
    let input = if start == 0 {
        embeds(x, tokens->0)
    } else {
        seq![Step::CopyActivations { tokens: batch, len: (batch * x.config.embedding_length) as usize }]
    };
    let layers = prefill_layers(x.config, start as int, end + 1, start_pos, batch);
    let last = final_steps(x, end, batch - 1);
    assert(!cached(input, layer, position));
    assert(!cached(last, layer, position));
    lemma_prefill_layers_cache(
        x.config,
        start as int,
        end + 1,
        start_pos,
        batch,
        layer,
        position,
    );
    lemma_cached_concat(input, layers, layer, position);
    lemma_cached_concat(input + layers, last, layer, position);
}

/// Whether a step that depends on a position works at the one of its row, in a pass whose first row
/// stands at `start_pos`.
pub open spec fn at_its_position(step: Step, start_pos: int) -> bool {
    match step {
        Step::Rotate { target: _, row, start: _, len: _, position, heads: _ } => position
            == start_pos + row,
        Step::StoreKv { layer: _, position, row, start: _, len: _ } => position == start_pos + row,
        Step::Attend {
            layer: _,
            position,
            row,
            start: _,
            len: _,
            scores_start: _,
            scores_len: _,
        } => position == start_pos + row,
        _ => true,
    }
}

/// Whether all steps of a list work at the positions of their rows.
pub open spec fn all_at_position(steps: Seq<Step>, start_pos: int) -> bool {
    forall|i: int| 0 <= i < steps.len() ==> at_its_position(#[trigger] steps[i], start_pos)
}

proof fn lemma_at_position_concat(a: Seq<Step>, b: Seq<Step>, start_pos: int)
    requires
        all_at_position(a, start_pos),
        all_at_position(b, start_pos),
    ensures
        all_at_position(a + b, start_pos),
{
    assert forall|i: int| 0 <= i < (a + b).len() implies at_its_position(
        #[trigger] (a + b)[i],
        start_pos,
    ) by {
        if i < a.len() {
            assert((a + b)[i] == a[i]);
        } else {
            assert((a + b)[i] == b[i - a.len()]);
        }
    }
}

proof fn lemma_feed_forward_at_position(c: ModelConfig, l: usize, tokens: usize, start_pos: int)
    ensures
        all_at_position(feed_forward(c, l, tokens), start_pos),
{
    let a = feed_forward_in(c, l, tokens);
    let b = activations(c, tokens);
    lemma_at_position_concat(a, b, start_pos);
    lemma_at_position_concat(a + b, feed_forward_out(c, l, tokens), start_pos);
}

proof fn lemma_decode_layers_at_position(x: ExecutorView, lo: int, hi: int, pos: usize)
    ensures
        all_at_position(decode_layers(x, lo, hi, pos), pos as int),
    decreases hi - lo,
{
    if lo < hi {
        lemma_decode_layers_at_position(x, lo, hi - 1, pos);
        let l = (hi - 1) as usize;
        let p = decode_projections(x.config, x.biases(hi - 1), l);
        let a = decode_attention(x.config, l, pos);
        assert(all_at_position(p, pos as int));
        assert(all_at_position(a, pos as int));
        lemma_feed_forward_at_position(x.config, l, 1, pos as int);
        lemma_at_position_concat(p, a, pos as int);
        lemma_at_position_concat(p + a, feed_forward(x.config, l, 1), pos as int);
        lemma_at_position_concat(
            decode_layers(x, lo, hi - 1, pos),
            decode_layer(x.config, x.biases(hi - 1), l, pos),
            pos as int,
        );
    }
}

/// A decode pass works at the position of its token throughout: it turns queries and keys by it,
/// caches at it, and attends up to it.
pub proof fn lemma_decode_works_at_its_position(
    x: ExecutorView,
    start: usize,
    end: usize,
    token: Option<u32>,
    pos: usize,
)
    ensures
        all_at_position(decode_steps(x, start, end, token, pos), pos as int),
{
    let steps = decode_steps(x, start, end, token, pos);
    let input = steps.take(1);
    let layers = decode_layers(x, start as int, end + 1, pos);
    let last = final_steps(x, end, 0);
    assert(steps =~= input + layers + last);
    assert(all_at_position(input, pos as int));
    assert(all_at_position(last, pos as int));
    lemma_decode_layers_at_position(x, start as int, end + 1, pos);
    lemma_at_position_concat(input, layers, pos as int);
    lemma_at_position_concat(input + layers, last, pos as int);
}

proof fn lemma_prefill_rows_at_position(c: ModelConfig, l: usize, start_pos: usize, tokens: int)
    requires
        0 <= tokens,
        start_pos + tokens <= usize::MAX,
    ensures
        all_at_position(prefill_rows(c, l, start_pos, tokens), start_pos as int),
    decreases tokens,
{
    if tokens > 0 {
        lemma_prefill_rows_at_position(c, l, start_pos, tokens - 1);
        lemma_at_position_concat(
            prefill_rows(c, l, start_pos, tokens - 1),
            prefill_row(c, l, start_pos, tokens - 1),
            start_pos as int,
        );
    }
}

proof fn lemma_prefill_layers_at_position(
    c: ModelConfig,
    lo: int,
    hi: int,
    start_pos: usize,
    tokens: usize,
)
    requires
        start_pos + tokens <= usize::MAX,
    ensures
        all_at_position(prefill_layers(c, lo, hi, start_pos, tokens), start_pos as int),
    decreases hi - lo,
{
    if lo < hi {
        lemma_prefill_layers_at_position(c, lo, hi - 1, start_pos, tokens);
        let s = start_pos as int;
        let l = (hi - 1) as usize;
        let p = prefill_projections(c, l, tokens);
        let rows = prefill_rows(c, l, start_pos, tokens as int);
        let attention = prefill_attention(c, l, start_pos, tokens);
        let clear = seq![Step::ClearAttention { tokens, len: (tokens * c.embedding_length) as usize }];
        let attends = prefill_attends(c, l, start_pos, tokens);
        let tail = attention.skip((rows + clear + attends).len() as int);
        assert(attention =~= rows + clear + attends + tail);
        assert(all_at_position(clear, s));
        assert(all_at_position(attends, s));
        assert(all_at_position(tail, s));
        lemma_prefill_rows_at_position(c, l, start_pos, tokens as int);
        lemma_at_position_concat(rows, clear, s);
        lemma_at_position_concat(rows + clear, attends, s);
        lemma_at_position_concat(rows + clear + attends, tail, s);
        assert(all_at_position(p, s));
        lemma_feed_forward_at_position(c, l, tokens, s);
        lemma_at_position_concat(p, attention, s);
        lemma_at_position_concat(p + attention, feed_forward(c, l, tokens), s);
        lemma_at_position_concat(
            prefill_layers(c, lo, hi - 1, start_pos, tokens),
            prefill_layer(c, l, start_pos, tokens),
            s,
        );
    }
}

/// A prefill pass works on each row at its own position throughout, which is as far behind the first
/// one as the row is behind the first row.
pub proof fn lemma_prefill_works_at_its_positions(
    x: ExecutorView,
    start: usize,
    end: usize,
    tokens: Option<Seq<u32>>,
    start_pos: usize,
    batch: usize,
)
    requires
        start_pos + batch <= usize::MAX,
    ensures
        all_at_position(
            prefill_steps(x, start, end, tokens, start_pos, batch),
            start_pos as int,
        ),
{
    let input = if start == 0 {
        embeds(x, tokens->0)
    } else {
        seq![Step::CopyActivations { tokens: batch, len: (batch * x.config.embedding_length) as usize }]
    };
    let s = start_pos as int;
    let layers = prefill_layers(x.config, start as int, end + 1, start_pos, batch);
    let last = final_steps(x, end, batch - 1);
    assert(all_at_position(input, s));
    assert(all_at_position(last, s));
    lemma_prefill_layers_at_position(x.config, start as int, end + 1, start_pos, batch);
    lemma_at_position_concat(input, layers, s);
    lemma_at_position_concat(input + layers, last, s);
}

} // verus!
