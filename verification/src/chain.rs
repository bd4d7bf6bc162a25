//! What the nodes of a chain compute together.
//!
//! Each node works in a memory of its own and starts with what the node before it hands on. The
//! kernels can be any that copy what comes in.

use crate::batch::{after_prefill, batch_row, batch_rows, before_row, first_rows, is_batch, lemma_batch_rows_read, lemma_prefill_computes, lemma_prefill_ignores_scratch, prefill_result};
use crate::compute::{Kernel, Memory, Place, Row, after_decode, decode_result, first_row, hidden_row, lemma_decode_computes, lemma_decode_ignores_scratch, lemma_hidden_row_reads, same_cache};
use crate::partition::ModelView;
use crate::steps::{ExecutorView, Step};
use vstd::prelude::*;

verus! {

/// Whether a kernel copies a row that comes in.
pub open spec fn copies(k: Kernel) -> bool {
    forall|s: Step, row: Row| s is CopyActivations ==> #[trigger] k(s, seq![row]) == row
}

/// What layers make of a hidden row depends on the layers, not on which others their node holds.
proof fn lemma_hidden_of_slice(
    k: Kernel,
    m: ModelView,
    start: usize,
    end: usize,
    lo: int,
    hi: int,
    pos: usize,
    h: Row,
    cache: Map<(int, int), Row>,
)
    requires
        m.wf(),
        start <= end < m.config.block_count,
        start <= lo,
        hi <= end + 1,
    ensures
        hidden_row(k, m.slice(start, end), lo, hi, pos, h, cache) == hidden_row(
            k,
            m.whole(),
            lo,
            hi,
            pos,
            h,
            cache,
        ),
    decreases hi - lo,
{
    if lo < hi {
        lemma_hidden_of_slice(k, m, start, end, lo, hi - 1, pos, h, cache);
        assert(m.slice(start, end).biases(hi - 1) == m.layers[hi - 1]);
        assert(m.whole().biases(hi - 1) == m.layers[hi - 1]);
    }
}

proof fn lemma_hidden_join(
    k: Kernel,
    x: ExecutorView,
    lo: int,
    mid: int,
    hi: int,
    pos: usize,
    h: Row,
    cache: Map<(int, int), Row>,
)
    requires
        lo <= mid <= hi,
    ensures
        hidden_row(k, x, mid, hi, pos, hidden_row(k, x, lo, mid, pos, h, cache), cache)
            == hidden_row(k, x, lo, hi, pos, h, cache),
    decreases hi - mid,
{
    if mid < hi {
        lemma_hidden_join(k, x, lo, mid, hi - 1, pos, h, cache);
    }
}

/// Two nodes with adjoining slices compute in a decode pass what one node with both slices
/// computes: the second one, started with what the first one hands on, hands on the same, and
/// together they cache the same.
pub proof fn lemma_decode_cut_computes(
    k: Kernel,
    m: ModelView,
    start: usize,
    cut: usize,
    end: usize,
    token: Option<u32>,
    input: Row,
    pos: usize,
    whole: Memory,
    a: Memory,
    b: Memory,
)
    requires
        m.wf(),
        copies(k),
        start < cut <= end < m.config.block_count,
        same_cache(a, whole, start as int, cut - 1),
        same_cache(b, whole, cut as int, end as int),
    ensures
        ({
            let last = (cut - 1) as usize;
            let x = m.slice(start, end);
            let y = m.slice(start, last);
            let z = m.slice(cut, end);
            let at_once = after_decode(k, x, start, end, token, input, pos, whole);
            let first = after_decode(k, y, start, last, token, input, pos, a);
            let handed = decode_result(y, last, first);
            let second = after_decode(k, z, cut, end, token, handed, pos, b);
            &&& decode_result(z, end, second) == decode_result(x, end, at_once)
            &&& same_cache(first, at_once, start as int, cut - 1)
            &&& same_cache(second, at_once, cut as int, end as int)
        }),
{
    let last = (cut - 1) as usize;
    let lo = start as int;
    let mid = cut as int;
    let w = m.whole();
    let x = m.slice(start, end);
    let y = m.slice(start, last);
    let z = m.slice(cut, end);
    let at_once = after_decode(k, x, start, end, token, input, pos, whole);
    let first = after_decode(k, y, start, last, token, input, pos, a);
    let handed = decode_result(y, last, first);
    let second = after_decode(k, z, cut, end, token, handed, pos, b);
    let h = first_row(k, x, start, token->0, input);
    lemma_decode_computes(k, x, start, end, token, input, pos, whole);
    lemma_decode_computes(k, y, start, last, token, input, pos, a);
    lemma_decode_computes(k, z, cut, end, token, handed, pos, b);
    assert(first_row(k, y, start, token->0, input) == h);
    assert(first_row(k, z, cut, token->0, handed) == handed);
    assert forall|l: int| lo <= l <= mid implies #[trigger] hidden_row(k, y, lo, l, pos, h, a.cache)
        == hidden_row(k, x, lo, l, pos, h, whole.cache) by {
        lemma_hidden_of_slice(k, m, start, last, lo, l, pos, h, a.cache);
        lemma_hidden_of_slice(k, m, start, end, lo, l, pos, h, whole.cache);
        lemma_hidden_row_reads(k, w, lo, l, pos, h, a.cache, whole.cache);
    }
    assert(handed == hidden_row(k, y, lo, mid, pos, h, a.cache));
    assert forall|l: int| mid <= l <= end + 1 implies #[trigger] hidden_row(
        k,
        z,
        mid,
        l,
        pos,
        handed,
        b.cache,
    ) == hidden_row(k, x, lo, l, pos, h, whole.cache) by {
        lemma_hidden_of_slice(k, m, cut, end, mid, l, pos, handed, b.cache);
        lemma_hidden_of_slice(k, m, start, end, lo, l, pos, h, whole.cache);
        lemma_hidden_of_slice(k, m, start, end, lo, mid, pos, h, whole.cache);
        lemma_hidden_row_reads(k, w, mid, l, pos, handed, b.cache, whole.cache);
        lemma_hidden_join(k, w, lo, mid, l, pos, h, whole.cache);
    }
    assert(hidden_row(k, z, mid, end + 1, pos, handed, b.cache) == hidden_row(
        k,
        x,
        lo,
        end + 1,
        pos,
        h,
        whole.cache,
    ));
    assert forall|l: int, p: int| lo <= l <= cut - 1 implies #[trigger] first.cache[(l, p)]
        == at_once.cache[(l, p)] by {
        assert(y.biases(l) == m.layers[l] && x.biases(l) == m.layers[l]);
        if p == pos {
            assert(hidden_row(k, y, lo, l, pos, h, a.cache) == hidden_row(
                k,
                x,
                lo,
                l,
                pos,
                h,
                whole.cache,
            ));
            assert(first.cache[(l, pos as int)] == at_once.cache[(l, pos as int)]);
        }
    }
    assert forall|l: int, p: int| mid <= l <= end implies #[trigger] second.cache[(l, p)]
        == at_once.cache[(l, p)] by {
        assert(z.biases(l) == m.layers[l] && x.biases(l) == m.layers[l]);
        if p == pos {
            assert(hidden_row(k, z, mid, l, pos, handed, b.cache) == hidden_row(
                k,
                x,
                lo,
                l,
                pos,
                h,
                whole.cache,
            ));
            assert(second.cache[(l, pos as int)] == at_once.cache[(l, pos as int)]);
        }
    }
}

/// The last layer of node `i` of a chain.
pub open spec fn last_layer(bounds: Seq<usize>, i: int) -> usize {
    (bounds[i + 1] - 1) as usize
}

/// The memory of node `i` of a chain after a decode pass, in which every node starts with what the
/// one before it hands on; `mems` are the memories before.
pub open spec fn chain_decode(
    k: Kernel,
    m: ModelView,
    bounds: Seq<usize>,
    token: u32,
    pos: usize,
    mems: Seq<Memory>,
    i: int,
) -> Memory
    decreases i,
{
    let input = if i <= 0 {
        Seq::empty()
    } else {
        decode_result(
            m.node(bounds, i - 1),
            last_layer(bounds, i - 1),
            chain_decode(k, m, bounds, token, pos, mems, i - 1),
        )
    };
    after_decode(
        k,
        m.node(bounds, i),
        bounds[i],
        last_layer(bounds, i),
        Some(token),
        input,
        pos,
        mems[i],
    )
}

/// Whether the nodes of a chain have cached for their layers what one node has cached.
pub open spec fn chain_cached(bounds: Seq<usize>, mems: spec_fn(int) -> Memory, whole: Memory, n: int) -> bool {
    forall|i: int|
        0 <= i < n ==> same_cache(
            #[trigger] mems(i),
            whole,
            bounds[i] as int,
            last_layer(bounds, i) as int,
        )
}

proof fn lemma_chain_decode(
    k: Kernel,
    m: ModelView,
    bounds: Seq<usize>,
    token: u32,
    pos: usize,
    mems: Seq<Memory>,
    whole: Memory,
    n: int,
)
    requires
        m.wf(),
        copies(k),
        m.is_partition(bounds),
        mems.len() == bounds.len() - 1,
        chain_cached(bounds, |i: int| mems[i], whole, mems.len() as int),
        1 <= n <= mems.len(),
    ensures
        ({
            let end = last_layer(bounds, n - 1);
            let x = m.slice(0, end);
            let at_once = after_decode(k, x, 0, end, Some(token), Seq::empty(), pos, whole);
            let last = chain_decode(k, m, bounds, token, pos, mems, n - 1);
            &&& decode_result(m.node(bounds, n - 1), end, last) == decode_result(x, end, at_once)
            &&& chain_cached(
                bounds,
                |i: int| chain_decode(k, m, bounds, token, pos, mems, i),
                at_once,
                n,
            )
        }),
    decreases n,
{
    let before = |i: int| mems[i];
    let after = |i: int| chain_decode(k, m, bounds, token, pos, mems, i);
    let end = last_layer(bounds, n - 1);
    let x = m.slice(0, end);
    let at_once = after_decode(k, x, 0, end, Some(token), Seq::empty(), pos, whole);
    assert(bounds[n - 1] < bounds[n]);
    assert(n == bounds.len() - 1 || bounds[n] < bounds[bounds.len() - 1]);
    assert(same_cache(before(n - 1), whole, bounds[n - 1] as int, end as int));
    if n == 1 {
        lemma_decode_ignores_scratch(
            k,
            x,
            0,
            end,
            Some(token),
            Seq::empty(),
            pos,
            mems[0],
            whole,
        );
        assert(after(0) == chain_decode(k, m, bounds, token, pos, mems, 0));
    } else {
        lemma_chain_decode(k, m, bounds, token, pos, mems, whole, n - 1);
        let cut = bounds[n - 1];
        let prev = last_layer(bounds, n - 2);
        assert(bounds[0] < bounds[n - 1]);
        assert(bounds[n - 2] < bounds[n - 1]);
        assert(prev == (cut - 1) as usize);
        let part = after_decode(
            k,
            m.slice(0, prev),
            0,
            prev,
            Some(token),
            Seq::empty(),
            pos,
            whole,
        );
        lemma_decode_cut_computes(
            k,
            m,
            0,
            cut,
            end,
            Some(token),
            Seq::empty(),
            pos,
            whole,
            whole,
            mems[n - 1],
        );
        assert forall|i: int| 0 <= i < n implies same_cache(
            #[trigger] after(i),
            at_once,
            bounds[i] as int,
            last_layer(bounds, i) as int,
        ) by {
            if i < n - 1 {
                assert(same_cache(after(i), part, bounds[i] as int, last_layer(bounds, i) as int));
                assert(bounds[i] < bounds[i + 1]);
                assert(i + 1 == n - 1 || bounds[i + 1] < bounds[n - 1]);
                assert forall|l: int, p: int|
                    bounds[i] <= l <= last_layer(bounds, i) implies #[trigger] after(i).cache[(l, p)]
                    == at_once.cache[(l, p)] by {
                    assert(after(i).cache[(l, p)] == part.cache[(l, p)]);
                    assert(part.cache[(l, p)] == at_once.cache[(l, p)]);
                }
            }
        }
    }
}

/// A model that is spread over a chain of nodes gives in a decode pass what one node with the whole
/// model gives: the last node hands on the same logits, and every node caches for its layers the
/// same.
pub proof fn lemma_chain_decodes_like_one_node(
    k: Kernel,
    m: ModelView,
    bounds: Seq<usize>,
    token: u32,
    pos: usize,
    mems: Seq<Memory>,
    whole: Memory,
)
    requires
        m.wf(),
        copies(k),
        m.is_partition(bounds),
        mems.len() == bounds.len() - 1,
        chain_cached(bounds, |i: int| mems[i], whole, mems.len() as int),
    ensures
        ({
            let end = (m.config.block_count - 1) as usize;
            let at_once = after_decode(
                k,
                m.whole(),
                0,
                end,
                Some(token),
                Seq::empty(),
                pos,
                whole,
            );
            let last = chain_decode(k, m, bounds, token, pos, mems, mems.len() - 1);
            &&& decode_result(m.node(bounds, mems.len() - 1), end, last) == decode_result(
                m.whole(),
                end,
                at_once,
            )
            &&& chain_cached(
                bounds,
                |i: int| chain_decode(k, m, bounds, token, pos, mems, i),
                at_once,
                mems.len() as int,
            )
        }),
{
    lemma_chain_decode(k, m, bounds, token, pos, mems, whole, mems.len() as int);
}

/// What layers make of a batch depends on the layers, not on which others their node holds.
proof fn lemma_rows_of_slice(
    k: Kernel,
    m: ModelView,
    start: usize,
    end: usize,
    lo: int,
    hi: int,
    start_pos: usize,
    hs: Seq<Row>,
    cache: Map<(int, int), Row>,
)
    requires
        m.wf(),
        start <= end < m.config.block_count,
        start <= lo,
        hi <= end + 1,
    ensures
        batch_rows(k, m.slice(start, end), lo, hi, start_pos, hs, cache) == batch_rows(
            k,
            m.whole(),
            lo,
            hi,
            start_pos,
            hs,
            cache,
        ),
    decreases hi - lo,
{
    let a = batch_rows(k, m.slice(start, end), lo, hi, start_pos, hs, cache);
    let b = batch_rows(k, m.whole(), lo, hi, start_pos, hs, cache);
    if lo < hi {
        lemma_rows_of_slice(k, m, start, end, lo, hi - 1, start_pos, hs, cache);
        assert(m.slice(start, end).biases(hi - 1) == m.layers[hi - 1]);
        assert(m.whole().biases(hi - 1) == m.layers[hi - 1]);
    }
    assert(a =~= b);
}

proof fn lemma_rows_join(
    k: Kernel,
    x: ExecutorView,
    lo: int,
    mid: int,
    hi: int,
    start_pos: usize,
    hs: Seq<Row>,
    gs: Seq<Row>,
    cache: Map<(int, int), Row>,
    n: int,
)
    requires
        lo <= mid <= hi,
        forall|t: int|
            0 <= t < n ==> #[trigger] gs[t] == batch_row(k, x, lo, mid, start_pos, hs, cache, t),
    ensures
        forall|t: int|
            0 <= t < n ==> #[trigger] batch_row(k, x, mid, hi, start_pos, gs, cache, t)
                == batch_row(k, x, lo, hi, start_pos, hs, cache, t),
    decreases hi - mid,
{
    if mid < hi {
        lemma_rows_join(k, x, lo, mid, hi - 1, start_pos, hs, gs, cache, n);
        let c = x.config;
        let b = x.biases(hi - 1);
        let layer = (hi - 1) as usize;
        let r = batch_rows(k, x, mid, hi - 1, start_pos, gs, cache);
        let q = batch_rows(k, x, lo, hi - 1, start_pos, hs, cache);
        assert forall|t: int| 0 <= t < n implies #[trigger] batch_row(
            k,
            x,
            mid,
            hi,
            start_pos,
            gs,
            cache,
            t,
        ) == batch_row(k, x, lo, hi, start_pos, hs, cache, t) by {
            let before = before_row(k, c, b, layer, start_pos, r, cache, t);
            let other = before_row(k, c, b, layer, start_pos, q, cache, t);
            assert forall|p: int| 0 <= p < start_pos + t implies #[trigger] before[p] == other[p] by {
                if p >= start_pos {
                    let i = p - start_pos;
                    assert(batch_row(k, x, mid, hi - 1, start_pos, gs, cache, i) == batch_row(
                        k,
                        x,
                        lo,
                        hi - 1,
                        start_pos,
                        hs,
                        cache,
                        i,
                    ));
                }
            }
            assert(before =~= other);
            assert(batch_row(k, x, mid, hi - 1, start_pos, gs, cache, t) == batch_row(
                k,
                x,
                lo,
                hi - 1,
                start_pos,
                hs,
                cache,
                t,
            ));
        }
    }
}

/// The hidden rows that a prefill pass of `n` tokens leaves.
pub open spec fn hidden_rows(m: Memory, n: usize) -> Seq<Row> {
    Seq::new(n as nat, |t: int| m.row(Place::Hidden, t))
}

/// Two nodes with adjoining slices compute in a prefill pass what one node with both slices
/// computes: the second one, started with the rows that the first one hands on, hands on the same,
/// and together they cache the same.
pub proof fn lemma_prefill_cut_computes(
    k: Kernel,
    m: ModelView,
    start: usize,
    cut: usize,
    end: usize,
    tokens: Seq<u32>,
    inputs: Seq<Row>,
    start_pos: usize,
    n: usize,
    whole: Memory,
    a: Memory,
    b: Memory,
)
    requires
        m.wf(),
        copies(k),
        is_batch(tokens, inputs, start_pos, n),
        start < cut <= end < m.config.block_count,
        same_cache(a, whole, start as int, cut - 1),
        same_cache(b, whole, cut as int, end as int),
    ensures
        ({
            let last = (cut - 1) as usize;
            let x = m.slice(start, end);
            let y = m.slice(start, last);
            let z = m.slice(cut, end);
            let at_once = after_prefill(k, x, start, end, tokens, inputs, start_pos, n, whole);
            let first = after_prefill(k, y, start, last, tokens, inputs, start_pos, n, a);
            let handed = hidden_rows(first, n);
            let second = after_prefill(k, z, cut, end, tokens, handed, start_pos, n, b);
            &&& n > 0 ==> prefill_result(z, end, n, second) == prefill_result(x, end, n, at_once)
            &&& hidden_rows(second, n) == hidden_rows(at_once, n)
            &&& same_cache(first, at_once, start as int, cut - 1)
            &&& same_cache(second, at_once, cut as int, end as int)
        }),
{
    let last = (cut - 1) as usize;
    let lo = start as int;
    let mid = cut as int;
    let c = n as int;
    let w = m.whole();
    let x = m.slice(start, end);
    let y = m.slice(start, last);
    let z = m.slice(cut, end);
    let at_once = after_prefill(k, x, start, end, tokens, inputs, start_pos, n, whole);
    let first = after_prefill(k, y, start, last, tokens, inputs, start_pos, n, a);
    let handed = hidden_rows(first, n);
    let second = after_prefill(k, z, cut, end, tokens, handed, start_pos, n, b);
    let hs = first_rows(k, x, start, tokens, inputs, c);
    lemma_prefill_computes(k, x, start, end, tokens, inputs, start_pos, n, whole);
    lemma_prefill_computes(k, y, start, last, tokens, inputs, start_pos, n, a);
    lemma_prefill_computes(k, z, cut, end, tokens, handed, start_pos, n, b);
    assert(first_rows(k, y, start, tokens, inputs, c) =~= hs);
    assert(first_rows(k, z, cut, tokens, handed, c) =~= handed);
    assert forall|l: int, t: int| lo <= l <= mid && 0 <= t < n implies #[trigger] batch_row(
        k,
        y,
        lo,
        l,
        start_pos,
        hs,
        a.cache,
        t,
    ) == batch_row(k, x, lo, l, start_pos, hs, whole.cache, t) by {
        lemma_rows_of_slice(k, m, start, last, lo, l, start_pos, hs, a.cache);
        lemma_rows_of_slice(k, m, start, end, lo, l, start_pos, hs, whole.cache);
        lemma_batch_rows_read(k, w, lo, l, start_pos, hs, hs, a.cache, whole.cache, c);
        assert(batch_row(k, w, lo, l, start_pos, hs, a.cache, t) == batch_row(
            k,
            w,
            lo,
            l,
            start_pos,
            hs,
            whole.cache,
            t,
        ));
    }
    assert forall|l: int, t: int| mid <= l <= end + 1 && 0 <= t < n implies #[trigger] batch_row(
        k,
        z,
        mid,
        l,
        start_pos,
        handed,
        b.cache,
        t,
    ) == batch_row(k, x, lo, l, start_pos, hs, whole.cache, t) by {
        lemma_rows_of_slice(k, m, cut, end, mid, l, start_pos, handed, b.cache);
        lemma_rows_of_slice(k, m, start, end, lo, l, start_pos, hs, whole.cache);
        lemma_rows_of_slice(k, m, start, end, lo, mid, start_pos, hs, whole.cache);
        lemma_batch_rows_read(k, w, mid, l, start_pos, handed, handed, b.cache, whole.cache, c);
        assert forall|i: int| 0 <= i < n implies #[trigger] handed[i] == batch_row(
            k,
            w,
            lo,
            mid,
            start_pos,
            hs,
            whole.cache,
            i,
        ) by {
            assert(first.row(Place::Hidden, i) == batch_row(
                k,
                y,
                lo,
                mid,
                start_pos,
                hs,
                a.cache,
                i,
            ));
        }
        lemma_rows_join(k, w, lo, mid, l, start_pos, hs, handed, whole.cache, c);
        assert(batch_row(k, w, mid, l, start_pos, handed, b.cache, t) == batch_row(
            k,
            w,
            mid,
            l,
            start_pos,
            handed,
            whole.cache,
            t,
        ));
        assert(batch_row(k, w, mid, l, start_pos, handed, whole.cache, t) == batch_row(
            k,
            w,
            lo,
            l,
            start_pos,
            hs,
            whole.cache,
            t,
        ));
    }
    assert forall|t: int| 0 <= t < n implies #[trigger] second.row(Place::Hidden, t)
        == at_once.row(Place::Hidden, t) by {
        assert(batch_row(k, z, mid, end + 1, start_pos, handed, b.cache, t) == batch_row(
            k,
            x,
            lo,
            end + 1,
            start_pos,
            hs,
            whole.cache,
            t,
        ));
    }
    assert(hidden_rows(second, n) =~= hidden_rows(at_once, n));
    assert(n > 0 ==> batch_row(k, z, mid, end + 1, start_pos, handed, b.cache, n - 1) == batch_row(
        k,
        x,
        lo,
        end + 1,
        start_pos,
        hs,
        whole.cache,
        n - 1,
    ));
    assert forall|l: int, p: int| lo <= l <= cut - 1 implies #[trigger] first.cache[(l, p)]
        == at_once.cache[(l, p)] by {
        assert(y.biases(l) == m.layers[l] && x.biases(l) == m.layers[l]);
        let t = p - start_pos;
        if 0 <= t < n {
            assert(batch_row(k, y, lo, l, start_pos, hs, a.cache, t) == batch_row(
                k,
                x,
                lo,
                l,
                start_pos,
                hs,
                whole.cache,
                t,
            ));
        } else {
            assert(a.cache[(l, p)] == whole.cache[(l, p)]);
        }
    }
    assert forall|l: int, p: int| mid <= l <= end implies #[trigger] second.cache[(l, p)]
        == at_once.cache[(l, p)] by {
        assert(z.biases(l) == m.layers[l] && x.biases(l) == m.layers[l]);
        let t = p - start_pos;
        if 0 <= t < n {
            assert(batch_row(k, z, mid, l, start_pos, handed, b.cache, t) == batch_row(
                k,
                x,
                lo,
                l,
                start_pos,
                hs,
                whole.cache,
                t,
            ));
        } else {
            assert(b.cache[(l, p)] == whole.cache[(l, p)]);
        }
    }
}

/// The memory of node `i` of a chain after a prefill pass, in which every node starts with the rows
/// that the one before it hands on; `mems` are the memories before.
pub open spec fn chain_prefill(
    k: Kernel,
    m: ModelView,
    bounds: Seq<usize>,
    tokens: Seq<u32>,
    start_pos: usize,
    n: usize,
    mems: Seq<Memory>,
    i: int,
) -> Memory
    decreases i,
{
    let inputs = if i <= 0 {
        no_rows(n)
    } else {
        hidden_rows(chain_prefill(k, m, bounds, tokens, start_pos, n, mems, i - 1), n)
    };
    after_prefill(
        k,
        m.node(bounds, i),
        bounds[i],
        last_layer(bounds, i),
        tokens,
        inputs,
        start_pos,
        n,
        mems[i],
    )
}

/// What comes in at the first node, which starts with tokens: rows without anything in them.
pub open spec fn no_rows(n: usize) -> Seq<Row> {
    Seq::new(n as nat, |t: int| Seq::empty())
}

proof fn lemma_chain_prefill(
    k: Kernel,
    m: ModelView,
    bounds: Seq<usize>,
    tokens: Seq<u32>,
    start_pos: usize,
    n: usize,
    mems: Seq<Memory>,
    whole: Memory,
    count: int,
)
    requires
        m.wf(),
        copies(k),
        m.is_partition(bounds),
        is_batch(tokens, no_rows(n), start_pos, n),
        mems.len() == bounds.len() - 1,
        chain_cached(bounds, |i: int| mems[i], whole, mems.len() as int),
        1 <= count <= mems.len(),
    ensures
        ({
            let end = last_layer(bounds, count - 1);
            let x = m.slice(0, end);
            let at_once = after_prefill(k, x, 0, end, tokens, no_rows(n), start_pos, n, whole);
            let last = chain_prefill(k, m, bounds, tokens, start_pos, n, mems, count - 1);
            &&& n > 0 ==> prefill_result(m.node(bounds, count - 1), end, n, last) == prefill_result(
                x,
                end,
                n,
                at_once,
            )
            &&& hidden_rows(last, n) == hidden_rows(at_once, n)
            &&& chain_cached(
                bounds,
                |i: int| chain_prefill(k, m, bounds, tokens, start_pos, n, mems, i),
                at_once,
                count,
            )
        }),
    decreases count,
{
    let before = |i: int| mems[i];
    let after = |i: int| chain_prefill(k, m, bounds, tokens, start_pos, n, mems, i);
    let end = last_layer(bounds, count - 1);
    let x = m.slice(0, end);
    let at_once = after_prefill(k, x, 0, end, tokens, no_rows(n), start_pos, n, whole);
    assert(bounds[count - 1] < bounds[count]);
    assert(count == bounds.len() - 1 || bounds[count] < bounds[bounds.len() - 1]);
    assert(same_cache(before(count - 1), whole, bounds[count - 1] as int, end as int));
    if count == 1 {
        lemma_prefill_ignores_scratch(
            k,
            x,
            0,
            end,
            tokens,
            no_rows(n),
            start_pos,
            n,
            mems[0],
            whole,
        );
        assert(after(0) == chain_prefill(k, m, bounds, tokens, start_pos, n, mems, 0));
        assert(hidden_rows(after(0), n) =~= hidden_rows(at_once, n));
    } else {
        lemma_chain_prefill(k, m, bounds, tokens, start_pos, n, mems, whole, count - 1);
        let cut = bounds[count - 1];
        let prev = last_layer(bounds, count - 2);
        assert(bounds[0] < bounds[count - 1]);
        assert(bounds[count - 2] < bounds[count - 1]);
        assert(prev == (cut - 1) as usize);
        let part = after_prefill(
            k,
            m.slice(0, prev),
            0,
            prev,
            tokens,
            no_rows(n),
            start_pos,
            n,
            whole,
        );
        lemma_prefill_cut_computes(
            k,
            m,
            0,
            cut,
            end,
            tokens,
            no_rows(n),
            start_pos,
            n,
            whole,
            whole,
            mems[count - 1],
        );
        assert forall|i: int| 0 <= i < count implies same_cache(
            #[trigger] after(i),
            at_once,
            bounds[i] as int,
            last_layer(bounds, i) as int,
        ) by {
            if i < count - 1 {
                assert(same_cache(after(i), part, bounds[i] as int, last_layer(bounds, i) as int));
                assert(bounds[i] < bounds[i + 1]);
                assert(i + 1 == count - 1 || bounds[i + 1] < bounds[count - 1]);
                assert forall|l: int, p: int|
                    bounds[i] <= l <= last_layer(bounds, i) implies #[trigger] after(i).cache[(l, p)]
                    == at_once.cache[(l, p)] by {
                    assert(after(i).cache[(l, p)] == part.cache[(l, p)]);
                    assert(part.cache[(l, p)] == at_once.cache[(l, p)]);
                }
            }
        }
    }
}

/// A model that is spread over a chain of nodes gives in a prefill pass what one node with the whole
/// model gives: the last node hands on the same logits, and every node caches for its layers the
/// same. The last node needs a token to take logits from.
pub proof fn lemma_chain_prefills_like_one_node(
    k: Kernel,
    m: ModelView,
    bounds: Seq<usize>,
    tokens: Seq<u32>,
    start_pos: usize,
    n: usize,
    mems: Seq<Memory>,
    whole: Memory,
)
    requires
        m.wf(),
        copies(k),
        m.is_partition(bounds),
        is_batch(tokens, no_rows(n), start_pos, n),
        n > 0,
        mems.len() == bounds.len() - 1,
        chain_cached(bounds, |i: int| mems[i], whole, mems.len() as int),
    ensures
        ({
            let end = (m.config.block_count - 1) as usize;
            let at_once = after_prefill(
                k,
                m.whole(),
                0,
                end,
                tokens,
                no_rows(n),
                start_pos,
                n,
                whole,
            );
            let last = chain_prefill(k, m, bounds, tokens, start_pos, n, mems, mems.len() - 1);
            &&& prefill_result(m.node(bounds, mems.len() - 1), end, n, last) == prefill_result(
                m.whole(),
                end,
                n,
                at_once,
            )
            &&& chain_cached(
                bounds,
                |i: int| chain_prefill(k, m, bounds, tokens, start_pos, n, mems, i),
                at_once,
                mems.len() as int,
            )
        }),
{
    lemma_chain_prefill(
        k,
        m,
        bounds,
        tokens,
        start_pos,
        n,
        mems,
        whole,
        mems.len() as int,
    );
}

} // verus!
