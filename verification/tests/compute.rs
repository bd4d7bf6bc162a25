use caravan::pipeline::{PassPlan, SwarmPipelineExecutor, WeightLayout};
use caravan::steps::{Buffer, LayerBiases, ModelConfig, PassOutput, Step};

const ROWS: usize = 32;
const PLACES: usize = 11;
const HIDDEN: usize = 0;
const RESIDUAL: usize = 1;
const NORM_X: usize = 2;
const QUANTIZED: usize = 3;
const Q: usize = 4;
const K: usize = 5;
const V: usize = 6;
const ATTN: usize = 7;
const GATE: usize = 8;
const UP: usize = 9;
const GATE_UP: usize = 10;

fn place(buffer: Buffer) -> usize {
    match buffer {
        Buffer::Hidden => HIDDEN,
        Buffer::NormX => NORM_X,
        Buffer::Q => Q,
        Buffer::K => K,
        Buffer::V => V,
        Buffer::AttnOutput => ATTN,
        Buffer::FfnGate => GATE,
        Buffer::FfnUp => UP,
        Buffer::FfnGateUp => GATE_UP,
    }
}

/// A kernel: any function of the step on one row and of the rows it reads. What comes in is copied.
fn kernel(step: Step, reads: &[u64]) -> u64 {
    if let Step::CopyActivations { .. } = step {
        return reads[0];
    }
    let mut h: u64 = 0xcbf2_9ce4_8422_2325;
    for b in format!("{:?}", step).bytes() {
        h = (h ^ b as u64).wrapping_mul(0x100_0000_01b3);
    }
    for r in reads {
        h = (h ^ (h >> 29) ^ *r).wrapping_mul(0x9e37_79b9_7f4a_7c15);
    }
    h
}

/// A node whose rows are numbers.
#[derive(Clone)]
struct Node {
    x: std::rc::Rc<SwarmPipelineExecutor>,
    ws: Vec<u64>,
    batch: Vec<Vec<u64>>,
    logits: u64,
    cache: Vec<Vec<u64>>,
}

/// The widths of embedding, key and feed-forward rows.
type Widths = (usize, usize, usize);

const WIDE: Widths = (8, 4, 12);

fn node(blocks: usize, start: usize, end: usize, scratch: u64) -> Node {
    node_of(WIDE, blocks, start, end, scratch)
}

fn node_of(widths: Widths, blocks: usize, start: usize, end: usize, scratch: u64) -> Node {
    let config = ModelConfig {
        embedding_length: widths.0,
        kv_width: widths.1,
        block_count: blocks,
        context_length: 64,
        attention_head_count: 2,
        attention_head_count_kv: 1,
        feed_forward_length: widths.2,
        vocab_size: 10,
        q8_block_size: 4,
    };
    let mut layers = Vec::new();
    for i in 0..blocks {
        layers.push(LayerBiases { wq: i % 2 == 1, wk: i % 3 == 1, wav: i % 2 == 0 });
    }
    let weights = WeightLayout { token_embeddings: 800, layers, output_projection: blocks % 2 == 0 };
    Node {
        x: std::rc::Rc::new(SwarmPipelineExecutor::new(config, weights, start, end)),
        ws: vec![scratch; PLACES],
        batch: vec![vec![scratch; ROWS]; PLACES],
        logits: scratch,
        cache: vec![vec![0; 64]; blocks],
    }
}

impl Node {
    fn e(&self) -> usize {
        self.x.config.embedding_length
    }

    fn decode_step(&mut self, s: Step, input: u64) {
        let w = &mut self.ws;
        match s {
            Step::EmbedToken { .. } => w[HIDDEN] = kernel(s, &[]),
            Step::CopyActivations { .. } => w[HIDDEN] = kernel(s, &[input]),
            Step::SaveResidual { .. } => w[RESIDUAL] = kernel(s, &[w[HIDDEN]]),
            Step::Norm { .. } | Step::FinalNorm { .. } => w[NORM_X] = kernel(s, &[w[HIDDEN]]),
            Step::Quantize { source, .. } => w[QUANTIZED] = kernel(s, &[w[place(source)]]),
            Step::Multiply { target, .. } => w[place(target)] = kernel(s, &[w[QUANTIZED]]),
            Step::AddBias { target, .. } | Step::Rotate { target, .. } => {
                w[place(target)] = kernel(s, &[w[place(target)]])
            }
            Step::StoreKv { layer, position, .. } => {
                self.cache[layer][position] = kernel(s, &[w[K], w[V]])
            }
            Step::ClearAttention { .. } => w[ATTN] = kernel(s, &[]),
            Step::Attend { layer, position, .. } => {
                let mut reads = vec![w[ATTN], w[Q]];
                reads.extend(&self.cache[layer][..position + 1]);
                w[ATTN] = kernel(s, &reads);
            }
            Step::AddResidual { .. } => w[HIDDEN] = kernel(s, &[w[HIDDEN], w[RESIDUAL]]),
            Step::Activate { .. } => w[GATE_UP] = kernel(s, &[w[GATE], w[UP]]),
            Step::QuantizeFinal { .. } => w[QUANTIZED] = kernel(s, &[w[NORM_X]]),
            Step::ProjectOutput { .. } => self.logits = kernel(s, &[w[QUANTIZED]]),
            Step::ProjectEmbeddings { .. } => self.logits = kernel(s, &[w[NORM_X]]),
        }
    }

    fn prefill_step(&mut self, s: Step, inputs: &[u64]) {
        let e = self.e();
        let b = &mut self.batch;
        match s {
            Step::EmbedToken { row, from, to, len } => {
                assert_eq!(to, row * len);
                b[HIDDEN][row] = kernel(Step::EmbedToken { row: 0, from, to: 0, len }, &[])
            }
            Step::CopyActivations { tokens, .. } => {
                for t in 0..tokens {
                    b[HIDDEN][t] = kernel(Step::CopyActivations { tokens: 1, len: e }, &[inputs[t]]);
                }
            }
            Step::SaveResidual { tokens, .. } => {
                for t in 0..tokens {
                    b[RESIDUAL][t] = kernel(Step::SaveResidual { tokens: 1, len: e }, &[b[HIDDEN][t]]);
                }
            }
            Step::Norm { layer, norm, tokens, width } => {
                for t in 0..tokens {
                    let one = Step::Norm { layer, norm, tokens: 1, width };
                    b[NORM_X][t] = kernel(one, &[b[HIDDEN][t]]);
                }
            }
            Step::Quantize { source, tokens, width, .. } => {
                for t in 0..tokens {
                    let one = Step::Quantize { source, tokens: 1, width, scales: width / 4 };
                    b[QUANTIZED][t] = kernel(one, &[b[place(source)][t]]);
                }
            }
            Step::Multiply { target, layer, matrix, tokens, rows, cols } => {
                for t in 0..tokens {
                    let one = Step::Multiply { target, layer, matrix, tokens: 1, rows, cols };
                    b[place(target)][t] = kernel(one, &[b[QUANTIZED][t]]);
                }
            }
            Step::AddBias { target, layer, tokens, width } => {
                let biases = self.x.layers[self.x.slot(layer)];
                let present = match target {
                    Buffer::Q => biases.wq,
                    Buffer::K => biases.wk,
                    _ => biases.wav,
                };
                for t in 0..tokens {
                    if present {
                        let one = Step::AddBias { target, layer, tokens: 1, width };
                        b[place(target)][t] = kernel(one, &[b[place(target)][t]]);
                    }
                }
            }
            Step::Rotate { target, row, start, len, position, heads } => {
                let one = Step::Rotate { target, row: 0, start: 0, len, position, heads };
                assert_eq!(start, row * len);
                let t = row;
                b[place(target)][t] = kernel(one, &[b[place(target)][t]]);
            }
            Step::StoreKv { layer, position, row, start, len } => {
                let one = Step::StoreKv { layer, position, row: 0, start: 0, len };
                assert_eq!(start, row * len);
                let t = row;
                self.cache[layer][position] = kernel(one, &[b[K][t], b[V][t]]);
            }
            Step::ClearAttention { tokens, .. } => {
                for t in 0..tokens {
                    b[ATTN][t] = kernel(Step::ClearAttention { tokens: 1, len: e }, &[]);
                }
            }
            Step::Attend { layer, position, row, start, len, scores_len, .. } => {
                let one = Step::Attend {
                    layer,
                    position,
                    row: 0,
                    start: 0,
                    len,
                    scores_start: 0,
                    scores_len,
                };
                assert_eq!(start, row * len);
                let t = row;
                let mut reads = vec![b[ATTN][t], b[Q][t]];
                reads.extend(&self.cache[layer][..position + 1]);
                b[ATTN][t] = kernel(one, &reads);
            }
            Step::AddResidual { tokens, .. } => {
                for t in 0..tokens {
                    let one = Step::AddResidual { tokens: 1, len: e };
                    b[HIDDEN][t] = kernel(one, &[b[HIDDEN][t], b[RESIDUAL][t]]);
                }
            }
            Step::Activate { row, start, len } => {
                assert_eq!(start, row * len);
                let t = row;
                let one = Step::Activate { row: 0, start: 0, len };
                b[GATE_UP][t] = kernel(one, &[b[GATE][t], b[UP][t]]);
            }
            Step::FinalNorm { row, start, len } => {
                assert_eq!(start, row * len);
                let one = Step::FinalNorm { row: 0, start: 0, len };
                self.ws[NORM_X] = kernel(one, &[b[HIDDEN][row]]);
            }
            _ => self.decode_step(s, 0),
        }
    }

    fn result(&self, plan: &PassPlan, hidden: &[u64]) -> Vec<u64> {
        match plan.output {
            PassOutput::Logits => vec![self.logits],
            PassOutput::Hidden { len } => {
                assert_eq!(len, hidden.len() * self.e());
                hidden.to_vec()
            }
        }
    }

    fn decode(&mut self, start: usize, end: usize, token: u32, input: u64, pos: usize) -> Vec<u64> {
        let filler = vec![0u32; self.e()];
        let x = self.x.clone();
        assert!(x.can_decode(start, end, Some(token), Some(&filler), pos));
        let plan = x.run_decode_range(start, end, Some(token), Some(&filler), pos).unwrap();
        for s in &plan.steps {
            self.decode_step(*s, input);
        }
        self.result(&plan, &self.ws[HIDDEN..HIDDEN + 1])
    }

    fn prefill(&mut self, start: usize, end: usize, ids: &[u32], inputs: &[u64], pos: usize) -> Vec<u64> {
        let n = ids.len();
        let filler = vec![0u32; self.e() * n];
        let x = self.x.clone();
        assert!(x.can_prefill(start, end, Some(ids), Some(&filler), pos, n));
        let plan = x.run_prefill_range(start, end, Some(ids), Some(&filler), pos, n).unwrap();
        for s in &plan.steps {
            self.prefill_step(*s, inputs);
        }
        self.result(&plan, &self.batch[HIDDEN][..n])
    }
}

#[test]
fn a_repeated_decode_pass_changes_nothing() {
    let mut a = node(4, 0, 3, 5);
    a.prefill(0, 3, &[1, 2, 3], &[0; 3], 0);
    let first = a.decode(0, 3, 7, 0, 3);
    let cache = a.cache.clone();
    let second = a.decode(0, 3, 7, 0, 3);
    assert_eq!(first, second);
    assert_eq!(cache, a.cache);
    let third = a.decode(0, 3, 8, 0, 3);
    assert_ne!(first, third);
}

#[test]
fn what_is_left_in_a_workspace_does_not_matter() {
    let mut a = node(5, 1, 3, 17);
    let mut b = node(5, 1, 3, 99);
    b.cache[4][0] = 12345;
    assert_eq!(
        a.prefill(1, 3, &[0; 3], &[4, 5, 6], 0),
        b.prefill(1, 3, &[0; 3], &[4, 5, 6], 0)
    );
    assert_eq!(a.decode(1, 3, 0, 77, 3), b.decode(1, 3, 0, 77, 3));
    assert_eq!(a.cache[1..4], b.cache[1..4]);
    b.cache[2][1] = 1;
    assert_ne!(a.decode(1, 3, 0, 77, 4), b.decode(1, 3, 0, 77, 4));
}

#[test]
fn a_repeated_prefill_pass_changes_nothing() {
    let mut a = node(4, 0, 3, 5);
    let first = a.prefill(0, 3, &[9, 8, 7, 6], &[0; 4], 2);
    let cache = a.cache.clone();
    assert_eq!(a.prefill(0, 3, &[9, 8, 7, 6], &[0; 4], 2), first);
    assert_eq!(a.cache, cache);
}

#[test]
fn decoding_the_last_token_is_filling_it_in() {
    for (widths, blocks) in [(WIDE, 3), (WIDE, 4), ((0, 0, 0), 3), ((8, 0, 0), 4), ((0, 4, 12), 4)] {
        let ids = [3u32, 1, 4, 1, 5];
        let mut whole = node_of(widths, blocks, 0, blocks - 1, 1);
        let mut parts = node_of(widths, blocks, 0, blocks - 1, 2);
        let at_once = whole.prefill(0, blocks - 1, &ids, &[0; 5], 6);
        parts.prefill(0, blocks - 1, &ids[..4], &[0; 4], 6);
        let last = parts.decode(0, blocks - 1, ids[4], 0, 10);
        assert_eq!(at_once, last);
        assert_eq!(whole.cache, parts.cache);
    }
    // In the middle of a chain the last row is handed on.
    let mut whole = node(4, 1, 2, 1);
    let mut parts = node(4, 1, 2, 2);
    let rows = whole.prefill(1, 2, &[0; 3], &[10, 20, 30], 0);
    parts.prefill(1, 2, &[0; 2], &[10, 20], 0);
    assert_eq!(parts.decode(1, 2, 0, 30, 2), rows[2..].to_vec());
    assert_eq!(whole.cache, parts.cache);
}

#[test]
fn a_chain_hands_on_what_one_node_computes() {
    let ids = [3u32, 1, 4];
    let mut whole = node(4, 0, 3, 1);
    let mut first = node(4, 0, 1, 2);
    let mut second = node(4, 2, 3, 3);
    let at_once = whole.prefill(0, 3, &ids, &[0; 3], 0);
    let between = first.prefill(0, 1, &ids, &[0; 3], 0);
    assert_eq!(second.prefill(2, 3, &ids, &between, 0), at_once);
    let at_once = whole.decode(0, 3, 8, 0, 3);
    let between = first.decode(0, 1, 8, 0, 3);
    assert_eq!(second.decode(2, 3, 8, between[0], 3), at_once);
    assert_eq!(first.cache[..2], whole.cache[..2]);
    assert_eq!(second.cache[2..], whole.cache[2..]);
}

#[test]
fn a_token_that_is_alone_is_decoded_at_once() {
    let mut filled = node(3, 0, 2, 1);
    let mut decoded = node(3, 0, 2, 2);
    assert_eq!(filled.prefill(0, 2, &[7], &[0], 4), decoded.decode(0, 2, 7, 0, 4));
    assert_eq!(filled.cache, decoded.cache);
}

#[test]
fn a_pass_over_no_rows_caches_nothing() {
    for (start, end) in [(0, 1), (1, 2)] {
        let mut a = node(4, start, end, 5);
        a.prefill(start, end, &[1, 2], &[8, 9], 0);
        let cache = a.cache.clone();
        assert!(a.prefill(start, end, &[], &[], 99).is_empty());
        assert_eq!(a.cache, cache);
    }
}
