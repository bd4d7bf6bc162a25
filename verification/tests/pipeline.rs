use caravan::pipeline::{PassPlan, PipelineError, SwarmPipelineExecutor, WeightLayout};
use caravan::steps::{Buffer, LayerBiases, LayerNorm, Matrix, ModelConfig, PassOutput, Step, MAX_BATCH};

fn config(block_count: usize) -> ModelConfig {
    ModelConfig {
        embedding_length: 8,
        kv_width: 4,
        block_count,
        context_length: 16,
        attention_head_count: 2,
        attention_head_count_kv: 1,
        feed_forward_length: 12,
        vocab_size: 10,
        q8_block_size: 4,
    }
}

fn executor(blocks: usize, start: usize, end: usize, output_projection: bool) -> SwarmPipelineExecutor {
    let mut layers = Vec::new();
    for i in 0..blocks {
        layers.push(LayerBiases { wq: i % 2 == 1, wk: false, wav: i % 3 == 2 });
    }
    let weights = WeightLayout { token_embeddings: 80, layers, output_projection };
    SwarmPipelineExecutor::new(config(blocks), weights, start, end)
}

fn decode_layer(layer: usize, pos: usize) -> Vec<Step> {
    let mut steps = vec![
        Step::SaveResidual { tokens: 1, len: 8 },
        Step::Norm { layer, norm: LayerNorm::Attention, tokens: 1, width: 8 },
        Step::Quantize { source: Buffer::NormX, tokens: 1, width: 8, scales: 2 },
        Step::Multiply { target: Buffer::Q, layer, matrix: Matrix::Wq, tokens: 1, rows: 8, cols: 8 },
    ];
    if layer % 2 == 1 {
        steps.push(Step::AddBias { target: Buffer::Q, layer, tokens: 1, width: 8 });
    }
    steps.push(Step::Multiply { target: Buffer::K, layer, matrix: Matrix::Wk, tokens: 1, rows: 4, cols: 8 });
    steps.push(Step::Multiply { target: Buffer::V, layer, matrix: Matrix::Wav, tokens: 1, rows: 4, cols: 8 });
    if layer % 3 == 2 {
        steps.push(Step::AddBias { target: Buffer::V, layer, tokens: 1, width: 4 });
    }
    steps.extend([
        Step::Rotate { target: Buffer::Q, row: 0, start: 0, len: 8, position: pos, heads: 2 },
        Step::Rotate { target: Buffer::K, row: 0, start: 0, len: 4, position: pos, heads: 1 },
        Step::StoreKv { layer, position: pos, row: 0, start: 0, len: 4 },
        Step::ClearAttention { tokens: 1, len: 8 },
        Step::Attend { layer, position: pos, row: 0, start: 0, len: 8, scores_start: 0, scores_len: 16 },
        Step::Quantize { source: Buffer::AttnOutput, tokens: 1, width: 8, scales: 2 },
        Step::Multiply { target: Buffer::Hidden, layer, matrix: Matrix::Wo, tokens: 1, rows: 8, cols: 8 },
        Step::AddResidual { tokens: 1, len: 8 },
        Step::SaveResidual { tokens: 1, len: 8 },
        Step::Norm { layer, norm: LayerNorm::Ffn, tokens: 1, width: 8 },
        Step::Quantize { source: Buffer::NormX, tokens: 1, width: 8, scales: 2 },
        Step::Multiply { target: Buffer::FfnGate, layer, matrix: Matrix::W1, tokens: 1, rows: 12, cols: 8 },
        Step::Multiply { target: Buffer::FfnUp, layer, matrix: Matrix::W3, tokens: 1, rows: 12, cols: 8 },
        Step::Activate { row: 0, start: 0, len: 12 },
        Step::Quantize { source: Buffer::FfnGateUp, tokens: 1, width: 12, scales: 3 },
        Step::Multiply { target: Buffer::Hidden, layer, matrix: Matrix::W2, tokens: 1, rows: 8, cols: 12 },
        Step::AddResidual { tokens: 1, len: 8 },
    ]);
    steps
}

fn prefill_layer_of_two(layer: usize, pos: usize) -> Vec<Step> {
    vec![
        Step::SaveResidual { tokens: 2, len: 16 },
        Step::Norm { layer, norm: LayerNorm::Attention, tokens: 2, width: 8 },
        Step::Quantize { source: Buffer::NormX, tokens: 2, width: 8, scales: 4 },
        Step::Multiply { target: Buffer::Q, layer, matrix: Matrix::Wq, tokens: 2, rows: 8, cols: 8 },
        Step::AddBias { target: Buffer::Q, layer, tokens: 2, width: 8 },
        Step::Multiply { target: Buffer::K, layer, matrix: Matrix::Wk, tokens: 2, rows: 4, cols: 8 },
        Step::AddBias { target: Buffer::K, layer, tokens: 2, width: 4 },
        Step::Multiply { target: Buffer::V, layer, matrix: Matrix::Wav, tokens: 2, rows: 4, cols: 8 },
        Step::AddBias { target: Buffer::V, layer, tokens: 2, width: 4 },
        Step::Rotate { target: Buffer::Q, row: 0, start: 0, len: 8, position: pos, heads: 2 },
        Step::Rotate { target: Buffer::K, row: 0, start: 0, len: 4, position: pos, heads: 1 },
        Step::StoreKv { layer, position: pos, row: 0, start: 0, len: 4 },
        Step::Rotate { target: Buffer::Q, row: 1, start: 8, len: 8, position: pos + 1, heads: 2 },
        Step::Rotate { target: Buffer::K, row: 1, start: 4, len: 4, position: pos + 1, heads: 1 },
        Step::StoreKv { layer, position: pos + 1, row: 1, start: 4, len: 4 },
        Step::ClearAttention { tokens: 2, len: 16 },
        Step::Attend { layer, position: pos, row: 0, start: 0, len: 8, scores_start: 0, scores_len: 16 },
        Step::Attend { layer, position: pos + 1, row: 1, start: 8, len: 8, scores_start: 16, scores_len: 16 },
        Step::Quantize { source: Buffer::AttnOutput, tokens: 2, width: 8, scales: 4 },
        Step::Multiply { target: Buffer::Hidden, layer, matrix: Matrix::Wo, tokens: 2, rows: 8, cols: 8 },
        Step::AddResidual { tokens: 2, len: 16 },
        Step::SaveResidual { tokens: 2, len: 16 },
        Step::Norm { layer, norm: LayerNorm::Ffn, tokens: 2, width: 8 },
        Step::Quantize { source: Buffer::NormX, tokens: 2, width: 8, scales: 4 },
        Step::Multiply { target: Buffer::FfnGate, layer, matrix: Matrix::W1, tokens: 2, rows: 12, cols: 8 },
        Step::Multiply { target: Buffer::FfnUp, layer, matrix: Matrix::W3, tokens: 2, rows: 12, cols: 8 },
        Step::Activate { row: 0, start: 0, len: 12 },
        Step::Activate { row: 1, start: 12, len: 12 },
        Step::Quantize { source: Buffer::FfnGateUp, tokens: 2, width: 12, scales: 6 },
        Step::Multiply { target: Buffer::Hidden, layer, matrix: Matrix::W2, tokens: 2, rows: 8, cols: 12 },
        Step::AddResidual { tokens: 2, len: 16 },
    ]
}

/// The layers of a plan, without what comes before and after them.
fn inner(plan: &PassPlan) -> Vec<Step> {
    let mut steps = Vec::new();
    for step in &plan.steps {
        match step {
            Step::EmbedToken { .. }
            | Step::CopyActivations { .. }
            | Step::FinalNorm { .. }
            | Step::QuantizeFinal { .. }
            | Step::ProjectOutput { .. }
            | Step::ProjectEmbeddings { .. } => {}
            other => steps.push(*other),
        }
    }
    steps
}

#[test]
fn a_node_holds_only_its_slice() {
    let x = executor(6, 2, 4, true);
    assert_eq!(x.held_layers(), 3);
    assert_eq!(x.slot(2), 0);
    assert_eq!(x.slot(4), 2);
    assert_eq!(executor(6, 0, 5, true).held_layers(), 6);
    assert_eq!(executor(6, 4, 9, true).held_layers(), 2);
    assert_eq!(executor(6, 7, 9, true).held_layers(), 0);
    assert_eq!(executor(6, 3, 2, true).held_layers(), 0);
}

#[test]
fn the_first_node_embeds_its_token() {
    let x = executor(4, 0, 1, true);
    assert!(x.can_decode(0, 1, Some(3), None, 5));
    let plan = x.run_decode_range(0, 1, Some(3), None, 5).unwrap();
    let mut expected = vec![Step::EmbedToken { row: 0, from: 24, to: 0, len: 8 }];
    expected.extend(decode_layer(0, 5));
    expected.extend(decode_layer(1, 5));
    assert_eq!(plan.steps, expected);
    assert_eq!(plan.output, PassOutput::Hidden { len: 8 });
}

#[test]
fn the_last_node_gives_logits() {
    let x = executor(4, 2, 3, true);
    let input = [0u32; 8];
    let plan = x.run_decode_range(2, 3, None, Some(&input), 0).unwrap();
    let mut expected = vec![Step::CopyActivations { tokens: 1, len: 8 }];
    expected.extend(decode_layer(2, 0));
    expected.extend(decode_layer(3, 0));
    expected.push(Step::FinalNorm { row: 0, start: 0, len: 8 });
    expected.push(Step::QuantizeFinal { width: 8 });
    expected.push(Step::ProjectOutput { rows: 10, cols: 8 });
    assert_eq!(plan.steps, expected);
    assert_eq!(plan.output, PassOutput::Logits);
}

#[test]
fn without_an_output_projection_the_embeddings_serve() {
    let x = executor(4, 2, 3, false);
    let input = [0u32; 8];
    let plan = x.run_decode_range(2, 3, None, Some(&input), 0).unwrap();
    assert_eq!(plan.steps.last(), Some(&Step::ProjectEmbeddings { rows: 10, cols: 8 }));
    assert!(!plan.steps.contains(&Step::QuantizeFinal { width: 8 }));
}

#[test]
fn a_batch_is_filled_in_row_by_row() {
    let x = executor(4, 0, 1, true);
    let ids = [9u32, 1];
    assert!(x.can_prefill(0, 1, Some(&ids), None, 3, 2));
    let plan = x.run_prefill_range(0, 1, Some(&ids), None, 3, 2).unwrap();
    let mut expected = vec![
        Step::EmbedToken { row: 0, from: 72, to: 0, len: 8 },
        Step::EmbedToken { row: 1, from: 8, to: 8, len: 8 },
    ];
    expected.extend(prefill_layer_of_two(0, 3));
    expected.extend(prefill_layer_of_two(1, 3));
    assert_eq!(plan.steps, expected);
    assert_eq!(plan.output, PassOutput::Hidden { len: 16 });
}

#[test]
fn the_logits_of_a_batch_are_those_of_its_last_row() {
    let x = executor(4, 3, 3, true);
    let input = [0u32; 20];
    let plan = x.run_prefill_range(3, 3, None, Some(&input), 0, 2).unwrap();
    let mut expected = vec![Step::CopyActivations { tokens: 2, len: 16 }];
    expected.extend(prefill_layer_of_two(3, 0));
    expected.push(Step::FinalNorm { row: 1, start: 8, len: 8 });
    expected.push(Step::QuantizeFinal { width: 8 });
    expected.push(Step::ProjectOutput { rows: 10, cols: 8 });
    assert_eq!(plan.steps, expected);
    assert_eq!(plan.output, PassOutput::Logits);
}

#[test]
fn missing_input_is_an_error() {
    let first = executor(4, 0, 1, true);
    let second = executor(4, 2, 3, true);
    let input = [0u32; 8];
    assert_eq!(
        first.run_decode_range(0, 1, None, Some(&input), 0).err(),
        Some(PipelineError::MissingTokenId)
    );
    assert_eq!(
        first.run_prefill_range(0, 1, None, Some(&input), 0, 1).err(),
        Some(PipelineError::MissingTokenIds)
    );
    assert_eq!(
        second.run_decode_range(2, 3, Some(1), None, 0).err(),
        Some(PipelineError::MissingActivations(2))
    );
    assert_eq!(
        second.run_prefill_range(2, 3, Some(&[1]), None, 0, 1).err(),
        Some(PipelineError::MissingActivations(2))
    );
    assert_eq!(PipelineError::MissingTokenId.message(), "Node 0 requires a token_id input");
    assert_eq!(
        PipelineError::MissingTokenIds.message(),
        "Node 0 requires token_ids input during prefill"
    );
    assert_eq!(
        PipelineError::MissingActivations(12).message(),
        "Intermediate layer range starting at 12 requires input_activations"
    );
}

#[test]
fn a_pass_that_cannot_run_is_told_beforehand() {
    let first = executor(4, 0, 1, true);
    let second = executor(4, 2, 3, true);
    assert!(!first.can_decode(0, 1, Some(10), None, 0));
    assert!(!first.can_decode(0, 2, Some(1), None, 0));
    assert!(!first.can_decode(0, 1, Some(1), None, 16));
    assert!(first.can_decode(0, 1, Some(1), None, 15));
    assert!(!second.can_decode(2, 3, None, Some(&[0; 7]), 0));
    let ids = vec![0u32; MAX_BATCH + 1];
    assert!(!first.can_prefill(0, 1, Some(&ids), None, 0, 1));
    assert!(!first.can_prefill(0, 1, Some(&[1, 2]), None, 15, 2));
    assert!(first.can_prefill(0, 1, Some(&[1, 2]), None, 14, 2));
    assert!(!first.can_prefill(0, 1, Some(&[1, 10]), None, 0, 2));
    assert!(!second.can_prefill(2, 3, None, Some(&[0; 15]), 0, 2));
    assert!(!second.can_prefill(2, 3, None, Some(&[]), 0, 0));
    assert!(second.can_prefill(2, 3, None, None, 0, 0));
    assert!(first.can_prefill(0, 1, Some(&[]), None, 1000, 0));
    let plan = first.run_prefill_range(0, 1, Some(&[]), None, 1000, 0).unwrap();
    assert_eq!(plan.output, PassOutput::Hidden { len: 0 });
    assert!(!first.can_prefill(0, 1, Some(&[1]), None, 16, 1));
}

#[test]
fn a_swarm_decodes_like_one_node() {
    let whole = executor(6, 0, 5, true);
    let parts = [(0, 1), (2, 2), (3, 5)];
    let one = whole.run_decode_range(0, 5, Some(4), None, 7).unwrap();
    let input = [0u32; 8];
    let mut together = Vec::new();
    for (i, (start, end)) in parts.iter().enumerate() {
        let x = executor(6, *start, *end, true);
        let plan = if i == 0 {
            x.run_decode_range(*start, *end, Some(4), None, 7).unwrap()
        } else {
            x.run_decode_range(*start, *end, None, Some(&input), 7).unwrap()
        };
        together.extend(inner(&plan));
        if i < 2 {
            assert_eq!(plan.output, PassOutput::Hidden { len: 8 });
        } else {
            assert_eq!(plan.output, one.output);
        }
    }
    assert_eq!(together, inner(&one));
}

#[test]
fn any_range_can_be_cut() {
    let input = [0u32; 16];
    let both = executor(6, 1, 4, true);
    let first = executor(6, 1, 2, true);
    let second = executor(6, 3, 4, true);
    let whole = both.run_decode_range(1, 4, None, Some(&input[..8]), 3).unwrap();
    let a = first.run_decode_range(1, 2, None, Some(&input[..8]), 3).unwrap();
    let b = second.run_decode_range(3, 4, None, Some(&input[..8]), 3).unwrap();
    assert_eq!(b.steps[0], Step::CopyActivations { tokens: 1, len: 8 });
    assert_eq!(whole.steps, [&a.steps[..], &b.steps[1..]].concat());
    let whole = both.run_prefill_range(1, 4, None, Some(&input), 3, 2).unwrap();
    let a = first.run_prefill_range(1, 2, None, Some(&input), 3, 2).unwrap();
    let b = second.run_prefill_range(3, 4, None, Some(&input), 3, 2).unwrap();
    assert_eq!(b.steps[0], Step::CopyActivations { tokens: 2, len: 16 });
    assert_eq!(whole.steps, [&a.steps[..], &b.steps[1..]].concat());
}

#[test]
fn a_decode_pass_needs_one_row() {
    let x = executor(4, 0, 3, true);
    let plan = x.run_decode_range(0, 3, Some(1), None, 15).unwrap();
    for step in &plan.steps {
        match step {
            Step::EmbedToken { to, len, .. } => assert!(to + len <= 8),
            Step::Quantize { tokens, width, scales, .. } => {
                assert_eq!(*tokens, 1);
                assert_eq!(*scales, width / 4);
            }
            Step::Rotate { start, .. } | Step::StoreKv { start, .. } => assert_eq!(*start, 0),
            Step::Attend { start, scores_start, .. } => {
                assert_eq!((*start, *scores_start), (0, 0))
            }
            _ => {}
        }
    }
}

#[test]
fn a_swarm_prefills_like_one_node() {
    let whole = executor(6, 0, 5, true);
    let parts = [(0, 3), (4, 5)];
    let ids = [1u32, 2, 3];
    let one = whole.run_prefill_range(0, 5, Some(&ids), None, 2, 3).unwrap();
    let input = [0u32; 24];
    let mut together = Vec::new();
    for (i, (start, end)) in parts.iter().enumerate() {
        let x = executor(6, *start, *end, true);
        let plan = if i == 0 {
            x.run_prefill_range(*start, *end, Some(&ids), None, 2, 3).unwrap()
        } else {
            x.run_prefill_range(*start, *end, None, Some(&input), 2, 3).unwrap()
        };
        together.extend(inner(&plan));
    }
    assert_eq!(together, inner(&one));
}

#[test]
fn every_row_of_the_largest_batch_is_addressed() {
    let mut c = config(1);
    c.context_length = MAX_BATCH;
    let weights = WeightLayout {
        token_embeddings: 80,
        layers: vec![LayerBiases { wq: false, wk: false, wav: false }],
        output_projection: true,
    };
    let x = SwarmPipelineExecutor::new(c, weights, 0, 0);
    let ids = vec![0u32; MAX_BATCH];
    assert!(x.can_prefill(0, 0, Some(&ids), None, 0, MAX_BATCH));
    let plan = x.run_prefill_range(0, 0, Some(&ids), None, 0, MAX_BATCH).unwrap();
    for step in &plan.steps {
        match step {
            Step::EmbedToken { row, from, to, len } => {
                assert_eq!(*to, row * len);
                assert!(from + len <= 80);
                assert!(to + len <= MAX_BATCH * 8);
            }
            Step::Attend { start, len, scores_start, scores_len, position, .. } => {
                assert!(start + len <= MAX_BATCH * 8);
                assert!(scores_start + scores_len <= MAX_BATCH * MAX_BATCH);
                assert!(*position < MAX_BATCH);
            }
            Step::Activate { start, len, .. } => assert!(start + len <= MAX_BATCH * 12),
            _ => {}
        }
    }
}

#[test]
fn a_sampled_index_becomes_a_token() {
    let x = executor(1, 0, 0, true);
    assert_eq!(x.sample(9), 9);
    assert_eq!(x.sample(u32::MAX as usize), u32::MAX);
    assert_eq!(x.sample(0x1_0000_0007), 7);
}

#[test]
fn a_shape_that_is_too_large_is_told() {
    assert!(config(4).can_be_addressed());
    let mut c = config(4);
    c.embedding_length = usize::MAX / MAX_BATCH;
    assert!(c.can_be_addressed());
    c.embedding_length += 1;
    assert!(!c.can_be_addressed());
    let mut c = config(4);
    c.q8_block_size = 0;
    assert!(!c.can_be_addressed());
}

#[test]
fn a_pass_caches_exactly_its_tokens() {
    let x = executor(6, 1, 3, true);
    let input = [0u32; 24];
    let plan = x.run_prefill_range(1, 3, None, Some(&input), 4, 3).unwrap();
    let mut stored = Vec::new();
    for step in &plan.steps {
        if let Step::StoreKv { layer, position, .. } = step {
            stored.push((*layer, *position));
        }
    }
    let expected = vec![
        (1, 4), (1, 5), (1, 6),
        (2, 4), (2, 5), (2, 6),
        (3, 4), (3, 5), (3, 6),
    ];
    assert_eq!(stored, expected);
    let plan = x.run_decode_range(1, 3, None, Some(&input[..8]), 7).unwrap();
    let mut stored = Vec::new();
    for step in &plan.steps {
        if let Step::StoreKv { layer, position, .. } = step {
            stored.push((*layer, *position));
        }
    }
    assert_eq!(stored, vec![(1, 7), (2, 7), (3, 7)]);
}

#[test]
fn every_layer_is_held_by_one_node() {
    let nodes = [executor(6, 0, 1, true), executor(6, 2, 2, true), executor(6, 3, 5, true)];
    for layer in 0..6 {
        let mut holders = 0;
        for x in &nodes {
            if x.first_layer <= layer && layer < x.first_layer + x.held_layers() {
                holders += 1;
            }
        }
        assert_eq!(holders, 1);
    }
}
