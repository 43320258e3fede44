use rfish_engine::board::position::Position;
use rfish_engine::board::startpos::START_FEN;
use rfish_engine::board::types::{Color, Ply, Value};
use rfish_engine::eval::evaluate;
use rfish_engine::eval::nnue::common::{NetError, L1, L2, PSQT_BUCKETS, VERSION};
use rfish_engine::eval::nnue::features::{HALFKA_DIMENSIONS, THREAT_AND_PP_DIMENSIONS};
use rfish_engine::eval::nnue::layers::AffineLayer;
use rfish_engine::eval::nnue::network::{Network, ARCHITECTURE, FEATURE_TRANSFORMER, NETWORK};
use rfish_engine::eval::nnue::stack::LayerStack;
use rfish_engine::eval::nnue::stream::NetReader;
use rfish_engine::eval::nnue::transformer::EvalScratch;
use rfish_engine::eval::nnue::weights::FeatureTransformer;

#[test]
fn the_structural_hashes_match_the_ones_upstream_computes() {
    assert_eq!(FEATURE_TRANSFORMER, 0xCB68_5313);
    assert_eq!(NETWORK, FEATURE_TRANSFORMER ^ ARCHITECTURE);
    assert_ne!(ARCHITECTURE, 0);
}

#[test]
fn mod_a_non_net_is_rejected_before_anything_is_allocated() {
    assert!(matches!(
        Network::parse(b"not a network at all", "bogus.nnue".to_string()),
        Err(NetError::NotANet)
    ));
}

#[test]
fn a_net_with_the_wrong_architecture_hash_is_rejected() {
    let mut bytes = Vec::new();
    bytes.extend_from_slice(&VERSION.to_le_bytes());
    bytes.extend_from_slice(&0xDEAD_BEEFu32.to_le_bytes());
    bytes.extend_from_slice(&0u32.to_le_bytes());
    assert!(matches!(
        Network::parse(&bytes, "wrong.nnue".to_string()),
        Err(NetError::WrongArchitecture { .. })
    ));
}

#[test]
fn a_net_that_ends_early_is_truncated() {
    let mut bytes = Vec::new();
    bytes.extend_from_slice(&VERSION.to_le_bytes());
    bytes.extend_from_slice(&NETWORK.to_le_bytes());
    bytes.extend_from_slice(&2u32.to_le_bytes());
    bytes.extend_from_slice(b"ok");
    assert!(matches!(Network::parse(&bytes, "n".to_string()), Err(NetError::Truncated)));
    bytes.extend_from_slice(&5u32.to_le_bytes());
    assert!(matches!(
        Network::parse(&bytes, "n".to_string()),
        Err(NetError::WrongComponent { .. })
    ));
}

#[test]
fn a_zero_network_propagates_to_zero() {
    let s = LayerStack::new();
    assert_eq!(s.propagate(&[0u8; L1]), 0);
    assert_eq!(s.propagate(&[127u8; L1]), 0);
    assert_eq!(s.weight_bytes(), 35204);
}

#[test]
fn the_skip_connection_reaches_the_output() {
    let mut s = LayerStack::new();
    let mut fc0 = AffineLayer::new(L1, L2);
    let mut biases = vec![0i32; L2];
    biases[L2 - 2] = 1 << 20;
    let mut bytes = Vec::new();
    for b in &biases {
        bytes.extend_from_slice(&b.to_le_bytes());
    }
    bytes.extend_from_slice(&vec![0u8; L2 * L1]);
    fc0.read(&mut NetReader::new(bytes.as_slice())).expect("reads");
    s.fc_0 = fc0;
    assert_ne!(s.propagate(&[0u8; L1]), 0);
}

#[test]
fn an_unloaded_transformer_has_the_right_shape() {
    let ft = FeatureTransformer::new();
    assert_eq!(ft.biases.len(), L1);
    assert_eq!(ft.weights.len(), L1 * HALFKA_DIMENSIONS);
    assert_eq!(ft.psqt_weights.len(), PSQT_BUCKETS * HALFKA_DIMENSIONS);
    assert_eq!(ft.threat_and_pp_weights.len(), L1 * THREAT_AND_PP_DIMENSIONS);
    assert!(ft.weight_bytes() > 100 << 20);
    assert!(ft.weight_bytes() < 130 << 20);
}

fn patterned() -> FeatureTransformer {
    let mut ft = FeatureTransformer::new();
    for (i, w) in ft.weights.iter_mut().enumerate() {
        *w = ((i * 7919) % 61) as i16 - 30;
    }
    for (i, w) in ft.threat_and_pp_weights.iter_mut().enumerate() {
        *w = ((i * 104_729) % 41) as i8 - 20;
    }
    ft
}

#[test]
fn diffing_reaches_the_same_state_as_starting_over() {
    let mut ft = patterned();
    for (i, w) in ft.psqt_weights.iter_mut().enumerate() {
        *w = ((i * 7907) % 101) as i32 - 50;
    }
    let fens = [
        START_FEN,
        "r3k2r/p1ppqpb1/bn2pnp1/3PN3/1p2P3/2N2Q1p/PPPBBPPP/R3K2R w KQkq - 0 1",
        "8/2p5/3p4/KP5r/1R3p1k/8/4P1P1/8 w - - 0 11",
        START_FEN,
        "4k3/8/8/8/8/8/8/4K3 w - - 0 1",
        "rnbq1k1r/pp1Pbppp/2p5/8/2B5/8/PPP1NnPP/RNBQK2R w KQ - 1 8",
    ];
    let mut shared = EvalScratch::default();
    for fen in fens {
        let pos = Position::from_fen(fen, false).expect("valid");
        let bucket = (pos.piece_total() as usize - 1) / 4;
        let pa = ft.transform(&pos, bucket, 0, &mut shared);
        let a = shared.transformed().to_vec();
        let mut fresh = EvalScratch::default();
        let pb = ft.transform(&pos, bucket, 0, &mut fresh);
        let b = fresh.transformed().to_vec();
        assert_eq!(a, b, "{fen}: diffed features differ from a fresh computation");
        assert_eq!(pa, pb, "{fen}: diffed PSQT differs from a fresh computation");
    }
}

#[test]
fn resetting_the_scratch_forces_a_fresh_computation() {
    let ft = FeatureTransformer::new();
    let pos = Position::from_fen(START_FEN, false).expect("valid");
    let mut scratch = EvalScratch::default();
    let first = ft.transform(&pos, 7, 0, &mut scratch);
    scratch.reset();
    let second = ft.transform(&pos, 7, 0, &mut scratch);
    assert_eq!(first, second);
}

#[test]
fn a_zero_network_transforms_to_zero() {
    let ft = FeatureTransformer::new();
    let pos = Position::from_fen(START_FEN, false).expect("valid");
    let mut scratch = EvalScratch::default();
    let psqt = ft.transform(&pos, 7, 0, &mut scratch);
    assert_eq!(psqt, 0);
    assert!(scratch.transformed().iter().all(|&x| x == 0));
}

#[test]
fn the_pairwise_product_uses_both_halves_and_saturates_at_the_clamp() {
    let mut ft = FeatureTransformer::new();
    let half = L1 / 2;
    ft.biases[0] = 300;
    ft.biases[half] = 100;
    ft.biases[1] = -5;
    ft.biases[half + 1] = 100;
    let pos = Position::from_fen(START_FEN, false).expect("valid");
    let mut scratch = EvalScratch::default();
    ft.transform(&pos, 7, 0, &mut scratch);
    assert_eq!(scratch.transformed()[0], 49);
    assert_eq!(scratch.transformed()[1], 0);
}

#[test]
fn the_psqt_head_is_the_halved_perspective_difference() {
    let mut ft = FeatureTransformer::new();
    for i in 0..HALFKA_DIMENSIONS {
        ft.psqt_weights[i * PSQT_BUCKETS + 3] = 10;
    }
    let pos = Position::from_fen(START_FEN, false).expect("valid");
    let mut scratch = EvalScratch::default();
    assert_eq!(ft.transform(&pos, 3, 0, &mut scratch), 0);
}

#[test]
fn transforming_twice_through_one_scratch_gives_the_same_answer() {
    let mut ft = FeatureTransformer::new();
    ft.biases[0] = 200;
    ft.biases[L1 / 2] = 200;
    let pos = Position::from_fen(START_FEN, false).expect("valid");
    let mut scratch = EvalScratch::default();
    let pa = ft.transform(&pos, 7, 0, &mut scratch);
    let a = scratch.transformed().to_vec();
    let pb = ft.transform(&pos, 7, 0, &mut scratch);
    let b = scratch.transformed().to_vec();
    assert_eq!(a, b);
    assert_eq!(pa, pb);
}

fn zero_network() -> Network {
    let mut stacks = Vec::new();
    for _ in 0..8 {
        stacks.push(LayerStack::new());
    }
    Network {
        transformer: FeatureTransformer::new(),
        stacks,
        name: "nn-zero.nnue".to_string(),
        description: "nothing".to_string(),
    }
}

#[test]
fn a_network_survives_writing_and_reading() {
    let mut net = zero_network();
    net.transformer.biases[5] = -321;
    net.transformer.weights[12345] = 77;
    net.transformer.threat_and_pp_weights[99] = -9;
    net.transformer.psqt_weights[8] = 1_000_000;
    net.stacks[3].fc_2.biases[0] = 42;
    let bytes = net.to_bytes().expect("writes");
    let back = Network::parse(&bytes, "nn-back.nnue".to_string()).expect("reads");
    assert_eq!(back.name(), "nn-back.nnue");
    assert_eq!(back.description(), "nothing");
    assert_eq!(back.transformer.biases[5], -321);
    assert_eq!(back.transformer.weights[12345], 77);
    assert_eq!(back.transformer.threat_and_pp_weights[99], -9);
    assert_eq!(back.transformer.psqt_weights[8], 1_000_000);
    assert_eq!(back.stacks[3].fc_2.biases[0], 42);
    let mut longer = bytes.clone();
    longer.push(0);
    assert!(matches!(
        Network::parse(&longer, "n".to_string()),
        Err(NetError::TrailingData)
    ));
}

#[test]
fn a_network_is_asked_by_the_number_of_pieces() {
    let mut net = zero_network();
    net.stacks[7].fc_2.biases[0] = 1600;
    let pos = Position::from_fen(START_FEN, false).expect("valid");
    let mut scratch = EvalScratch::default();
    let out = net.evaluate(&pos, Ply(0), &mut scratch);
    assert_eq!(out.psqt, Value(0));
    assert_ne!(out.positional, Value(0));
    let trace = net.trace_evaluate(&pos, &mut EvalScratch::default());
    assert_eq!(trace.correct_bucket, 7);
    assert_eq!(trace.positional.len(), 8);
    assert_eq!(trace.positional[7], out.positional);
    assert_eq!(trace.positional[0], Value(0));
    assert_eq!(net.arch_summary(), "109MiB, (86896, 1024, 32, 32, 1)");
    let v = evaluate(&pos, Some(&net), &mut scratch, Value(0));
    assert!(v.0 > 0);
    assert_eq!(pos.side_to_move(), Color::White);
}
