use rfish_engine::eval::nnue::aligned::{first_aligned, Aligned, CACHE_LINE};
use rfish_engine::eval::nnue::common::{
    ceil_to_multiple, NetError, L1, L2, L3, LAYER_STACKS, LEB128_MAGIC, MAX_BLOCK_HINT, PSQT_BUCKETS,
};
use rfish_engine::eval::nnue::header;
use rfish_engine::eval::nnue::header::{read_header, NNUE_VERSION};
use rfish_engine::eval::nnue::layers::{clipped_relu, padded, sqr_clipped_relu, AffineLayer};
use rfish_engine::eval::nnue::stream::{NetReader, NetWriter};

#[test]
fn leb128_survives_a_round_trip_over_the_whole_signed_range() {
    let mut values: Vec<i32> = vec![
        0,
        1,
        -1,
        63,
        64,
        -64,
        -65,
        8191,
        8192,
        -8192,
        -8193,
        i32::MAX,
        i32::MIN,
        i32::MAX - 1,
        i32::MIN + 1,
    ];
    for shift in 0..31 {
        values.push(1i32 << shift);
        values.push(-(1i32 << shift));
    }

    let mut w = NetWriter::new();
    w.leb128(&values).expect("writes");

    let mut back = vec![0i32; values.len()];
    NetReader::new(w.out.as_slice()).leb128(&mut back).expect("reads");
    assert_eq!(back, values);
}

#[test]
fn the_uncompressed_encodings_round_trip_too() {
    let i16s: Vec<i16> = vec![0, 1, -1, i16::MAX, i16::MIN, 300, -300];
    let mut w = NetWriter::new();
    w.i16s(&i16s).expect("writes");
    let mut back = vec![0i16; i16s.len()];
    NetReader::new(w.out.as_slice()).i16s(&mut back).expect("reads");
    assert_eq!(back, i16s);

    let i8s: Vec<i8> = vec![0, 1, -1, i8::MAX, i8::MIN, 64, -64];
    let mut w = NetWriter::new();
    w.i8s(&i8s).expect("writes");
    let mut back = vec![0i8; i8s.len()];
    NetReader::new(w.out.as_slice()).i8s(&mut back).expect("reads");
    assert_eq!(back, i8s);

    let i32s: Vec<i32> = vec![0, 1, -1, i32::MAX, i32::MIN];
    let mut w = NetWriter::new();
    w.i32s(&i32s).expect("writes");
    let mut back = vec![0i32; i32s.len()];
    NetReader::new(w.out.as_slice()).i32s(&mut back).expect("reads");
    assert_eq!(back, i32s);
}

fn leb_block(values: &[i32]) -> Vec<u8> {
    let mut payload = Vec::new();
    for &v in values {
        let mut value = v;
        loop {
            let byte = (value & 0x7F) as u8;
            value >>= 7;
            let done = (value == 0 && byte & 0x40 == 0) || (value == -1 && byte & 0x40 != 0);
            payload.push(if done { byte } else { byte | 0x80 });
            if done {
                break;
            }
        }
    }
    let mut out = LEB128_MAGIC.to_vec();
    out.extend_from_slice(&(payload.len() as u32).to_le_bytes());
    out.extend_from_slice(&payload);
    out
}

#[test]
fn leb128_round_trips_the_whole_signed_range() {
    let values = [0, 1, -1, 63, 64, -64, -65, 127, -128, 1000, -1000, i32::MAX, i32::MIN];
    let bytes = leb_block(&values);
    let mut out = vec![0i32; values.len()];
    NetReader::new(bytes.as_slice()).leb128(&mut out).expect("decodes");
    assert_eq!(out, values);
}

#[test]
fn a_block_claiming_more_than_the_file_holds_is_truncated_not_reserved() {
    let mut bytes = LEB128_MAGIC.to_vec();
    bytes.extend_from_slice(&u32::MAX.to_le_bytes());
    bytes.extend_from_slice(&[0x01, 0x02, 0x03, 0x04, 0x05, 0x06, 0x07, 0x08]);
    let mut out = vec![0i32; 4];
    assert!(matches!(
        NetReader::new(bytes.as_slice()).leb128(&mut out),
        Err(NetError::Truncated)
    ));

    let mut empty = LEB128_MAGIC.to_vec();
    empty.extend_from_slice(&u32::MAX.to_le_bytes());
    let mut out = vec![0i32; 1];
    assert!(matches!(
        NetReader::new(empty.as_slice()).leb128(&mut out),
        Err(NetError::Truncated)
    ));
}

#[test]
fn a_block_larger_than_the_hint_still_reads() {
    let declared = MAX_BLOCK_HINT * 4;
    assert_eq!(declared.min(MAX_BLOCK_HINT), MAX_BLOCK_HINT);
    assert_eq!((MAX_BLOCK_HINT / 4).min(MAX_BLOCK_HINT), MAX_BLOCK_HINT / 4);
}

#[test]
fn a_block_without_the_magic_string_is_rejected() {
    let mut bytes = leb_block(&[1, 2, 3]);
    bytes[0] = b'X';
    let mut out = vec![0i32; 3];
    assert!(matches!(
        NetReader::new(bytes.as_slice()).leb128(&mut out),
        Err(NetError::NotCompressed)
    ));
}

#[test]
fn a_short_block_is_truncated_rather_than_zero_filled() {
    let bytes = leb_block(&[1, 2]);
    let mut out = vec![0i32; 5];
    assert!(matches!(
        NetReader::new(bytes.as_slice()).leb128(&mut out),
        Err(NetError::Truncated)
    ));
}

#[test]
fn a_block_with_bytes_left_over_is_refused() {
    let mut bytes = leb_block(&[1, 2, 3]);
    let at = LEB128_MAGIC.len();
    let declared = u32::from_le_bytes(bytes[at..at + 4].try_into().expect("four bytes"));
    bytes[at..at + 4].copy_from_slice(&(declared + 1).to_le_bytes());
    bytes.push(0x00);
    let mut out = vec![0i32; 3];
    assert!(matches!(
        NetReader::new(bytes.as_slice()).leb128(&mut out),
        Err(NetError::BlockNotConsumed)
    ));
}

#[test]
fn fixed_width_readers_are_little_endian() {
    let bytes = [0x01, 0x02, 0x03, 0x04, 0xFF, 0xFF];
    let mut r = NetReader::new(bytes.as_slice());
    assert_eq!(r.u32().expect("u32"), 0x0403_0201);
    let mut v = vec![0i16; 1];
    r.i16s(&mut v).expect("i16");
    assert_eq!(v[0], -1);

    let more = [0xFFu8, 0x7F];
    let mut r = NetReader::new(more.as_slice());
    let mut v = vec![0i8; 2];
    r.i8s(&mut v).expect("i8");
    assert_eq!(v, [-1, 127]);
}

#[test]
fn the_architecture_constants_are_the_ones_the_file_encodes() {
    assert_eq!(L1, 1024);
    assert_eq!(L2, 32);
    assert_eq!(L3, 32);
    assert_eq!(PSQT_BUCKETS, 8);
    assert_eq!(LAYER_STACKS, 8);
    assert_eq!(ceil_to_multiple(1024, 32), 1024);
    assert_eq!(ceil_to_multiple(60, 32), 64);
}

#[test]
fn a_reader_stops_at_the_end() {
    let bytes = [1u8, 2, 3];
    let mut r = NetReader::new(bytes.as_slice());
    assert!(!r.at_end());
    assert!(matches!(r.u32(), Err(NetError::Truncated)));
    let mut buf = vec![0u8; 3];
    r.read_exact(&mut buf).expect("three bytes");
    assert_eq!(buf, [1, 2, 3]);
    assert!(r.at_end());
    assert!(matches!(r.read_exact(&mut buf), Err(NetError::Truncated)));
}

#[test]
fn grouped_blocks_come_back_in_their_groups() {
    let mut w = NetWriter::new();
    w.leb128_i16(&[1, -2, 300, -400]).expect("writes");
    let mut r = NetReader::new(w.out.as_slice());
    let groups = r.leb128_i16_groups(2, 2).expect("reads");
    assert_eq!(groups, vec![vec![1i16, -2], vec![300, -400]]);
    assert!(r.at_end());
}

#[test]
fn the_errors_say_what_went_wrong() {
    let e = NetError::WrongArchitecture { expected: 1, found: 0xDEAD_BEEF };
    let text = e.message();
    assert!(text.contains("0xdeadbeef"));
    assert!(text.contains("0x00000001"));
    assert_ne!(NetError::Truncated.message(), NetError::NotANet.message());
    let h = header::NetError::WrongArchitecture { expected: 2, found: 3 };
    assert_eq!(h.message(), "network architecture 0x00000003 does not match 0x00000002");
}

// ---------------------------------------------------------------------------
// Headers
// ---------------------------------------------------------------------------

fn header_bytes(version: u32, hash: u32, desc: &str) -> Vec<u8> {
    let mut v = Vec::new();
    v.extend_from_slice(&version.to_le_bytes());
    v.extend_from_slice(&hash.to_le_bytes());
    v.extend_from_slice(&(desc.len() as u32).to_le_bytes());
    v.extend_from_slice(desc.as_bytes());
    v
}

#[test]
fn a_well_formed_header_parses() {
    let bytes = header_bytes(NNUE_VERSION, 0x1234_5678, "Network trained by someone");
    let h = read_header(&mut NetReader::new(bytes.as_slice())).expect("header parses");
    assert_eq!(h.version, NNUE_VERSION);
    assert_eq!(h.hash, 0x1234_5678);
    assert_eq!(h.description, "Network trained by someone");
}

#[test]
fn nnue_a_non_net_is_rejected_before_anything_is_allocated() {
    let bytes = header_bytes(0xDEAD_BEEF, 0, "");
    assert!(matches!(
        read_header(&mut NetReader::new(bytes.as_slice())),
        Err(header::NetError::NotANet)
    ));
}

#[test]
fn a_truncated_header_is_rejected_rather_than_padded() {
    let mut bytes = header_bytes(NNUE_VERSION, 1, "a long description");
    bytes.truncate(bytes.len() - 5);
    assert!(matches!(
        read_header(&mut NetReader::new(bytes.as_slice())),
        Err(header::NetError::Truncated)
    ));
}

#[test]
fn an_absurd_description_length_is_refused() {
    let mut v = Vec::new();
    v.extend_from_slice(&NNUE_VERSION.to_le_bytes());
    v.extend_from_slice(&0u32.to_le_bytes());
    v.extend_from_slice(&u32::MAX.to_le_bytes());
    assert!(matches!(
        read_header(&mut NetReader::new(v.as_slice())),
        Err(header::NetError::Truncated)
    ));
}

#[test]
fn a_description_that_is_no_text_is_read_as_far_as_it_is() {
    let mut v = Vec::new();
    v.extend_from_slice(&NNUE_VERSION.to_le_bytes());
    v.extend_from_slice(&7u32.to_le_bytes());
    v.extend_from_slice(&3u32.to_le_bytes());
    v.extend_from_slice(&[b'a', 0xFF, b'b']);
    let h = read_header(&mut NetReader::new(v.as_slice())).expect("parses");
    assert_eq!(h.description, "a\u{FFFD}b");
}

#[test]
fn a_header_and_its_weights_make_a_network() {
    let mut bytes = header_bytes(NNUE_VERSION, 9, "desc");
    bytes.extend_from_slice(&[1, 2, 3, 4, 5]);
    let net = header::Network::parse(bytes.as_slice(), "nn-x.nnue".to_string()).expect("parses");
    assert_eq!(net.name(), "nn-x.nnue");
    assert_eq!(net.weight_len(), 5);
    assert_eq!(net.header().hash, 9);
}

// ---------------------------------------------------------------------------
// Layers
// ---------------------------------------------------------------------------

#[test]
fn padding_rounds_every_layer_width_up_to_thirty_two() {
    assert_eq!(padded(1024), 1024);
    assert_eq!(padded(64), 64);
    assert_eq!(padded(128), 128);
    assert_eq!(padded(1), 32);
    assert_eq!(padded(33), 64);
}

#[test]
fn an_affine_layer_computes_bias_plus_the_dot_product() {
    let mut l = AffineLayer::new(4, 2);
    l.biases = vec![10, -10];
    l.weights = vec![0; 2 * 32];
    l.weights[0..4].copy_from_slice(&[1, 2, 3, 4]);
    l.weights[32..36].copy_from_slice(&[-1, -1, -1, -1]);
    l.rebuild_sparse();

    let mut out = vec![0i32; 2];
    l.propagate(&[1, 2, 3, 4], &mut out);
    assert_eq!(out[0], 10 + 1 + 4 + 9 + 16);
    assert_eq!(out[1], -10 - 10);
}

#[test]
fn the_sparse_walk_agrees_with_the_plain_one() {
    let mut l = AffineLayer::new(8, 3);
    for (i, w) in l.weights.iter_mut().enumerate() {
        *w = ((i * 37) % 101) as i8 - 50;
    }
    l.biases = vec![3, -4, 5];
    l.rebuild_sparse();
    let input = [0u8, 7, 0, 0, 255, 1, 0, 9];
    let mut a = vec![0i32; 3];
    let mut b = vec![0i32; 3];
    l.propagate(&input, &mut a);
    l.propagate_sparse(&input, &mut b);
    assert_eq!(a, b);
}

#[test]
fn the_weight_rows_are_read_at_the_padded_stride() {
    let mut l = AffineLayer::new(4, 2);
    let mut bytes = Vec::new();
    bytes.extend_from_slice(&7i32.to_le_bytes());
    bytes.extend_from_slice(&(-7i32).to_le_bytes());
    let mut w = vec![0u8; 64];
    w[0] = 1;
    w[32] = 2;
    bytes.extend_from_slice(&w);

    l.read(&mut NetReader::new(bytes.as_slice())).expect("reads");
    assert_eq!(l.biases.as_slice(), &[7, -7]);
    assert_eq!(l.weights[0], 1);
    assert_eq!(l.weights[32], 2);

    let mut back = NetWriter::new();
    l.write(&mut back).expect("writes");
    assert_eq!(back.out, bytes);
}

#[test]
fn clipped_relu_clamps_at_both_ends_after_the_shift() {
    let input = [-1000, 0, 64, 127 << 7, 1 << 30];
    assert_eq!(clipped_relu(&input, 7), [0, 0, 0, 127, 127]);
    assert_eq!(clipped_relu(&[-1], 6)[0], 0);
}

#[test]
fn sqr_clipped_relu_is_symmetric_and_saturates() {
    let out = sqr_clipped_relu(&[1000, -1000], 6);
    assert_eq!(out[0], out[1], "squaring makes the sign irrelevant");
    assert_eq!(out[0], 1);
    assert_eq!(sqr_clipped_relu(&[1 << 20], 6)[0], 127, "saturates rather than wrapping");
    assert_eq!(sqr_clipped_relu(&[i32::MAX], 6)[0], 127);
}

#[test]
fn zero_is_the_fixed_point_of_both_activations() {
    assert_eq!(clipped_relu(&[0], 6)[0], 0);
    assert_eq!(sqr_clipped_relu(&[0], 6)[0], 0);
}

#[test]
fn an_aligned_buffer_starts_on_a_cache_line() {
    for len in [1usize, 7, 63, L1, L1 * 33] {
        let a: Aligned<i16> = Aligned::new(len);
        assert_eq!(a.as_slice().as_ptr() as usize % CACHE_LINE, 0, "i16 len {len}");
        assert_eq!(a.len(), len);
    }
    for len in [1usize, 1023, L1 * 17] {
        let a: Aligned<i8> = Aligned::new(len);
        assert_eq!(a.as_slice().as_ptr() as usize % CACHE_LINE, 0, "i8 len {len}");
    }
    for len in [1usize, 999, PSQT_BUCKETS * 3072] {
        let a: Aligned<i32> = Aligned::new(len);
        assert_eq!(a.as_slice().as_ptr() as usize % CACHE_LINE, 0, "i32 len {len}");
    }
}

#[test]
fn a_clone_is_realigned_and_equal() {
    let mut a: Aligned<i16> = Aligned::new(300);
    for (i, v) in a.as_mut_slice().iter_mut().enumerate() {
        *v = i as i16;
    }
    let b = a.clone();
    assert_eq!(a.as_slice(), b.as_slice());
    assert_eq!(b.as_slice().as_ptr() as usize % CACHE_LINE, 0);
}

#[test]
fn the_first_aligned_element_is_counted_in_elements() {
    assert_eq!(first_aligned(0x1000, 2), 0);
    assert_eq!(first_aligned(0x1010, 2), 24);
    assert_eq!(first_aligned(0x1010, 1), 48);
    assert_eq!(first_aligned(0x1010, 4), 12);
    assert_eq!(first_aligned(0x103e, 2), 1);
    let b = Aligned::from_slice(&[3u8, 1, 4]);
    assert_eq!(b.as_slice(), &[3, 1, 4]);
    assert!(!b.is_empty());
}
