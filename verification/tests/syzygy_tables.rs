use std::collections::HashSet;

use rfish_engine::board::position::Position;
use rfish_engine::board::types::{File, PieceType, Rank, Square};
use rfish_engine::platform::syzygy::discovery::{file_cardinality, search_dirs};
use rfish_engine::platform::syzygy::pairs::{
    compute_symlen, decompress, set_groups, set_sizes, u16_le, u32_be, u32_le, u64_be, PairsData,
    FLAG_LOSS_PLIES, FLAG_MAPPED, FLAG_SINGLE_VALUE, FLAG_STM, FLAG_WIDE, FLAG_WIN_PLIES,
};
use rfish_engine::platform::syzygy::probe::do_probe_table;
use rfish_engine::platform::syzygy::registry::{rank_of, score_of};
use rfish_engine::platform::syzygy::table::{material_key, parse_code, TbTable, TbType};
use rfish_engine::platform::syzygy::tables::{off_a1h8, IndexTables, TbFile};
use rfish_engine::platform::syzygy::{
    cardinality_of, dtz_before_zeroing, stems_for, wdl_stems, ProbeState, TableRegistry, Tablebases,
    Wdl, MAX_DTZ,
};

// ---------------------------------------------------------------------------
// Names and sets
// ---------------------------------------------------------------------------

#[test]
fn no_path_means_no_tablebases() {
    for p in ["", "<empty>"] {
        let tb = Tablebases::new(p, ':');
        assert_eq!(tb.max_cardinality(), 0);
        assert!(!tb.is_available());
        assert!(tb.dirs().is_empty());
    }
}

#[test]
fn an_empty_path_registers_nothing() {
    for p in ["", "<empty>"] {
        let mut r = TableRegistry::new();
        for dir in search_dirs(p, ':') {
            r.add("KQvK", format!("{dir}/KQvK.rtbw"), None);
        }
        assert!(r.is_empty());
        assert_eq!(r.max_cardinality(), 0);
    }
}

#[test]
fn a_nonexistent_directory_is_recorded_but_finds_nothing() {
    let tb = Tablebases::new("/nonexistent-syzygy-directory", ':');
    assert_eq!(tb.dirs().len(), 1);
    assert_eq!(tb.max_cardinality(), 0);
    assert!(!tb.is_available());
    // A directory that cannot be read lists no names.
    assert!(wdl_stems(&Vec::new()).is_empty());
}

#[test]
fn a_path_is_split_into_its_directories() {
    let tb = Tablebases::new("/a:/b::c/d:", ':');
    assert_eq!(tb.dirs(), &["/a", "/b", "c/d"]);
    let one = Tablebases::new("/nonexistent-syzygy-directory", ':');
    assert_eq!(one.dirs().len(), 1);
    assert_eq!(one.max_cardinality(), 0);
}

#[test]
fn table_names_are_recognised_by_their_material_split() {
    assert_eq!(cardinality_of("KQvK"), Some(3));
    assert_eq!(cardinality_of("KRPvKR"), Some(5));
    assert_eq!(cardinality_of("KQQvKQQ"), Some(6));
    assert_eq!(cardinality_of("README"), None);
    assert_eq!(cardinality_of("QvK"), None, "a side must start with its king");
    assert_eq!(cardinality_of("KXvK"), None, "X is not a piece");
    assert_eq!(cardinality_of("KvK"), Some(2));
    assert_eq!(cardinality_of("Kv"), None);
}

#[test]
fn files_are_tables_by_name_and_extension() {
    let mut tb = Tablebases::new("dir", ':');
    for name in ["KQvK.rtbw", "KQvK.rtbz", "KRvK.rtbw", "notes.txt", "KQQvKQ.rtbm"] {
        tb.note(name);
    }
    assert_eq!(tb.max_cardinality(), 3);
    assert!(tb.is_available());
    assert_eq!(file_cardinality("KRPvKR.rtbz"), Some(5));
    assert_eq!(file_cardinality("KRPvKR"), None);
    assert_eq!(file_cardinality("KRPvKR.rtb"), None);
}

#[test]
fn the_three_man_stem_set_is_the_five_pawnless_and_pawn_endings() {
    let stems = stems_for(3);
    for expected in ["KQvK", "KRvK", "KBvK", "KNvK", "KPvK"] {
        assert!(stems.contains(&expected.to_string()), "{expected} missing from {stems:?}");
    }
    assert_eq!(stems.len(), 5);
}

#[test]
fn the_stem_set_grows_with_the_piece_count() {
    assert!(stems_for(4).len() > stems_for(3).len());
    assert!(stems_for(5).len() > stems_for(4).len());
    assert!(stems_for(4).iter().all(|s| cardinality_of(s) == Some(4)));
}

#[test]
fn the_stem_sets_are_complete_and_sorted() {
    assert_eq!(stems_for(2), vec!["KvK".to_string()]);
    assert_eq!(stems_for(4).len(), 30);
    assert_eq!(stems_for(5).len(), 110);
    let five = stems_for(5);
    for expected in ["KRvKB", "KRPvKQ", "KQRvKP", "KBNvKN"] {
        let n = cardinality_of(expected).expect("a name");
        assert!(stems_for(n).contains(&expected.to_string()), "{expected}");
    }
    let mut sorted = five.clone();
    sorted.sort();
    assert_eq!(sorted, five);
}

// ---------------------------------------------------------------------------
// Pairs
// ---------------------------------------------------------------------------

#[test]
fn the_tables_of_a_directory_are_its_verdict_files_in_order() {
    let names: Vec<String> =
        ["KRvK.rtbw", "KBvK.rtbz", "KBvK.rtbw", "notes.txt", "KQvKX.rtbw", "KBvKN.v2.rtbw", "KNvK"]
            .iter()
            .map(|s| s.to_string())
            .collect();
    assert_eq!(wdl_stems(&names), ["KBvK", "KRvK"]);
    assert!(wdl_stems(&vec![]).is_empty());
}

#[test]
fn the_flag_bits_are_the_ones_the_format_defines() {
    assert_eq!(FLAG_STM, 1);
    assert_eq!(FLAG_MAPPED, 2);
    assert_eq!(FLAG_WIN_PLIES, 4);
    assert_eq!(FLAG_LOSS_PLIES, 8);
    assert_eq!(FLAG_WIDE, 16);
    assert_eq!(FLAG_SINGLE_VALUE, 128);
}

#[test]
fn a_single_value_table_needs_no_payload() {
    let mut d = PairsData { flags: FLAG_SINGLE_VALUE, min_sym_len: 3, ..PairsData::default() };
    assert_eq!(decompress(&d, &[], 0), 3);
    assert_eq!(decompress(&d, &[], 12345), 3);
    d.min_sym_len = 0;
    assert_eq!(decompress(&d, &[], 0), 0);
}

#[test]
fn the_two_endiannesses_are_not_interchangeable() {
    let b = [0x01u8, 0x02, 0x03, 0x04, 0x05, 0x06, 0x07, 0x08];
    assert_eq!(u32_le(&b, 0), 0x0403_0201);
    assert_eq!(u32_be(&b, 0), 0x0102_0304);
    assert_eq!(u64_be(&b, 0), 0x0102_0304_0506_0708);
    assert_eq!(u16_le(&b, 0), 0x0201);
}

#[test]
fn a_read_past_the_end_is_zero() {
    let b = [0xFFu8; 8];
    assert_eq!(u16_le(&b, 7), 0);
    assert_eq!(u32_le(&b, 5), 0);
    assert_eq!(u32_be(&b, 5), 0);
    assert_eq!(u64_be(&b, 1), 0);
    assert_eq!(u64_be(&b, 0), u64::MAX);
}

#[test]
fn a_symbol_tree_node_splits_into_two_twelve_bit_children() {
    let d = PairsData { btree: 0, ..PairsData::default() };
    let b = [0x34u8, 0x12, 0x56];
    assert_eq!(d.left(&b, 0), 0x234);
    assert_eq!(d.right(&b, 0), 0x561);
}

#[test]
fn a_leaf_symbol_expands_into_one_value() {
    let mut d = PairsData { btree: 0, symlen: vec![0; 1], ..PairsData::default() };
    let b = [0x07u8, 0xF0, 0xFF];
    assert_eq!(d.right(&b, 0), 0xFFF);
    let mut visited = vec![false; 1];
    compute_symlen(&mut d, &b, 0, &mut visited);
    assert_eq!(d.symlen[0], 0);
}

#[test]
fn a_pair_symbol_sums_its_children() {
    let b = [0x01, 0x20, 0x00, 0x09, 0xF0, 0xFF, 0x0A, 0xF0, 0xFF];
    let mut d = PairsData { btree: 0, symlen: vec![0; 3], ..PairsData::default() };
    let mut visited = vec![false; 3];
    compute_symlen(&mut d, &b, 0, &mut visited);
    assert_eq!(d.symlen[1], 0);
    assert_eq!(d.symlen[2], 0);
    assert_eq!(d.symlen[0], 1, "two values means symlen 1");
}

#[test]
fn a_deep_symbol_chain_does_not_overflow_the_stack() {
    const N: usize = 20_000;
    let mut b = Vec::with_capacity(N * 3);
    for s in 0..N {
        if s + 1 < N {
            let l = s + 1;
            let r = N - 1;
            b.push((l & 0xFF) as u8);
            b.push((((l >> 8) & 0xF) as u8) | (((r & 0xF) as u8) << 4));
            b.push(((r >> 4) & 0xFF) as u8);
        } else {
            b.extend_from_slice(&[0x00, 0xF0, 0xFF]);
        }
    }
    let mut d = PairsData { btree: 0, symlen: vec![0; N], ..PairsData::default() };
    let mut visited = vec![false; N];
    compute_symlen(&mut d, &b, 0, &mut visited);
    assert_eq!(d.symlen[N - 1], 0);
}

#[test]
fn a_tree_with_a_missing_child_is_refused() {
    let b = [0x01, 0x20, 0x00, 0x09, 0xF0, 0xFF];
    let mut d = PairsData { btree: 0, symlen: vec![0; 2], ..PairsData::default() };
    let mut visited = vec![false; 2];
    assert!(!compute_symlen(&mut d, &b, 0, &mut visited));
}

/// Two code lengths of one and two bits, three symbols: 0 stands for the values 5 and 6, 1 for
/// 5 and 2 for 6.
fn small_sizes() -> Vec<u8> {
    let mut b = vec![0u8, 6, 4, 0];
    b.extend_from_slice(&1u32.to_le_bytes());
    b.push(2);
    b.push(1);
    b.extend_from_slice(&2u16.to_le_bytes());
    b.extend_from_slice(&0u16.to_le_bytes());
    b.extend_from_slice(&3u16.to_le_bytes());
    b.extend_from_slice(&[0x01, 0x20, 0x00]);
    b.extend_from_slice(&[0x05, 0xF0, 0xFF]);
    b.extend_from_slice(&[0x06, 0xF0, 0xFF]);
    b
}

#[test]
fn the_sizes_of_a_part_are_read_in_order() {
    let b = small_sizes();
    let mut d = PairsData::default();
    d.group_idx[0] = 40;
    let end = set_sizes(&mut d, &b, 0).expect("sizes");
    assert_eq!(end as usize, b.len() + 1);
    assert_eq!(d.sizeof_block, 64);
    assert_eq!(d.span, 16);
    assert_eq!(d.sparse_index_size, 3);
    assert_eq!(d.blocks_num, 1);
    assert_eq!(d.block_length_size, 1);
    assert_eq!((d.max_sym_len, d.min_sym_len), (2, 1));
    assert_eq!(d.base64, vec![1u64 << 63, 0]);
    assert_eq!(d.symlen, vec![1, 0, 0]);
    assert_eq!(d.len_tab, vec![1, 1, 0, 0]);
}

#[test]
fn sizes_that_make_no_sense_are_refused() {
    for (at, value) in [(1usize, 32u8), (2, 40), (8, 0), (8, 65), (9, 0)] {
        let mut b = small_sizes();
        b[at] = value;
        assert!(set_sizes(&mut PairsData::default(), &b, 0).is_none(), "byte {at}");
    }
    let b = small_sizes();
    assert!(set_sizes(&mut PairsData::default(), &b[..9], 0).is_none());
    assert!(set_sizes(&mut PairsData::default(), &b, 1000).is_none());
}

#[test]
fn sizes_that_the_file_ends_within_are_refused() {
    let cut = [0u8, 0, 0, 0, 0, 0, 0, 0, 1, 1];
    assert_eq!(set_sizes(&mut PairsData::default(), &cut, 0), None);
    assert_eq!(set_sizes(&mut PairsData::default(), &[], 0), None);
    let b = small_sizes();
    for n in 0..b.len() {
        assert_eq!(set_sizes(&mut PairsData::default(), &b[..n], 0), None, "{n} bytes");
    }
    let mut d = PairsData::default();
    assert_eq!(set_sizes(&mut d, &[128, 3], 0), Some(2));
    assert_eq!(d.min_sym_len, 3);
}

#[test]
fn a_symbol_that_contains_itself_is_counted_in_the_order_of_the_walk() {
    // The first symbol is its own left child, the second its own right child.
    let mut b = small_sizes();
    b[16..19].copy_from_slice(&[0x00, 0x20, 0x00]);
    b[19..22].copy_from_slice(&[0x00, 0x10, 0x00]);
    let mut d = PairsData::default();
    set_sizes(&mut d, &b, 0).expect("sizes");
    assert_eq!(d.symlen, vec![1, 2, 0]);
}

#[test]
fn a_value_is_read_through_block_code_and_tree() {
    let mut bytes = small_sizes();
    let mut d = PairsData::default();
    d.group_idx[0] = 6;
    set_sizes(&mut d, &bytes, 0).expect("sizes");
    bytes.push(0);
    d.sparse_index = bytes.len() as u128;
    bytes.extend_from_slice(&[0, 0, 0, 0, 8, 0]);
    d.block_length = bytes.len() as u128;
    bytes.extend_from_slice(&[5, 0]);
    d.data = bytes.len() as u128;
    // The codes 1 (symbol 2), 01 (symbol 1), 00 (symbol 0), 1: the values 6, 5, 5, 6, 6.
    bytes.extend_from_slice(&[0b1010_0100, 0, 0, 0, 0, 0, 0, 0]);
    let values: Vec<i32> = (0..5).map(|i| decompress(&d, &bytes, i)).collect();
    assert_eq!(values, vec![6, 5, 5, 6, 6]);
}

// ---------------------------------------------------------------------------
// Verdicts
// ---------------------------------------------------------------------------

#[test]
fn a_verdict_negates_to_its_mirror() {
    assert_eq!(Wdl::Win.negate(), Wdl::Loss);
    assert_eq!(Wdl::Loss.negate(), Wdl::Win);
    assert_eq!(Wdl::CursedWin.negate(), Wdl::BlessedLoss);
    assert_eq!(Wdl::BlessedLoss.negate(), Wdl::CursedWin);
    assert_eq!(Wdl::Draw.negate(), Wdl::Draw);
}

#[test]
fn the_verdicts_order_from_loss_to_win() {
    assert!(Wdl::Loss < Wdl::BlessedLoss);
    assert!(Wdl::BlessedLoss < Wdl::Draw);
    assert!(Wdl::Draw < Wdl::CursedWin);
    assert!(Wdl::CursedWin < Wdl::Win);
}

#[test]
fn an_unknown_stored_value_reads_as_a_draw() {
    assert_eq!(Wdl::from_i32(0), Wdl::Draw);
    assert_eq!(Wdl::from_i32(99), Wdl::Draw);
    assert_eq!(Wdl::from_i32(2), Wdl::Win);
}

#[test]
fn a_stored_verdict_is_one_of_five() {
    assert_eq!(Wdl::from_stored(-2), Some(Wdl::Loss));
    assert_eq!(Wdl::from_stored(1), Some(Wdl::CursedWin));
    assert_eq!(Wdl::from_stored(3), None);
    assert_eq!(Wdl::from_stored(-3), None);
    assert_eq!(Wdl::BlessedLoss.value(), -1);
}

#[test]
fn the_zeroing_distance_follows_the_verdict() {
    assert_eq!(dtz_before_zeroing(Wdl::Win), 1);
    assert_eq!(dtz_before_zeroing(Wdl::Loss), -1);
    assert_eq!(dtz_before_zeroing(Wdl::CursedWin), 101);
    assert_eq!(dtz_before_zeroing(Wdl::BlessedLoss), -101);
    assert_eq!(dtz_before_zeroing(Wdl::Draw), 0);
}

// ---------------------------------------------------------------------------
// Tables
// ---------------------------------------------------------------------------

#[test]
fn a_table_code_parses_into_piece_counts() {
    let c = parse_code("KRPvKR").expect("a real code");
    assert_eq!(c[0][PieceType::King.index()], 1);
    assert_eq!(c[0][PieceType::Rook.index()], 1);
    assert_eq!(c[0][PieceType::Pawn.index()], 1);
    assert_eq!(c[1][PieceType::Rook.index()], 1);
    assert_eq!(c[1][PieceType::Pawn.index()], 0);

    assert!(parse_code("README").is_none());
    assert!(parse_code("QvK").is_none(), "a side must start with its king");
    assert!(parse_code("KXvK").is_none());
    // A name is in upper case, for the counts as for their number.
    for name in ["KqvK", "KQvKr", "kQvK", "KQvK", "KvK", "Kv", "KQvvK"] {
        assert_eq!(parse_code(name).is_some(), cardinality_of(name).is_some(), "{name}");
    }
    assert!(parse_code("KqvK").is_none());
}

#[test]
fn the_material_key_matches_the_positions_own() {
    let pos = Position::from_fen("4k3/8/8/8/8/8/8/R3K3 w - - 0 1", false).expect("valid");
    let counts = parse_code("KRvK").expect("a real code");
    assert_eq!(material_key(&counts), pos.st().material_key);
}

#[test]
fn the_two_keys_differ_unless_the_material_is_symmetric() {
    let t = TbTable::new(TbType::Wdl, "KRvK", "x".into()).expect("built");
    assert_ne!(t.key, t.key2);
    let sym = TbTable::new(TbType::Wdl, "KRvKR", "x".into()).expect("built");
    assert_eq!(sym.key, sym.key2, "symmetric material has one key");
}

#[test]
fn the_leading_colour_is_the_side_with_fewer_pawns() {
    let t = TbTable::new(TbType::Wdl, "KPPvKP", "x".into()).expect("built");
    assert_eq!(t.pawn_count, [1, 2]);
    let t = TbTable::new(TbType::Wdl, "KPvK", "x".into()).expect("built");
    assert_eq!(t.pawn_count, [1, 0]);
    assert!(t.has_pawns);
}

#[test]
fn unique_pieces_are_detected() {
    assert!(TbTable::new(TbType::Wdl, "KRvK", "x".into()).expect("built").has_unique_pieces);
    assert!(!TbTable::new(TbType::Wdl, "KRRvKRR", "x".into()).expect("built").has_unique_pieces);
}

#[test]
fn the_two_file_kinds_have_different_magics() {
    assert_ne!(TbType::Wdl.magic(), TbType::Dtz.magic());
    assert_eq!(TbType::Wdl.ext(), "rtbw");
    assert_eq!(TbType::Dtz.ext(), "rtbz");
    assert_eq!(TbType::Wdl.sides(), 2);
    assert_eq!(TbType::Dtz.sides(), 1, "DTZ stores one side to move");
}

/// A table of king and bishop against king in which every position has one value.
fn single_value_file(kind: TbType, value: u8) -> Vec<u8> {
    let mut b = kind.magic().to_vec();
    b.push(1);
    b.push(0);
    // King, bishop, king with white to move in the low halves; the other order with black to move.
    b.extend_from_slice(&[0xE6, 0x33, 0x6E]);
    b.push(0);
    let parts = if kind == TbType::Wdl { 2 } else { 1 };
    for _ in 0..parts {
        b.push(FLAG_SINGLE_VALUE);
        b.push(value);
    }
    while b.len() % 64 != 0 {
        b.push(0);
    }
    b
}

#[test]
fn a_file_is_laid_out_over_its_bytes() {
    let t = IndexTables::build();
    let table = TbTable::new(TbType::Wdl, "KBvK", "x".into()).expect("built");
    let loaded = table.read(&t, single_value_file(TbType::Wdl, 2)).expect("a sound file");
    assert_eq!(loaded.items.len(), 2);
    assert_eq!(loaded.items[0].pieces[..3], [6, 3, 14]);
    assert_eq!(loaded.items[1].pieces[..3], [14, 3, 6]);
    assert_eq!(loaded.items[0].group_len[..2], [3, 0]);
    assert_eq!(loaded.items[0].group_idx[..2], [1, 31332]);
    assert_eq!(loaded.map, 14);
}

#[test]
fn a_file_that_does_not_fit_its_name_is_refused() {
    let t = IndexTables::build();
    let table = TbTable::new(TbType::Wdl, "KBvK", "x".into()).expect("built");
    let good = single_value_file(TbType::Wdl, 2);
    let mut magic = good.clone();
    magic[0] = 0;
    assert!(table.read(&t, magic).is_none());
    let mut pawns = good.clone();
    pawns[4] = 3;
    assert!(table.read(&t, pawns).is_none());
    let mut split = good.clone();
    split[4] = 0;
    assert!(table.read(&t, split).is_none());
    assert!(table.read(&t, good[..12].to_vec()).is_none());
    assert!(table.read(&t, vec![]).is_none());
}

fn bishop_registry(value: u8) -> TableRegistry {
    let mut r = TableRegistry::new();
    let slot = r.add("KBvK", "KBvK.rtbw".into(), None).expect("a new table");
    assert!(r.load(slot, TbType::Wdl, single_value_file(TbType::Wdl, value)));
    r
}

fn bishop_position() -> Position {
    Position::from_fen("4k3/8/8/8/8/8/8/2B1K3 w - - 0 1", false).expect("valid")
}

#[test]
fn a_wdl_score_the_file_invented_is_refused_on_the_probe_path() {
    let pos = bishop_position();
    let accepted = [
        (0u8, Wdl::Loss),
        (1, Wdl::BlessedLoss),
        (2, Wdl::Draw),
        (3, Wdl::CursedWin),
        (4, Wdl::Win),
    ];
    for (stored, want) in accepted {
        assert_eq!(bishop_registry(stored).probe_wdl(&pos), Ok(want), "stored {stored}");
    }
    for invented in [5u8, 6, 127, 200, 255] {
        assert_eq!(
            bishop_registry(invented).probe_wdl(&pos),
            Err(ProbeState::Fail),
            "stored {invented}"
        );
    }
}

#[test]
fn a_registry_counts_what_it_was_given() {
    let mut r = TableRegistry::default();
    assert!(r.is_empty());
    assert_eq!(r.max_cardinality(), 0);
    assert_eq!(r.add("KQvK", "a".into(), Some("b".into())), Some(0));
    assert_eq!(r.add("KRPvKR", "c".into(), None), Some(1));
    assert_eq!(r.add("KQvK", "d".into(), None), None, "known already");
    assert_eq!(r.add("KvKQ", "d".into(), None), None, "the same with the colours exchanged");
    assert_eq!(r.add("README", "e".into(), None), None);
    assert_eq!(r.len(), 2);
    assert_eq!(r.max_cardinality(), 5);
    assert_eq!(r.file_counts(), (2, 1));
}

#[test]
fn bare_kings_are_drawn_without_a_file() {
    let r = TableRegistry::new();
    let pos = Position::from_fen("4k3/8/8/8/8/8/8/4K3 w - - 0 1", false).expect("valid");
    assert_eq!(r.probe_wdl(&pos), Ok(Wdl::Draw));
    assert_eq!(r.probe_dtz(&pos), Ok(0));
}

#[test]
fn a_position_beyond_the_tables_fails_rather_than_guessing() {
    let r = bishop_registry(2);
    let pos = Position::startpos();
    assert!(r.probe_wdl(&pos).is_err());
    assert!(r.root_probe(&pos, true, false).is_none());
    assert!(r.root_probe_wdl(&pos, true).is_none());
}

#[test]
fn a_capture_is_searched_before_the_table_is_asked() {
    // Black takes the bishop, and two kings are left.
    let r = bishop_registry(0);
    let pos = Position::from_fen("8/8/8/8/8/4k3/3B4/7K b - - 0 1", false).expect("valid");
    assert_eq!(r.probe_wdl(&pos), Ok(Wdl::Draw));
    // The same with the bishop out of reach: the table decides.
    let pos = Position::from_fen("8/8/8/8/8/4k3/7B/7K b - - 0 1", false).expect("valid");
    assert_eq!(r.probe_wdl(&pos), Ok(Wdl::Loss));
}

#[test]
fn root_moves_are_ranked_by_their_verdict() {
    let r = bishop_registry(0);
    let pos = bishop_position();
    let ranked = r.root_probe_wdl(&pos, true).expect("the table covers it");
    assert!(!ranked.is_empty());
    assert!(ranked.iter().all(|m| m.rank == MAX_DTZ && m.score.0 == 32000 - 246 - 1));
    let drawn = Position::from_fen("4k3/8/8/8/8/8/8/2B1K3 w - - 100 200", false).expect("valid");
    let ranked = r.root_probe_wdl(&drawn, true).expect("the table covers it");
    assert!(ranked.iter().all(|m| m.rank == 0 && m.score.0 == 0));
}

#[test]
fn ranks_and_scores_follow_the_distance() {
    assert_eq!(rank_of(10, 0, false, false), MAX_DTZ);
    assert_eq!(rank_of(10, 0, false, true), MAX_DTZ - 10);
    assert_eq!(rank_of(10, 95, false, false), MAX_DTZ / 2 - 105);
    assert_eq!(rank_of(10, 0, true, false), MAX_DTZ / 2 - 10);
    assert_eq!(rank_of(-10, 0, false, false), -MAX_DTZ);
    assert_eq!(rank_of(-10, 90, false, false), -MAX_DTZ / 2 + 100);
    assert_eq!(rank_of(0, 50, false, true), 0);
    assert_eq!(score_of(MAX_DTZ, true).0, 32000 - 247);
    assert_eq!(score_of(-MAX_DTZ, true).0, -32000 + 247);
    assert_eq!(score_of(0, true).0, 0);
    assert_eq!(score_of(1, true).0, 3);
    assert_eq!(score_of(-1, true).0, -3);
    assert_eq!(score_of(1, false).0, 32000 - 247);
    assert_eq!(score_of(MAX_DTZ / 2 - 101, true).0, 99 * 208 / 200);
}

#[test]
fn a_table_of_the_other_side_asks_for_a_move() {
    let t = IndexTables::build();
    let table = TbTable::new(TbType::Dtz, "KBvK", "x".into()).expect("built");
    let mut file = single_value_file(TbType::Dtz, 7);
    file[10] = FLAG_SINGLE_VALUE | FLAG_STM;
    let loaded = table.read(&t, file).expect("a sound file");
    let pos = bishop_position();
    assert_eq!(do_probe_table(&t, &pos, &table, &loaded, Wdl::Win), Err(ProbeState::ChangeStm));
    let black = Position::from_fen("4k3/8/8/8/8/8/8/2B1K3 b - - 0 1", false).expect("valid");
    assert_eq!(do_probe_table(&t, &black, &table, &loaded, Wdl::Win), Ok(15));
    assert_eq!(do_probe_table(&t, &black, &table, &loaded, Wdl::Draw), Ok(8));
}

#[test]
fn a_distance_is_found_one_ply_on_where_the_table_has_the_other_side() {
    let mut r = TableRegistry::new();
    let slot = r.add("KBvK", "w".into(), Some("z".into())).expect("a new table");
    // Won for the bishop's side, lost for the other.
    let mut verdicts = single_value_file(TbType::Wdl, 4);
    verdicts[13] = 0;
    assert!(r.load(slot, TbType::Wdl, verdicts));
    let mut distances = single_value_file(TbType::Dtz, 7);
    distances[10] = FLAG_SINGLE_VALUE | FLAG_STM;
    assert!(r.load(slot, TbType::Dtz, distances));
    let black = Position::from_fen("4k3/8/8/8/8/8/8/2B1K3 b - - 0 1", false).expect("valid");
    assert_eq!(r.probe_wdl(&black), Ok(Wdl::Loss));
    assert_eq!(r.probe_dtz(&black), Ok(-15));
    let white = bishop_position();
    assert_eq!(r.probe_wdl(&white), Ok(Wdl::Win));
    assert_eq!(r.probe_dtz(&white), Ok(16));
    // With the colours exchanged the answers are the same.
    let white = Position::from_fen("2b1k3/8/8/8/8/8/8/4K3 b - - 0 1", false).expect("valid");
    assert_eq!(r.probe_dtz(&white), Ok(16));
}

// ---------------------------------------------------------------------------
// The numbers of an index
// ---------------------------------------------------------------------------

#[test]
fn the_king_pair_table_holds_exactly_the_462_legal_placements() {
    let t = IndexTables::build();
    let mut seen = HashSet::new();
    let mut count = 0;
    for idx in 0..10 {
        for s2 in 0..64 {
            let v = t.map_kk[idx][s2];
            if v != 0 {
                seen.insert(v);
                count += 1;
            }
        }
    }
    assert_eq!(seen.len(), 461);
    assert_eq!(count, 461);
    assert_eq!(seen.iter().copied().max(), Some(461));
}

#[test]
fn the_triangle_numbers_ten_squares_with_the_diagonal_last() {
    let t = IndexTables::build();
    for sq in [0usize, 9, 18, 27] {
        assert!(t.map_a1d1d4[sq] >= 6, "square {sq} should be numbered last");
    }
    assert_eq!(t.map_a1d1d4[1], 0);
}

#[test]
fn the_below_diagonal_map_numbers_twenty_eight_squares() {
    let t = IndexTables::build();
    let all: Vec<Square> = (0..64).map(Square::new).collect();
    let count = all.iter().filter(|s| off_a1h8(**s) < 0).count();
    assert_eq!(count, 28);
    let max = all.iter().filter(|s| off_a1h8(**s) < 0).map(|s| t.map_b1h1h7[s.index()]).max();
    assert_eq!(max, Some(27));
}

#[test]
fn the_pawn_numbering_covers_a2_to_h7_exactly_once() {
    let t = IndexTables::build();
    let mut values: Vec<i32> = (8..56).map(|i| t.map_pawns[i]).collect();
    values.sort_unstable();
    assert_eq!(values, (0..48).collect::<Vec<_>>());
    assert_eq!(t.map_pawns[Square::make(File::new(0), Rank::new(1)).index()], 47);
}

#[test]
fn binomial_coefficients_follow_pascals_rule() {
    let t = IndexTables::build();
    assert_eq!(t.binomial[0][0], 1);
    assert_eq!(t.binomial[1][10], 10);
    assert_eq!(t.binomial[2][10], 45);
    assert_eq!(t.binomial[3][10], 120);
    assert_eq!(t.binomial[5][63], 7_028_847);
}

#[test]
fn the_edge_distance_is_symmetric_about_the_centre() {
    assert_eq!(TbFile::for_board_file(File::A), TbFile::only());
    assert_eq!(TbFile::for_board_file(File::H), TbFile::only());
    assert_eq!(TbFile::for_board_file(File::D), TbFile::max_pawnful());
    assert_eq!(TbFile::for_board_file(File::E), TbFile::max_pawnful());
}

#[test]
fn groups_are_weighed_in_any_order() {
    let t = IndexTables::build();
    // Fewer pieces than the first group has places for.
    let mut d = PairsData::default();
    d.pieces[0] = 6;
    assert!(set_groups(&t, &mut d, 1, false, true, [0, 0], [0, 15], 0));
    assert_eq!(d.group_len[..2], [1, 0]);
    assert_eq!(d.group_idx[..2], [1, 31332]);
    // A place for a second group of pawns where there is none: the second group counts twice.
    let mut d = PairsData::default();
    d.pieces[..4].copy_from_slice(&[6, 14, 2, 2]);
    assert!(set_groups(&t, &mut d, 4, false, false, [0, 0], [0, 1], 0));
    assert_eq!(d.group_len[..3], [2, 2, 0]);
    assert_eq!(d.group_idx[..3], [1, 462 * 1035, 462 * 1035 * 1891]);
    // A group that no table of combinations reaches.
    let mut d = PairsData::default();
    d.pieces = [1; 7];
    assert!(!set_groups(&t, &mut d, 7, true, false, [7, 0], [0, 15], 0));
}

#[test]
fn a_table_part_begins_with_nothing() {
    let d = PairsData::default();
    assert_eq!((d.max_sym_len, d.min_sym_len, d.blocks_num, d.span), (0, 0, 0, 0));
    assert_eq!((d.lowest_sym, d.btree, d.len_tab_shift), (0, 0, 0));
    assert_eq!((d.block_length_size, d.sparse_index_size), (0, 0));
}

#[test]
fn ranks_reach_to_the_edge_of_their_type() {
    assert_eq!(rank_of(1, i32::MAX - 1, false, false), MAX_DTZ / 2 - i32::MAX);
    assert_eq!(rank_of(-1, i32::MAX - 2, false, false), -(MAX_DTZ / 2) + (i32::MAX - 1));
    assert_eq!(score_of(i32::MAX, true).0, 32000 - 247);
    assert_eq!(score_of(i32::MIN, true).0, -32000 + 247);
}
