use fishbot::connect4::{won, Connect4, Outcome};
use fishbot::decode_base16k::{
    decode_b16k, decode_b16k_checked, decode_b16k_units, encode_b16k_bytes, f16_to_f32_bits, is_decodable,
};
use fishbot::fish::FishType;
use fishbot::scan::Scan;
use fishbot::xorshift::xorshift;
use std::hash::Hasher;

#[test]
fn xorshift_next_values() {
    let mut g = xorshift::new(42);
    assert_eq!(g.next(), 123456789134558280);
    assert_eq!(g.next(), 246916536075907329);
    assert_eq!(g.next(), 1132874012628244532);
    let mut z = xorshift::new(0);
    assert_eq!(z.next(), 123456789123727158);
    assert_eq!(z.next(), 246913647034025003);
}

#[test]
fn xorshift_next_in_range_values() {
    let mut g = xorshift::new(42);
    let got: Vec<i32> = (0..5).map(|_| g.next_in_range(7)).collect();
    assert_eq!(got, vec![5, 4, 3, 6, 4]);
    let mut n = xorshift::new(-5);
    let got: Vec<i32> = (0..5).map(|_| n.next_in_range(-10)).collect();
    assert_eq!(got, vec![1, 6, 1, 1, 7]);
}

#[test]
fn xorshift_same_seed_same_sequence() {
    let mut a = xorshift::new(123);
    let mut b = xorshift::new(123);
    for _ in 0..100 {
        assert_eq!(a.next(), b.next());
    }
}

#[test]
fn xorshift_range_is_respected() {
    let mut g = xorshift::new(7);
    for r in [1, 2, 3, 100, -1, -3, i32::MAX, i32::MIN] {
        for _ in 0..50 {
            let v = g.next_in_range(r);
            assert!(v >= 0);
            assert!((v as i64) < (r as i64).abs());
        }
    }
}

fn play(moves: &[u8]) -> (Connect4, Vec<Outcome>) {
    let mut g = Connect4::new();
    let mut outs = Vec::new();
    for &m in moves {
        g.step(m);
        outs.push(g.outcome);
    }
    (g, outs)
}

#[test]
fn connect4_first_player_wins_vertically() {
    let (g, outs) = play(&[0, 1, 0, 1, 0, 1, 0]);
    assert!(outs[..6].iter().all(|o| *o == Outcome::Undecided));
    assert_eq!(outs[6], Outcome::Win);
    assert_eq!(g.my_bb, 896);
    assert_eq!(g.op_bb, 15);
    assert_eq!(g.lastMove, 0);
    assert_eq!(g.turn(), 7);
}

#[test]
fn connect4_second_player_wins_vertically() {
    let (_, outs) = play(&[0, 1, 2, 1, 2, 1, 2, 1]);
    assert!(outs[..7].iter().all(|o| *o == Outcome::Undecided));
    assert_eq!(outs[7], Outcome::Win);
}

#[test]
fn connect4_full_board_is_a_draw() {
    let mut moves = Vec::new();
    for (a, b) in [(0u8, 1u8), (2, 3), (4, 5), (6, 7)] {
        moves.extend_from_slice(&[a, b, a, b, b, a, b, a, a, b, a, b, a, b]);
    }
    moves.extend_from_slice(&[8; 7]);
    let (g, outs) = play(&moves);
    assert!(outs[..62].iter().all(|o| *o == Outcome::Undecided));
    assert_eq!(outs[62], Outcome::Draw);
    assert_eq!(g.turn(), 63);
    assert!(g.valid_actions().is_empty());
}

#[test]
fn connect4_new_board() {
    let g = Connect4::new();
    assert_eq!(g.my_bb, 0);
    assert_eq!(g.op_bb, 0);
    assert_eq!(g.outcome, Outcome::Undecided);
    assert_eq!(g.lastMove, u8::MAX);
    assert_eq!(g.turn(), 0);
    assert_eq!(g.valid_actions(), vec![0, 1, 2, 3, 4, 5, 6, 7, 8]);
}

#[test]
fn connect4_valid_actions_skip_full_columns() {
    let (g, _) = play(&[3, 3, 3, 3, 3, 3, 3]);
    assert_eq!(g.valid_actions(), vec![0, 1, 2, 4, 5, 6, 7, 8]);
    let mut seen = Vec::new();
    g.OnValidActions(&mut |a: u8| seen.push(a));
    assert_eq!(seen, vec![0, 1, 2, 4, 5, 6, 7, 8]);
}

#[test]
fn connect4_hash_matches_default_hasher() {
    let (g, _) = play(&[4, 2, 4]);
    let mut h = std::collections::hash_map::DefaultHasher::new();
    h.write_u64(g.my_bb);
    h.write_u64(g.op_bb);
    assert_eq!(g.hash(), h.finish() as usize);
    let (g2, _) = play(&[4, 2, 4]);
    assert_eq!(g.hash(), g2.hash());
    let (g3, _) = play(&[4, 2, 5]);
    assert_ne!(g.hash(), g3.hash());
}

#[test]
fn won_horizontal_lines() {
    for row in 0..7u64 {
        let mut bb: u64 = (1 << row) | (1 << (row + 7)) | (1 << (row + 14)) | (1 << (row + 21));
        for _ in 0..6 {
            assert!(won(bb));
            bb <<= 7;
        }
    }
}

#[test]
fn won_vertical_lines() {
    for col in 0..9u64 {
        let mut bb: u64 = (1 << (7 * col)) | (1 << (7 * col + 1)) | (1 << (7 * col + 2)) | (1 << (7 * col + 3));
        for _ in 0..4 {
            assert!(won(bb));
            bb <<= 1;
        }
    }
}

#[test]
fn won_falling_diagonals() {
    for row in 3..7u64 {
        let mut bb: u64 = (1 << row) | (1 << (row + 6)) | (1 << (row + 12)) | (1 << (row + 18));
        for _ in 0..6 {
            assert!(won(bb));
            bb <<= 7;
        }
    }
}

#[test]
fn won_rising_diagonals() {
    for col in 0..6u64 {
        let mut bb: u64 = (1 << (7 * col)) | (1 << (7 * (col + 1) + 1)) | (1 << (7 * (col + 2) + 2)) | (1 << (7 * (col + 3) + 3));
        for _ in 0..4 {
            assert!(won(bb));
            bb <<= 1;
        }
    }
}

#[test]
fn won_rejects_wrapped_and_short_lines() {
    assert!(!won(0));
    // three in a column
    assert!(!won(0b111));
    // four consecutive bits that wrap from one column into the next
    assert!(!won((1 << 5) | (1 << 6) | (1 << 7) | (1 << 8)));
    // a "horizontal" line that would need a tenth column
    assert!(!won((1 << 42) | (1 << 49) | (1 << 56) | (1 << 63)));
}

#[test]
fn b16k_roundtrip_all_lengths() {
    let data: Vec<u8> = (0..40u32).map(|i| (i * 37 + 11) as u8).collect();
    for n in 0..=data.len() {
        let (len, enc) = encode_b16k_bytes(&data[..n]);
        assert_eq!(len, n);
        assert!(enc.iter().all(|c| *c >= 0x5000 && *c < 0x9000));
        let dec = decode_b16k_units(&enc, n);
        assert_eq!(dec, data[..n].to_vec());
        let text = String::from_utf16(&enc).unwrap();
        assert_eq!(decode_b16k(&text, n), data[..n].to_vec());
    }
}

#[test]
fn b16k_encode_known_codes() {
    let (_, enc) = encode_b16k_bytes(&[0xff, 0xff, 0xff, 0xff, 0xff, 0xff, 0xff]);
    assert_eq!(enc, vec![0x8fff, 0x8fff, 0x8fff, 0x8fff]);
    let (_, enc) = encode_b16k_bytes(&[0x01, 0x02]);
    assert_eq!(enc, vec![0x5000 + (0x01 << 6), 0x5000 + ((0x02 & 3) << 12)]);
    let (n, enc) = encode_b16k_bytes(&[]);
    assert_eq!(n, 0);
    assert!(enc.is_empty());
}

#[test]
fn f16_conversion_values() {
    let f = |h: u16| f32::from_bits(f16_to_f32_bits(h));
    assert_eq!(f(0x3C00), 1.0);
    assert_eq!(f(0xC000), -2.0);
    assert_eq!(f(0x3555), 0.333251953125);
    assert_eq!(f(0x7BFF), 65504.0);
    assert_eq!(f(0x0001), 2.0f32.powi(-24));
    assert_eq!(f(0x03FF), 1023.0 * 2.0f32.powi(-24));
    assert_eq!(f(0x0200), 2.0f32.powi(-15));
    assert_eq!(f16_to_f32_bits(0x0000), 0);
    assert_eq!(f16_to_f32_bits(0x8000), 0x8000_0000);
    assert_eq!(f(0x7C00), f32::INFINITY);
    assert_eq!(f(0xFC00), f32::NEG_INFINITY);
    assert!(f(0x7E00).is_nan());
    assert_eq!(f16_to_f32_bits(0x7C01), 0x7FC0_2000);
}

#[test]
fn fish_types_and_scans() {
    assert_eq!(FishType::variants(), &[FishType::JELLY, FishType::FISH, FishType::CRAB]);
    let s = Scan::new_from_type_color(FishType::CRAB, 2);
    assert_eq!(s.fish_type, FishType::CRAB);
    assert_eq!(s.color, 2);
}

#[test]
fn connect4_board_text_after_two_moves() {
    let (g, _) = play(&[0, 8]);
    let text = String::from_utf8(g.board_text()).unwrap();
    let mut expected = String::new();
    for _ in 0..6 {
        expected.push_str(". . . . . . . . . \n");
    }
    // After two moves the first player is to move again, so its stone shows as O.
    expected.push_str("O . . . . . . . X \n");
    expected.push_str("0 1 2 3 4 5 6 7 8\n");
    assert_eq!(text, expected);
}

#[test]
fn connect4_board_text_empty() {
    let g = Connect4::new();
    let text = String::from_utf8(g.board_text()).unwrap();
    assert_eq!(text.lines().count(), 8);
    assert!(text.starts_with(". . . . . . . . . \n"));
    assert!(text.ends_with("0 1 2 3 4 5 6 7 8\n"));
}

#[test]
fn b16k_codes_are_valid_utf16() {
    let bytes: Vec<u8> = (0..=255u8).chain([255u8; 13]).collect();
    let (n, enc) = encode_b16k_bytes(&bytes);
    assert_eq!(n, bytes.len());
    assert!(enc.iter().all(|&c| (0x5000..0x9000).contains(&c)));
    let text = String::from_utf16(&enc).unwrap();
    assert_eq!(decode_b16k(&text, n), bytes);
}

#[test]
fn b16k_checked_decoding() {
    let bytes: Vec<u8> = vec![1, 2, 3, 250, 251, 252, 253, 7, 8];
    let (n, enc) = encode_b16k_bytes(&bytes);
    let text = String::from_utf16(&enc).unwrap();
    assert_eq!(decode_b16k_checked(&text, n), Some(bytes.clone()));
    assert!(is_decodable(&enc, n));
    // asking for more bytes than the codes hold
    assert_eq!(decode_b16k_checked(&text, n + 7), None);
    assert!(!is_decodable(&enc, n + 7));
    // a code unit below the offset
    assert_eq!(decode_b16k_checked("A", 1), None);
    assert!(!is_decodable(&[0x41], 1));
    assert_eq!(decode_b16k_checked("", 0), Some(vec![]));
}

#[test]
fn stone_counts_stay_balanced() {
    let moves = [4u8, 4, 3, 5, 0, 8, 8, 8, 2, 1, 7, 6, 4];
    let mut g = Connect4::new();
    for (k, &m) in moves.iter().enumerate() {
        g.step(m);
        let mine = g.my_bb.count_ones() as i32;
        let theirs = g.op_bb.count_ones() as i32;
        assert_eq!(g.my_bb & g.op_bb, 0);
        assert_eq!(theirs - mine, if k % 2 == 0 { 1 } else { 0 });
        assert_eq!(g.turn() as usize, k + 1);
    }
}

#[test]
fn on_valid_actions_skips_full_columns() {
    let mut g = Connect4::new();
    for _ in 0..7 {
        g.step(3);
    }
    let mut seen = Vec::new();
    g.OnValidActions(&mut |a: u8| seen.push(a));
    assert_eq!(seen, vec![0, 1, 2, 4, 5, 6, 7, 8]);
}

#[test]
fn xorshift_draws_follow_closed_form() {
    fn scramble(x: i64) -> i64 {
        let a = x ^ (x << 13);
        let b = a ^ (a >> 17);
        b ^ (b << 5)
    }
    for seed in [0i64, 1, 42, -5, i64::MAX, i64::MIN] {
        let mut g = xorshift::new(seed);
        let mut x = seed | 1;
        for k in 1..=50i64 {
            x = scramble(x);
            let y = seed.wrapping_add(k.wrapping_mul(123456789123456789));
            assert_eq!(g.next(), x.wrapping_add(y));
        }
    }
}
