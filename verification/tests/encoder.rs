use optar::fec::{hamming, parity, split, tile_mask, FecOrder};
use optar::writer::{EncodeError, OptarWriter, DARK, LIGHT};
use optar::Settings;

fn popcount_u64(mut x: u64) -> u64 {
    let mut n: u64 = 0;
    while x > 0 {
        n += x & 1;
        x >>= 1;
    }
    n
}

#[test]
fn parity_matches_popcount() {
    let samples: Vec<u64> = vec![
        0,
        1,
        2,
        3,
        0xA5,
        0b1011,
        0xFFFF_FFFF_FFFF_FFFF,
        0x8000_0000_0000_0001,
        0x0123_4567_89AB_CDEF,
        9_007_199_254_740_993,
    ];
    for &x in samples.iter() {
        assert_eq!(parity(x), popcount_u64(x) % 2);
    }
}

#[test]
fn code_widths() {
    assert_eq!(FecOrder::Golay.large_bits(), 24);
    assert_eq!(FecOrder::Golay.small_bits(), 12);
    assert_eq!(FecOrder::Hamming(2).large_bits(), 4);
    assert_eq!(FecOrder::Hamming(2).small_bits(), 1);
    assert_eq!(FecOrder::Hamming(4).large_bits(), 16);
    assert_eq!(FecOrder::Hamming(4).small_bits(), 11);
    assert_eq!(FecOrder::Hamming(6).large_bits(), 64);
    assert_eq!(FecOrder::Hamming(6).small_bits(), 57);
}

#[test]
fn split_opens_a_zero_gap() {
    assert_eq!(split(0b1011, 2), 0b10011);
    assert_eq!(split(0b1111, 1), 0b11101);
    assert_eq!(split(0b1, 3), 0b1);
}

#[test]
fn hamming_codeword_checks_hold() {
    // Every positional parity and the overall parity of a codeword are even.
    for order in 2u8..=6u8 {
        let large = FecOrder::Hamming(order).large_bits();
        for &payload in [0u64, 1, 0xA5, 0x7FF, 0xDEAD_BEEF, u64::MAX].iter() {
            let code = hamming(payload, order);
            if large < 64 {
                assert!(code < (1u64 << large));
            }
            assert_eq!(parity(code), 0);
            for k in 1..=order {
                let xp = 1u64 << (k - 1);
                assert_eq!(parity(code & tile_mask(xp)), 0, "order {order} check {k}");
            }
        }
    }
}

fn syndrome(word: u64, order: u8) -> u64 {
    let mut s: u64 = 0;
    for k in 1..=order {
        let xp = 1u64 << (k - 1);
        s |= parity(word & tile_mask(xp)) << (k - 1);
    }
    s
}

#[test]
fn single_flip_is_located_double_flip_is_detected() {
    let order = 4u8;
    let code = hamming(0b10100101000, order);
    for j in 0..16u64 {
        let flipped = code ^ (1u64 << j);
        // overall parity trips, and the positional parities point at bit j
        assert_eq!(parity(flipped), 1);
        assert_eq!(syndrome(flipped, order), j);
    }
    for j in 0..16u64 {
        for l in 0..16u64 {
            if j != l {
                let flipped = code ^ (1u64 << j) ^ (1u64 << l);
                // even overall parity with a non-zero syndrome: two errors,
                // and the syndrome points between them, not at either
                assert_eq!(parity(flipped), 0);
                assert_eq!(syndrome(flipped, order), j ^ l);
                assert_ne!(syndrome(flipped, order), 0);
            }
        }
    }
}

fn default_hamming4() -> Settings {
    Settings::new(67, 87, 24, 3, FecOrder::Hamming(4), 2, 24).unwrap()
}

#[test]
fn capacity_formulas_exact() {
    let s = default_hamming4();
    assert_eq!(s.width(), 1594);
    assert_eq!(s.height(), 2098);
    assert_eq!(s.total_bits(), 3081456);
    assert_eq!(s.fec_syms(), 192591);
    assert_eq!(s.net_bits(), 2118501);
    assert_eq!(s.used_bits(), 3081456);
    assert!(s.used_bits() <= s.total_bits());
    assert_eq!(s.used_bits(), s.fec_syms() * 16);
    assert_eq!(s.net_bits(), s.fec_syms() * 11);
}

#[test]
fn settings_validation() {
    // the pitch must leave a gap between crosses
    assert!(Settings::new(67, 87, 6, 3, FecOrder::Golay, 2, 24).is_none());
    assert!(Settings::new(67, 87, 24, 0, FecOrder::Golay, 2, 24).is_none());
    // unsupported Hamming orders are rejected
    assert!(Settings::new(67, 87, 24, 3, FecOrder::Hamming(7), 2, 24).is_none());
    assert!(Settings::new(67, 87, 24, 3, FecOrder::Hamming(0), 2, 24).is_none());
    // no crosses at all
    assert!(Settings::new(0, 87, 24, 3, FecOrder::Golay, 2, 24).is_none());
    assert!(Settings::new(67, 87, 24, 3, FecOrder::Golay, 2, 24).is_some());
}

#[test]
fn seq2xy_hits_every_non_cross_pixel_once() {
    let s = Settings::new(2, 2, 24, 4, FecOrder::Hamming(2), 2, 24).unwrap();
    let total = s.total_bits();
    assert_eq!(total, 768);
    let dw = 24 * 1 + 8;
    let dh = 24 * 1 + 8;
    let mut seen = std::collections::HashSet::new();
    for seq in 0..total {
        let (x, y) = s.seq2xy(seq).unwrap();
        assert!(x < dw && y < dh);
        assert!(!s.is_cross(x, y));
        assert!(seen.insert((x, y)), "coordinate reused for seq {seq}");
    }
    // every non-cross coordinate of the data rectangle is covered
    let mut non_cross: u64 = 0;
    for y in 0..dh {
        for x in 0..dw {
            if !s.is_cross(x, y) {
                non_cross += 1;
                assert!(seen.contains(&(x, y)));
            }
        }
    }
    assert_eq!(non_cross, total);
    assert!(s.seq2xy(total).is_none());
}

#[test]
fn empty_stream_produces_one_padded_page() {
    let s = default_hamming4();
    let mut w = OptarWriter::new(s, None);
    assert_eq!(w.file_number, 1);
    w.feed_data(&[]).unwrap();
    assert_eq!(w.finished.len(), 1);
    assert_eq!(w.file_number, 1);
    // nothing was encoded: the first channel pixel still shows light paper
    let s = default_hamming4();
    let (x, y) = s.seq2xy(0).unwrap();
    let idx = ((y + 2) * s.width() + (x + 2)) as usize;
    assert_eq!(w.finished[0][idx], LIGHT);
}

#[test]
fn exact_page_fill_leaves_nothing_pending() {
    // total 768, large 16, 48 symbols, 528 net bits = 66 bytes exactly
    let s = Settings::new(2, 2, 24, 4, FecOrder::Hamming(4), 2, 24).unwrap();
    assert_eq!(s.total_bits(), 768);
    assert_eq!(s.fec_syms(), 48);
    assert_eq!(s.net_bits(), 528);
    let mut w = OptarWriter::new(s, None);
    for _ in 0..66 {
        w.write_byte(0xC3).unwrap();
    }
    // no partial symbol pending, the page exactly full, no rollover yet
    assert_eq!(w.accu, 1);
    assert_eq!(w.hamming_symbol, 48);
    assert_eq!(w.file_number, 1);
    w.feed_data(&[]).unwrap();
    assert_eq!(w.finished.len(), 1);
    assert_eq!(w.file_number, 1);
}

#[test]
fn page_rollover_on_overflow() {
    // small == 1: every payload bit completes a symbol; 192 symbols per page
    let s = Settings::new(2, 2, 24, 4, FecOrder::Hamming(2), 2, 24).unwrap();
    assert_eq!(s.fec_syms(), 192);
    let mut w = OptarWriter::new(s, None);
    for _ in 0..25 {
        w.write_byte(0xFF).unwrap();
    }
    // bit 193 rolled the page over
    assert_eq!(w.file_number, 2);
    assert_eq!(w.finished.len(), 1);
    w.feed_data(&[]).unwrap();
    assert_eq!(w.finished.len(), 2);
}

#[test]
fn golay_is_unimplemented() {
    let s = Settings::new(67, 87, 24, 3, FecOrder::Golay, 2, 24).unwrap();
    let mut w = OptarWriter::new(s, None);
    // the first symbol completes during the second byte
    w.write_byte(0xFF).unwrap();
    assert_eq!(w.write_byte(0xFF), Err(EncodeError::Unimplemented));
}

#[test]
fn first_symbol_is_interleaved_across_bit_planes() {
    let s = default_hamming4();
    let mut w = OptarWriter::new(s, None);
    w.feed_data(&[0xA5]).unwrap();
    assert_eq!(w.finished.len(), 1);
    let page = &w.finished[0];
    // the byte plus three flush zeros fill the 11 payload bits
    let code = hamming(0b10100101000, 4);
    let s = default_hamming4();
    let fs = s.fec_syms();
    let width = s.width();
    for p in 0..16u64 {
        let bit = (code >> (15 - p)) & 1;
        let (x, y) = s.seq2xy(p * fs).unwrap();
        let idx = ((y + 2) * width + (x + 2)) as usize;
        let expected = if bit == 1 { DARK } else { LIGHT };
        assert_eq!(page[idx], expected, "bit plane {p}");
    }
}

#[test]
fn background_page_has_border_and_crosses() {
    let s = Settings::new(2, 2, 24, 4, FecOrder::Hamming(2), 2, 24).unwrap();
    let w = OptarWriter::new(s, Some(String::from("pages")));
    assert_eq!(w.base_filename(), "pages");
    let s = Settings::new(2, 2, 24, 4, FecOrder::Hamming(2), 2, 24).unwrap();
    let width = s.width();
    let buf = &w.buffer;
    // border pixel, cross quadrants, and open paper
    assert_eq!(buf[0], DARK);
    // first cross: upper-left quadrant dark, upper-right light
    assert_eq!(buf[(2 * width + 2) as usize], DARK);
    assert_eq!(buf[(2 * width + 2 + 4) as usize], LIGHT);
    // a data pixel between the crosses stays light
    let (x, y) = s.seq2xy(0).unwrap();
    assert_eq!(buf[((y + 2) * width + (x + 2)) as usize], LIGHT);
}

#[test]
fn fec_order_codes() {
    assert!(matches!(FecOrder::from_code(1), FecOrder::Golay));
    assert!(matches!(FecOrder::from_code(4), FecOrder::Hamming(4)));
    assert_eq!(FecOrder::Golay.code(), 1);
    assert_eq!(FecOrder::Hamming(5).code(), 5);
}
