use unquantum::bitreader::BitReader;
use unquantum::decoder::decode_symbol;
use unquantum::model::Model;

fn assert_strictly_decreasing(m: &Model) {
    assert_eq!(m.syms.len(), m.entries + 1);
    assert_eq!(m.syms[m.entries].cumfreq, 0);
    for i in 0..m.entries {
        assert!(
            m.syms[i].cumfreq > m.syms[i + 1].cumfreq,
            "cumfreq not strictly decreasing at {}",
            i
        );
    }
}

#[test]
fn new_model_layout() {
    let m = Model::new(64, 7);
    assert_eq!(m.entries, 7);
    assert_eq!(m.shift_left, 4);
    for i in 0..=7 {
        assert_eq!(m.syms[i].sym, 64 + i as u16);
        assert_eq!(m.syms[i].cumfreq, (7 - i) as u16);
    }
    assert_strictly_decreasing(&m);
}

#[test]
fn halve_mode_keeps_monotonicity_and_total() {
    let mut m = Model::new(0, 8);
    // Grow some frequencies so halving has something to do.
    for i in 0..4 {
        m.syms[i].cumfreq += 200;
    }
    let before = m.syms[0].cumfreq;
    m.update();
    assert_eq!(m.shift_left, 3);
    assert_strictly_decreasing(&m);
    assert!(m.syms[0].cumfreq <= before);
}

#[test]
fn rebuild_mode_resets_countdown_and_reorders() {
    let mut m = Model::new(0, 4);
    m.shift_left = 1;
    // Give symbol 3 by far the largest individual frequency.
    m.syms[0].cumfreq = 1000;
    m.syms[1].cumfreq = 900;
    m.syms[2].cumfreq = 850;
    m.syms[3].cumfreq = 800;
    let before = m.syms[0].cumfreq;
    m.update();
    assert_eq!(m.shift_left, 50);
    assert_strictly_decreasing(&m);
    assert!(m.syms[0].cumfreq <= before);
    // The record for symbol 3 (individual frequency 800) moves to the front.
    assert_eq!(m.syms[0].sym, 3);
    // The symbol identifiers are still a permutation of 0..4.
    let mut seen = vec![false; 4];
    for i in 0..4 {
        seen[m.syms[i].sym as usize] = true;
    }
    assert!(seen.iter().all(|&b| b));
}

#[test]
fn decode_preserves_invariant_through_rescales() {
    // Drive enough decodes through one model to trigger several rescales;
    // between decodes the strict monotonicity must hold and the total must
    // be back under the cap.
    let mut m = Model::new(0, 16);
    let data: Vec<u8> = (0..4096u32).map(|i| (i * 37 + 11) as u8).collect();
    let mut bits = BitReader::new(data);
    let mut h: u16 = 0xFFFF;
    let mut l: u16 = 0;
    let mut c: u16 = bits.read_bits(16) as u16;
    for _ in 0..800 {
        let sym = decode_symbol(&mut m, &mut bits, &mut h, &mut l, &mut c).unwrap();
        assert!(sym < 16);
        assert_strictly_decreasing(&m);
        assert!(m.syms[0].cumfreq <= 3800);
        assert!(l <= h);
        assert!(h - l >= 0x4001);
    }
    // 800 decodes bump by 8 each: at least one rescale must have happened.
    assert!(m.shift_left != 4);
}

#[test]
fn decode_zero_total_is_error() {
    // An empty model (only the sentinel) has total frequency zero.
    let mut m = Model::new(0, 0);
    let mut bits = BitReader::new(vec![0x00, 0x00]);
    let mut h: u16 = 0xFFFF;
    let mut l: u16 = 0;
    let mut c: u16 = bits.read_bits(16) as u16;
    let r = decode_symbol(&mut m, &mut bits, &mut h, &mut l, &mut c);
    assert!(r.is_err());
    assert_eq!(r.unwrap_err(), unquantum::errors::QtmError::ZeroFrequencyOrRange);
}
