use unquantum::bitreader::BitReader;
use unquantum::decoder::decode_symbol;
use unquantum::errors::QtmError;
use unquantum::model::Model;
use unquantum::quantum::quantum_decompress;
use unquantum::window::copy_match;

#[test]
fn no_files_gives_empty_output() {
    let out = quantum_decompress(Vec::new(), &[], 10).unwrap();
    assert!(out.is_empty());
}

#[test]
fn single_zero_size_file() {
    let out = quantum_decompress(Vec::new(), &[0], 10).unwrap();
    assert!(out.is_empty());
}

#[test]
fn several_zero_size_files() {
    let out = quantum_decompress(vec![0xAA, 0xBB], &[0, 0, 0], 12).unwrap();
    assert!(out.is_empty());
}

#[test]
fn copy_match_rle_offset_one() {
    let mut window = vec![0u8; 8];
    window[0] = 7;
    let mut out: Vec<u8> = Vec::new();
    let posn = copy_match(&mut window, 1, &mut out, 1, 5);
    assert_eq!(out, vec![7, 7, 7, 7, 7]);
    assert_eq!(posn, 6);
    assert_eq!(&window[..7], &[7, 7, 7, 7, 7, 7, 0]);
}

#[test]
fn copy_match_wraps_cursors() {
    let mut window = vec![10, 20, 30, 40];
    let mut out: Vec<u8> = Vec::new();
    // From position 3 with offset 2: source starts at index 1.
    let posn = copy_match(&mut window, 3, &mut out, 2, 3);
    assert_eq!(out, vec![20, 30, 20]);
    assert_eq!(posn, 2);
    assert_eq!(window, vec![30, 20, 30, 20]);
}

#[test]
fn copy_match_advances_modulo_window() {
    let mut window = vec![0u8; 4];
    let mut out: Vec<u8> = Vec::new();
    let posn = copy_match(&mut window, 2, &mut out, 4, 4);
    assert_eq!(posn, 2);
    assert_eq!(out.len(), 4);
}

// ---------------------------------------------------------------------
// A reference encoder for building end-to-end fixtures. It mirrors the
// decoder exactly: same interval narrowing, same model bumps and rescales,
// and the classic pending-bit renormalization that matches the decoder's
// underflow correction. Raw extra-bit runs and the 16-bit inter-file
// markers are spliced into the stream at the exact positions where the
// decoder consumes them: 16 preload bits plus one bit per shift so far.
// ---------------------------------------------------------------------

#[derive(Clone, Copy, Debug)]
enum Op {
    /// Decode one symbol from the model with this index; expect this value.
    Sym(usize, u16),
    /// A raw bit run of the given width carrying the given value.
    Raw(u32, u32),
    /// The 16-bit inter-file marker.
    Marker,
}

fn build_models(window_bits: u8) -> Vec<Model> {
    let i2 = (window_bits as usize) * 2;
    vec![
        Model::new(0, 64),
        Model::new(64, 64),
        Model::new(128, 64),
        Model::new(192, 64),
        Model::new(0, if i2 > 24 { 24 } else { i2 }),
        Model::new(0, if i2 > 36 { 36 } else { i2 }),
        Model::new(0, i2),
        Model::new(0, 27),
        Model::new(0, 7),
    ]
}

fn pack_bits(bits: &[bool]) -> Vec<u8> {
    let mut data = vec![0u8; (bits.len() + 7) / 8];
    for (i, &b) in bits.iter().enumerate() {
        if b {
            data[i / 8] |= 0x80 >> (i % 8);
        }
    }
    data
}

fn push_value_bits(bits: &mut Vec<bool>, value: u64, width: u32) {
    for b in (0..width).rev() {
        bits.push((value >> b) & 1 == 1);
    }
}

struct Encoder {
    models: Vec<Model>,
    h: u16,
    l: u16,
    pending: u32,
    code: Vec<bool>,
    shifts: usize,
    inserts: Vec<(usize, Vec<bool>)>,
}

impl Encoder {
    fn new(window_bits: u8) -> Encoder {
        Encoder {
            models: build_models(window_bits),
            h: 0xFFFF,
            l: 0,
            pending: 0,
            code: Vec::new(),
            shifts: 0,
            inserts: Vec::new(),
        }
    }

    fn emit(&mut self, b: bool) {
        self.code.push(b);
        while self.pending > 0 {
            self.code.push(!b);
            self.pending -= 1;
        }
    }

    fn encode_symbol(&mut self, mi: usize, sym: u16) {
        let m = &mut self.models[mi];
        let mut idx = usize::MAX;
        for i in 0..m.entries {
            if m.syms[i].sym == sym {
                idx = i;
                break;
            }
        }
        assert!(idx != usize::MAX, "symbol {} not in model {}", sym, mi);
        let total = m.syms[0].cumfreq as u32;
        let hi_cum = m.syms[idx].cumfreq as u32;
        let lo_cum = m.syms[idx + 1].cumfreq as u32;
        let range = (self.h as u32) - (self.l as u32) + 1;
        let new_h = (self.l as u32) + (hi_cum * range) / total - 1;
        let new_l = (self.l as u32) + (lo_cum * range) / total;
        self.h = new_h as u16;
        self.l = new_l as u16;
        // Model bump and rescale, exactly as the decoder does them.
        for j in (0..=idx).rev() {
            m.syms[j].cumfreq += 8;
        }
        if m.syms[0].cumfreq > 3800 {
            m.update();
        }
        // Renormalize, emitting one bit per plain shift and banking a
        // pending bit per underflow correction.
        loop {
            if (self.l & 0x8000) != (self.h & 0x8000) {
                if (self.l & 0x4000) != 0 && (self.h & 0x4000) == 0 {
                    self.pending += 1;
                    self.l &= 0x3FFF;
                    self.h |= 0x4000;
                } else {
                    break;
                }
            } else {
                let b = (self.h & 0x8000) != 0;
                self.emit(b);
            }
            self.l <<= 1;
            self.h = (self.h << 1) | 1;
            self.shifts += 1;
        }
    }

    fn raw_bits(&mut self, n: u32, v: u32) {
        let mut bits = Vec::new();
        push_value_bits(&mut bits, v as u64, n);
        self.inserts.push((16 + self.shifts, bits));
    }

    fn marker(&mut self) {
        self.inserts.push((16 + self.shifts, vec![false; 16]));
    }

    fn finish(mut self) -> Vec<u8> {
        // Disambiguating flush; the decoder synthesizes zeros afterwards.
        self.pending += 1;
        let b = self.l >= 0x4000;
        self.emit(b);
        let mut stream: Vec<bool> = Vec::new();
        let mut code = self.code.into_iter();
        let mut code_pos = 0usize;
        for (p, bits) in self.inserts {
            while code_pos < p {
                stream.push(code.next().unwrap_or(false));
                code_pos += 1;
            }
            stream.extend(bits);
        }
        stream.extend(code);
        pack_bits(&stream)
    }
}

/// Build a bit stream that makes the decoder produce exactly the symbols
/// named in `ops`.
fn forge(ops: &[Op], window_bits: u8) -> Vec<u8> {
    let mut enc = Encoder::new(window_bits);
    for op in ops {
        match *op {
            Op::Sym(mi, s) => enc.encode_symbol(mi, s),
            Op::Raw(n, v) => enc.raw_bits(n, v),
            Op::Marker => enc.marker(),
        }
    }
    enc.finish()
}

/// Ops for one literal byte: the selector and the bucketed literal.
fn lit_ops(ops: &mut Vec<Op>, byte: u8) {
    let bucket = (byte / 64) as usize;
    ops.push(Op::Sym(8, bucket as u16));
    ops.push(Op::Sym(bucket, byte as u16));
}

#[test]
fn two_files_all_literals() {
    // Two files of sizes 5 and 7 decoded from one stream, with the 16-bit
    // marker consumed between them; coder state and models persist.
    let file1: &[u8] = &[10, 20, 30, 40, 50];
    let file2: &[u8] = &[60, 70, 130, 200, 255, 0, 33];
    let mut ops: Vec<Op> = Vec::new();
    for &b in file1 {
        lit_ops(&mut ops, b);
    }
    ops.push(Op::Marker);
    for &b in file2 {
        lit_ops(&mut ops, b);
    }
    let payload = forge(&ops, 10);
    let out = quantum_decompress(payload, &[5, 7], 10).unwrap();
    let mut expected = file1.to_vec();
    expected.extend_from_slice(file2);
    assert_eq!(out, expected);
}

#[test]
fn truncated_match_and_next_file() {
    // File 1: one literal then a length-4 match with offset 1 while only 3
    // bytes remain: the match is truncated and file 2 starts right after
    // the marker. The offset-1 match also exercises RLE self-overlap, and
    // position slot 0 denotes offset 1 (base 0 + 1).
    let mut ops: Vec<Op> = Vec::new();
    lit_ops(&mut ops, b'a');
    ops.push(Op::Sym(8, 5)); // selector 5: length-4 match
    ops.push(Op::Sym(5, 0)); // position slot 0 -> offset 1, no extra bits
    ops.push(Op::Marker);
    for &b in b"xyz" {
        lit_ops(&mut ops, b);
    }
    let payload = forge(&ops, 10);
    let out = quantum_decompress(payload, &[4, 3], 10).unwrap();
    assert_eq!(out, b"aaaaxyz");
}

#[test]
fn window_wrap_long_matches() {
    // A 1 KiB window with 2 KiB of output: "AB" repeated 1024 times,
    // written with two literals and long selector-6 matches at offset 2
    // that repeatedly wrap the window.
    let mut ops: Vec<Op> = Vec::new();
    lit_ops(&mut ops, b'A');
    lit_ops(&mut ops, b'B');
    // 2046 remaining bytes: seven matches of 259 and one of 233.
    let mut lengths = vec![259u32; 7];
    lengths.push(233);
    assert_eq!(lengths.iter().sum::<u32>(), 2046);
    for &len in &lengths {
        ops.push(Op::Sym(8, 6));
        if len == 259 {
            // length slot 26: base 254, no extra bits, plus 5
            ops.push(Op::Sym(7, 26));
        } else {
            // length slot 25: base 222, 5 extra bits carrying 6, plus 5
            ops.push(Op::Sym(7, 25));
            ops.push(Op::Raw(5, 6));
        }
        // position slot 1: base 1, no extra bits -> offset 2
        ops.push(Op::Sym(6, 1));
    }
    let payload = forge(&ops, 10);
    let out = quantum_decompress(payload, &[2048], 10).unwrap();
    let expected: Vec<u8> = (0..2048).map(|i| if i % 2 == 0 { b'A' } else { b'B' }).collect();
    assert_eq!(out, expected);
}

#[test]
fn concatenated_archive_splits_to_original_files() {
    // Three files decoded from one continuous stream; splitting the output
    // by the declared sizes recovers each original exactly.
    let files: [&[u8]; 3] = [b"abc", b"de", b"fghi"];
    let mut ops: Vec<Op> = Vec::new();
    for (i, f) in files.iter().enumerate() {
        for &b in *f {
            lit_ops(&mut ops, b);
        }
        if i + 1 < files.len() {
            ops.push(Op::Marker);
        }
    }
    let payload = forge(&ops, 11);
    let sizes: Vec<u32> = files.iter().map(|f| f.len() as u32).collect();
    let out = quantum_decompress(payload, &sizes, 11).unwrap();
    let mut offset = 0usize;
    for f in files.iter() {
        assert_eq!(&out[offset..offset + f.len()], *f);
        offset += f.len();
    }
    assert_eq!(offset, out.len());
}

#[test]
fn repeated_runs_are_byte_identical() {
    let mut ops: Vec<Op> = Vec::new();
    for &b in b"hello world" {
        lit_ops(&mut ops, b);
    }
    let payload = forge(&ops, 10);
    let first = quantum_decompress(payload.clone(), &[11], 10).unwrap();
    let second = quantum_decompress(payload, &[11], 10).unwrap();
    assert_eq!(first, second);
    assert_eq!(first, b"hello world");
}

#[test]
fn truncated_payload_is_size_driven_not_an_error() {
    // With an empty payload the reader hands out zeros; decoding still
    // produces exactly the declared number of bytes.
    let out = quantum_decompress(Vec::new(), &[6], 10).unwrap();
    assert_eq!(out.len(), 6);
}

#[test]
fn decode_symbol_reports_zero_frequency() {
    let mut m = Model::new(0, 0);
    let mut bits = BitReader::new(vec![0, 0]);
    let mut h: u16 = 0xFFFF;
    let mut l: u16 = 0;
    let mut c: u16 = bits.read_bits(16) as u16;
    assert_eq!(
        decode_symbol(&mut m, &mut bits, &mut h, &mut l, &mut c).unwrap_err(),
        QtmError::ZeroFrequencyOrRange
    );
}

#[test]
fn match_with_extra_offset_bits() {
    // Forty distinct literals, then a length-3 match reaching back 20
    // bytes: offset 20 is position slot 8 (base 16) with three extra bits
    // carrying 3.
    let plain: Vec<u8> = (0..40u8).collect();
    let mut ops: Vec<Op> = Vec::new();
    for &b in &plain {
        lit_ops(&mut ops, b);
    }
    ops.push(Op::Sym(8, 4)); // selector 4: length-3 match
    ops.push(Op::Sym(4, 8)); // position slot 8: base 16
    ops.push(Op::Raw(3, 3)); // extra bits: 16 + 3 + 1 = offset 20
    let payload = forge(&ops, 10);
    let out = quantum_decompress(payload, &[43], 10).unwrap();
    let mut expected = plain.clone();
    expected.extend_from_slice(&[20, 21, 22]);
    assert_eq!(out, expected);
}

#[test]
fn full_archive_round_trip() {
    // A complete standalone archive: header, file table and forged
    // payload, taken apart with the parser and fed to the decompressor;
    // splitting the output by the declared sizes recovers both files.
    let file1: &[u8] = b"first file";
    let file2: &[u8] = b"and the second one";
    let mut ops: Vec<Op> = Vec::new();
    for &b in file1 {
        lit_ops(&mut ops, b);
    }
    ops.push(Op::Marker);
    for &b in file2 {
        lit_ops(&mut ops, b);
    }
    let payload = forge(&ops, 10);

    let mut archive: Vec<u8> = vec![0x44, 0x53, 1, 0, 2, 0, 10, 0];
    for (name, data) in [(&b"one.txt"[..], file1), (&b"two.txt"[..], file2)] {
        archive.push(name.len() as u8);
        archive.extend_from_slice(name);
        archive.push(0); // no comment
        archive.extend_from_slice(&(data.len() as u32).to_le_bytes());
        archive.extend_from_slice(&0x4A21u16.to_le_bytes());
        archive.extend_from_slice(&0x2AADu16.to_le_bytes());
    }
    archive.extend_from_slice(&payload);

    let (header, files, offset) = unquantum::parser::parse_archive(&archive).unwrap();
    assert_eq!(header.num_files, 2);
    assert_eq!(files[0].name, "one.txt");
    assert_eq!(files[1].name, "two.txt");
    let sizes: Vec<u32> = files.iter().map(|f| f.size).collect();
    let out = quantum_decompress(archive[offset..].to_vec(), &sizes, header.table_size).unwrap();
    assert_eq!(&out[..file1.len()], file1);
    assert_eq!(&out[file1.len()..], file2);
}

#[test]
fn selector_six_with_extra_bits_everywhere() {
    // A general match whose length slot and position slot both carry raw
    // extra bits: length slot 7 (base 8) with one extra bit carrying 1
    // gives length 14; position slot 9 (base 24) with three extra bits
    // carrying 2 gives offset 27.
    let plain: Vec<u8> = (100..130u8).collect();
    let mut ops: Vec<Op> = Vec::new();
    for &b in &plain {
        lit_ops(&mut ops, b);
    }
    ops.push(Op::Sym(8, 6));
    ops.push(Op::Sym(7, 7)); // length slot 7: base 8, one extra bit
    ops.push(Op::Raw(1, 1)); // 8 + 1 + 5 = 14
    ops.push(Op::Sym(6, 9)); // position slot 9: base 24, three extra bits
    ops.push(Op::Raw(3, 2)); // 24 + 2 + 1 = 27
    let payload = forge(&ops, 10);
    let out = quantum_decompress(payload, &[44], 10).unwrap();
    let mut expected = plain.clone();
    for k in 0..14usize {
        expected.push(expected[30 - 27 + k]);
    }
    assert_eq!(out, expected);
}
