use ppmd_rust::range7::{RangeDecoder7, RangeEncoder7};
use ppmd_rust::range8::{correct_sum_range, RangeDecoder, RangeEncoder};
use ppmd_rust::{Error, SliceSource, VecSink};

/// A symbol of a frequency table: (start, size, total).
fn table_symbols() -> Vec<(u32, u32, u32)> {
    let freqs = [5u32, 1, 30, 2, 7, 1, 60, 4];
    let total: u32 = freqs.iter().sum();
    let mut out = Vec::new();
    let mut seed: u32 = 17;
    for _ in 0..3000 {
        seed = seed.wrapping_mul(1103515245).wrapping_add(12345);
        let k = (seed >> 16) as usize % freqs.len();
        let start: u32 = freqs[..k].iter().sum();
        out.push((start, freqs[k], total));
    }
    out
}

#[test]
fn range8_round_trip_finds_every_symbol() {
    let symbols = table_symbols();
    let mut enc = RangeEncoder::new(VecSink::new());
    for &(start, size, total) in &symbols {
        let t = enc.correct_sum_range(total);
        enc.encode(start, size, t);
        enc.normalize().unwrap();
    }
    enc.flush().unwrap();
    let bytes = enc.writer.into_bytes();
    assert!(bytes.len() < symbols.len());

    let mut dec = RangeDecoder::new(SliceSource::new(bytes)).unwrap();
    for &(start, size, total) in &symbols {
        let t = dec.correct_sum_range(total);
        let count = dec.get_threshold(t);
        assert!(start <= count && count < start + size);
        dec.decode_final(start, size, t).unwrap();
    }
    // The decoder read exactly what the encoder wrote.
    assert!(dec.reader.remaining().is_empty());
}

#[test]
fn range8_binary_round_trip() {
    let probs = [100u32, 8000, 16000, 1, 12345];
    let mut bits = Vec::new();
    let mut seed: u32 = 5;
    for i in 0..2000 {
        seed = seed.wrapping_mul(1664525).wrapping_add(1013904223);
        bits.push((probs[i % probs.len()], (seed >> 20) & 1 == 1));
    }
    let mut enc = RangeEncoder::new(VecSink::new());
    for &(p, bit) in &bits {
        let size0 = (enc.range >> 14) * p;
        if bit {
            enc.encode_bit_1(size0);
        } else {
            enc.encode_bit_0(size0);
        }
        enc.normalize().unwrap();
    }
    enc.flush().unwrap();
    let bytes = enc.writer.into_bytes();
    let mut dec = RangeDecoder::new(SliceSource::new(bytes)).unwrap();
    for &(p, bit) in &bits {
        let size0 = (dec.range >> 14) * p;
        let got = dec.code >= size0;
        assert_eq!(got, bit);
        if got {
            dec.decode_bit_1(size0);
        } else {
            dec.decode_bit_0(size0);
        }
        dec.normalize().unwrap();
    }
}

#[test]
fn range8_encoder_flush_writes_low() {
    let mut enc = RangeEncoder::new(VecSink::new());
    enc.low = 0x1234_5678;
    enc.flush().unwrap();
    assert_eq!(enc.writer.into_bytes(), vec![0x12, 0x34, 0x56, 0x78]);
}

#[test]
fn range8_write_byte_appends() {
    let mut enc = RangeEncoder::new(VecSink::new());
    enc.write_byte(7).unwrap();
    enc.write_byte(9).unwrap();
    assert_eq!(enc.writer.into_bytes(), vec![7, 9]);
}

#[test]
fn range8_decoder_start() {
    let dec = RangeDecoder::new(SliceSource::new(vec![0x01, 0x02, 0x03, 0x04, 0x05])).unwrap();
    assert_eq!(dec.code, 0x0102_0304);
    assert_eq!(dec.range, 0xFFFF_FFFF);
    assert_eq!(dec.low, 0);
    assert_eq!(dec.reader.remaining(), vec![0x05]);
    let mut dec = dec;
    assert_eq!(dec.read_byte().unwrap(), 5);
    assert_eq!(dec.read_byte().err(), Some(Error::IoError));
    assert_eq!(
        RangeDecoder::new(SliceSource::new(vec![0xFF; 4])).err(),
        Some(Error::RangeDecoderInitialization)
    );
    assert_eq!(RangeDecoder::new(SliceSource::new(vec![0; 3])).err(), Some(Error::IoError));
}

#[test]
fn range8_decode_moves_window() {
    let mut dec = RangeDecoder::new(SliceSource::new(vec![0x10, 0, 0, 0])).unwrap();
    let w = 0xFFFF_FFFFu32 / 16;
    assert_eq!(dec.get_threshold(16), 0x1000_0000 / w);
    dec.decode(1, 2, 16);
    assert_eq!(dec.low, w);
    assert_eq!(dec.code, 0x1000_0000 - w);
    assert_eq!(dec.range, 2 * w);
}

#[test]
fn correct_sum_range_values() {
    assert_eq!(correct_sum_range(100, 50), 50);
    assert_eq!(correct_sum_range(100, 100), 100);
    assert_eq!(correct_sum_range(100, 101), 100);
    assert_eq!(correct_sum_range(0, 5), 0);
}

#[test]
fn range7_round_trip_with_carries() {
    let symbols = table_symbols();
    let mut enc = RangeEncoder7::new(VecSink::new());
    for &(start, size, total) in &symbols {
        enc.encode(start, size, total);
        enc.normalize(2).unwrap();
    }
    enc.flush().unwrap();
    let bytes = enc.writer.into_bytes();
    assert_eq!(bytes[0], 0);
    let mut dec = RangeDecoder7::new(SliceSource::new(bytes)).unwrap();
    for &(start, size, total) in &symbols {
        let count = dec.get_threshold(total);
        assert!(start <= count && count < start + size);
        dec.decode(start, size, total);
        dec.normalize(2);
    }
}

#[test]
fn range7_decoder_start() {
    let dec = RangeDecoder7::new(SliceSource::new(vec![0, 0xAB, 0xCD, 0xEF, 0x01])).unwrap();
    assert_eq!(dec.code, 0xABCD_EF01);
    // Missing bytes read as zero.
    let dec = RangeDecoder7::new(SliceSource::new(vec![0, 0x12])).unwrap();
    assert_eq!(dec.code, 0x1200_0000);
    assert_eq!(
        RangeDecoder7::new(SliceSource::new(vec![3, 0, 0, 0, 0])).err(),
        Some(Error::RangeDecoderInitialization)
    );
}

#[test]
fn range7_shift_low_holds_back_ff_bytes() {
    let mut enc = RangeEncoder7::new(VecSink::new());
    // The first shift writes the initial cache byte 0.
    enc.low = 0x12_3456;
    enc.shift_low().unwrap();
    assert_eq!(enc.cache, 0x00);
    // A top byte 0xFF is held back.
    enc.low = 0xFF00_0000;
    enc.shift_low().unwrap();
    assert_eq!(enc.cache_size, 2);
    // A carry raises the held bytes: cache 0x00 + 1, then 0xFF + 1 = 0x00.
    enc.low = 0x1_0000_0000;
    enc.shift_low().unwrap();
    let bytes = enc.writer.into_bytes();
    assert_eq!(bytes, vec![0x00, 0x01, 0x00]);
}

#[test]
fn range8_coded_windows_nest_and_do_not_overlap() {
    let mut a = RangeEncoder::new(VecSink::new());
    let mut b = RangeEncoder::new(VecSink::new());
    a.low = 0x1000;
    b.low = 0x1000;
    a.range = 0x0100_0000;
    b.range = 0x0100_0000;
    a.encode(0, 5, 110);
    b.encode(5, 1, 110);
    let w = 0x0100_0000u32 / 110;
    assert_eq!((a.low, a.range), (0x1000, 5 * w));
    assert_eq!((b.low, b.range), (0x1000 + 5 * w, w));
    assert!(a.low + a.range <= b.low);
    assert!(b.low + b.range <= 0x1000 + 0x0100_0000);
}

#[test]
fn range8_normalization_completes() {
    for &(low, range) in &[(0x00FF_FFF0u32, 1u32), (0xFFFF_FF00, 0x100), (0x1234_5678, 3), (0, 1)] {
        let mut enc = RangeEncoder::new(VecSink::new());
        enc.low = low;
        enc.range = range;
        enc.normalize().unwrap();
        let n = enc.writer.into_bytes().len();
        assert!(n <= 10);
        let mut dec = RangeDecoder::new(SliceSource::new(vec![0; 64])).unwrap();
        dec.low = low;
        dec.range = range;
        dec.normalize().unwrap();
        assert_eq!(dec.reader.remaining().len(), 60 - n);
        assert!(dec.range >= 0x8000);
        assert!((dec.low ^ dec.low.wrapping_add(dec.range)) >= 0x0100_0000);
    }
}
