use ppmd_rust::{Error, Ppmd7Decoder, Ppmd7Encoder, SliceSource, VecSink};

const ORDER: u32 = 8;
const MEM_SIZE: u32 = 262144;

fn read_exact(decoder: &mut Ppmd7Decoder<SliceSource>, buf: &mut [u8]) {
    let mut done = 0;
    while done < buf.len() {
        let n = decoder.read(&mut buf[done..]).unwrap();
        assert!(n > 0, "unexpected end of the data");
        done += n;
    }
}

#[test]
fn ppmd7decoder_init_drop() {
    let reader = SliceSource::new(Vec::new());
    let decoder = Ppmd7Decoder::new(reader, ORDER, MEM_SIZE).unwrap();
    assert_eq!(decoder.memory_size(), MEM_SIZE);
}

#[test]
fn ppmd7encoder_init_drop() {
    let writer = VecSink::new();
    let encoder = Ppmd7Encoder::new(writer, ORDER, MEM_SIZE).unwrap();
    assert_eq!(encoder.memory_size(), MEM_SIZE);
}

#[test]
fn ppmd7encoder_encode_decode() {
    let test_data = "Lorem ipsum dolor sit amet. ";

    let mut encoder = Ppmd7Encoder::new(VecSink::new(), ORDER, MEM_SIZE).unwrap();
    assert_eq!(encoder.write(test_data.as_bytes()).unwrap(), test_data.len());
    encoder.flush().unwrap();
    let compressed = encoder.into_inner().into_bytes();

    let mut decoder = Ppmd7Decoder::new(SliceSource::new(compressed), ORDER, MEM_SIZE).unwrap();

    let mut decoded = vec![0; test_data.len()];
    read_exact(&mut decoder, &mut decoded);

    assert_eq!(decoded.as_slice(), test_data.as_bytes());

    let decoded_data = String::from_utf8(decoded).unwrap();

    assert_eq!(decoded_data, test_data);
}

fn sample_text(len: usize) -> Vec<u8> {
    let words = [
        "the", "quick", "brown", "fox", "jumps", "over", "lazy", "dog", "and", "runs", "away",
        "from", "hunter", "who", "was", "sleeping", "under", "old", "oak", "tree", "near",
        "river", "bank", "while", "birds", "sang", "their", "morning", "songs",
    ];
    let mut out = Vec::new();
    let mut seed: u32 = 99;
    while out.len() < len {
        seed = seed.wrapping_mul(1103515245).wrapping_add(12345);
        let w = words[(seed >> 16) as usize % words.len()];
        out.extend_from_slice(w.as_bytes());
        out.push(if (seed >> 8) % 13 == 0 { b'\n' } else { b' ' });
    }
    out.truncate(len);
    out
}

fn roundtrip7(data: &[u8], order: u32, mem: u32, end_marker: bool) {
    let mut encoder = Ppmd7Encoder::new(VecSink::new(), order, mem).unwrap();
    assert_eq!(encoder.write(data).unwrap(), data.len());
    let compressed = encoder.finish(end_marker).unwrap().into_bytes();
    if data.len() > 10_000 {
        assert!(compressed.len() < data.len());
    }
    let mut decoder = Ppmd7Decoder::new(SliceSource::new(compressed), order, mem).unwrap();
    let mut decoded = vec![0u8; data.len()];
    read_exact(&mut decoder, &mut decoded);
    assert_eq!(decoded.as_slice(), data);
    if end_marker {
        let mut rest = [0u8; 8];
        assert_eq!(decoder.read(&mut rest).unwrap(), 0);
        assert_eq!(decoder.read(&mut rest).unwrap(), 0);
    }
}

#[test]
fn ppmd7_roundtrip_text_with_end_marker() {
    let data = sample_text(150_000);
    roundtrip7(&data, 6, 1 << 20, true);
}

#[test]
fn ppmd7_roundtrip_small_memory_restarts() {
    let data = sample_text(80_000);
    roundtrip7(&data, 64, 2048, true);
    roundtrip7(&data, 2, 4096, false);
}

#[test]
fn ppmd7_roundtrip_binary_data() {
    let mut data = Vec::new();
    let mut seed: u32 = 3;
    for i in 0..40_000u32 {
        seed = seed.wrapping_mul(1664525).wrapping_add(1013904223);
        data.push(if i % 4 == 0 { (seed >> 24) as u8 } else { (i % 5) as u8 });
    }
    roundtrip7(&data, 16, 1 << 16, true);
}

#[test]
fn ppmd7_empty_input_with_end_marker() {
    let encoder = Ppmd7Encoder::new(VecSink::new(), ORDER, MEM_SIZE).unwrap();
    let compressed = encoder.finish(true).unwrap().into_bytes();
    let mut decoder = Ppmd7Decoder::new(SliceSource::new(compressed), ORDER, MEM_SIZE).unwrap();
    let mut buf = [0u8; 4];
    assert_eq!(decoder.read(&mut buf).unwrap(), 0);
}

#[test]
fn ppmd7_invalid_parameters() {
    assert_eq!(Ppmd7Encoder::new(VecSink::new(), 1, MEM_SIZE).err(), Some(Error::InvalidParameter));
    assert_eq!(Ppmd7Encoder::new(VecSink::new(), 65, MEM_SIZE).err(), Some(Error::InvalidParameter));
    assert_eq!(Ppmd7Encoder::new(VecSink::new(), ORDER, 2047).err(), Some(Error::InvalidParameter));
    assert_eq!(
        Ppmd7Encoder::new(VecSink::new(), ORDER, 4294967260).err(),
        Some(Error::InvalidParameter)
    );
    assert_eq!(
        Ppmd7Decoder::new(SliceSource::new(vec![0; 5]), 1, MEM_SIZE).err(),
        Some(Error::InvalidParameter)
    );
    assert!(Ppmd7Encoder::new(VecSink::new(), 2, 2048).is_ok());
    assert!(Ppmd7Encoder::new(VecSink::new(), 64, 2048).is_ok());
}

#[test]
fn ppmd7_range_decoder_initialization() {
    // The first byte of the stream must be zero.
    let r = Ppmd7Decoder::new(SliceSource::new(vec![1, 0, 0, 0, 0]), ORDER, MEM_SIZE);
    assert_eq!(r.err(), Some(Error::RangeDecoderInitialization));
    // A code of 0xFFFFFFFF is no valid start.
    let r = Ppmd7Decoder::new(SliceSource::new(vec![0, 255, 255, 255, 255]), ORDER, MEM_SIZE);
    assert_eq!(r.err(), Some(Error::RangeDecoderInitialization));
    let r = Ppmd7Decoder::new(SliceSource::new(vec![0, 255, 255, 255, 254]), ORDER, MEM_SIZE);
    assert!(r.is_ok());
}

#[test]
fn ppmd7_read_into_empty_buffer() {
    let mut decoder = Ppmd7Decoder::new(SliceSource::new(vec![0; 5]), ORDER, MEM_SIZE).unwrap();
    let mut buf = [0u8; 0];
    assert_eq!(decoder.read(&mut buf).unwrap(), 0);
}

#[test]
fn ppmd7_corrupt_data() {
    let data = sample_text(5000);
    let mut encoder = Ppmd7Encoder::new(VecSink::new(), ORDER, MEM_SIZE).unwrap();
    encoder.write(&data).unwrap();
    let mut compressed = encoder.finish(true).unwrap().into_bytes();
    for i in 5..compressed.len() {
        compressed[i] ^= 0x5A;
    }
    let mut decoder = Ppmd7Decoder::new(SliceSource::new(compressed), ORDER, MEM_SIZE).unwrap();
    let mut out = vec![0u8; data.len() + 100];
    let mut failed = false;
    let mut done = 0;
    while done < out.len() {
        match decoder.read(&mut out[done..]) {
            Ok(0) => break,
            Ok(n) => done += n,
            Err(e) => {
                assert_eq!(e, Error::InvalidData);
                failed = true;
                break;
            }
        }
    }
    assert!(failed || out[..done] != data[..]);
}

#[test]
fn ppmd7_wrong_final_code_is_invalid_data() {
    let data = b"hello hello hello";
    let mut encoder = Ppmd7Encoder::new(VecSink::new(), ORDER, MEM_SIZE).unwrap();
    encoder.write(data).unwrap();
    let mut compressed = encoder.finish(true).unwrap().into_bytes();
    let last = compressed.len() - 1;
    compressed[last] ^= 0x01;
    let mut decoder = Ppmd7Decoder::new(SliceSource::new(compressed), ORDER, MEM_SIZE).unwrap();
    let mut out = vec![0u8; 64];
    let r = decoder.read(&mut out);
    assert_eq!(r, Err(Error::InvalidData));
    assert_eq!(decoder.read(&mut out), Ok(0));
}

#[test]
fn ppmd7_flush_of_fresh_encoder() {
    // A fresh window: the held-back zero byte and the four bytes of a zero bottom.
    let mut encoder = Ppmd7Encoder::new(VecSink::new(), 6, 16 << 20).unwrap();
    encoder.flush().unwrap();
    assert_eq!(encoder.into_inner().into_bytes(), vec![0u8; 5]);
    let encoder = Ppmd7Encoder::new(VecSink::new(), 6, 16 << 20).unwrap();
    assert_eq!(encoder.finish(false).unwrap().into_bytes(), vec![0u8; 5]);
}

#[test]
fn ppmd7_first_symbol_of_fresh_decoder() {
    // Root context: 256 symbols of frequency 1, sum 257. The code 0x01000000
    // falls on the count 0x01000000 / (0xFFFFFFFF / 257) == 1, the second symbol.
    let mut decoder = Ppmd7Decoder::new(SliceSource::new(vec![0x00, 0x01, 0, 0, 0, 0]), 8, 262144).unwrap();
    let mut buf = [0u8; 1];
    assert_eq!(decoder.read(&mut buf).unwrap(), 1);
    assert_eq!(buf[0], 1);
}

#[test]
fn ppmd7_first_symbol_coding() {
    // Coding symbol 1 in the fresh root context settles one zero byte.
    let mut encoder = Ppmd7Encoder::new(VecSink::new(), 8, 262144).unwrap();
    assert_eq!(encoder.write(&[1]).unwrap(), 1);
    let bytes = encoder.finish(false).unwrap().into_bytes();
    assert_eq!(bytes[0], 0x00);
    let mut decoder = Ppmd7Decoder::new(SliceSource::new(bytes), 8, 262144).unwrap();
    let mut buf = [0u8; 1];
    assert_eq!(decoder.read(&mut buf).unwrap(), 1);
    assert_eq!(buf[0], 1);
}

#[test]
fn ppmd7_decoder_on_empty_input() {
    // Bytes the source cannot give read as zero: an empty input starts a
    // valid range decoder.
    let decoder = Ppmd7Decoder::new(SliceSource::new(Vec::new()), 6, 16 << 20);
    assert!(decoder.is_ok());
}
