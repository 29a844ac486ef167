use ppmd_rust::{Error, Ppmd8Decoder, Ppmd8Encoder, RestoreMethod, SliceSource, VecSink};

const ORDER: u32 = 8;
const MEM_SIZE: u32 = 262144;
const RESTORE_METHOD: RestoreMethod = RestoreMethod::Restart;

const LICENSE_TEXT: &str = "
                                 Apache License
                           Version 2.0, January 2004
                        http://www.apache.org/licenses/

   TERMS AND CONDITIONS FOR USE, REPRODUCTION, AND DISTRIBUTION

   1. Definitions.

      \"License\" shall mean the terms and conditions for use, reproduction,
      and distribution as defined by Sections 1 through 9 of this document.

      \"Licensor\" shall mean the copyright owner or entity authorized by
      the copyright owner that is granting the License.

      \"Legal Entity\" shall mean the union of the acting entity and all
      other entities that control, are controlled by, or are under common
      control with that entity. For the purposes of this definition,
      \"control\" means (i) the power, direct or indirect, to cause the
      direction or management of such entity, whether by contract or
      otherwise, or (ii) ownership of fifty percent (50%) or more of the
      outstanding shares, or (iii) beneficial ownership of such entity.

      \"You\" (or \"Your\") shall mean an individual or Legal Entity
      exercising permissions granted by this License.

      \"Source\" form shall mean the preferred form for making modifications,
      including but not limited to software source code, documentation
      source, and configuration files.

      \"Object\" form shall mean any form resulting from mechanical
      transformation or translation of a Source form, including but
      not limited to compiled object code, generated documentation,
      and conversions to other media types.

   2. Grant of Copyright License. Subject to the terms and conditions of
      this License, each Contributor hereby grants to You a perpetual,
      worldwide, non-exclusive, no-charge, royalty-free, irrevocable
      copyright license to reproduce, prepare Derivative Works of,
      publicly display, publicly perform, sublicense, and distribute the
      Work and such Derivative Works in Source or Object form.

   3. Grant of Patent License. Subject to the terms and conditions of
      this License, each Contributor hereby grants to You a perpetual,
      worldwide, non-exclusive, no-charge, royalty-free, irrevocable
      (except as stated in this section) patent license to make, have made,
      use, offer to sell, sell, import, and otherwise transfer the Work,
      where such license applies only to those patent claims licensable
      by such Contributor that are necessarily infringed by their
      Contribution(s) alone or by combination of their Contribution(s)
      with the Work to which such Contribution(s) was submitted.

   Unless required by applicable law or agreed to in writing, software
   distributed under the License is distributed on an \"AS IS\" BASIS,
   WITHOUT WARRANTIES OR CONDITIONS OF ANY KIND, either express or implied.
   See the License for the specific language governing permissions and
   limitations under the License.
";

fn read_exact(decoder: &mut Ppmd8Decoder<SliceSource>, buf: &mut [u8]) {
    let mut done = 0;
    while done < buf.len() {
        let n = decoder.read(&mut buf[done..]).unwrap();
        assert!(n > 0, "unexpected end of the data");
        done += n;
    }
}

fn read_to_end(decoder: &mut Ppmd8Decoder<SliceSource>) -> Vec<u8> {
    let mut out = Vec::new();
    let mut chunk = [0u8; 1000];
    loop {
        let n = decoder.read(&mut chunk).unwrap();
        if n == 0 {
            return out;
        }
        out.extend_from_slice(&chunk[..n]);
    }
}

#[test]
fn ppmd8encoder_without_end_marker() {
    let test_data = LICENSE_TEXT;

    let mut encoder = Ppmd8Encoder::new(VecSink::new(), ORDER, MEM_SIZE, RESTORE_METHOD).unwrap();
    encoder.write(test_data.as_bytes()).unwrap();
    let compressed = encoder.finish(false).unwrap().into_bytes();

    let mut decoder =
        Ppmd8Decoder::new(SliceSource::new(compressed), ORDER, MEM_SIZE, RESTORE_METHOD).unwrap();

    let mut decoded = vec![0; test_data.len()];
    read_exact(&mut decoder, &mut decoded);

    let decoded_data = String::from_utf8(decoded).unwrap();
    assert_eq!(decoded_data, test_data);
}

#[test]
fn ppmd8encoder_with_end_marker() {
    let test_data = LICENSE_TEXT;

    let mut encoder = Ppmd8Encoder::new(VecSink::new(), ORDER, MEM_SIZE, RESTORE_METHOD).unwrap();
    encoder.write(test_data.as_bytes()).unwrap();
    let compressed = encoder.finish(true).unwrap().into_bytes();

    let mut decoder =
        Ppmd8Decoder::new(SliceSource::new(compressed), ORDER, MEM_SIZE, RESTORE_METHOD).unwrap();

    let decoded = read_to_end(&mut decoder);

    let decoded_data = String::from_utf8(decoded).unwrap();
    assert_eq!(decoded_data, test_data);
}

#[test]
fn ppmd8encoder_init_drop() {
    let writer = VecSink::new();
    let encoder = Ppmd8Encoder::new(writer, ORDER, MEM_SIZE, RESTORE_METHOD).unwrap();
    assert_eq!(encoder.memory_size(), MEM_SIZE);
}

#[test]
fn ppmd8decoder_init() {
    let decoder =
        Ppmd8Decoder::new(SliceSource::new(vec![0; 4]), ORDER, MEM_SIZE, RESTORE_METHOD).unwrap();
    assert_eq!(decoder.memory_size(), MEM_SIZE);
}

#[test]
fn ppmd8_invalid_parameters() {
    let r = Ppmd8Encoder::new(VecSink::new(), 1, MEM_SIZE, RESTORE_METHOD);
    assert_eq!(r.err(), Some(Error::InvalidParameter));
    let r = Ppmd8Encoder::new(VecSink::new(), 17, MEM_SIZE, RESTORE_METHOD);
    assert_eq!(r.err(), Some(Error::InvalidParameter));
    let r = Ppmd8Encoder::new(VecSink::new(), ORDER, 2047, RESTORE_METHOD);
    assert_eq!(r.err(), Some(Error::InvalidParameter));
    let r = Ppmd8Decoder::new(SliceSource::new(vec![0; 4]), ORDER, MEM_SIZE, RestoreMethod::Unsupported);
    assert_eq!(r.err(), Some(Error::InvalidParameter));
    let r = Ppmd8Decoder::new(SliceSource::new(vec![0; 4]), 17, MEM_SIZE, RESTORE_METHOD);
    assert_eq!(r.err(), Some(Error::InvalidParameter));
    assert!(Ppmd8Encoder::new(VecSink::new(), 2, 2048, RestoreMethod::CutOff).is_ok());
    assert!(Ppmd8Encoder::new(VecSink::new(), 16, 2048, RestoreMethod::Restart).is_ok());
}

#[test]
fn ppmd8_range_decoder_errors() {
    // Fewer than four bytes: the reader fails.
    let r = Ppmd8Decoder::new(SliceSource::new(vec![0, 0]), ORDER, MEM_SIZE, RESTORE_METHOD);
    assert_eq!(r.err(), Some(Error::IoError));
    // A code of 0xFFFFFFFF is no valid start.
    let r = Ppmd8Decoder::new(SliceSource::new(vec![255; 4]), ORDER, MEM_SIZE, RESTORE_METHOD);
    assert_eq!(r.err(), Some(Error::RangeDecoderInitialization));
}

#[test]
fn ppmd8_truncated_input_is_an_io_error() {
    let data = sample_text(20_000);
    let mut encoder = Ppmd8Encoder::new(VecSink::new(), ORDER, MEM_SIZE, RESTORE_METHOD).unwrap();
    encoder.write(&data).unwrap();
    let mut compressed = encoder.finish(true).unwrap().into_bytes();
    compressed.truncate(compressed.len() / 2);
    let mut decoder =
        Ppmd8Decoder::new(SliceSource::new(compressed), ORDER, MEM_SIZE, RESTORE_METHOD).unwrap();
    let mut out = vec![0u8; data.len()];
    let mut result = Ok(0);
    let mut done = 0;
    while done < out.len() {
        result = decoder.read(&mut out[done..]);
        match result {
            Ok(0) | Err(_) => break,
            Ok(n) => done += n,
        }
    }
    assert_eq!(result.err(), Some(Error::IoError));
}

#[test]
fn restore_method_from_numbers() {
    assert_eq!(RestoreMethod::from_u64(0), RestoreMethod::Restart);
    assert_eq!(RestoreMethod::from_u64(1), RestoreMethod::CutOff);
    assert_eq!(RestoreMethod::from_u64(2), RestoreMethod::Unsupported);
    assert_eq!(RestoreMethod::from_u64(u64::MAX), RestoreMethod::Unsupported);
    assert_eq!(RestoreMethod::from_i64(-1), RestoreMethod::Unsupported);
    assert_eq!(RestoreMethod::from_i64(1), RestoreMethod::CutOff);
    assert_eq!(RestoreMethod::from_i64(0), RestoreMethod::Restart);
    assert_eq!(RestoreMethod::Restart.to_u32(), 0);
    assert_eq!(RestoreMethod::CutOff.to_u32(), 1);
    assert_eq!(RestoreMethod::from_u64(RestoreMethod::CutOff.to_u32() as u64), RestoreMethod::CutOff);
}

#[test]
fn error_messages() {
    assert_eq!(Error::InvalidParameter.message(), "Wrong PPMd parameter");
    assert_eq!(Error::RangeDecoderInitialization.message(), "Could not initialize the range decoder");
    assert_eq!(Error::MemoryAllocation.message(), "Memory allocation error (out of memory?)");
}

#[test]
fn ppmd8encoder_encode_decode() {
    let test_data = "Lorem ipsum dolor sit amet. ";

    let mut encoder = Ppmd8Encoder::new(VecSink::new(), ORDER, MEM_SIZE, RESTORE_METHOD).unwrap();
    encoder.write(test_data.as_bytes()).unwrap();
    encoder.flush().unwrap();
    let compressed = encoder.into_inner().into_bytes();

    let mut decoder =
        Ppmd8Decoder::new(SliceSource::new(compressed), ORDER, MEM_SIZE, RESTORE_METHOD).unwrap();

    let mut decoded = vec![0; test_data.len()];
    let n = decoder.read(&mut decoded).unwrap();
    assert_eq!(n, test_data.len());

    assert_eq!(decoded.as_slice(), test_data.as_bytes());

    let decoded_data = String::from_utf8(decoded).unwrap();

    assert_eq!(decoded_data, test_data);
}

fn sample_text(len: usize) -> Vec<u8> {
    let words = [
        "Licensed", "under", "the", "Apache", "License,", "Version", "2.0", "you", "may", "not",
        "use", "this", "file", "except", "in", "compliance", "with", "License.", "obtain", "a",
        "copy", "of", "at", "http://www.apache.org/licenses/LICENSE-2.0", "Unless", "required",
        "by", "applicable", "law", "or", "agreed", "to", "writing,", "software", "distributed",
    ];
    let mut out = Vec::new();
    let mut seed: u32 = 12345;
    while out.len() < len {
        seed = seed.wrapping_mul(1103515245).wrapping_add(12345);
        let w = words[(seed >> 16) as usize % words.len()];
        out.extend_from_slice(w.as_bytes());
        out.push(if (seed >> 8) % 11 == 0 { b'\n' } else { b' ' });
    }
    out.truncate(len);
    out
}

fn roundtrip(data: &[u8], order: u32, mem: u32, method: RestoreMethod, end_marker: bool) {
    let mut encoder = Ppmd8Encoder::new(VecSink::new(), order, mem, method).unwrap();
    assert_eq!(encoder.write(data).unwrap(), data.len());
    let sink = encoder.finish(end_marker).unwrap();
    let compressed = sink.into_bytes();
    let mut decoder = Ppmd8Decoder::new(SliceSource::new(compressed), order, mem, method).unwrap();
    let mut decoded = vec![0u8; data.len()];
    let mut done = 0;
    while done < data.len() {
        let n = decoder.read(&mut decoded[done..]).unwrap();
        assert!(n > 0);
        done += n;
    }
    assert_eq!(decoded.as_slice(), data);
    if end_marker {
        let mut rest = [0u8; 16];
        assert_eq!(decoder.read(&mut rest).unwrap(), 0);
        assert_eq!(decoder.read(&mut rest).unwrap(), 0);
    }
}

#[test]
fn ppmd8_roundtrip_large_text() {
    let data = sample_text(200_000);
    roundtrip(&data, 8, 262144, RestoreMethod::Restart, true);
}

#[test]
fn ppmd8_roundtrip_small_memory_restart() {
    let data = sample_text(100_000);
    roundtrip(&data, 16, 2048, RestoreMethod::Restart, true);
}

#[test]
fn ppmd8_roundtrip_small_memory_cut_off() {
    let data = sample_text(100_000);
    roundtrip(&data, 16, 4096, RestoreMethod::CutOff, true);
    roundtrip(&data, 6, 20000, RestoreMethod::CutOff, false);
}

#[test]
fn ppmd8_roundtrip_binary_data() {
    let mut data = Vec::new();
    let mut seed: u32 = 7;
    for i in 0..50_000u32 {
        seed = seed.wrapping_mul(1664525).wrapping_add(1013904223);
        data.push(if i % 3 == 0 { (seed >> 24) as u8 } else { (i % 7) as u8 });
    }
    roundtrip(&data, 2, 65536, RestoreMethod::Restart, false);
    roundtrip(&data, 16, 1 << 20, RestoreMethod::CutOff, true);
}

#[test]
fn ppmd8_wrong_final_code_is_invalid_data() {
    let data = b"hello hello hello";
    let mut encoder = Ppmd8Encoder::new(VecSink::new(), ORDER, MEM_SIZE, RESTORE_METHOD).unwrap();
    encoder.write(data).unwrap();
    let mut compressed = encoder.finish(true).unwrap().into_bytes();
    let last = compressed.len() - 1;
    compressed[last] ^= 0x01;
    let mut decoder =
        Ppmd8Decoder::new(SliceSource::new(compressed), ORDER, MEM_SIZE, RESTORE_METHOD).unwrap();
    let mut out = vec![0u8; 64];
    let r = decoder.read(&mut out);
    assert_eq!(r, Err(Error::InvalidData));
    // Once the data was found corrupt, reading gives nothing more.
    assert_eq!(decoder.read(&mut out), Ok(0));
}

#[test]
fn ppmd8_encoder_only_appends_and_decoder_reads_from_the_front() {
    let data = sample_text(5000);
    let mut encoder = Ppmd8Encoder::new(VecSink::new(), ORDER, MEM_SIZE, RESTORE_METHOD).unwrap();
    encoder.write(&data[..2500]).unwrap();
    encoder.flush().unwrap();
    let sink = encoder.into_inner();
    let first = sink.into_bytes();

    let mut encoder = Ppmd8Encoder::new(VecSink::new(), ORDER, MEM_SIZE, RESTORE_METHOD).unwrap();
    encoder.write(&data[..2500]).unwrap();
    encoder.flush().unwrap();
    encoder.write(&data[2500..]).unwrap();
    let all = encoder.finish(true).unwrap().into_bytes();
    assert!(all.len() > first.len());
    assert_eq!(&all[..first.len()], first.as_slice());

    let mut decoder =
        Ppmd8Decoder::new(SliceSource::new(all.clone()), ORDER, MEM_SIZE, RESTORE_METHOD).unwrap();
    let mut out = vec![0u8; 100];
    assert_eq!(decoder.read(&mut out).unwrap(), 100);
    let rest = decoder.into_inner().remaining();
    assert!(rest.len() < all.len());
    assert_eq!(rest.as_slice(), &all[all.len() - rest.len()..]);
}

#[test]
fn ppmd8_decoder_memory_bounds() {
    // Too small to hold the root context.
    let r = Ppmd8Decoder::new(SliceSource::new(vec![0; 4]), ORDER, 1823, RESTORE_METHOD);
    assert_eq!(r.err(), Some(Error::InvalidParameter));
    // Past the largest size whose allocation fits in 32 bits.
    let r = Ppmd8Decoder::new(SliceSource::new(vec![0; 4]), ORDER, 0xFFFF_FFFD, RESTORE_METHOD);
    assert_eq!(r.err(), Some(Error::InvalidParameter));
    // The smallest size whose units area holds the root context is taken.
    let d = Ppmd8Decoder::new(SliceSource::new(vec![0; 4]), ORDER, 1824, RESTORE_METHOD).unwrap();
    assert_eq!(d.memory_size(), 1824);
    let d = Ppmd8Decoder::new(SliceSource::new(vec![0; 4]), ORDER, 2000, RESTORE_METHOD).unwrap();
    assert_eq!(d.memory_size(), 2000);
}

#[test]
fn ppmd8_flush_of_fresh_encoder() {
    // A fresh window has its bottom at zero: the flush writes four zero bytes.
    let mut encoder = Ppmd8Encoder::new(VecSink::new(), ORDER, MEM_SIZE, RESTORE_METHOD).unwrap();
    encoder.flush().unwrap();
    assert_eq!(encoder.into_inner().into_bytes(), vec![0u8; 4]);
    let encoder = Ppmd8Encoder::new(VecSink::new(), ORDER, MEM_SIZE, RESTORE_METHOD).unwrap();
    assert_eq!(encoder.finish(false).unwrap().into_bytes(), vec![0u8; 4]);
}

#[test]
fn ppmd8_first_symbol_coding() {
    // One symbol coded in the fresh root context, and flushed, is the first
    // symbol that a decoder of the output finds.
    let mut encoder = Ppmd8Encoder::new(VecSink::new(), ORDER, MEM_SIZE, RESTORE_METHOD).unwrap();
    assert_eq!(encoder.write(&[b'Q']).unwrap(), 1);
    let bytes = encoder.finish(false).unwrap().into_bytes();
    let mut decoder = Ppmd8Decoder::new(SliceSource::new(bytes), ORDER, MEM_SIZE, RESTORE_METHOD).unwrap();
    let mut buf = [0u8; 1];
    assert_eq!(decoder.read(&mut buf).unwrap(), 1);
    assert_eq!(buf[0], b'Q');
}

#[test]
fn ppmd8_first_symbol_of_fresh_decoder() {
    // Root context: 256 symbols of frequency 1, sum 257. The code 0x01000000
    // falls on the count 0x01000000 / (0xFFFFFFFF / 257) == 1, the second symbol.
    let input = vec![0x01, 0, 0, 0, 0, 0, 0, 0];
    let mut decoder = Ppmd8Decoder::new(SliceSource::new(input), ORDER, MEM_SIZE, RESTORE_METHOD).unwrap();
    let mut buf = [0u8; 1];
    assert_eq!(decoder.read(&mut buf).unwrap(), 1);
    assert_eq!(buf[0], 1);
}
