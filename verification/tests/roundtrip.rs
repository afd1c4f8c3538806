use basehan::codec::{BaseHanDecoder, BaseHanEncoder, BaseHanError};

fn encode_all(bytes: &[u8]) -> Vec<char> {
    let mut enc = BaseHanEncoder::new();
    let mut out = enc.update(bytes).unwrap();
    out.push(enc.finish());
    out
}

fn decode_all(stream: &[char]) -> (Vec<u8>, Option<u8>) {
    let mut dec = BaseHanDecoder::new();
    let out = dec.update(stream).unwrap();
    (out, dec.finish())
}

fn sample(len: usize) -> Vec<u8> {
    let mut v = Vec::with_capacity(len);
    for i in 0..len {
        v.push((i as u8).wrapping_mul(37).wrapping_add(11));
    }
    v
}

#[test]
fn empty_input_terminal_at_offset_zero() {
    let mut enc = BaseHanEncoder::new();
    let out = enc.update(&[]).unwrap();
    assert!(out.is_empty());
    assert_eq!(enc.finish(), '\u{6e00}');
}

#[test]
fn single_ff_encodes_to_bare_terminal() {
    let mut enc = BaseHanEncoder::new();
    let out = enc.update(&[0xFF]).unwrap();
    assert!(out.is_empty());
    assert_eq!(enc.finish(), '\u{6eff}');
}

#[test]
fn single_ff_round_trip() {
    let (bytes, leftover) = decode_all(&['\u{6eff}']);
    assert_eq!(bytes, vec![0xFF]);
    assert_eq!(leftover, None);
}

#[test]
fn thirteen_ff_bytes_give_eight_full_symbols() {
    let mut enc = BaseHanEncoder::new();
    let out = enc.update(&[0xFF; 13]).unwrap();
    assert_eq!(out.len(), 8);
    for c in &out {
        assert_eq!(*c, '\u{6dff}');
    }
    assert_eq!(enc.finish(), '\u{6e00}');
}

#[test]
fn round_trip_aligned_lengths() {
    for len in [1usize, 4, 9, 14, 17, 22] {
        let bytes = sample(len);
        let stream = encode_all(&bytes);
        let (back, leftover) = decode_all(&stream);
        assert_eq!(back, bytes, "length {}", len);
        assert_eq!(leftover, None, "length {}", len);
    }
}

#[test]
fn empty_input_decodes_to_one_spurious_zero_byte() {
    let stream = encode_all(&[]);
    assert_eq!(stream, vec!['\u{6e00}']);
    let (back, leftover) = decode_all(&stream);
    assert_eq!(back, vec![0u8]);
    assert_eq!(leftover, None);
}

#[test]
fn misaligned_length_decodes_with_trailing_zero_byte() {
    let bytes = vec![1u8, 2, 3, 4, 5];
    let stream = encode_all(&bytes);
    let (back, leftover) = decode_all(&stream);
    assert_eq!(back, vec![1u8, 2, 3, 4, 5, 0]);
    assert_eq!(leftover, None);
}

#[test]
fn encoder_chunk_invariance() {
    let bytes = sample(23);
    let whole = encode_all(&bytes);
    let mut enc = BaseHanEncoder::new();
    let mut pieces = Vec::new();
    pieces.extend(enc.update(&bytes[..7]).unwrap());
    pieces.extend(enc.update(&bytes[7..7]).unwrap());
    pieces.extend(enc.update(&bytes[7..20]).unwrap());
    pieces.extend(enc.update(&bytes[20..]).unwrap());
    pieces.push(enc.finish());
    assert_eq!(pieces, whole);
}

#[test]
fn decoder_chunk_invariance() {
    let bytes = sample(22);
    let stream = encode_all(&bytes);
    let (whole, _) = decode_all(&stream);
    let mut dec = BaseHanDecoder::new();
    let mut pieces = Vec::new();
    pieces.extend(dec.update(&stream[..3]).unwrap());
    pieces.extend(dec.update(&stream[3..3]).unwrap());
    pieces.extend(dec.update(&stream[3..]).unwrap());
    assert_eq!(pieces, whole);
    assert_eq!(dec.finish(), None);
}

#[test]
fn ordinary_symbols_stay_below_terminal_range() {
    let bytes = sample(200);
    let mut enc = BaseHanEncoder::new();
    let out = enc.update(&bytes).unwrap();
    for c in &out {
        let v = *c as u32;
        assert!(v >= 0x4e00, "code point {:#x} below the alphabet", v);
        assert!(v < 0x6e00, "code point {:#x} inside the terminal range", v);
    }
    let term = enc.finish() as u32;
    assert!(term >= 0x6e00);
    assert!(term < 0x6e00 + 8192);
}

#[test]
fn truncated_stream_reports_leftover_byte() {
    // 0xAB 0xCD: one full symbol leaves, three bits stay in the encoder.
    let mut enc = BaseHanEncoder::new();
    let syms = enc.update(&[0xAB, 0xCD]).unwrap();
    assert_eq!(syms.len(), 1);
    // decode only the ordinary symbol: 13 bits consumed, 5 kept, not all zero
    let mut dec = BaseHanDecoder::new();
    let out = dec.update(&syms).unwrap();
    assert_eq!(out, vec![0xAB]);
    assert_eq!(dec.finish(), Some(0b11001));
}

#[test]
fn truncated_zero_bits_go_unreported() {
    // all-zero input: the kept bits are zero, so finish cannot tell
    let mut enc = BaseHanEncoder::new();
    let syms = enc.update(&[0x00, 0x00]).unwrap();
    assert_eq!(syms, vec!['\u{4e00}']);
    let mut dec = BaseHanDecoder::new();
    let out = dec.update(&syms).unwrap();
    assert_eq!(out, vec![0x00]);
    assert_eq!(dec.finish(), None);
}

#[test]
fn update_after_terminal_fails_with_end_of_stream() {
    let stream = encode_all(&sample(9));
    let mut dec = BaseHanDecoder::new();
    dec.update(&stream).unwrap();
    let again = dec.update(&['\u{4e00}']);
    assert!(matches!(again, Err(BaseHanError::EndOfFile)));
}

#[test]
fn zero_scalar_stops_the_chunk() {
    let bytes = sample(4);
    let stream = encode_all(&bytes);
    // pad the ordinary symbols with NUL as a fixed-size read buffer would
    let mut padded: Vec<char> = stream[..stream.len() - 1].to_vec();
    padded.push('\u{0}');
    padded.push('\u{4e05}');
    let mut dec = BaseHanDecoder::new();
    let first = dec.update(&padded).unwrap();
    // the NUL stopped the chunk; the stream is still open for the terminal
    let mut rest = dec.update(&stream[stream.len() - 1..]).unwrap();
    let mut all = first;
    all.append(&mut rest);
    assert_eq!(all, bytes);
    assert_eq!(dec.finish(), None);
}

#[test]
fn with_buffer_size_behaves_like_new() {
    let bytes = sample(17);
    let mut enc = BaseHanEncoder::with_buffer_size(4);
    let mut stream = enc.update(&bytes).unwrap();
    stream.push(enc.finish());
    assert_eq!(stream, encode_all(&bytes));
    let mut dec = BaseHanDecoder::with_buffer_size(4);
    let out = dec.update(&stream).unwrap();
    assert_eq!(out, bytes);
    assert_eq!(dec.finish(), None);
}
