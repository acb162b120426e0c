use lzma_core::error::Error;
use lzma_core::range_dec::{RangeDecoder, RangeDecoderBuffer, RangeReader};

/// The counterpart of the decoder.
struct Encoder {
    low: u64,
    range: u32,
    cache: u8,
    pending: u64,
    first: bool,
    out: Vec<u8>,
}

impl Encoder {
    fn new() -> Self {
        Encoder {
            low: 0,
            range: 0xFFFF_FFFF,
            cache: 0,
            pending: 1,
            first: true,
            out: Vec::new(),
        }
    }

    fn shift_low(&mut self) {
        if self.low < 0xFF00_0000 || self.low > 0xFFFF_FFFF {
            let carry = (self.low >> 32) as u8;
            let mut byte = self.cache;
            while self.pending > 0 {
                self.out.push(byte.wrapping_add(carry));
                byte = 0xFF;
                self.pending -= 1;
            }
            self.first = false;
            self.cache = (self.low >> 24) as u8;
        }
        self.pending += 1;
        self.low = (self.low & 0x00FF_FFFF) << 8;
    }

    fn normalize(&mut self) {
        while self.range < 1 << 24 {
            self.range <<= 8;
            self.shift_low();
        }
    }

    fn bit(&mut self, prob: &mut u16, bit: u32) {
        let bound = (self.range >> 11) * *prob as u32;
        if bit == 0 {
            self.range = bound;
            *prob += (2048 - *prob) >> 5;
        } else {
            self.low += bound as u64;
            self.range -= bound;
            *prob -= *prob >> 5;
        }
        self.normalize();
    }

    fn direct(&mut self, value: u32, count: u32) {
        for i in (0..count).rev() {
            self.range >>= 1;
            if (value >> i) & 1 == 1 {
                self.low += self.range as u64;
            }
            self.normalize();
        }
    }

    fn finish(mut self) -> Vec<u8> {
        for _ in 0..5 {
            self.shift_low();
        }
        self.out
    }
}

fn message(error: Error) -> &'static str {
    match error {
        Error::Eof => "eof",
        Error::BrokenPipe(text) => text,
        Error::InvalidData(text) => text,
        Error::InvalidInput(text) => text,
        Error::Other(text) => text,
    }
}

#[test]
fn decodes_what_was_encoded() {
    let bits: Vec<u32> = (0..2000u32).map(|i| (i * i / 7 + i / 3) % 2).collect();
    let mut encoder = Encoder::new();
    let mut prob = 1024;
    for &bit in &bits {
        encoder.bit(&mut prob, bit);
        encoder.direct(bit * 5 + 2, 3);
    }
    let last = prob;
    let bytes = encoder.finish();
    assert_eq!(bytes[0], 0);

    let mut decoder = RangeDecoder::new_stream(bytes.as_slice()).unwrap();
    let mut prob = 1024;
    for &bit in &bits {
        assert_eq!(decoder.decode_bit(&mut prob).unwrap(), bit as i32);
        assert_eq!(decoder.decode_direct_bits(3).unwrap(), (bit * 5 + 2) as i32);
        assert!((31..=2017).contains(&prob));
    }
    assert_eq!(prob, last);

    let mut decoder = RangeDecoder::new_buffer(bytes.len());
    assert!(decoder.is_finished());
    let mut reader = bytes.as_slice();
    decoder.prepare(&mut reader, bytes.len()).unwrap();
    assert!(reader.is_empty());
    assert!(!decoder.is_finished());
    let mut prob = 1024;
    for &bit in &bits {
        assert_eq!(decoder.decode_bit(&mut prob).unwrap(), bit as i32);
        decoder.decode_direct_bits(3).unwrap();
    }
    decoder.normalize().unwrap();
    assert!(decoder.is_stream_finished());
    assert!(decoder.is_finished());
}

#[test]
fn decodes_bit_trees() {
    let mut encoder = Encoder::new();
    let mut probs = [1024u16; 16];
    let mut reverse = [1024u16; 8];
    let symbols = [0u32, 5, 15, 7, 8, 5, 5];
    for &symbol in &symbols {
        let mut node = 1usize;
        for i in (0..4).rev() {
            let bit = (symbol >> i) & 1;
            encoder.bit(&mut probs[node], bit);
            node = node * 2 + bit as usize;
        }
        let mut node = 1usize;
        for i in 0..3 {
            let bit = (symbol >> i) & 1;
            encoder.bit(&mut reverse[node], bit);
            node = node * 2 + bit as usize;
        }
    }
    let bytes = encoder.finish();
    let mut decoder = RangeDecoder::new_stream(bytes.as_slice()).unwrap();
    let mut decoded_probs = [1024u16; 16];
    let mut decoded_reverse = [1024u16; 8];
    for &symbol in &symbols {
        assert_eq!(decoder.decode_bit_tree(&mut decoded_probs).unwrap(), symbol as i32);
        assert_eq!(
            decoder.decode_reverse_bit_tree(&mut decoded_reverse).unwrap(),
            (symbol % 8) as i32
        );
    }
    assert_eq!(decoded_probs, probs);
    assert_eq!(decoded_reverse, reverse);
}

#[test]
fn reverse_trees_reverse_the_bits() {
    let bytes = [0, 0x35, 0x9A, 0xC4, 0x71, 0x0F, 0xE2, 0x58, 0x93, 0x2D, 0x66, 0x10];
    let mut plain = RangeDecoder::new_stream(&bytes[..]).unwrap();
    let mut reverse = RangeDecoder::new_stream(&bytes[..]).unwrap();
    let mut plain_probs = [1024u16; 16];
    let mut reverse_probs = [1024u16; 16];
    for _ in 0..8 {
        let a = plain.decode_bit_tree(&mut plain_probs).unwrap();
        let b = reverse.decode_reverse_bit_tree(&mut reverse_probs).unwrap();
        assert_eq!(b as u32, (a as u32).reverse_bits() >> 28);
        assert_eq!((plain.range, plain.code), (reverse.range, reverse.code));
        assert_eq!(plain_probs, reverse_probs);
        assert_eq!(plain_probs[0], 1024);
    }
}

#[test]
fn a_short_chunk_reads_nothing() {
    let mut decoder = RangeDecoder::new_buffer(16);
    let mut reader: &[u8] = &[0, 1, 2, 3];
    let error = decoder.prepare(&mut reader, 4).unwrap_err();
    assert_eq!(message(error), "buffer len must >= 5");
    assert_eq!(reader.len(), 4);
}

#[test]
fn probabilities_adapt() {
    let mut encoder = Encoder::new();
    let mut prob = 1024;
    encoder.bit(&mut prob, 0);
    assert_eq!(prob, 1056);
    encoder.bit(&mut prob, 1);
    let bytes = encoder.finish();
    let mut decoder = RangeDecoder::new_stream(bytes.as_slice()).unwrap();
    let mut prob = 1024;
    assert_eq!(decoder.decode_bit(&mut prob).unwrap(), 0);
    assert_eq!(prob, 1056);
    assert_eq!(decoder.decode_bit(&mut prob).unwrap(), 1);
    assert_eq!(prob, 1023);
}

#[test]
fn streams_have_to_start_with_zero() {
    assert_eq!(
        message(RangeDecoder::new_stream(&[1u8, 0, 0, 0, 0][..]).err().unwrap()),
        "range decoder first byte is 0"
    );
    assert_eq!(
        message(RangeDecoder::new_stream(&[0u8, 0, 0, 0][..]).err().unwrap()),
        "eof"
    );
    let mut decoder = RangeDecoder::new_buffer(10);
    let mut reader: &[u8] = &[0; 20];
    assert_eq!(
        message(decoder.prepare(&mut reader, 4).unwrap_err()),
        "buffer len must >= 5"
    );
    assert_eq!(reader.len(), 20);
    let mut reader: &[u8] = &[7; 20];
    assert_eq!(
        message(decoder.prepare(&mut reader, 9).unwrap_err()),
        "first byte is 0"
    );
    let mut reader: &[u8] = &[0; 8];
    assert_eq!(message(decoder.prepare(&mut reader, 9).unwrap_err()), "eof");
}

#[test]
fn streams_end_and_buffers_do_not() {
    let mut decoder = RangeDecoder::new_stream(&[0u8, 0, 0, 0, 0][..]).unwrap();
    assert_eq!(message(decoder.decode_direct_bits(30).unwrap_err()), "eof");

    let mut buffer = RangeDecoderBuffer::new(3);
    assert_eq!(RangeReader::read_u8(&mut buffer).unwrap(), 0);
    assert!(buffer.past_end);
    buffer = RangeDecoderBuffer::new(6);
    buffer.buf = vec![1, 2, 3, 4, 5, 6];
    buffer.pos = 1;
    assert_eq!(RangeReader::read_u32_be(&mut buffer).unwrap(), 0x0203_0405);
    assert_eq!(RangeReader::read_u8(&mut buffer).unwrap(), 6);
    assert!(!buffer.past_end);
    assert_eq!(RangeReader::read_u8(&mut buffer).unwrap(), 0);
    assert!(buffer.past_end);
}

#[test]
fn finished_means_all_input_and_no_more() {
    let mut decoder = RangeDecoder::new_buffer(8);
    let mut reader: &[u8] = &[0, 0, 0, 0, 0, 0];
    decoder.prepare(&mut reader, 6).unwrap();
    assert!(!decoder.is_finished());
    assert_eq!(decoder.decode_direct_bits(9).unwrap(), 0);
    assert!(decoder.is_finished());
    // The range is too small again after eight more bits, and the input is used up.
    assert_eq!(decoder.decode_direct_bits(8).unwrap(), 0);
    assert!(!decoder.is_finished());
    let mut reader: &[u8] = &[0, 0, 0, 0, 0];
    decoder.prepare(&mut reader, 5).unwrap();
    assert!(decoder.is_finished());
}
