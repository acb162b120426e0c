use lzma_core::error::Error;
use lzma_core::io::Read;
use lzma_core::lz::lz_decoder::LZDecoder;
use lzma_core::lzma2_reader::{
    get_memory_usage, parse_props, Decoded, LZMA2Reader, LZMADecoder, Props,
};
use lzma_core::options::LZMAOptions;
use lzma_core::range_dec::{RangeDecoder, RangeDecoderBuffer, RangeReader};

/// Treats the bytes of a chunk as literals: it puts out the input of the range decoder.
struct Raw {
    resets: u8,
}

impl LZMADecoder for Raw {
    fn new(lc: u32, lp: u32, pb: u32) -> Self {
        Raw {
            resets: (lc + lp + pb) as u8,
        }
    }

    fn reset(self) -> Self {
        Raw {
            resets: self.resets + 1,
        }
    }

    fn decode(
        self,
        mut lz: LZDecoder,
        mut rc: RangeDecoder<RangeDecoderBuffer>,
    ) -> Decoded<Self> {
        while lz.has_space() {
            let byte = rc.inner.read_u8().unwrap();
            lz.put_byte(byte + self.resets - 5);
        }
        rc.code = 0;
        Decoded {
            lzma: self,
            lz,
            rc,
            result: Ok(()),
        }
    }
}

/// Never puts out anything.
struct Lazy;

impl LZMADecoder for Lazy {
    fn new(_lc: u32, _lp: u32, _pb: u32) -> Self {
        Lazy
    }

    fn reset(self) -> Self {
        self
    }

    fn decode(self, lz: LZDecoder, rc: RangeDecoder<RangeDecoderBuffer>) -> Decoded<Self> {
        Decoded {
            lzma: self,
            lz,
            rc,
            result: Ok(()),
        }
    }
}

/// Puts out one byte and fails then.
struct Failing;

impl LZMADecoder for Failing {
    fn new(_lc: u32, _lp: u32, _pb: u32) -> Self {
        Failing
    }

    fn reset(self) -> Self {
        self
    }

    fn decode(self, mut lz: LZDecoder, rc: RangeDecoder<RangeDecoderBuffer>) -> Decoded<Self> {
        lz.put_byte(1);
        Decoded {
            lzma: self,
            lz,
            rc,
            result: Err(Error::InvalidInput("bad symbol")),
        }
    }
}

/// Fills the chunk with sevens without a look at the input.
struct Sevens;

impl LZMADecoder for Sevens {
    fn new(_lc: u32, _lp: u32, _pb: u32) -> Self {
        Sevens
    }

    fn reset(self) -> Self {
        self
    }

    fn decode(self, mut lz: LZDecoder, rc: RangeDecoder<RangeDecoderBuffer>) -> Decoded<Self> {
        while lz.has_space() {
            lz.put_byte(7);
        }
        Decoded {
            lzma: self,
            lz,
            rc,
            result: Ok(()),
        }
    }
}

/// Fails when its bytes are used up.
struct Broken {
    bytes: Vec<u8>,
}

impl Read for Broken {
    fn read(&mut self, buf: &mut [u8]) -> Result<usize, Error> {
        if self.bytes.is_empty() {
            return Err(Error::Other("broken"));
        }
        let n = buf.len().min(self.bytes.len());
        buf[..n].copy_from_slice(&self.bytes[..n]);
        self.bytes.drain(..n);
        Ok(n)
    }
}

fn message(error: Error) -> &'static str {
    match error {
        Error::Eof => "eof",
        Error::BrokenPipe(text) => text,
        Error::InvalidData(text) => text,
        Error::InvalidInput(text) => text,
        Error::Other(text) => text,
    }
}

fn read_all<D: LZMADecoder>(
    reader: &mut LZMA2Reader<&[u8], D>,
    step: usize,
) -> Result<Vec<u8>, Error> {
    let mut all = Vec::new();
    let mut buf = vec![0u8; step];
    loop {
        let n = reader.read(&mut buf)?;
        if n == 0 {
            return Ok(all);
        }
        all.extend_from_slice(&buf[..n]);
    }
}

fn failure(bytes: &[u8], preset_dict: Option<&[u8]>) -> &'static str {
    let mut reader: LZMA2Reader<&[u8], Raw> = LZMA2Reader::new(bytes, 4096, preset_dict);
    message(read_all(&mut reader, 100).unwrap_err())
}

#[test]
fn reads_an_uncompressed_stream() {
    let compressed: Vec<u8> = vec![
        1, 0, 12, 72, 101, 108, 108, 111, 44, 32, 119, 111, 114, 108, 100, 33, 0,
    ];
    for step in 1..20 {
        let mut reader: LZMA2Reader<&[u8], Raw> =
            LZMA2Reader::new(compressed.as_slice(), LZMAOptions::DICT_SIZE_DEFAULT, None);
        let decompressed = read_all(&mut reader, step).unwrap();
        assert_eq!(&decompressed[..], b"Hello, world!");
    }
}

#[test]
fn stops_behind_the_end_marker() {
    let compressed = [1, 0, 0, b'x', 0, 9, 9];
    let mut reader: LZMA2Reader<&[u8], Raw> = LZMA2Reader::new(&compressed[..], 4096, None);
    assert_eq!(read_all(&mut reader, 10).unwrap(), b"x");
    assert_eq!(reader.into_inner(), &[9, 9]);
}

#[test]
fn chunks_larger_than_the_dictionary() {
    let mut compressed = vec![1, 0xFF, 0xFF];
    let data: Vec<u8> = (0..0x10000u32).map(|i| (i % 251) as u8).collect();
    compressed.extend_from_slice(&data);
    compressed.extend_from_slice(&[2, 0, 1, 7, 8, 0]);
    let mut reader: LZMA2Reader<&[u8], Raw> = LZMA2Reader::new(compressed.as_slice(), 100, None);
    let mut expected = data;
    expected.extend_from_slice(&[7, 8]);
    assert_eq!(read_all(&mut reader, 1000).unwrap(), expected);
}

#[test]
fn empty_buffers_read_nothing() {
    let mut reader: LZMA2Reader<&[u8], Raw> = LZMA2Reader::new(&[9u8][..], 4096, None);
    assert_eq!(reader.read(&mut []).unwrap(), 0);
    assert!(reader.read(&mut [0]).is_err());
    assert_eq!(reader.read(&mut []).unwrap(), 0);
}

#[test]
fn compressed_chunks() {
    // lc = 3, lp = 0, pb = 2
    let props = 93;
    let compressed = [
        0xE0, 0, 2, 0, 7, props, 0, 1, 1, 1, 1, b'a', b'b', b'c', 0x80, 0, 1, 0, 6, 0, 1, 1, 1, 1,
        b'd', b'e', 0xA0, 0, 0, 0, 5, 0, 1, 1, 1, 1, b'f', 2, 0, 0, b'!', 0,
    ];
    let mut reader: LZMA2Reader<&[u8], Raw> = LZMA2Reader::new(&compressed[..], 4096, None);
    // A reset of the state adds one to each byte here.
    assert_eq!(read_all(&mut reader, 4).unwrap(), b"abcdeg!");
}

#[test]
fn chunks_of_five_bytes() {
    let bytes = [0xE0, 0, 2, 0, 4, 93, 0, 0, 0, 0, 0, 1, 0, 0, b'!', 0];
    let mut reader: LZMA2Reader<&[u8], Sevens> = LZMA2Reader::new(&bytes[..], 4096, None);
    assert_eq!(read_all(&mut reader, 2).unwrap(), [7, 7, 7, b'!']);
    // With one byte of input less than the decoder takes, the chunk is not clean.
    assert_eq!(
        failure(&[0xE0, 0, 0, 0, 4, 93, 0, 0, 0, 0, 0, 0], None),
        "rc not finished or lz has pending"
    );
}

#[test]
fn the_end_stays_the_end() {
    let source = Broken {
        bytes: vec![1, 0, 0, b'x', 0],
    };
    let mut reader: LZMA2Reader<Broken, Raw> = LZMA2Reader::new(source, 4096, None);
    let mut buf = [0; 4];
    assert_eq!(reader.read(&mut buf).unwrap(), 1);
    for _ in 0..3 {
        assert_eq!(reader.read(&mut buf).unwrap(), 0);
    }
}

#[test]
fn errors_of_the_source_are_handed_on() {
    let source = Broken {
        bytes: vec![1, 0, 1, b'x'],
    };
    let mut reader: LZMA2Reader<Broken, Raw> = LZMA2Reader::new(source, 4096, None);
    let mut buf = [0; 4];
    for _ in 0..3 {
        assert_eq!(message(reader.read(&mut buf).unwrap_err()), "broken");
    }
}

#[test]
fn every_way_to_fail() {
    assert_eq!(failure(&[2, 0, 0, 1, 0], None), "corrupted input data (LZMA2:0)");
    assert_eq!(
        failure(&[1, 0, 0, 1, 0x80, 0, 0, 0, 4], None),
        "corrupted input data (LZMA2:1)"
    );
    assert_eq!(failure(&[1, 0, 0, 1, 3], None), "corrupted input data (LZMA2:2)");
    assert_eq!(
        failure(&[0xE0, 0, 0, 0, 4, 225], None),
        "corrupted input data (LZMA2:3)"
    );
    assert_eq!(
        failure(&[0xE0, 0, 0, 0, 4, 17], None),
        "corrupted input data (LZMA2:4)"
    );
    assert_eq!(
        failure(&[0xE0, 0, 0, 0, 3, 93, 0, 0, 0, 0], None),
        "buffer len must >= 5"
    );
    assert_eq!(
        failure(&[0xE0, 0, 0, 0, 5, 93, 1, 0, 0, 0, 0, 0], None),
        "first byte is 0"
    );
    assert_eq!(failure(&[], None), "eof");
    assert_eq!(failure(&[1, 0], None), "eof");
    assert_eq!(failure(&[1, 0, 4, b'a'], None), "eof");
    assert_eq!(failure(&[0xE0, 0, 0, 0, 5, 93, 0, 0], None), "eof");
    // More input than the chunk needs.
    assert_eq!(
        failure(&[0xE0, 0, 0, 0, 6, 93, 0, 0, 0, 0, 0, 7, 7], None),
        "rc not finished or lz has pending"
    );
    let stuck = [0xE0, 0, 0, 0, 5, 93, 0, 0, 0, 0, 0, 7];
    let mut reader: LZMA2Reader<&[u8], Lazy> = LZMA2Reader::new(&stuck[..], 4096, None);
    assert_eq!(
        message(read_all(&mut reader, 9).unwrap_err()),
        "LZMA decoder ignored its limit"
    );
}

#[test]
fn a_preset_dictionary_makes_a_reset_unnecessary() {
    let mut reader: LZMA2Reader<&[u8], Raw> =
        LZMA2Reader::new(&[2u8, 0, 0, 1, 0][..], 4096, Some(b"preset"));
    assert_eq!(read_all(&mut reader, 5).unwrap(), vec![1]);
    assert_eq!(
        failure(&[2, 0, 0, 1, 0], Some(b"")),
        "corrupted input data (LZMA2:0)"
    );
}

#[test]
fn errors_stay() {
    let mut reader: LZMA2Reader<&[u8], Raw> = LZMA2Reader::new(&[3u8, 0, 0][..], 4096, None);
    let mut buf = [0; 4];
    for _ in 0..3 {
        assert_eq!(
            message(reader.read(&mut buf).unwrap_err()),
            "corrupted input data (LZMA2:0)"
        );
    }
}

#[test]
fn after_a_failure_nothing_is_read() {
    let bytes = [0xE0, 0, 3, 0, 5, 93, 0, 0, 0, 0, 0, 7, 0];
    let mut reader: LZMA2Reader<&[u8], Failing> = LZMA2Reader::new(&bytes[..], 4096, None);
    let mut buf = [9; 4];
    for _ in 0..2 {
        assert_eq!(message(reader.read(&mut buf).unwrap_err()), "bad symbol");
        assert_eq!(buf, [9; 4]);
    }
    assert_eq!(reader.into_inner().len(), 1);
}

#[test]
fn memory_usage() {
    assert_eq!(get_memory_usage(0), 104);
    assert_eq!(get_memory_usage(4096), 108);
    assert_eq!(get_memory_usage(4081), 108);
    assert_eq!(get_memory_usage(8 << 20), 104 + 8192);
}

#[test]
fn properties() {
    assert_eq!(parse_props(93).unwrap(), Props { lc: 3, lp: 0, pb: 2 });
    for pb in 0..=4u32 {
        for lp in 0..=4u32 {
            for lc in 0..=8u32 {
                let parsed = parse_props(((pb * 5 + lp) * 9 + lc) as u8);
                if lc + lp <= 4 {
                    assert_eq!(parsed.unwrap(), Props { lc, lp, pb });
                } else {
                    assert_eq!(message(parsed.unwrap_err()), "corrupted input data (LZMA2:4)");
                }
            }
        }
    }
    assert_eq!(
        message(parse_props(225).unwrap_err()),
        "corrupted input data (LZMA2:3)"
    );
}

#[test]
fn dictionary_repeats_matches() {
    let mut lz = LZDecoder::new(8, None);
    lz.set_limit(8);
    lz.put_byte(b'a');
    lz.put_byte(b'b');
    assert_eq!(lz.get_byte(0), b'b');
    assert_eq!(lz.get_byte(1), b'a');
    assert_eq!(lz.get_byte(2), 0);
    assert_eq!(message(lz.repeat(2, 1).unwrap_err()), "dist overflow");
    lz.repeat(1, 8).unwrap();
    assert!(!lz.has_space());
    assert!(lz.has_pending());
    let mut out = [0; 8];
    assert_eq!(lz.flush(&mut out, 0), 8);
    assert_eq!(&out, b"abababab");
    lz.set_limit(1);
    lz.repeat_pending().unwrap();
    assert!(lz.has_pending());
    lz.set_limit(5);
    lz.repeat_pending().unwrap();
    assert!(!lz.has_pending());
    assert_eq!(lz.unflushed_len(), 2);
    assert_eq!(lz.flush(&mut out, 3), 2);
    assert_eq!(&out, b"abaabbab");
    // The dictionary still reaches back over its end.
    assert_eq!(lz.get_byte(7), b'a');
    assert_eq!(lz.get_byte(8), 0);
    lz.reset();
    assert_eq!(lz.get_byte(0), 0);
}

#[test]
fn dictionary_starts_with_the_end_of_a_preset() {
    let lz = LZDecoder::new(4, Some(b"abcdef"));
    assert_eq!(lz.get_byte(0), b'f');
    assert_eq!(lz.get_byte(3), b'c');
    assert_eq!(lz.get_byte(4), 0);
    assert_eq!(lz.unflushed_len(), 0);
}
