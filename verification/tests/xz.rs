use lzma_core::error::Error;
use lzma_core::io::Read;
use lzma_core::mt::splitter::Splitter;
use lzma_core::options::LZMAOptions;
use lzma_core::xz::block::{get_block_header_size, padding_needed, IndexRecord};
use lzma_core::xz::check::{CheckType, ChecksumCalculator};
use lzma_core::xz::filter::{BcjArch, FilterConfig, FilterStage, FilterType};
use lzma_core::xz::multibyte::{
    count_multibyte_integer_size, count_multibyte_integer_size_for_value, encode_multibyte_integer,
    parse_multibyte_integer, parse_multibyte_integer_from_reader,
};
use lzma_core::xz::options::XZOptions;
use lzma_core::xz::reader::{
    check_padding, consume_padding, try_start_next_stream, AfterStream, BoundedReader, ReadStep,
    SharedReader, XZReader,
};
use lzma_core::xz::writer::{FinishStep, WriteStep, XZWriter};

fn message(error: Error) -> &'static str {
    match error {
        Error::Eof => "eof",
        Error::BrokenPipe(text) => text,
        Error::InvalidData(text) => text,
        Error::InvalidInput(text) => text,
        Error::Other(text) => text,
    }
}

#[test]
fn test_encode_decode_multibyte_integer() {
    let values = [0, 127, 128, 16383, 16384, 2097151, 2097152];

    for &value in &values {
        let mut buf = [0u8; 9];
        let encoded_size = encode_multibyte_integer(value, &mut buf).unwrap();

        let decoded = parse_multibyte_integer(&buf[..encoded_size]).unwrap();
        assert_eq!(decoded, value);

        let size_for_value = count_multibyte_integer_size_for_value(value);
        assert_eq!(size_for_value, encoded_size);
    }
}

#[test]
fn test_multibyte_integer_limits() {
    // Test maximum allowed value (63 bits)
    let max_value = u64::MAX / 2;
    let mut buf = [0u8; 9];
    let encoded_size = encode_multibyte_integer(max_value, &mut buf).unwrap();

    let decoded = parse_multibyte_integer(&buf[..encoded_size]).unwrap();
    assert_eq!(decoded, max_value);

    // Test value that's too large
    let too_large = u64::MAX;
    let encoded_size = encode_multibyte_integer(too_large, &mut buf);
    assert!(encoded_size.is_err());
}

#[test]
fn test_index_record_creation() {
    let record = IndexRecord {
        unpadded_size: 1024,
        uncompressed_size: 2048,
    };

    assert_eq!(record.unpadded_size, 1024);
    assert_eq!(record.uncompressed_size, 2048);
}

#[test]
fn test_checksum_calculator_crc32() {
    let mut calc = ChecksumCalculator::new(CheckType::Crc32);
    calc.update(b"123456789");

    // CRC32 of "123456789" in little-endian format
    let expected = [0x26, 0x39, 0xF4, 0xCB];
    assert!(calc.verify(&expected));
}

#[test]
fn test_checksum_calculator_crc64() {
    let mut calc = ChecksumCalculator::new(CheckType::Crc64);
    calc.update(b"123456789");

    // CRC64 of "123456789" in little-endian format.
    let expected = [250, 57, 25, 223, 187, 201, 93, 153];
    assert!(calc.verify(&expected));
}

#[test]
fn test_checksum_calculator_sha256() {
    let mut calc = ChecksumCalculator::new(CheckType::Sha256);
    calc.update(b"123456789");

    // SHA256 of "123456789"
    let expected = [
        21, 226, 176, 211, 195, 56, 145, 235, 176, 241, 239, 96, 158, 196, 25, 66, 12, 32, 227, 32,
        206, 148, 198, 95, 188, 140, 51, 18, 68, 142, 178, 37,
    ];
    assert!(calc.verify(&expected));
}

#[test]
fn checksums_reject_other_bytes_and_sizes() {
    let calculator = |check_type, data: &[u8]| {
        let mut calc = ChecksumCalculator::new(check_type);
        calc.update(data);
        calc
    };
    assert!(!calculator(CheckType::Crc32, b"12345678").verify(&[0x26, 0x39, 0xF4, 0xCB]));
    assert!(!calculator(CheckType::Crc32, b"123456789").verify(&[0x26, 0x39, 0xF4]));
    assert!(!calculator(CheckType::Crc64, b"123456789").verify(&[0; 8]));
    assert!(!calculator(CheckType::Sha256, b"123456789").verify(&[0; 32]));
    assert!(calculator(CheckType::NoCheck, b"123456789").verify(&[1, 2, 3]));
}

#[test]
fn checksums_do_not_depend_on_how_the_data_is_cut() {
    let mut calc = ChecksumCalculator::new(CheckType::Crc32);
    calc.update(b"1234");
    calc.update(b"");
    calc.update(b"56789");
    assert_eq!(calc.finalize_to_bytes(), vec![0x26, 0x39, 0xF4, 0xCB]);
}

#[test]
fn checksum_of_nothing() {
    assert_eq!(
        ChecksumCalculator::new(CheckType::NoCheck).finalize_to_bytes(),
        Vec::<u8>::new()
    );
    assert_eq!(
        ChecksumCalculator::new(CheckType::Crc32).finalize_to_bytes(),
        vec![0, 0, 0, 0]
    );
    assert_eq!(
        ChecksumCalculator::new(CheckType::Sha256).finalize_to_bytes()[..4],
        [0xE3, 0xB0, 0xC4, 0x42]
    );
}

#[test]
fn check_types_by_number() {
    let all = [
        (0x00, CheckType::NoCheck, 0),
        (0x01, CheckType::Crc32, 4),
        (0x04, CheckType::Crc64, 8),
        (0x0A, CheckType::Sha256, 32),
    ];
    for (number, check_type, size) in all {
        assert_eq!(CheckType::from_byte(number).unwrap(), check_type);
        assert_eq!(check_type.to_byte(), number);
        assert_eq!(check_type.checksum_size(), size);
    }
    assert_eq!(
        message(CheckType::from_byte(2).unwrap_err()),
        "unsupported XZ check type"
    );
}

#[test]
fn filters_by_number() {
    let all = [
        (0x03, FilterType::Delta),
        (0x04, FilterType::BcjX86),
        (0x05, FilterType::BcjPPC),
        (0x06, FilterType::BcjIA64),
        (0x07, FilterType::BcjARM),
        (0x08, FilterType::BcjARMThumb),
        (0x09, FilterType::BcjSPARC),
        (0x0A, FilterType::BcjARM64),
        (0x0B, FilterType::BcjRISCV),
        (0x21, FilterType::LZMA2),
    ];
    for (number, filter_type) in all {
        assert_eq!(FilterType::try_from(number), Ok(filter_type));
    }
    assert_eq!(FilterType::try_from(0x02), Err(()));
    assert_eq!(FilterType::try_from(0x0C), Err(()));
    assert_eq!(FilterType::try_from(0x20), Err(()));
}

#[test]
fn filter_configs() {
    let config = |filter_type, property| FilterConfig {
        filter_type,
        property,
    };
    assert_eq!(FilterConfig::new_delta(3), config(FilterType::Delta, 3));
    assert_eq!(FilterConfig::new_bcj_x86(1), config(FilterType::BcjX86, 1));
    assert_eq!(FilterConfig::new_bcj_arm(2), config(FilterType::BcjARM, 2));
    assert_eq!(FilterConfig::new_bcj_arm_thumb(4), config(FilterType::BcjARMThumb, 4));
    assert_eq!(FilterConfig::new_bcj_arm64(5), config(FilterType::BcjARM64, 5));
    assert_eq!(FilterConfig::new_bcj_ia64(6), config(FilterType::BcjIA64, 6));
    assert_eq!(FilterConfig::new_bcj_ppc(7), config(FilterType::BcjPPC, 7));
    assert_eq!(FilterConfig::new_bcj_sparc(8), config(FilterType::BcjSPARC, 8));
    assert_eq!(FilterConfig::new_bcj_risc_v(9), config(FilterType::BcjRISCV, 9));
}

#[test]
fn filter_stages() {
    let bcj = |arch, start_offset| FilterStage::Bcj { arch, start_offset };
    assert_eq!(FilterConfig::new_delta(3).stage(), FilterStage::Delta { distance: 3 });
    assert_eq!(FilterConfig::new_bcj_x86(1).stage(), bcj(BcjArch::X86, 1));
    assert_eq!(FilterConfig::new_bcj_arm(2).stage(), bcj(BcjArch::ARM, 2));
    assert_eq!(FilterConfig::new_bcj_arm_thumb(4).stage(), bcj(BcjArch::ARMThumb, 4));
    assert_eq!(FilterConfig::new_bcj_arm64(5).stage(), bcj(BcjArch::ARM64, 5));
    assert_eq!(FilterConfig::new_bcj_ia64(6).stage(), bcj(BcjArch::IA64, 6));
    assert_eq!(FilterConfig::new_bcj_ppc(7).stage(), bcj(BcjArch::PPC, 7));
    assert_eq!(FilterConfig::new_bcj_sparc(8).stage(), bcj(BcjArch::SPARC, 8));
    assert_eq!(FilterConfig::new_bcj_risc_v(9).stage(), bcj(BcjArch::RISCV, 9));
}

#[test]
fn multibyte_integers_byte_for_byte() {
    let mut buf = [0xAAu8; 4];
    assert_eq!(encode_multibyte_integer(300, &mut buf).unwrap(), 2);
    assert_eq!(buf, [0xAC, 0x02, 0xAA, 0xAA]);
    // A buffer that is too small takes what fits.
    let mut small = [0u8; 1];
    assert_eq!(encode_multibyte_integer(300, &mut small).unwrap(), 1);
    assert_eq!(small, [0xAC]);
    assert_eq!(
        message(encode_multibyte_integer(1 << 63, &mut small).unwrap_err()),
        "value too big to encode"
    );
    assert_eq!(count_multibyte_integer_size_for_value(u64::MAX), 10);
    assert_eq!(count_multibyte_integer_size(&[0x80, 0x80, 0x01, 0x05]), 3);
    assert_eq!(count_multibyte_integer_size(&[0x80, 0x80]), 2);
}

#[test]
fn multibyte_integers_that_do_not_end() {
    assert_eq!(
        message(parse_multibyte_integer(&[0x80, 0x80]).unwrap_err()),
        "incomplete XZ multibyte integer"
    );
    assert_eq!(
        message(parse_multibyte_integer(&[0x80; 10]).unwrap_err()),
        "XZ multibyte integer too large"
    );
    let mut reader: &[u8] = &[0x80; 10];
    assert_eq!(
        message(parse_multibyte_integer_from_reader(&mut reader).unwrap_err()),
        "XZ multibyte integer too long"
    );
    let mut reader: &[u8] = &[0x80, 0x80];
    assert_eq!(
        message(parse_multibyte_integer_from_reader(&mut reader).unwrap_err()),
        "eof"
    );
    let mut reader: &[u8] = &[0xAC, 0x02, 0x07];
    assert_eq!(parse_multibyte_integer_from_reader(&mut reader).unwrap(), 300);
    assert_eq!(reader, &[0x07]);
}

#[test]
fn options_and_presets() {
    let options = XZOptions::default();
    assert_eq!(options.check_type, CheckType::Crc64);
    assert_eq!(options.block_size, None);
    assert!(options.filters.is_empty());
    assert_eq!(options.lzma_options.dict_size, 8 << 20);

    let mut options = XZOptions::with_preset(3);
    assert_eq!(options.lzma_options.dict_size, 4 << 20);
    assert_eq!(options.lzma_options.nice_len, 273);
    assert_eq!(options.lzma_options.depth_limit, 48);
    options.set_check_sum_type(CheckType::Sha256);
    options.set_block_size(Some(77));
    options.prepend_pre_filter(FilterType::BcjX86, 0);
    options.prepend_pre_filter(FilterType::Delta, 2);
    assert_eq!(options.check_type, CheckType::Sha256);
    assert_eq!(options.block_size, Some(77));
    assert_eq!(
        options.filters,
        vec![FilterConfig::new_delta(2), FilterConfig::new_bcj_x86(0)]
    );
    assert_eq!(
        XZOptions::with_preset(12).lzma_options.dict_size,
        XZOptions::with_preset(9).lzma_options.dict_size
    );
    let sizes: Vec<u32> = (0..10)
        .map(|preset| LZMAOptions::with_preset(preset).dict_size.trailing_zeros())
        .collect();
    assert_eq!(sizes, vec![18, 20, 21, 22, 22, 23, 23, 24, 25, 26]);
}

#[test]
fn padding_fills_up_words() {
    let sizes: Vec<usize> = (0..9).map(padding_needed).collect();
    assert_eq!(sizes, vec![0, 3, 2, 1, 0, 3, 2, 1, 0]);
    assert_eq!(get_block_header_size(), 12);
}

#[test]
fn bounded_reader_ends_at_its_limit() {
    let mut reader = BoundedReader::new(&b"abcdef"[..], 4);
    let mut buf = [0u8; 3];
    assert_eq!(reader.read(&mut buf).unwrap(), 3);
    assert_eq!(&buf, b"abc");
    assert_eq!(reader.read(&mut buf).unwrap(), 1);
    assert_eq!(buf[0], b'd');
    assert_eq!(reader.read(&mut buf).unwrap(), 0);
    assert_eq!(reader.into_inner(), b"ef");
}

#[test]
fn shared_reader_counts() {
    let mut reader = SharedReader::new(&b"abcdef"[..], 10);
    let mut buf = [0u8; 4];
    assert_eq!(reader.read(&mut buf).unwrap(), 4);
    assert_eq!(reader.compressed_bytes_read, 14);
    assert_eq!(reader.read(&mut buf).unwrap(), 2);
    assert_eq!(reader.read(&mut buf).unwrap(), 0);
    assert_eq!(reader.compressed_bytes_read, 16);
}

#[test]
fn block_padding() {
    let mut reader: &[u8] = &[0, 0, 9];
    assert!(consume_padding(&mut reader, 6).is_ok());
    assert_eq!(reader, &[9]);
    assert!(consume_padding(&mut reader, 8).is_ok());
    assert_eq!(reader, &[9]);
    assert_eq!(
        message(consume_padding(&mut reader, 7).unwrap_err()),
        "invalid XZ block padding"
    );
    let mut reader: &[u8] = &[0];
    assert_eq!(
        message(consume_padding(&mut reader, 6).unwrap_err()),
        "incomplete XZ block padding"
    );
    assert!(check_padding(&[0, 0, 0], 3, 3).is_ok());
    assert_eq!(
        message(check_padding(&[0, 1, 0], 3, 3).unwrap_err()),
        "invalid XZ block padding"
    );
    assert_eq!(
        message(check_padding(&[0, 0, 0], 3, 2).unwrap_err()),
        "incomplete XZ block padding"
    );
}

fn with_magic(before: &[u8], after: &[u8]) -> Vec<u8> {
    let mut bytes = before.to_vec();
    bytes.extend_from_slice(&[0xFD, b'7', b'z', b'X', b'Z', 0x00]);
    bytes.extend_from_slice(after);
    bytes
}

#[test]
fn next_stream_is_found_behind_padding() {
    for padding in [0, 4, 8] {
        let bytes = with_magic(&vec![0; padding], &[1, 2]);
        let mut reader = bytes.as_slice();
        assert!(try_start_next_stream(&mut reader).unwrap());
        assert_eq!(reader, &[1, 2]);
    }
    let mut reader: &[u8] = &[];
    assert!(!try_start_next_stream(&mut reader).unwrap());
    let mut reader: &[u8] = &[0, 0, 0];
    assert!(!try_start_next_stream(&mut reader).unwrap());
}

#[test]
fn bad_data_after_a_stream() {
    let mut reader: &[u8] = &[0, 0, 0, 0, 7];
    assert_eq!(
        message(try_start_next_stream(&mut reader).unwrap_err()),
        "invalid data after stream"
    );
    let mut reader: &[u8] = &[0xFD, b'7', b'z'];
    assert_eq!(
        message(try_start_next_stream(&mut reader).unwrap_err()),
        "incomplete XZ magic bytes"
    );
    let mut reader: &[u8] = &[0xFD, b'7', b'z', b'X', b'X', 0x00];
    assert_eq!(
        message(try_start_next_stream(&mut reader).unwrap_err()),
        "invalid data after stream padding"
    );
    let bytes = with_magic(&[0, 0], &[]);
    let mut reader = bytes.as_slice();
    assert_eq!(
        message(try_start_next_stream(&mut reader).unwrap_err()),
        "stream padding size not multiple of 4"
    );
}

#[test]
fn reader_goes_through_a_stream() {
    let mut reader = XZReader::new(false);
    assert_eq!(reader.next_step(), ReadStep::StreamHeader);
    reader.stream_header_read(CheckType::Crc32);
    assert_eq!(reader.next_step(), ReadStep::BlockHeader);
    reader.block_header_read();
    assert_eq!(reader.next_step(), ReadStep::BlockData);
    assert!(reader.block_data_read(b"12345"));
    assert!(reader.block_data_read(b"6789"));
    assert!(!reader.block_data_read(b""));
    let mut rest: &[u8] = &[0x26, 0x39, 0xF4, 0xCB, 42];
    assert!(reader.verify_block_checksum(&mut rest).is_ok());
    assert_eq!(rest, &[42]);
    assert_eq!(reader.next_step(), ReadStep::BlockHeader);
    assert!(reader.index_read(1).is_ok());
    assert_eq!(
        message(reader.index_read(2).unwrap_err()),
        "number of blocks processed doesn't match index records"
    );
    assert!(reader.footer_read(0, 1).is_ok());
    assert_eq!(
        message(reader.footer_read(0, 4).unwrap_err()),
        "stream header and footer flags mismatch"
    );
    assert!(reader.footer_read(1, 1).is_err());
    assert_eq!(reader.stream_ended(), AfterStream::Done);
    assert_eq!(reader.next_step(), ReadStep::Done);
}

#[test]
fn reader_goes_on_with_the_next_stream() {
    let mut reader = XZReader::new(true);
    reader.stream_header_read(CheckType::Crc32);
    reader.block_header_read();
    let mut rest: &[u8] = &[0, 0, 0, 0];
    assert!(reader.verify_block_checksum(&mut rest).is_ok());
    assert_eq!(reader.stream_ended(), AfterStream::TryNextStream);
    reader.next_stream_read(Some(CheckType::NoCheck));
    assert_eq!(reader.next_step(), ReadStep::BlockHeader);
    assert!(reader.index_read(0).is_ok());
    assert!(reader.footer_read(0, 0).is_ok());
    reader.next_stream_read(None);
    assert_eq!(reader.next_step(), ReadStep::Done);
}

#[test]
fn reader_rejects_a_wrong_checksum() {
    let mut reader = XZReader::new(false);
    reader.stream_header_read(CheckType::Crc32);
    reader.block_header_read();
    reader.block_data_read(b"123456780");
    let mut rest: &[u8] = &[0x26, 0x39, 0xF4, 0xCB];
    assert_eq!(
        message(reader.verify_block_checksum(&mut rest).unwrap_err()),
        "invalid block checksum"
    );
    reader.block_header_read();
    let mut rest: &[u8] = &[0x26];
    assert_eq!(
        message(reader.verify_block_checksum(&mut rest).unwrap_err()),
        "eof"
    );
}

fn small_options(block_size: Option<u64>) -> XZOptions {
    let mut options = XZOptions::with_preset(0);
    options.lzma_options.dict_size = 4;
    options.set_check_sum_type(CheckType::Crc32);
    options.set_block_size(block_size);
    options
}

#[test]
fn writer_cuts_the_input_into_blocks() {
    let mut writer = XZWriter::new(small_options(Some(9))).unwrap();
    let input = b"123456789123456789ab";
    let mut remaining: &[u8] = input;
    let mut steps = Vec::new();
    let mut written: u64 = 0;
    loop {
        let step = writer.next_write_step(remaining.len()).unwrap();
        steps.push(step);
        match step {
            WriteStep::StreamHeader => {
                written += 12;
                writer.stream_header_written();
            }
            WriteStep::PrepareBlock(n) => {
                written += 12;
                writer.block_prepared(12, written);
                writer.bytes_written(&remaining[..n]);
                remaining = &remaining[n..];
                written += 5;
            }
            WriteStep::Write(n) => {
                writer.bytes_written(&remaining[..n]);
                remaining = &remaining[n..];
                written += 5;
            }
            WriteStep::FinishBlock => {
                let tail = writer.finish_current_block(written);
                assert_eq!(tail, vec![0, 0, 0, 0x26, 0x39, 0xF4, 0xCB]);
                written += tail.len() as u64;
            }
            WriteStep::Done => break,
        }
    }
    assert_eq!(
        steps,
        vec![
            WriteStep::StreamHeader,
            WriteStep::PrepareBlock(9),
            WriteStep::FinishBlock,
            WriteStep::PrepareBlock(9),
            WriteStep::FinishBlock,
            WriteStep::PrepareBlock(2),
            WriteStep::Done,
        ]
    );
    assert_eq!(writer.next_finish_step(), FinishStep::FinishBlock);
    writer.finish_current_block(written);
    assert_eq!(writer.next_finish_step(), FinishStep::IndexAndFooter);
    let record = |uncompressed_size| IndexRecord {
        unpadded_size: 12 + 5 + 4,
        uncompressed_size,
    };
    assert_eq!(writer.index_records(), &vec![record(9), record(9), record(2)]);
    writer.finish();
    assert_eq!(writer.next_finish_step(), FinishStep::Done);
    assert_eq!(
        message(writer.next_write_step(1).unwrap_err()),
        "XZWriter already finished"
    );
}

#[test]
fn block_ends_do_not_depend_on_how_the_data_is_cut() {
    for (total, piece) in [(1usize, 1usize), (8, 3), (9, 2), (10, 10), (27, 4), (28, 28), (40, 7)] {
        let mut writer = XZWriter::new(small_options(Some(9))).unwrap();
        let mut position = 0u64;
        let mut left = total;
        while left > 0 {
            let mut remaining = piece.min(left);
            left -= remaining;
            loop {
                match writer.next_write_step(remaining).unwrap() {
                    WriteStep::StreamHeader => writer.stream_header_written(),
                    WriteStep::PrepareBlock(n) => {
                        position += 12;
                        writer.block_prepared(12, position);
                        writer.bytes_written(&vec![0; n]);
                        remaining -= n;
                    }
                    WriteStep::Write(n) => {
                        writer.bytes_written(&vec![0; n]);
                        remaining -= n;
                    }
                    WriteStep::FinishBlock => {
                        position += writer.finish_current_block(position).len() as u64;
                    }
                    WriteStep::Done => break,
                }
            }
            assert_eq!(remaining, 0);
        }
        assert_eq!(writer.index_records().len(), (total - 1) / 9);
        assert!(writer.index_records().iter().all(|record| record.uncompressed_size == 9));
        writer.finish_current_block(position);
        let last = writer.index_records().last().unwrap().uncompressed_size;
        assert_eq!(last as usize, total - 9 * ((total - 1) / 9));
    }
}

#[test]
fn writer_without_block_size_has_one_block() {
    let mut writer = XZWriter::new(small_options(None)).unwrap();
    assert_eq!(writer.next_finish_step(), FinishStep::StreamHeader);
    writer.stream_header_written();
    assert_eq!(writer.next_write_step(1000).unwrap(), WriteStep::PrepareBlock(1000));
    writer.block_prepared(12, 24);
    writer.bytes_written(&[0; 1000]);
    assert_eq!(writer.next_write_step(0).unwrap(), WriteStep::Done);
    assert_eq!(writer.next_write_step(7).unwrap(), WriteStep::Write(7));
}

#[test]
fn writer_without_data_has_no_blocks() {
    let mut writer = XZWriter::new(XZOptions::with_preset(6)).unwrap();
    assert_eq!(writer.next_finish_step(), FinishStep::StreamHeader);
    writer.stream_header_written();
    assert_eq!(writer.next_finish_step(), FinishStep::IndexAndFooter);
    assert!(writer.index_records().is_empty());
    writer.finish();
    assert_eq!(writer.next_finish_step(), FinishStep::Done);
}

#[test]
fn writer_options() {
    let mut options = small_options(Some(1));
    options.prepend_pre_filter(FilterType::BcjX86, 0);
    options.prepend_pre_filter(FilterType::Delta, 2);
    let mut writer = XZWriter::new(options.clone()).unwrap();
    assert_eq!(writer.dict_size(), 4);
    assert_eq!(writer.check_type(), CheckType::Crc32);
    let lzma2 = FilterConfig {
        filter_type: FilterType::LZMA2,
        property: 0,
    };
    assert_eq!(
        writer.filters(),
        &vec![FilterConfig::new_delta(2), FilterConfig::new_bcj_x86(0), lzma2]
    );
    assert_eq!(
        writer.chain_order(),
        vec![
            FilterStage::Lzma2,
            FilterStage::Bcj { arch: BcjArch::X86, start_offset: 0 },
            FilterStage::Delta { distance: 2 }
        ]
    );
    // The block size is at least the dictionary size.
    writer.stream_header_written();
    assert_eq!(writer.next_write_step(100).unwrap(), WriteStep::PrepareBlock(4));
    writer.block_prepared(12, 24);
    writer.bytes_written(b"a");
    assert_eq!(writer.next_write_step(100).unwrap(), WriteStep::Write(3));

    options.prepend_pre_filter(FilterType::BcjARM, 0);
    assert!(XZWriter::new(options.clone()).is_ok());
    options.prepend_pre_filter(FilterType::BcjARM, 0);
    assert_eq!(
        message(XZWriter::new(options).err().unwrap()),
        "XZ allows only at most 3 pre-filters plus LZMA2"
    );
}

#[test]
fn splitter_keeps_every_byte() {
    let mut splitter = Splitter::new(3);
    let mut input: &[u8] = b"abcdefgh";
    let mut units = Vec::new();
    while !input.is_empty() {
        let taken = splitter.fill(input);
        input = &input[taken..];
        if splitter.is_full() {
            units.push(splitter.take_unit());
        }
    }
    units.push(splitter.take_unit());
    assert!(splitter.is_empty());
    assert_eq!(units, vec![b"abc".to_vec(), b"def".to_vec(), b"gh".to_vec()]);
}
