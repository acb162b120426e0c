use lzma_core::enc::lzma2_writer_mt::{LZMA2WriterMT, END_OF_STREAM};
use lzma_core::error::Error;
use lzma_core::lzip::members::{scan_members, LZIPMember, MemberScanner, ScanStep};
use lzma_core::lzip::reader_mt::{ChunkStep, DispatchStep, LZIPReaderMT};
use lzma_core::mt::collector::{Collector, LostChunk, PullStep, SendStep, State};
use lzma_core::mt::order::Order;
use lzma_core::mt::workers::{clamp_workers, should_spawn, Worker, WorkerState, WorkerStep};
use lzma_core::options::{clamp_size, LZMA2Options, LZMAOptions};
use lzma_core::xz::block::IndexRecord;
use lzma_core::xz::check::CheckType;
use lzma_core::xz::filter::{FilterConfig, FilterType};
use lzma_core::xz::options::XZOptions;
use lzma_core::xz::writer_mt::{finish_unit, XZWriterMT};

fn message(error: Error) -> &'static str {
    match error {
        Error::Eof => "eof",
        Error::BrokenPipe(text) => text,
        Error::InvalidData(text) => text,
        Error::InvalidInput(text) => text,
        Error::Other(text) => text,
    }
}

#[test]
fn workers_are_limited() {
    assert_eq!(clamp_workers(0), 1);
    assert_eq!(clamp_workers(1), 1);
    assert_eq!(clamp_workers(16), 16);
    assert_eq!(clamp_workers(256), 256);
    assert_eq!(clamp_workers(1000), 256);
    assert!(should_spawn(1, 2, 2, 3));
    assert!(!should_spawn(0, 2, 2, 3));
    assert!(!should_spawn(1, 1, 2, 3));
    assert!(!should_spawn(1, 3, 3, 3));
}

#[test]
fn workers_go_through_their_states() {
    let mut worker = Worker::new();
    assert_eq!(worker.begin(false), WorkerStep::Steal);
    assert_eq!(worker.stolen(Some(7)), WorkerStep::Work);
    assert_eq!(worker.worked(true), WorkerStep::Send(7));
    assert_eq!(worker.sent(true), WorkerStep::Next);
    assert_eq!(worker.state, WorkerState::Idle);
    assert_eq!(worker.begin(true), WorkerStep::Stop);
    assert_eq!(worker.state, WorkerState::Stopped);

    let mut worker = Worker::new();
    worker.begin(false);
    assert_eq!(worker.stolen(None), WorkerStep::Stop);

    let mut worker = Worker::new();
    worker.begin(false);
    worker.stolen(Some(8));
    assert_eq!(worker.worked(false), WorkerStep::Fail);
    assert_eq!(worker.state, WorkerState::Stopped);

    let mut worker = Worker::new();
    worker.begin(false);
    worker.stolen(Some(8));
    worker.worked(true);
    assert_eq!(worker.sent(false), WorkerStep::Abandon);
    assert_eq!(worker.state, WorkerState::Stopped);
}

#[test]
fn chunks_come_out_in_order() {
    let mut order = Order::new();
    assert_eq!(order.accept(2, 'c'), None);
    assert_eq!(order.take_next(), None);
    assert_eq!(order.accept(0, 'a'), Some('a'));
    assert_eq!(order.take_next(), None);
    assert_eq!(order.accept(3, 'd'), None);
    assert_eq!(order.accept(1, 'b'), Some('b'));
    assert_eq!(order.take_next(), Some('c'));
    assert_eq!(order.take_next(), Some('d'));
    assert_eq!(order.take_next(), None);
    assert_eq!(order.next(), 4);
    assert!(order.is_empty());
}

#[test]
fn collector_goes_through_its_states() {
    let mut collector: Collector<char> = Collector::new();
    assert_eq!(collector.state, State::Writing);
    assert_eq!(collector.dispatched(), 0);
    assert_eq!(collector.dispatched(), 1);
    assert!(matches!(collector.next_step(None, "unknown", true), PullStep::Receive));
    assert!(matches!(collector.next_step(None, "unknown", false), PullStep::TryReceive));
    assert_eq!(collector.received(1, 'b'), None);
    assert!(collector.finish());
    assert_eq!(collector.state, State::Finishing);
    assert_eq!(collector.last_sequence_id, Some(1));
    assert!(matches!(collector.next_step(None, "unknown", true), PullStep::Receive));
    assert_eq!(collector.received(0, 'a'), Some('a'));
    assert!(matches!(collector.next_step(None, "unknown", true), PullStep::Chunk('b')));
    assert!(!collector.must_wait(2));
    assert!(collector.must_wait(3));
    assert!(matches!(collector.next_step(None, "unknown", true), PullStep::End));
    assert_eq!(collector.state, State::Finished);
    assert!(matches!(collector.next_step(None, "unknown", true), PullStep::End));
}

#[test]
fn collector_fails() {
    let mut collector: Collector<char> = Collector::new();
    collector.received(0, 'a');
    collector.received(1, 'b');
    collector.received(3, 'd');
    collector.received(2, 'c');
    // A chunk that is there comes before an error.
    let stored = Some(Error::InvalidData("bad"));
    assert!(matches!(collector.next_step(stored, "unknown", true), PullStep::Chunk('d')));
    match collector.next_step(stored, "unknown", true) {
        PullStep::Fail(error) => assert_eq!(message(error), "bad"),
        _ => panic!("no failure"),
    }
    assert_eq!(collector.state, State::Error);
    match collector.next_step(None, "unknown", true) {
        PullStep::Fail(error) => assert_eq!(message(error), "unknown"),
        _ => panic!("no failure"),
    }
}

#[test]
fn collector_notices_lost_chunks() {
    let mut collector: Collector<char> = Collector::new();
    for _ in 0..3 {
        collector.dispatched();
    }
    assert_eq!(collector.disconnected(), None);
    assert_eq!(collector.state, State::Finishing);
    collector.finish();
    assert_eq!(collector.received(0, 'a'), Some('a'));
    assert_eq!(collector.disconnected(), Some(LostChunk { last: 2, got: 0 }));
    assert_eq!(collector.state, State::Error);
}

#[test]
fn nothing_to_finish() {
    let mut collector: Collector<char> = Collector::new();
    assert!(!collector.finish());
    assert_eq!(collector.state, State::Writing);
    collector.queue_closed();
    assert_eq!(collector.state, State::Error);
    assert_eq!(collector.next_send_step(0, 0), SendStep::Idle);
    assert_eq!(collector.next_send_step(1, 4), SendStep::Drain);
    assert_eq!(collector.next_send_step(1, 3), SendStep::Push);
}

fn lzma2_options(stream_size: Option<u64>) -> LZMA2Options {
    let mut lzma_options = LZMAOptions::with_preset(0);
    lzma_options.dict_size = 4;
    lzma_options.preset_dict = Some(vec![1, 2, 3]);
    LZMA2Options {
        lzma_options,
        stream_size,
    }
}

#[test]
fn sizes_are_at_least_the_dictionary_size() {
    assert_eq!(clamp_size(3, 4), 4);
    assert_eq!(clamp_size(4, 4), 4);
    assert_eq!(clamp_size(5, 4), 5);
}

#[test]
fn lzma2_writer_compresses_in_order() {
    let mut writer = LZMA2WriterMT::new(lzma2_options(Some(5)), 3).ok().unwrap();
    assert_eq!(writer.max_workers(), 3);
    assert!(writer.worker_options().lzma_options.preset_dict.is_none());
    assert_eq!(writer.worker_options().lzma_options.dict_size, 4);
    assert_eq!(writer.begin_write(0).unwrap(), false);
    assert_eq!(writer.begin_write(12).unwrap(), true);

    let mut input: &[u8] = b"hello world!";
    let mut queue: Vec<(u64, Vec<u8>)> = Vec::new();
    while !input.is_empty() {
        let taken = writer.write(input);
        input = &input[taken..];
        if writer.unit_is_full() {
            assert_eq!(writer.next_send_step(queue.len()), SendStep::Push);
            queue.push(writer.take_work());
            writer.work_pushed();
        }
    }
    assert_eq!(writer.next_send_step(4), SendStep::Drain);
    assert!(writer.drained_nothing().is_ok());
    queue.push(writer.take_work());
    writer.work_pushed();
    assert_eq!(writer.next_send_step(0), SendStep::Idle);
    assert_eq!(writer.flush_target(), 3);
    assert!(writer.must_wait(3));

    let mut out: Vec<u8> = Vec::new();
    assert!(writer.finish());
    // The workers are done in another order.
    queue.rotate_left(1);
    for (sequence, unit) in queue {
        if let Some(chunk) = writer.received(sequence, unit.to_ascii_uppercase()) {
            out.extend_from_slice(&chunk);
        }
        while let PullStep::Chunk(chunk) = writer.next_chunk_step(None, true) {
            out.extend_from_slice(&chunk);
        }
    }
    assert!(matches!(writer.next_chunk_step(None, true), PullStep::End));
    out.push(END_OF_STREAM);
    assert_eq!(out, b"HELLO WORLD!\0");
    assert_eq!(
        message(writer.begin_write(1).unwrap_err()),
        "Cannot write after finishing"
    );
    assert_eq!(
        message(writer.drained_nothing().unwrap_err()),
        "Stream has been closed or is in an error state."
    );
    assert_eq!(
        message(writer.flush_ended()),
        "Compression stream ended unexpectedly during flush"
    );
}

#[test]
fn lzma2_writer_fails() {
    assert_eq!(
        message(LZMA2WriterMT::new(lzma2_options(None), 3).err().unwrap()),
        "stream size must be set"
    );
    let mut writer = LZMA2WriterMT::new(lzma2_options(Some(1)), 0).ok().unwrap();
    assert_eq!(writer.max_workers(), 1);
    // A unit has at least the size of the dictionary.
    assert_eq!(writer.write(b"abcdef"), 4);
    writer.take_work();
    assert_eq!(message(writer.work_refused()), "Worker threads have shut down");
    match writer.next_chunk_step(None, true) {
        PullStep::Fail(error) => {
            assert_eq!(message(error), "Compression failed with an unknown error")
        }
        _ => panic!("no failure"),
    }
    let mut writer = LZMA2WriterMT::new(lzma2_options(Some(1)), 0).ok().unwrap();
    assert_eq!(writer.disconnected(), None);
    assert!(!writer.finish());
}

fn xz_options(block_size: Option<u64>) -> XZOptions {
    let mut options = XZOptions::with_preset(0);
    options.lzma_options.dict_size = 4;
    options.set_check_sum_type(CheckType::Crc32);
    options.set_block_size(block_size);
    options
}

#[test]
fn xz_writer_writes_blocks() {
    let mut options = xz_options(Some(9));
    options.prepend_pre_filter(FilterType::Delta, 1);
    let mut writer = XZWriterMT::new(options, 2).ok().unwrap();
    assert!(writer.needs_header());
    writer.stream_header_written();
    assert!(!writer.needs_header());
    assert_eq!(writer.options().check_type, CheckType::Crc32);
    assert_eq!(
        writer.block_filters(),
        vec![
            FilterConfig::new_delta(1),
            FilterConfig {
                filter_type: FilterType::LZMA2,
                property: 0
            }
        ]
    );
    assert_eq!(writer.begin_write(9).unwrap(), true);
    assert_eq!(writer.write(b"123456789x"), 9);
    assert!(writer.unit_is_full());
    assert_eq!(writer.next_send_step(0), SendStep::Push);
    let (sequence, unit) = writer.take_work();
    assert_eq!(sequence, 0);
    writer.work_pushed();
    let block = finish_unit(CheckType::Crc32, &unit, vec![5; 6]);
    assert_eq!(block.uncompressed_size, 9);
    assert_eq!(block.checksum, vec![0x26, 0x39, 0xF4, 0xCB]);
    let block = writer.received(sequence, block).unwrap();
    let tail = writer.write_compressed_block(12, &block);
    assert_eq!(tail, vec![0, 0, 0x26, 0x39, 0xF4, 0xCB]);
    assert_eq!(
        writer.index_records(),
        &vec![IndexRecord {
            unpadded_size: 22,
            uncompressed_size: 9
        }]
    );
    assert!(!writer.must_wait(writer.flush_target()));
    assert!(writer.finish());
    assert!(matches!(writer.next_chunk_step(None, true), PullStep::End));
    assert_eq!(
        message(writer.begin_write(1).unwrap_err()),
        "cannot write after finishing"
    );
    assert_eq!(
        message(writer.drained_nothing().unwrap_err()),
        "stream has been closed or is in an error state."
    );
    assert_eq!(
        message(writer.flush_ended()),
        "compression stream ended unexpectedly during flush"
    );
}

#[test]
fn xz_writer_fails() {
    assert_eq!(
        message(XZWriterMT::new(xz_options(None), 2).err().unwrap()),
        "block size must be set"
    );
    let mut options = xz_options(None);
    for _ in 0..4 {
        options.prepend_pre_filter(FilterType::BcjX86, 0);
    }
    assert_eq!(
        message(XZWriterMT::new(options, 2).err().unwrap()),
        "XZ allows only at most 3 pre-filters plus LZMA2"
    );
    let mut writer = XZWriterMT::new(xz_options(Some(4)), 2).ok().unwrap();
    writer.write(b"abcd");
    writer.take_work();
    assert_eq!(message(writer.work_refused()), "worker threads have shut down");
    match writer.next_chunk_step(None, true) {
        PullStep::Fail(error) => {
            assert_eq!(message(error), "compression failed with an unknown error")
        }
        _ => panic!("no failure"),
    }
}

fn member(content: &[u8]) -> Vec<u8> {
    let mut bytes = b"LZIP".to_vec();
    bytes.extend_from_slice(&[1, 12]);
    bytes.extend_from_slice(content);
    bytes.extend_from_slice(&[0; 12]);
    let size = bytes.len() as u64 + 8;
    bytes.extend_from_slice(&size.to_le_bytes());
    bytes
}

#[test]
fn members_are_found_from_the_end() {
    let mut file = member(b"abc");
    file.extend_from_slice(&member(b""));
    file.extend_from_slice(&member(b"defghi"));
    let members = scan_members(&file).unwrap();
    let at = |start_pos, compressed_size| LZIPMember {
        start_pos,
        compressed_size,
    };
    assert_eq!(members, vec![at(0, 29), at(29, 26), at(55, 32)]);

    // A few bytes before the first member are ignored.
    let mut shifted = vec![9; 19];
    shifted.extend_from_slice(&file);
    assert_eq!(scan_members(&shifted).unwrap()[0], at(19, 29));
}

#[test]
fn files_without_members() {
    assert_eq!(
        message(scan_members(&[0; 25]).unwrap_err()),
        "File too small to contain a valid LZIP member"
    );
    assert_eq!(
        message(scan_members(&[0; 26]).unwrap_err()),
        "Invalid LZIP member size in trailer"
    );
    let mut file = member(b"abc");
    file[0] = b'l';
    assert_eq!(message(scan_members(&file).unwrap_err()), "Invalid LZIP magic bytes");
    let mut file = member(b"abc");
    let len = file.len();
    file[len - 8] = 30;
    assert_eq!(
        message(scan_members(&file).unwrap_err()),
        "Invalid LZIP member size in trailer"
    );
    file[len - 8] = 2;
    assert_eq!(message(scan_members(&file).unwrap_err()), "eof");
}

#[test]
fn scanner_step_by_step() {
    let file = member(b"abc");
    let mut scanner = MemberScanner::new(29).ok().unwrap();
    assert_eq!(scanner.next_step(), ScanStep::Trailer(9));
    assert_eq!(scanner.trailer_read(&file[9..]).unwrap(), 0);
    assert_eq!(
        message(scanner.magic_read(b"PILZ").unwrap_err()),
        "Invalid LZIP magic bytes"
    );
    scanner.magic_read(b"LZIP").unwrap();
    assert_eq!(scanner.next_step(), ScanStep::Done);
    assert_eq!(scanner.finish().unwrap().len(), 1);
    assert_eq!(
        message(MemberScanner::new(30).ok().unwrap().finish().unwrap_err()),
        "No valid LZIP members found"
    );
}

fn two_members() -> Vec<LZIPMember> {
    vec![
        LZIPMember {
            start_pos: 0,
            compressed_size: 29,
        },
        LZIPMember {
            start_pos: 29,
            compressed_size: 26,
        },
    ]
}

#[test]
fn lzip_reader_reads_in_order() {
    let members = two_members();
    let mut reader = LZIPReaderMT::new(members.clone(), 300);
    assert_eq!(reader.max_workers(), 256);
    assert_eq!(reader.member_count(), 2);
    assert!(matches!(reader.next_chunk_step(None), ChunkStep::TryReceive));
    assert_eq!(reader.next_dispatch_step(4), DispatchStep::Wait);
    assert_eq!(reader.next_dispatch_step(0), DispatchStep::Dispatch(0, members[0]));
    reader.member_dispatched();
    assert_eq!(reader.next_dispatch_step(1), DispatchStep::Dispatch(1, members[1]));
    reader.member_dispatched();
    assert_eq!(reader.next_dispatch_step(2), DispatchStep::AllDispatched);
    assert!(matches!(reader.next_chunk_step(None), ChunkStep::Receive));
    assert_eq!(reader.received(1, b"world".to_vec()), None);
    let first = reader.received(0, b"hello".to_vec()).unwrap();
    let mut buf = [0u8; 3];
    assert_eq!(reader.read(&mut buf), 0);
    reader.set_chunk(first);
    assert_eq!(reader.read(&mut buf), 3);
    assert_eq!(&buf, b"hel");
    assert_eq!(reader.read(&mut buf), 2);
    assert_eq!(&buf, b"lol");
    match reader.next_chunk_step(None) {
        ChunkStep::Chunk(chunk) => assert_eq!(chunk, b"world"),
        _ => panic!("no chunk"),
    }
    assert!(matches!(reader.next_chunk_step(None), ChunkStep::End));
    assert!(matches!(reader.next_chunk_step(None), ChunkStep::End));
}

#[test]
fn lzip_reader_fails() {
    let mut reader = LZIPReaderMT::new(two_members(), 1);
    reader.dispatch_failed();
    match reader.next_chunk_step(None) {
        ChunkStep::Fail(error) => {
            assert_eq!(message(error), "decompression failed with an unknown error")
        }
        _ => panic!("no failure"),
    }
    let mut reader = LZIPReaderMT::new(two_members(), 1);
    match reader.next_chunk_step(Some(Error::Other("worker"))) {
        ChunkStep::Fail(error) => assert_eq!(message(error), "worker"),
        _ => panic!("no failure"),
    }
    assert_eq!(message(reader.queue_closed_error()), "Worker threads have shut down");
    let mut reader = LZIPReaderMT::new(two_members(), 1);
    reader.disconnected();
    assert!(matches!(reader.next_chunk_step(None), ChunkStep::Receive));
    reader.disconnected();
    assert!(matches!(reader.next_chunk_step(None), ChunkStep::End));
}
