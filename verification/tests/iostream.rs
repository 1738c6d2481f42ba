use jpegstream::iostream::{
    iostream, ByteOrder, InputError, InputStream, IoStream, OutputError, OutputStream,
    StreamBuffer,
};
use std::sync::Arc;

#[test]
fn buffer_reads_in_write_order() {
    let mut buffer = StreamBuffer::new();
    assert_eq!(buffer.write(&[1, 2, 3]), Ok(3));
    assert_eq!(buffer.write(&[4]), Ok(1));
    let mut out = [0u8; 3];
    assert_eq!(buffer.read(&mut out), 3);
    assert_eq!(out, [1, 2, 3]);
    assert_eq!(buffer.len(), 4);
    assert_eq!(buffer.consume(2), 2);
    assert_eq!(buffer.len(), 2);
    let mut rest = [9u8; 4];
    assert_eq!(buffer.read(&mut rest), 2);
    assert_eq!(rest, [3, 4, 9, 9]);
    assert_eq!(buffer.consume(5), 2);
    assert!(buffer.is_empty());
}

#[test]
fn buffer_refuses_writes_after_eof_and_abort() {
    let mut buffer = StreamBuffer::new();
    assert_eq!(buffer.validate_for_write(), Ok(()));
    assert_eq!(buffer.write_eof(), Ok(()));
    assert!(buffer.eof_written());
    assert!(buffer.is_eof());
    assert_eq!(buffer.write(&[1]), Err(OutputError::EofWritten));
    assert_eq!(buffer.write_eof(), Err(OutputError::EofWritten));
    buffer.abort();
    assert!(buffer.is_aborted());
    assert_eq!(buffer.write(&[1]), Err(OutputError::ReaderAborted));
    assert_eq!(buffer.len(), 0);
}

#[test]
fn buffer_validates_reads() {
    let mut buffer = StreamBuffer::new();
    assert_eq!(buffer.validate_for_read(false), Ok(()));
    assert_eq!(buffer.validate_for_read(true), Ok(()));
    assert_eq!(buffer.write(&[7, 8]), Ok(2));
    assert_eq!(buffer.write_eof(), Ok(()));
    assert_eq!(buffer.validate_for_read(false), Ok(()));
    assert_eq!(buffer.validate_for_read(true), Err(InputError::UnexpectedEof(2)));
    buffer.abort();
    assert_eq!(buffer.validate_for_read(true), Err(InputError::UnexpectedSigAbort(2)));
    assert_eq!(buffer.validate_for_read(false), Ok(()));
    assert_eq!(buffer.consume(2), 2);
    assert_eq!(buffer.validate_for_read(false), Err(InputError::UnexpectedSigAbort(0)));
    buffer.close();
    assert!(buffer.is_closed());
    assert!(!buffer.is_open());
    assert_eq!(buffer.validate_for_read(false), Err(InputError::StreamClosed));
}

#[test]
fn buffer_parks_a_reader_only_while_bytes_can_come() {
    let mut buffer = StreamBuffer::new();
    assert!(buffer.park(3, 8));
    assert!(!buffer.reached_target());
    assert_eq!(buffer.write(&[1, 2, 3]), Ok(3));
    assert!(!buffer.park(3, 8));
    assert!(buffer.reached_target());
    assert!(buffer.park(4, 8));
    assert_eq!(buffer.write_eof(), Ok(()));
    assert!(!buffer.park(4, 8));
}

#[test]
fn buffer_hands_unread_data_to_the_writer_after_close() {
    let mut buffer = StreamBuffer::new();
    assert_eq!(buffer.write(&[5, 6, 7]), Ok(3));
    assert_eq!(buffer.take_unread_data(), None);
    assert_eq!(buffer.consume(1), 1);
    buffer.close();
    assert_eq!(buffer.take_unread_data(), Some(vec![6, 7]));
    assert_eq!(buffer.take_unread_data(), None);
    assert!(buffer.is_empty());
}

#[test]
fn every_byte_is_read_once_or_recovered() {
    let (mut input, output) = iostream(4);
    let written: Vec<u8> = (0u8..40).collect();
    assert_eq!(output.write(&written), Ok(40));
    let mut read = Vec::new();
    let mut chunk = [0u8; 7];
    for _ in 0..3 {
        assert_eq!(input.read(&mut chunk, true, false), Ok(7));
        read.extend_from_slice(&chunk);
    }
    assert_eq!(read, written[..21].to_vec());
    input.close();
    let recovered = output.unread_data().unwrap();
    // The reader may have taken bytes ahead of need: they are neither read
    // twice nor handed back.
    let ahead = 40 - read.len() - recovered.len();
    assert!(ahead <= 7);
    assert_eq!(recovered, written[21 + ahead..].to_vec());
    assert_eq!(output.unread_data(), None);
}

#[test]
fn stream_write_fails_after_abort_and_after_eof() {
    let (input, output) = iostream(8);
    assert_eq!(output.write(&[1, 2]), Ok(2));
    assert_eq!(output.len(), 2);
    assert!(!output.is_empty());
    assert!(!output.is_aborted());
    input.abort();
    assert!(output.is_aborted());
    assert!(input.is_aborted());
    assert_eq!(output.write(&[3]), Err(OutputError::ReaderAborted));
    assert_eq!(output.write_eof(), Err(OutputError::ReaderAborted));

    let (input, output) = iostream(8);
    assert_eq!(output.write_eof(), Ok(()));
    assert!(output.eof_written());
    assert!(input.eof_written());
    assert_eq!(output.write(&[3]), Err(OutputError::EofWritten));
}

#[test]
fn wait_for_close_fails_before_abort_and_returns_after_close() {
    let (input, output) = iostream(8);
    assert_eq!(output.wait_for_close(), Err(()));
    assert!(!output.is_closed());
    input.close();
    assert!(output.is_closed());
    assert!(input.is_closed());
    assert_eq!(output.wait_for_close(), Ok(()));
}

#[test]
fn closed_stream_refuses_reads() {
    let (mut input, output) = iostream(8);
    assert_eq!(output.write(&[1, 2, 3]), Ok(3));
    input.close();
    let mut buf = [0u8; 2];
    assert_eq!(input.read(&mut buf, true, false), Err(InputError::StreamClosed));
    assert_eq!(input.peek_byte(), Err(InputError::StreamClosed));
    assert_eq!(input.consume(1, false), Err(InputError::StreamClosed));
}

#[test]
fn read_reports_eof_and_abort_with_the_bytes_queued() {
    let (mut input, output) = iostream(0);
    assert_eq!(output.write(&[1, 2, 3]), Ok(3));
    assert_eq!(output.write_eof(), Ok(()));
    let mut buf = [0u8; 5];
    assert_eq!(input.read(&mut buf, true, false), Err(InputError::UnexpectedEof(3)));
    assert_eq!(buf, [0u8; 5]);
    assert_eq!(input.processed_len(), 0);
    assert_eq!(input.read(&mut buf[..3], true, false), Ok(3));
    assert_eq!(&buf[..3], &[1, 2, 3]);
    assert_eq!(input.read_byte(false), Err(InputError::UnexpectedEof(0)));
    assert!(input.is_eof());

    let (mut input, output) = iostream(0);
    assert_eq!(output.write(&[1]), Ok(1));
    input.abort();
    assert_eq!(input.read(&mut buf, true, false), Err(InputError::UnexpectedSigAbort(1)));
}

#[test]
fn peek_shows_bytes_and_leaves_them() {
    let (mut input, output) = iostream(2);
    assert_eq!(output.write(&[10, 20, 30, 40]), Ok(4));
    assert_eq!(input.peek_byte(), Ok(10));
    assert_eq!(input.peek_byte(), Ok(10));
    let mut two = [0u8; 2];
    assert_eq!(input.peek(&mut two, true), Ok(2));
    assert_eq!(two, [10, 20]);
    assert_eq!(input.processed_len(), 0);
    assert_eq!(input.view_retained_data(), &[] as &[u8]);
    assert_eq!(input.read_byte(true), Ok(10));
    assert_eq!(input.peek_byte(), Ok(20));
    assert_eq!(input.read_byte(false), Ok(20));
    assert_eq!(input.read_byte(true), Ok(30));
    assert_eq!(input.view_retained_data(), &[10, 30]);
    assert_eq!(input.processed_len(), 3);
}

#[test]
fn read_without_fill_gives_what_is_at_hand() {
    let (mut input, output) = iostream(64);
    assert_eq!(output.write(&[1, 2, 3]), Ok(3));
    let mut buf = [0u8; 8];
    assert_eq!(input.read(&mut buf, false, true), Ok(3));
    assert_eq!(&buf[..3], &[1, 2, 3]);
    assert_eq!(&buf[3..], &[0u8; 5]);
    assert_eq!(input.view_retained_data(), &[1, 2, 3]);
    let mut none: [u8; 0] = [];
    assert_eq!(input.read(&mut none, true, true), Ok(0));
}

#[test]
fn processed_len_counts_consumed_bytes_since_reset() {
    let (mut input, output) = iostream(3);
    let data: Vec<u8> = (0u8..20).collect();
    assert_eq!(output.write(&data), Ok(20));
    assert_eq!(input.processed_len(), 0);
    assert_eq!(input.read_byte(false), Ok(0));
    assert_eq!(input.processed_len(), 1);
    assert_eq!(input.peek_byte(), Ok(1));
    assert_eq!(input.processed_len(), 1);
    assert_eq!(input.consume(4, false), Ok(4));
    assert_eq!(input.processed_len(), 5);
    let mut buf = [0u8; 6];
    assert_eq!(input.read(&mut buf, true, false), Ok(6));
    assert_eq!(buf, [5, 6, 7, 8, 9, 10]);
    assert_eq!(input.processed_len(), 11);
    input.reset_processed_len();
    assert_eq!(input.processed_len(), 0);
    assert_eq!(input.read_byte(false), Ok(11));
    assert_eq!(input.processed_len(), 1);
}

#[test]
fn consume_skips_all_or_nothing_and_retains_on_request() {
    let (mut input, output) = iostream(4);
    assert_eq!(output.write(&[1, 2, 3, 4, 5, 6]), Ok(6));
    assert_eq!(output.write_eof(), Ok(()));
    assert_eq!(input.consume(2, true), Ok(2));
    assert_eq!(input.view_retained_data(), &[1, 2]);
    assert_eq!(input.consume(1, false), Ok(1));
    assert_eq!(input.view_retained_data(), &[1, 2]);
    // The error tells how many bytes were queued in the stream; the reader
    // may hold some of the three bytes left already.
    match input.consume(9, true) {
        Err(InputError::UnexpectedEof(queued)) => assert!(queued <= 3),
        other => panic!("unexpected answer {:?}", other),
    }
    assert_eq!(input.view_retained_data(), &[1, 2]);
    assert_eq!(input.processed_len(), 3);
    assert_eq!(input.consume(3, true), Ok(3));
    assert_eq!(input.view_retained_data(), &[1, 2, 4, 5, 6]);
    input.clear_retained_data();
    assert_eq!(input.view_retained_data(), &[] as &[u8]);
    assert_eq!(input.processed_len(), 6);
}

#[test]
fn read_u16_and_u32_follow_the_byte_order() {
    let (mut input, output) = iostream(16);
    assert_eq!(output.write(&[0x12, 0x34, 0x12, 0x34, 1, 2, 3, 4, 1, 2, 3, 4]), Ok(12));
    assert_eq!(input.read_u16(ByteOrder::BigEndian, true), Ok(0x1234));
    assert_eq!(input.read_u16(ByteOrder::LittleEndian, false), Ok(0x3412));
    assert_eq!(input.read_u32(ByteOrder::BigEndian, false), Ok(0x01020304));
    assert_eq!(input.read_u32(ByteOrder::LittleEndian, false), Ok(0x04030201));
    assert_eq!(input.view_retained_data(), &[0x12, 0x34]);
}

#[test]
fn len_counts_pending_and_queued_bytes() {
    let (mut input, output) = iostream(8);
    assert!(input.is_empty());
    assert_eq!(input.len(), 0);
    assert_eq!(output.write(&[1, 2, 3, 4, 5]), Ok(5));
    assert_eq!(input.len(), 5);
    assert_eq!(input.read_byte(false), Ok(1));
    assert_eq!(input.len(), 4);
    assert!(!input.is_empty());
    assert!(!input.is_eof());
}

#[test]
fn stream_endpoints_can_be_made_from_a_shared_stream() {
    let stream = Arc::new(IoStream::new());
    let mut input = InputStream::new(stream.clone(), 4);
    let output = OutputStream::new(stream.clone());
    assert_eq!(output.write(&[9, 8, 7]), Ok(3));
    assert_eq!(stream.len(), 3);
    assert!(!stream.is_empty());
    let mut peeked = [0u8; 2];
    assert_eq!(stream.peek(&mut peeked, 2), Ok(2));
    assert_eq!(peeked, [9, 8]);
    assert_eq!(stream.len(), 3);
    assert_eq!(stream.consume(1), Ok(1));
    assert_eq!(stream.len(), 2);
    assert_eq!(input.read_byte(false), Ok(8));
    assert_eq!(input.read_byte(false), Ok(7));
    assert_eq!(stream.write_eof(), Ok(()));
    assert!(stream.is_eof());
    assert!(stream.eof_written());
    stream.abort();
    assert!(stream.is_aborted());
    stream.close();
    assert!(stream.is_closed());
    assert_eq!(stream.wait_for_close(), Ok(()));
    assert_eq!(stream.take_unread_data(), None);
    let mut buf = [0u8; 1];
    assert_eq!(stream.read(&mut buf, 1), Err(InputError::StreamClosed));
}

#[test]
fn numbers_are_read_from_pending_bytes_whatever_the_stream_does() {
    let (mut input, output) = iostream(16);
    assert_eq!(output.write(&[0x12, 0x34, 0x56, 0x78, 0x9A, 0xBC]), Ok(6));
    let mut six = [0u8; 6];
    assert_eq!(input.peek(&mut six, true), Ok(6));
    // The six bytes are pending now: the stream is not asked again.
    input.abort();
    assert_eq!(output.write(&[1]), Err(OutputError::ReaderAborted));
    assert_eq!(input.read_u16(ByteOrder::BigEndian, false), Ok(0x1234));
    assert_eq!(input.read_u32(ByteOrder::LittleEndian, false), Ok(0xBC9A7856));
    assert!(input.read_u16(ByteOrder::BigEndian, false).is_err());
}

#[test]
fn buffer_serves_a_woken_reader_in_full_or_not_at_all() {
    let mut buffer = StreamBuffer::new();
    assert_eq!(buffer.write(&[1, 2, 3, 4, 5]), Ok(5));
    let mut out = [9u8; 3];
    // A look leaves the bytes queued; a read takes them.
    assert_eq!(buffer.serve(&mut out, 2, false), Ok(3));
    assert_eq!(out, [1, 2, 3]);
    assert_eq!(buffer.len(), 5);
    assert_eq!(buffer.serve(&mut out, 3, true), Ok(3));
    assert_eq!(buffer.len(), 2);
    // Too few bytes are queued: nothing is served, and a reader that was
    // woken for nothing is told of an abort.
    let mut more = [9u8; 4];
    assert_eq!(buffer.serve(&mut more, 3, true), Err(InputError::UnexpectedSigAbort(2)));
    assert_eq!(more, [9u8; 4]);
    assert_eq!(buffer.len(), 2);
    assert_eq!(buffer.serve(&mut more, 1, true), Ok(2));
    assert_eq!(more, [4, 5, 9, 9]);
    assert_eq!(buffer.write(&[6]), Ok(1));
    assert_eq!(buffer.write_eof(), Ok(()));
    assert_eq!(buffer.serve(&mut more, 2, true), Err(InputError::UnexpectedEof(1)));
    buffer.close();
    assert_eq!(buffer.serve(&mut more, 0, true), Ok(1));
    assert_eq!(buffer.serve(&mut more, 1, true), Err(InputError::StreamClosed));
}

#[test]
fn buffer_discards_what_a_woken_reader_asked_for() {
    let mut buffer = StreamBuffer::new();
    assert_eq!(buffer.write(&[1, 2, 3]), Ok(3));
    assert_eq!(buffer.discard(2), Ok(2));
    assert_eq!(buffer.len(), 1);
    assert_eq!(buffer.discard(2), Err(InputError::UnexpectedSigAbort(1)));
    assert_eq!(buffer.len(), 1);
    buffer.abort();
    assert_eq!(buffer.discard(2), Err(InputError::UnexpectedSigAbort(1)));
    assert_eq!(buffer.discard(1), Ok(1));
    assert_eq!(buffer.discard(0), Ok(0));
    assert!(buffer.is_empty());
}

#[test]
fn buffer_lets_a_writer_wait_for_the_close_after_an_abort_only() {
    let mut buffer = StreamBuffer::new();
    assert_eq!(buffer.validate_for_close(), Err(()));
    assert_eq!(buffer.closed_verdict(), Err(()));
    assert_eq!(buffer.write_eof(), Ok(()));
    assert_eq!(buffer.validate_for_close(), Err(()));
    buffer.abort();
    assert_eq!(buffer.validate_for_close(), Ok(()));
    assert_eq!(buffer.closed_verdict(), Err(()));
    buffer.close();
    assert_eq!(buffer.validate_for_close(), Ok(()));
    assert_eq!(buffer.closed_verdict(), Ok(()));
}

#[test]
fn pending_bytes_stay_with_the_reader_after_close() {
    let (mut input, output) = iostream(16);
    assert_eq!(output.write(&[1, 2, 3]), Ok(3));
    let mut three = [0u8; 3];
    assert_eq!(input.peek(&mut three, true), Ok(3));
    input.close();
    // The bytes had left the queue: the writer gets none of them back.
    assert_eq!(output.unread_data(), None);
    assert_eq!(input.read_byte(false), Ok(1));
    assert_eq!(input.read_u16(ByteOrder::BigEndian, false), Ok(0x0203));
    assert_eq!(input.read_byte(false), Err(InputError::StreamClosed));
}

#[test]
fn take_pending_hands_out_what_the_reader_holds() {
    let (mut input, output) = iostream(16);
    assert_eq!(output.write(&[1, 2, 3, 4]), Ok(4));
    assert_eq!(input.take_pending(), Vec::<u8>::new());
    assert_eq!(input.peek_byte(), Ok(1));
    assert_eq!(input.read_byte(true), Ok(1));
    let held = input.take_pending();
    // The reader had taken the bytes off the queue when it looked at the
    // first: they are handed out and count as processed.
    assert_eq!(held, vec![2, 3, 4]);
    assert_eq!(input.processed_len(), 4);
    assert_eq!(input.view_retained_data(), &[1]);
    assert_eq!(input.take_pending(), Vec::<u8>::new());
    output.write_eof().unwrap();
    assert!(input.is_eof());
}
