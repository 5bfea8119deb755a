use netidx_sub::frame::{encode_header, read_be32, ChannelError, FrameReader, FrameWriter};

#[test]
fn header_is_big_endian_length() {
    assert_eq!(encode_header(0x01020304), vec![1, 2, 3, 4]);
    assert_eq!(encode_header(5), vec![0, 0, 0, 5]);
    assert_eq!(read_be32(&[0, 0, 1, 0, 9]), 256);
}

#[test]
fn queue_send_raw_frames_each_message() {
    let mut w = FrameWriter::new();
    assert_eq!(w.queue_send_raw(vec![7, 8, 9]), Ok(()));
    assert_eq!(w.queue_send_raw(vec![]), Ok(()));
    assert_eq!(w.bytes_queued(), 3 + 4 + 4);
    let mut flat = Vec::new();
    for i in 0..w.num_chunks() {
        flat.extend_from_slice(w.chunk(i));
    }
    assert_eq!(flat, vec![0, 0, 0, 3, 7, 8, 9, 0, 0, 0, 0]);
}

#[test]
fn advance_drops_written_bytes() {
    let mut w = FrameWriter::new();
    w.queue_send_raw(vec![1, 2, 3]).unwrap();
    w.advance(5);
    let mut flat = Vec::new();
    for i in 0..w.num_chunks() {
        flat.extend_from_slice(w.chunk(i));
    }
    assert_eq!(flat, vec![2, 3]);
    w.advance(100);
    assert_eq!(w.bytes_queued(), 0);
    assert_eq!(w.num_chunks(), 0);
}

#[test]
fn decode_waits_for_whole_message() {
    let mut r = FrameReader::new();
    r.fill(&[0, 0, 0, 2, 42]);
    assert_eq!(r.decode_from_buffer(), None);
    r.fill(&[43]);
    assert_eq!(r.decode_from_buffer(), Some(vec![42, 43]));
    assert_eq!(r.decode_from_buffer(), None);
}

#[test]
fn receive_batch_drains_complete_messages_and_keeps_partial() {
    let mut w = FrameWriter::new();
    w.queue_send_raw(vec![1]).unwrap();
    w.queue_send_raw(vec![2, 2]).unwrap();
    w.queue_send_raw(vec![3, 3, 3]).unwrap();
    let mut flat = Vec::new();
    for i in 0..w.num_chunks() {
        flat.extend_from_slice(w.chunk(i));
    }
    let mut r = FrameReader::new();
    r.fill(&flat[..flat.len() - 1]);
    let mut batch = Vec::new();
    assert_eq!(r.receive_batch_raw(&mut batch), 2);
    assert_eq!(batch, vec![vec![1], vec![2, 2]]);
    r.fill(&flat[flat.len() - 1..]);
    assert_eq!(r.receive_batch_raw(&mut batch), 1);
    assert_eq!(batch, vec![vec![1], vec![2, 2], vec![3, 3, 3]]);
}

#[test]
fn channel_errors_are_distinct() {
    assert_ne!(ChannelError::InvalidData, ChannelError::Closed);
    assert_ne!(ChannelError::Io, ChannelError::Closed);
}
