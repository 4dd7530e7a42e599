use prost::Message;
use stream_buffer::StreamBuffer;
use tokio::sync::mpsc::{unbounded_channel, UnboundedReceiver};

fn frame(payload: &[u8]) -> Vec<u8> {
    let len = payload.len() as u16;
    let mut out = vec![0x94, 0xc3, (len >> 8) as u8, (len & 0xff) as u8];
    out.extend_from_slice(payload);
    out
}

fn text_frame(text: &str) -> Vec<u8> {
    frame(&text.to_string().encode_to_vec())
}

fn drain(rx: &mut UnboundedReceiver<String>) -> Vec<String> {
    let mut out = Vec::new();
    while let Ok(m) = rx.try_recv() {
        out.push(m);
    }
    out
}

fn decoder() -> (StreamBuffer<String>, UnboundedReceiver<String>) {
    let (tx, rx) = unbounded_channel::<String>();
    (StreamBuffer::new(tx), rx)
}

#[test]
fn round_trip_in_one_call() {
    let (mut buf, mut rx) = decoder();
    buf.process_incoming_bytes(&text_frame("hello radio"));
    assert_eq!(drain(&mut rx), vec!["hello radio".to_string()]);
}

#[test]
fn round_trip_one_byte_at_a_time() {
    let (mut buf, mut rx) = decoder();
    for b in text_frame("split") {
        buf.process_incoming_bytes(&[b]);
    }
    assert_eq!(drain(&mut rx), vec!["split".to_string()]);
}

#[test]
fn round_trip_split_mid_header_and_mid_payload() {
    let bytes = text_frame("chunked payload");
    for cut in 0..=bytes.len() {
        let (mut buf, mut rx) = decoder();
        buf.process_incoming_bytes(&bytes[..cut]);
        buf.process_incoming_bytes(&bytes[cut..]);
        assert_eq!(drain(&mut rx), vec!["chunked payload".to_string()]);
    }
}

#[test]
fn garbage_prefix_is_skipped() {
    for n in [0usize, 1, 7, 100] {
        let (mut buf, mut rx) = decoder();
        let mut bytes: Vec<u8> = (0..n).map(|i| (i % 0x90) as u8).collect();
        bytes.extend(text_frame("after noise"));
        buf.process_incoming_bytes(&bytes);
        assert_eq!(drain(&mut rx), vec!["after noise".to_string()]);
    }
}

#[test]
fn wrong_second_sync_byte_resynchronizes() {
    let (mut buf, mut rx) = decoder();
    let mut bytes = vec![0x94, 0x00];
    bytes.extend(text_frame("next"));
    buf.process_incoming_bytes(&bytes);
    assert_eq!(drain(&mut rx), vec!["next".to_string()]);
}

#[test]
fn oversized_length_is_rejected_and_next_frame_decoded() {
    let (mut buf, mut rx) = decoder();
    let mut bytes = vec![0x94, 0xc3, 0x02, 0x01];
    bytes.extend(text_frame("valid"));
    buf.process_incoming_bytes(&bytes);
    assert_eq!(drain(&mut rx), vec!["valid".to_string()]);
}

#[test]
fn oversized_length_leaves_buffer_empty() {
    let (tx, _rx) = unbounded_channel::<String>();
    let mut buf = StreamBuffer::new(tx);
    let frames = buf.extract_frames(&[0x94, 0xc3, 0xff, 0xff, 0x94, 0xc3, 0x00, 0x01, 0x2a]);
    assert_eq!(frames, vec![vec![0x2a]]);
}

#[test]
fn largest_payload_is_accepted() {
    let (tx, _rx) = unbounded_channel::<String>();
    let mut buf = StreamBuffer::new(tx);
    let payload: Vec<u8> = (0..512).map(|i| (i % 251) as u8).collect();
    let frames = buf.extract_frames(&frame(&payload));
    assert_eq!(frames, vec![payload]);
}

#[test]
fn multi_frame_batch_keeps_order() {
    let (mut buf, mut rx) = decoder();
    let mut bytes = Vec::new();
    for t in ["one", "two", "three"] {
        bytes.extend(text_frame(t));
    }
    buf.process_incoming_bytes(&bytes);
    assert_eq!(drain(&mut rx), vec!["one".to_string(), "two".to_string(), "three".to_string()]);
}

#[test]
fn empty_chunk_emits_nothing() {
    let (mut buf, mut rx) = decoder();
    buf.process_incoming_bytes(&[]);
    assert!(drain(&mut rx).is_empty());
}

#[test]
fn zero_length_payload_completes_at_header() {
    let (mut buf, mut rx) = decoder();
    buf.process_incoming_bytes(&[0x94, 0xc3, 0x00, 0x00]);
    assert_eq!(drain(&mut rx), vec![String::new()]);
}

#[test]
fn zero_length_frame_extracted_as_empty_payload() {
    let (tx, _rx) = unbounded_channel::<String>();
    let mut buf = StreamBuffer::new(tx);
    let frames = buf.extract_frames(&[0x94, 0xc3, 0x00, 0x00]);
    assert_eq!(frames, vec![Vec::<u8>::new()]);
}

#[test]
fn undecodable_payload_does_not_disturb_next_frame() {
    let (mut buf, mut rx) = decoder();
    // a length-delimited field that claims more bytes than it has
    let mut bytes = frame(&[0x0a, 0x05, b'a']);
    bytes.extend(text_frame("intact"));
    buf.process_incoming_bytes(&bytes);
    assert_eq!(drain(&mut rx), vec!["intact".to_string()]);
}

#[test]
fn partial_frame_waits_for_rest() {
    let (tx, _rx) = unbounded_channel::<String>();
    let mut buf = StreamBuffer::new(tx);
    assert!(buf.extract_frames(&[0x94, 0xc3, 0x00, 0x03, 1, 2]).is_empty());
    assert_eq!(buf.extract_frames(&[3, 0x94]), vec![vec![1, 2, 3]]);
    assert_eq!(buf.extract_frames(&[0xc3, 0x00, 0x01, 9]), vec![vec![9]]);
}

#[test]
fn closed_receiver_is_ignored() {
    let (tx, rx) = unbounded_channel::<String>();
    drop(rx);
    let mut buf = StreamBuffer::new(tx);
    buf.process_incoming_bytes(&text_frame("nobody listens"));
    buf.process_incoming_bytes(&text_frame("still fine"));
}

#[test]
fn chunking_does_not_change_outcome() {
    let mut stream = vec![0x01, 0x94, 0x02];
    stream.extend(frame(&[0x0a, 0x01, b'x']));
    stream.extend([0x94, 0xc3, 0x03, 0x00]);
    stream.extend(frame(&[]));
    stream.extend(frame(&[0xff, 0xfe]));
    stream.extend([0x94, 0xc3, 0x00]);

    let (tx, _rx) = unbounded_channel::<String>();
    let mut whole = StreamBuffer::new(tx);
    let expected = whole.extract_frames(&stream);
    assert_eq!(expected, vec![vec![0x0a, 0x01, b'x'], vec![], vec![0xff, 0xfe]]);

    for size in 1..=stream.len() {
        let (tx, _rx) = unbounded_channel::<String>();
        let mut chunked = StreamBuffer::new(tx);
        let mut got = Vec::new();
        for chunk in stream.chunks(size) {
            got.extend(chunked.extract_frames(chunk));
        }
        assert_eq!(got, expected);
    }
}

#[test]
fn clone_keeps_partial_frame_and_channel() {
    let (mut buf, mut rx) = decoder();
    buf.process_incoming_bytes(&[0x94, 0xc3, 0x00]);
    let mut copy = buf.clone();
    let rest = {
        let full = text_frame("");
        full[3..].to_vec()
    };
    copy.process_incoming_bytes(&rest);
    buf.process_incoming_bytes(&rest);
    assert_eq!(drain(&mut rx), vec![String::new(), String::new()]);
}
