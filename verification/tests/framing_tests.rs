//! Framing: arbitrary chunk boundaries yield the same classified records as
//! the unsplit stream.

use altius::descriptor::SystemDescriptor;
use altius::grouper::BlockData;
use altius::writer::TracingWriter;
use tokio::sync::mpsc::Receiver;

fn sample_descriptor() -> SystemDescriptor {
    SystemDescriptor {
        out_dir: b"block_perfetto".to_vec(),
        ssa_enabled: false,
        parallel_enabled: false,
        prewarm_enabled: false,
        cli_version: b"v1".to_vec(),
        is_release: true,
        hardware: b"os=linux".to_vec(),
    }
}

fn fresh_writer(cap: usize) -> (TracingWriter, Receiver<BlockData>) {
    let (tx, rx) = tokio::sync::mpsc::channel(cap);
    (TracingWriter::new(tx, sample_descriptor()), rx)
}

fn drain(rx: &mut Receiver<BlockData>) -> Vec<(Option<Vec<u8>>, Vec<Vec<u8>>)> {
    let mut out = Vec::new();
    while let Ok(g) = rx.try_recv() {
        out.push((g.block_num, g.data));
    }
    out
}

const STREAM: &str = "[{\"cat\":\"x\",\"ph\":\"X\"},\n{\"cat\":\"block_profiler\",\"ph\":\"B\",\"args\":{\"block_num\":\"7\"}},\n{\"cat\":\"y\",\"ph\":\"I\"},\n{\"cat\":\"block_profiler\",\"ph\":\"E\"}]";

#[test]
fn byte_at_a_time_matches_whole() {
    let (mut w1, mut rx1) = fresh_writer(16);
    for b in STREAM.as_bytes() {
        w1.write_all(&[*b], 5);
    }
    w1.flush(5);
    let groups1 = drain(&mut rx1);

    let (mut w2, mut rx2) = fresh_writer(16);
    w2.write_all(STREAM.as_bytes(), 5);
    w2.flush(5);
    let groups2 = drain(&mut rx2);

    assert_eq!(groups1, groups2);
    assert_eq!(groups1.len(), 1);
}

#[test]
fn split_inside_separator_matches_whole() {
    // Cut the stream between the comma and the newline of a separator.
    let bytes = STREAM.as_bytes();
    let cut = STREAM.find(",\n").unwrap() + 1;

    let (mut w1, mut rx1) = fresh_writer(16);
    w1.write_all(&bytes[..cut], 5);
    w1.write_all(&bytes[cut..], 5);
    w1.flush(5);
    let groups1 = drain(&mut rx1);

    let (mut w2, mut rx2) = fresh_writer(16);
    w2.write_all(bytes, 5);
    w2.flush(5);
    let groups2 = drain(&mut rx2);

    assert_eq!(groups1, groups2);
    assert_eq!(groups1.len(), 1);
}

#[test]
fn split_inside_record_matches_whole() {
    // Cut the stream in the middle of the begin record's text.
    let bytes = STREAM.as_bytes();
    let cut = STREAM.find("block_num").unwrap() + 4;

    let (mut w1, mut rx1) = fresh_writer(16);
    w1.write_all(&bytes[..cut], 5);
    w1.write_all(&bytes[cut..], 5);
    w1.flush(5);
    let groups1 = drain(&mut rx1);

    let (mut w2, mut rx2) = fresh_writer(16);
    w2.write_all(bytes, 5);
    w2.flush(5);
    let groups2 = drain(&mut rx2);

    assert_eq!(groups1, groups2);
    assert_eq!(groups1.len(), 1);
}

#[test]
fn malformed_record_is_skipped_and_stream_continues() {
    let stream = "[{\"cat\":\"block_profiler\",\"ph\":\"B\"},\nthis is not json,\n{\"cat\":\"block_profiler\",\"ph\":\"E\"}]";
    let (mut w, mut rx) = fresh_writer(16);
    w.write_all(stream.as_bytes(), 5);
    w.flush(5);
    let groups = drain(&mut rx);
    assert_eq!(groups.len(), 1);
    // Descriptor, begin and end survive; the malformed segment is dropped.
    assert_eq!(groups[0].1.len(), 3);
}

#[test]
fn write_reports_whole_chunk_consumed() {
    let (mut w, _rx) = fresh_writer(16);
    let n = w.write(b"{\"cat\":\"x\"", 5);
    assert_eq!(n, 10);
}
