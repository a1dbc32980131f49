//! Grouping: exactly one bucket per begin/end pair, holding the descriptor
//! and the lines from begin through end, and nothing seen outside the pair.

use altius::descriptor::SystemDescriptor;
use altius::grouper::BlockData;
use altius::writer::TracingWriter;
use tokio::sync::mpsc::Receiver;

fn sample_descriptor() -> SystemDescriptor {
    SystemDescriptor {
        out_dir: b"block_perfetto".to_vec(),
        ssa_enabled: false,
        parallel_enabled: true,
        prewarm_enabled: false,
        cli_version: b"v1".to_vec(),
        is_release: false,
        hardware: b"os=linux".to_vec(),
    }
}

fn fresh_writer(cap: usize) -> (TracingWriter, Receiver<BlockData>) {
    let (tx, rx) = tokio::sync::mpsc::channel(cap);
    (TracingWriter::new(tx, sample_descriptor()), rx)
}

fn drain(rx: &mut Receiver<BlockData>) -> Vec<BlockData> {
    let mut out = Vec::new();
    while let Ok(g) = rx.try_recv() {
        out.push(g);
    }
    out
}

/// The canonical serialization the library stores for a record's text.
fn canon(s: &str) -> Vec<u8> {
    let v: serde_json::Value = serde_json::from_str(s).unwrap();
    serde_json::to_string(&v).unwrap().into_bytes()
}

#[test]
fn one_begin_end_pair_gives_one_exact_group() {
    let stream = "[{\"cat\":\"out1\",\"ph\":\"I\"},\n{\"cat\":\"block_profiler\",\"ph\":\"B\",\"args\":{\"block_num\":\"9\"}},\n{\"cat\":\"in1\",\"ph\":\"I\"},\n{\"cat\":\"in2\",\"ph\":\"X\"},\n{\"cat\":\"block_profiler\",\"ph\":\"E\"},\n{\"cat\":\"out2\",\"ph\":\"I\"},\n{\"cat\":\"tail\",\"ph\":\"I\"}]";
    let (mut w, mut rx) = fresh_writer(16);
    w.write_all(stream.as_bytes(), 11);
    w.flush(11);
    let groups = drain(&mut rx);
    assert_eq!(groups.len(), 1);
    let g = &groups[0];
    assert_eq!(g.block_num, Some(b"9".to_vec()));
    // Descriptor + begin + two interior records + end.
    assert_eq!(g.data.len(), 5);
    assert_eq!(g.data[0], sample_descriptor().render_json(11));
    assert_eq!(
        g.data[1],
        canon("{\"cat\":\"block_profiler\",\"ph\":\"B\",\"args\":{\"block_num\":\"9\"}}")
    );
    assert_eq!(g.data[2], canon("{\"cat\":\"in1\",\"ph\":\"I\"}"));
    assert_eq!(g.data[3], canon("{\"cat\":\"in2\",\"ph\":\"X\"}"));
    assert_eq!(g.data[4], canon("{\"cat\":\"block_profiler\",\"ph\":\"E\"}"));
    // The outside records appear in no line of the group.
    let out1 = canon("{\"cat\":\"out1\",\"ph\":\"I\"}");
    let out2 = canon("{\"cat\":\"out2\",\"ph\":\"I\"}");
    let tail = canon("{\"cat\":\"tail\",\"ph\":\"I\"}");
    for line in &g.data {
        assert_ne!(line, &out1);
        assert_ne!(line, &out2);
        assert_ne!(line, &tail);
    }
}

#[test]
fn end_to_end_five_chunk_scenario() {
    let chunks: [&str; 5] = [
        "[",
        "{\"cat\":\"x\",\"ph\":\"X\"}",
        ",\n{\"cat\":\"block_profiler\",\"ph\":\"B\",\"args\":{\"block_num\":\"42\"}}",
        ",\n{\"cat\":\"y\",\"ph\":\"I\"}",
        ",\n{\"cat\":\"block_profiler\",\"ph\":\"E\"}]",
    ];
    let (mut w, mut rx) = fresh_writer(16);
    for c in chunks {
        w.write_all(c.as_bytes(), 3);
    }
    w.flush(3);
    let groups = drain(&mut rx);
    assert_eq!(groups.len(), 1);
    let g = &groups[0];
    assert_eq!(g.block_num, Some(b"42".to_vec()));
    // Exactly three records after the descriptor: begin, the "y" event, end.
    assert_eq!(g.data.len(), 4);
    assert_eq!(
        g.data[1],
        canon("{\"cat\":\"block_profiler\",\"ph\":\"B\",\"args\":{\"block_num\":\"42\"}}")
    );
    assert_eq!(g.data[2], canon("{\"cat\":\"y\",\"ph\":\"I\"}"));
    assert_eq!(g.data[3], canon("{\"cat\":\"block_profiler\",\"ph\":\"E\"}"));
    // The leading "x" event appears nowhere in the output.
    let x = canon("{\"cat\":\"x\",\"ph\":\"X\"}");
    for line in &g.data {
        assert_ne!(line, &x);
    }
}

#[test]
fn unterminated_block_then_flush_emits_nothing() {
    let stream = "[{\"cat\":\"block_profiler\",\"ph\":\"B\",\"args\":{\"block_num\":\"5\"}},\n{\"cat\":\"y\",\"ph\":\"I\"}";
    let (mut w, mut rx) = fresh_writer(16);
    w.write_all(stream.as_bytes(), 5);
    w.flush(5);
    let groups = drain(&mut rx);
    assert_eq!(groups.len(), 0);
}

#[test]
fn begin_while_open_is_a_continuation() {
    let stream = "[{\"cat\":\"block_profiler\",\"ph\":\"B\",\"args\":{\"block_num\":\"1\"}},\n{\"cat\":\"block_profiler\",\"ph\":\"B\",\"args\":{\"block_num\":\"2\"}},\n{\"cat\":\"block_profiler\",\"ph\":\"E\"}]";
    let (mut w, mut rx) = fresh_writer(16);
    w.write_all(stream.as_bytes(), 5);
    w.flush(5);
    let groups = drain(&mut rx);
    // One group: the second begin is appended, never opens a new block.
    assert_eq!(groups.len(), 1);
    let g = &groups[0];
    assert_eq!(g.block_num, Some(b"1".to_vec()));
    assert_eq!(g.data.len(), 4);
    assert_eq!(
        g.data[2],
        canon("{\"cat\":\"block_profiler\",\"ph\":\"B\",\"args\":{\"block_num\":\"2\"}}")
    );
}

#[test]
fn records_outside_any_block_are_dropped() {
    let stream = "[{\"cat\":\"a\",\"ph\":\"I\"},\n{\"cat\":\"b\",\"ph\":\"I\"},\n{\"cat\":\"c\",\"ph\":\"I\"}]";
    let (mut w, mut rx) = fresh_writer(16);
    w.write_all(stream.as_bytes(), 5);
    w.flush(5);
    assert_eq!(drain(&mut rx).len(), 0);
}

#[test]
fn begin_without_block_num_gives_untagged_group() {
    let stream = "[{\"cat\":\"block_profiler\",\"ph\":\"B\"},\n{\"cat\":\"block_profiler\",\"ph\":\"E\"}]";
    let (mut w, mut rx) = fresh_writer(16);
    w.write_all(stream.as_bytes(), 5);
    w.flush(5);
    let groups = drain(&mut rx);
    assert_eq!(groups.len(), 1);
    assert_eq!(groups[0].block_num, None);
    assert_eq!(groups[0].data.len(), 3);
}

#[test]
fn invalid_utf8_in_a_record_is_replaced_not_fatal() {
    // A stray invalid byte inside a record's string is lossily replaced;
    // the record is kept and the stream continues.
    let mut stream: Vec<u8> = Vec::new();
    stream.extend_from_slice(b"[{\"cat\":\"block_profiler\",\"ph\":\"B\"},\n{\"cat\":\"a");
    stream.push(0xFF);
    stream.extend_from_slice(b"\",\"ph\":\"I\"},\n{\"cat\":\"block_profiler\",\"ph\":\"E\"}]");
    let (mut w, mut rx) = fresh_writer(16);
    w.write_all(&stream, 5);
    w.flush(5);
    let groups = drain(&mut rx);
    assert_eq!(groups.len(), 1);
    // Descriptor, begin, the replaced record, end.
    assert_eq!(groups[0].data.len(), 4);
    let replaced = String::from_utf8(groups[0].data[2].clone()).unwrap();
    assert!(replaced.contains('\u{FFFD}'));
}

#[test]
fn non_object_records_are_ignored() {
    let stream = "[{\"cat\":\"block_profiler\",\"ph\":\"B\"},\n42,\n\"text\",\n{\"cat\":\"block_profiler\",\"ph\":\"E\"}]";
    let (mut w, mut rx) = fresh_writer(16);
    w.write_all(stream.as_bytes(), 5);
    w.flush(5);
    let groups = drain(&mut rx);
    assert_eq!(groups.len(), 1);
    // The number and the bare string parse but are not objects: not kept.
    assert_eq!(groups[0].data.len(), 3);
}
