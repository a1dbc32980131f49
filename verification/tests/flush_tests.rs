//! Flush: idempotent on an empty partial buffer, and parses a trailing
//! record left without its separator.

use altius::descriptor::SystemDescriptor;
use altius::grouper::BlockData;
use altius::writer::TracingWriter;
use tokio::sync::mpsc::Receiver;

fn sample_descriptor() -> SystemDescriptor {
    SystemDescriptor {
        out_dir: b"out".to_vec(),
        ssa_enabled: true,
        parallel_enabled: false,
        prewarm_enabled: true,
        cli_version: b"v2".to_vec(),
        is_release: false,
        hardware: b"hw".to_vec(),
    }
}

fn fresh_writer(cap: usize) -> (TracingWriter, Receiver<BlockData>) {
    let (tx, rx) = tokio::sync::mpsc::channel(cap);
    (TracingWriter::new(tx, sample_descriptor()), rx)
}

#[test]
fn flush_on_empty_partial_is_a_noop() {
    let (mut w, mut rx) = fresh_writer(8);
    w.flush(5);
    w.flush(6);
    assert!(rx.try_recv().is_err());
    // The writer still works normally afterwards.
    let stream = "[{\"cat\":\"block_profiler\",\"ph\":\"B\"},\n{\"cat\":\"block_profiler\",\"ph\":\"E\"}]";
    w.write_all(stream.as_bytes(), 7);
    w.flush(7);
    assert!(rx.try_recv().is_ok());
    assert!(rx.try_recv().is_err());
}

#[test]
fn flush_after_complete_segments_is_a_noop() {
    // Every record ends with a separator, so the partial buffer is empty at
    // flush time and nothing more is emitted.
    let stream = "[{\"cat\":\"block_profiler\",\"ph\":\"B\"},\n{\"cat\":\"block_profiler\",\"ph\":\"E\"},\n";
    let (mut w, mut rx) = fresh_writer(8);
    w.write_all(stream.as_bytes(), 5);
    assert!(rx.try_recv().is_ok());
    w.flush(5);
    w.flush(5);
    assert!(rx.try_recv().is_err());
}

#[test]
fn flush_parses_trailing_record() {
    // The end marker arrives without a trailing separator; only the flush
    // completes the block.
    let stream =
        "[{\"cat\":\"block_profiler\",\"ph\":\"B\"},\n{\"cat\":\"block_profiler\",\"ph\":\"E\"}";
    let (mut w, mut rx) = fresh_writer(8);
    w.write_all(stream.as_bytes(), 5);
    assert!(rx.try_recv().is_err());
    w.flush(5);
    let g = rx.try_recv().expect("flush completed the block");
    assert_eq!(g.data.len(), 3);
}

#[test]
fn flush_discards_unparseable_remainder() {
    let (mut w, mut rx) = fresh_writer(8);
    w.write_all(b"{\"cat\":\"incomple", 5);
    w.flush(5);
    assert!(rx.try_recv().is_err());
    // The remainder is gone: completing the text later does not resurrect it.
    w.write_all(b"te\",\"ph\":\"X\"},\n", 5);
    w.flush(5);
    assert!(rx.try_recv().is_err());
}
