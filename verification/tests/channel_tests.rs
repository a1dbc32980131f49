//! Drop-under-load: a full dispatch channel loses the bucket, never blocks
//! the producer, and later writes are unaffected.

use altius::descriptor::SystemDescriptor;
use altius::grouper::BlockData;
use altius::writer::TracingWriter;
use tokio::sync::mpsc::Receiver;

fn sample_descriptor() -> SystemDescriptor {
    SystemDescriptor {
        out_dir: b"out".to_vec(),
        ssa_enabled: false,
        parallel_enabled: false,
        prewarm_enabled: false,
        cli_version: b"v1".to_vec(),
        is_release: true,
        hardware: b"hw".to_vec(),
    }
}

fn block(n: &str) -> String {
    format!(
        "{{\"cat\":\"block_profiler\",\"ph\":\"B\",\"args\":{{\"block_num\":\"{}\"}}}},\n{{\"cat\":\"block_profiler\",\"ph\":\"E\"}},\n",
        n
    )
}

#[test]
fn full_channel_drops_bucket_without_disturbing_producer() {
    let (tx, mut rx): (_, Receiver<BlockData>) = tokio::sync::mpsc::channel(1);
    let mut w = TracingWriter::new(tx, sample_descriptor());

    // Two complete blocks: the first fills the capacity-one channel, the
    // second is dropped.  Neither write blocks or fails.
    w.write_all(block("1").as_bytes(), 5);
    w.write_all(block("2").as_bytes(), 6);

    let first = rx.try_recv().expect("first bucket kept");
    assert_eq!(first.block_num, Some(b"1".to_vec()));
    assert!(rx.try_recv().is_err());

    // The producer is unaffected: a third block goes through once the
    // channel has room again.
    w.write_all(block("3").as_bytes(), 7);
    w.flush(7);
    let third = rx.try_recv().expect("third bucket kept");
    assert_eq!(third.block_num, Some(b"3".to_vec()));
    assert!(rx.try_recv().is_err());
}

#[test]
fn closed_channel_does_not_disturb_producer() {
    let (tx, rx): (_, Receiver<BlockData>) = tokio::sync::mpsc::channel(4);
    let mut w = TracingWriter::new(tx, sample_descriptor());
    drop(rx);
    // With the consumer gone every enqueue fails; the producer carries on.
    w.write_all(block("1").as_bytes(), 5);
    w.write_all(block("2").as_bytes(), 6);
    w.flush(6);
}
