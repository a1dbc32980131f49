//! Descriptor rendering: exact JSON shape, escaping, and per-block
//! timestamp freshness.

use altius::descriptor::SystemDescriptor;
use altius::grouper::BlockData;
use altius::writer::TracingWriter;
use tokio::sync::mpsc::Receiver;

fn sample_descriptor() -> SystemDescriptor {
    SystemDescriptor {
        out_dir: b"block_perfetto".to_vec(),
        ssa_enabled: false,
        parallel_enabled: true,
        prewarm_enabled: false,
        cli_version: b"v1".to_vec(),
        is_release: true,
        hardware: b"os=linux".to_vec(),
    }
}

fn fresh_writer(cap: usize) -> (TracingWriter, Receiver<BlockData>) {
    let (tx, rx) = tokio::sync::mpsc::channel(cap);
    (TracingWriter::new(tx, sample_descriptor()), rx)
}

fn drain(rx: &mut Receiver<BlockData>) -> Vec<BlockData> {
    let mut out = Vec::new();
    while let Ok(g) = rx.try_recv() {
        out.push(g);
    }
    out
}

#[test]
fn render_exact_json() {
    let d = sample_descriptor();
    let line = d.render_json(1234567890);
    let expected = "{\"out_dir\":\"block_perfetto\",\"ssa_enabled\":false,\"parallel_enabled\":true,\"prewarm_enabled\":false,\"cli_version\":\"v1\",\"timestamp\":\"1234567890\",\"is_release\":true,\"hardware\":\"os=linux\"}";
    assert_eq!(String::from_utf8(line).unwrap(), expected);
}

#[test]
fn render_zero_timestamp() {
    let d = sample_descriptor();
    let line = d.render_json(0);
    let s = String::from_utf8(line).unwrap();
    assert!(s.contains("\"timestamp\":\"0\""));
}

#[test]
fn render_largest_timestamp() {
    let d = sample_descriptor();
    let line = d.render_json(u64::MAX);
    let s = String::from_utf8(line).unwrap();
    assert!(s.contains("\"timestamp\":\"18446744073709551615\""));
}

#[test]
fn render_escapes_special_bytes() {
    let mut d = sample_descriptor();
    d.cli_version = b"\"reth/v1\"\\x".to_vec();
    d.hardware = b"a\nb\tc\rd\x01e".to_vec();
    let line = d.render_json(1);
    let s = String::from_utf8(line).unwrap();
    assert!(s.contains("\"cli_version\":\"\\\"reth/v1\\\"\\\\x\""));
    assert!(s.contains("\"hardware\":\"a\\nb\\tc\\rd\\u0001e\""));
}

#[test]
fn render_parses_back_as_json() {
    let mut d = sample_descriptor();
    d.cli_version = b"\"v1.2\"".to_vec();
    d.hardware = b"cpu\twith\nnoise\x08\x0c".to_vec();
    let line = d.render_json(77);
    let v: serde_json::Value = serde_json::from_slice(&line).unwrap();
    assert_eq!(v.get("timestamp").unwrap().as_str().unwrap(), "77");
    assert_eq!(v.get("cli_version").unwrap().as_str().unwrap(), "\"v1.2\"");
    assert_eq!(
        v.get("hardware").unwrap().as_str().unwrap(),
        "cpu\twith\nnoise\u{8}\u{c}"
    );
    assert_eq!(v.get("parallel_enabled").unwrap().as_bool().unwrap(), true);
}

#[test]
fn consecutive_blocks_carry_fresh_timestamps() {
    let stream1 =
        "[{\"cat\":\"block_profiler\",\"ph\":\"B\"},\n{\"cat\":\"block_profiler\",\"ph\":\"E\"},\n";
    let stream2 =
        "{\"cat\":\"block_profiler\",\"ph\":\"B\"},\n{\"cat\":\"block_profiler\",\"ph\":\"E\"}]";
    let (mut w, mut rx) = fresh_writer(16);
    w.write_all(stream1.as_bytes(), 1000);
    w.write_all(stream2.as_bytes(), 2000);
    w.flush(2000);
    let groups = drain(&mut rx);
    assert_eq!(groups.len(), 2);
    // Each bucket's descriptor line reflects its own block's open time.
    assert_eq!(groups[0].data[0], sample_descriptor().render_json(1000));
    assert_eq!(groups[1].data[0], sample_descriptor().render_json(2000));
    assert_ne!(groups[0].data[0], groups[1].data[0]);
}
