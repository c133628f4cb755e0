//! Unit tests for the individual pieces: byte helpers, chunking,
//! parsing, the stats fold and the ordered shard map.

use linestats::chunk::{ChunkError, Chunker};
use linestats::lines::{
    find_last_new_line_pos, parse_chunk, parse_record, split_once_byte, trim_new_line, ParseError,
};
use linestats::shard::ShardMap;
use linestats::stats::Stats;
use linestats::worker::WorkerMap;

#[test]
fn find_last_new_line_pos_cases() {
    assert_eq!(find_last_new_line_pos(b""), None);
    assert_eq!(find_last_new_line_pos(b"abc"), None);
    assert_eq!(find_last_new_line_pos(b"a\nb\nc"), Some(3));
    assert_eq!(find_last_new_line_pos(b"\n"), Some(0));
    assert_eq!(find_last_new_line_pos(b"ab\n"), Some(2));
}

#[test]
fn split_once_byte_cases() {
    assert_eq!(split_once_byte(b"Paris;10.0", b';'), Some((&b"Paris"[..], &b"10.0"[..])));
    assert_eq!(split_once_byte(b"a;b;c", b';'), Some((&b"a"[..], &b"b;c"[..])));
    assert_eq!(split_once_byte(b";x", b';'), Some((&b""[..], &b"x"[..])));
    assert_eq!(split_once_byte(b"Paris10.0", b';'), None);
    assert_eq!(split_once_byte(b"", b';'), None);
}

#[test]
fn trim_new_line_cases() {
    assert_eq!(trim_new_line(b"abc\n"), b"abc");
    assert_eq!(trim_new_line(b"abc\r\n"), b"abc");
    assert_eq!(trim_new_line(b"abc"), b"abc");
    assert_eq!(trim_new_line(b"abc\r"), b"abc\r");
    assert_eq!(trim_new_line(b"\n"), b"");
    assert_eq!(trim_new_line(b"\r\n"), b"");
    assert_eq!(trim_new_line(b"abc\n\n"), b"abc\n");
}

#[test]
fn parse_record_cases() {
    let rec = parse_record(b"Paris;10.0\n").unwrap();
    assert_eq!(rec.key, b"Paris");
    assert_eq!(rec.value, b"10.0");
    let rec = parse_record(b"X;2.0\r\n").unwrap();
    assert_eq!(rec.key, b"X");
    assert_eq!(rec.value, b"2.0");
    let rec = parse_record(b"A;1.0").unwrap();
    assert_eq!(rec.key, b"A");
    assert_eq!(rec.value, b"1.0");
    assert!(matches!(parse_record(b"Paris10.0\n"), Err(ParseError::MissingSeparator)));
}

#[test]
fn parse_chunk_cases() {
    let recs = parse_chunk(b"a;1\nb;2\n").unwrap();
    assert_eq!(recs.len(), 2);
    assert_eq!(recs[0].key, b"a");
    assert_eq!(recs[0].value, b"1");
    assert_eq!(recs[1].key, b"b");
    assert_eq!(recs[1].value, b"2");
    assert!(matches!(parse_chunk(b"a;1\nb2\n"), Err(ParseError::MissingSeparator)));
    assert!(parse_chunk(b"").unwrap().is_empty());
}

#[test]
fn chunker_cuts_at_line_feeds() {
    let mut c = Chunker::new(16);
    assert_eq!(c.feed(b"ab"), Ok(None));
    assert_eq!(c.feed(b"c\nde"), Ok(Some(b"abc\n".to_vec())));
    assert_eq!(c.pending_len(), 2);
    assert_eq!(c.feed(b"f\ng\nhi"), Ok(Some(b"def\ng\n".to_vec())));
    assert_eq!(c.finish(), Some(b"hi".to_vec()));
}

#[test]
fn chunker_reconstructs_the_stream() {
    let input: &[u8] = b"one;1\ntwo;2\nthree;3\nfour;4";
    let mut c = Chunker::new(8);
    let mut rebuilt: Vec<u8> = Vec::new();
    let mut pos = 0;
    while pos < input.len() {
        let n = (8 - c.pending_len()).min(input.len() - pos);
        if let Ok(Some(chunk)) = c.feed(&input[pos..pos + n]) {
            assert_eq!(*chunk.last().unwrap(), b'\n');
            rebuilt.extend_from_slice(&chunk);
        }
        pos += n;
    }
    if let Some(tail) = c.finish() {
        rebuilt.extend_from_slice(&tail);
    }
    assert_eq!(rebuilt, input);
}

#[test]
fn chunker_full_buffer_is_fatal() {
    let mut c = Chunker::new(4);
    assert_eq!(c.feed(b"abcd"), Err(ChunkError::BufferFull));
    // Nothing was consumed by the failed feed.
    assert_eq!(c.pending_len(), 0);
}

#[test]
fn stats_new_and_update() {
    let v = 10.5f64.to_bits();
    let mut s = Stats::new(v);
    assert_eq!(s.count, 1);
    assert_eq!(s.sum_bits, v);
    assert_eq!(s.min_bits, v);
    assert_eq!(s.max_bits, v);
    let s2 = 2.0f64.to_bits();
    let mn = 1.0f64.to_bits();
    let mx = 9.0f64.to_bits();
    s.update(s2, mn, mx);
    assert_eq!(s.count, 2);
    assert_eq!(s.sum_bits, s2);
    assert_eq!(s.min_bits, mn);
    assert_eq!(s.max_bits, mx);
}

#[test]
fn shard_map_orders_keys() {
    let mut m = ShardMap::new();
    assert_eq!(m.len(), 0);
    assert!(m.observe(b"pear", 1, 1, 1, 1));
    assert!(m.observe(b"apple", 2, 2, 2, 2));
    assert!(m.observe(b"peach", 3, 3, 3, 3));
    assert!(m.observe(b"pea", 4, 4, 4, 4));
    assert_eq!(m.len(), 4);
    let keys: Vec<Vec<u8>> = (0..m.len()).map(|i| m.entry_at(i).0.clone()).collect();
    assert_eq!(keys, vec![b"apple".to_vec(), b"pea".to_vec(), b"peach".to_vec(), b"pear".to_vec()]);
}

#[test]
fn shard_map_observe_counts() {
    let mut m = ShardMap::new();
    assert!(m.observe(b"k", 7, 7, 7, 7));
    assert_eq!(m.get(b"k").unwrap().count, 1);
    assert_eq!(m.get(b"k").unwrap().sum_bits, 7);
    assert!(m.observe(b"k", 9, 16, 7, 9));
    let s = m.get(b"k").unwrap();
    assert_eq!(s.count, 2);
    assert_eq!(s.sum_bits, 16);
    assert_eq!(s.min_bits, 7);
    assert_eq!(s.max_bits, 9);
    assert_eq!(m.get(b"other"), None);
    assert_eq!(m.len(), 1);
}

#[test]
fn shard_map_absorb_merges() {
    let mut m = ShardMap::new();
    let s = Stats { count: 3, sum_bits: 30, min_bits: 5, max_bits: 15 };
    assert!(m.absorb(b"k", s, 0, 0, 0));
    assert_eq!(m.get(b"k").unwrap(), s);
    let t = Stats { count: 2, sum_bits: 20, min_bits: 1, max_bits: 9 };
    assert!(m.absorb(b"k", t, 50, 1, 15));
    let merged = m.get(b"k").unwrap();
    assert_eq!(merged.count, 5);
    assert_eq!(merged.sum_bits, 50);
    assert_eq!(merged.min_bits, 1);
    assert_eq!(merged.max_bits, 15);
}

#[test]
fn worker_map_observe_and_drain() {
    let mut m = WorkerMap::new();
    assert!(m.get(b"k").is_none());
    assert!(m.observe(b"k", 7, 7, 7, 7));
    assert!(m.observe(b"k", 9, 16, 7, 9));
    assert!(m.observe(b"j", 5, 5, 5, 5));
    let s = m.get(b"k").unwrap();
    assert_eq!(s.count, 2);
    assert_eq!(s.sum_bits, 16);
    assert_eq!(s.min_bits, 7);
    assert_eq!(s.max_bits, 9);
    let mut entries = m.into_entries();
    entries.sort_by(|a, b| a.0.cmp(&b.0));
    assert_eq!(entries.len(), 2);
    assert_eq!(entries[0].0, b"j");
    assert_eq!(entries[0].1.count, 1);
    assert_eq!(entries[1].0, b"k");
    assert_eq!(entries[1].1.count, 2);
}

#[test]
fn shard_map_absorb_count_overflow_fails() {
    let mut m = ShardMap::new();
    let s = Stats { count: u64::MAX, sum_bits: 0, min_bits: 0, max_bits: 0 };
    assert!(m.absorb(b"k", s, 0, 0, 0));
    let t = Stats { count: 1, sum_bits: 0, min_bits: 0, max_bits: 0 };
    assert!(!m.absorb(b"k", t, 0, 0, 0));
    // The failed absorb changed nothing.
    assert_eq!(m.get(b"k").unwrap().count, u64::MAX);
}
