//! End-to-end runs of the whole pipeline, single-threaded: chunking,
//! parsing, aggregation, merge and formatting, with the floating-point
//! folds done here from the bit patterns the library carries.

use linestats::chunk::Chunker;
use linestats::lines::parse_chunk;
use linestats::report::{format_report, Rendered};
use linestats::shard::ShardMap;
use linestats::worker::WorkerMap;

fn observe_value(map: &mut WorkerMap, key: &[u8], v: f64) {
    match map.get(key) {
        None => {
            let b = v.to_bits();
            assert!(map.observe(key, b, b, b, b));
        }
        Some(s) => {
            assert!(s.count < u64::MAX);
            let sum = (f64::from_bits(s.sum_bits) + v).to_bits();
            let mn = f64::from_bits(s.min_bits).min(v).to_bits();
            let mx = f64::from_bits(s.max_bits).max(v).to_bits();
            assert!(map.observe(key, v.to_bits(), sum, mn, mx));
        }
    }
}

fn absorb_entries(merged: &mut ShardMap, map: WorkerMap) {
    for (key, s) in map.into_entries() {
        match merged.get(&key) {
            None => {
                assert!(merged.absorb(&key, s, s.sum_bits, s.min_bits, s.max_bits));
            }
            Some(t) => {
                let sum = (f64::from_bits(t.sum_bits) + f64::from_bits(s.sum_bits)).to_bits();
                let mn = f64::from_bits(t.min_bits).min(f64::from_bits(s.min_bits)).to_bits();
                let mx = f64::from_bits(t.max_bits).max(f64::from_bits(s.max_bits)).to_bits();
                assert!(merged.absorb(&key, s, sum, mn, mx));
            }
        }
    }
}

fn render(map: &ShardMap) -> Vec<Rendered> {
    let mut rendered = Vec::new();
    let mut i = 0;
    while i < map.len() {
        let e = map.entry_at(i);
        let s = e.1;
        let avg = f64::from_bits(s.sum_bits) / s.count as f64;
        rendered.push(Rendered {
            min: format!("{:.1}", f64::from_bits(s.min_bits)).into_bytes(),
            avg: format!("{:.1}", avg).into_bytes(),
            max: format!("{:.1}", f64::from_bits(s.max_bits)).into_bytes(),
        });
        i += 1;
    }
    rendered
}

/// Runs the pipeline over `input` with reads of at most `buf_size`
/// bytes, as a reader thread would issue them.
fn run_pipeline(input: &[u8], buf_size: usize) -> Result<String, String> {
    let mut chunker = Chunker::new(buf_size);
    let mut chunks: Vec<Vec<u8>> = Vec::new();
    let mut pos = 0;
    while pos < input.len() {
        let room = buf_size - chunker.pending_len();
        if room == 0 {
            return Err("record larger than the read buffer".to_string());
        }
        let n = room.min(input.len() - pos);
        match chunker.feed(&input[pos..pos + n]) {
            Ok(Some(chunk)) => chunks.push(chunk),
            Ok(None) => {}
            Err(_) => return Err("record larger than the read buffer".to_string()),
        }
        pos += n;
    }
    if let Some(tail) = chunker.finish() {
        chunks.push(tail);
    }

    let mut map = WorkerMap::new();
    for chunk in &chunks {
        let records = match parse_chunk(chunk) {
            Ok(r) => r,
            Err(_) => return Err("missing separator".to_string()),
        };
        for rec in &records {
            let v: f64 = match fast_float::parse(&rec.value) {
                Ok(v) => v,
                Err(_) => return Err("non-numeric value".to_string()),
            };
            observe_value(&mut map, &rec.key, v);
        }
    }

    let mut merged = ShardMap::new();
    absorb_entries(&mut merged, map);
    let rendered = render(&merged);
    let out = format_report(&merged, &rendered);
    Ok(String::from_utf8(out).expect("report was not UTF-8"))
}

#[test]
fn scenario_two_keys() {
    let out = run_pipeline(b"Paris;10.0\nParis;20.0\nLondon;5.5\n", 1024).unwrap();
    assert_eq!(out, "{London=5.5/5.5/5.5, Paris=10.0/15.0/20.0}\n");
}

#[test]
fn scenario_no_trailing_newline() {
    let out = run_pipeline(b"A;1.0\nA;3.0", 1024).unwrap();
    assert_eq!(out, "{A=1.0/2.0/3.0}\n");
}

#[test]
fn scenario_missing_separator() {
    let r = run_pipeline(b"Paris10.0\n", 1024);
    assert_eq!(r, Err("missing separator".to_string()));
}

#[test]
fn scenario_buffer_sizes_agree() {
    let input: &[u8] = b"Oslo;3.25\nRio;-1.5\nOslo;4.75\nPune;30.0\nRio;0.5\n";
    let reference = run_pipeline(input, 4096).unwrap();
    for buf_size in [12, 13, 17, 32, 64, 1024] {
        assert_eq!(run_pipeline(input, buf_size).unwrap(), reference);
    }
}

#[test]
fn scenario_crlf_lines() {
    let out = run_pipeline(b"K;1.0\r\nK;2.0\r\n", 1024).unwrap();
    assert_eq!(out, "{K=1.0/1.5/2.0}\n");
}

#[test]
fn scenario_non_numeric_value() {
    let r = run_pipeline(b"Paris;warm\n", 1024);
    assert_eq!(r, Err("non-numeric value".to_string()));
}

#[test]
fn scenario_record_exceeds_buffer() {
    let r = run_pipeline(b"AveryLongCityName;12.0\n", 8);
    assert_eq!(r, Err("record larger than the read buffer".to_string()));
}

#[test]
fn empty_input_gives_empty_report() {
    let out = run_pipeline(b"", 1024).unwrap();
    assert_eq!(out, "{}\n");
}

#[test]
fn report_keys_are_strictly_ascending() {
    let out = run_pipeline(b"b;1.0\na;2.0\nc;3.0\nab;4.0\n", 1024).unwrap();
    assert_eq!(out, "{a=2.0/2.0/2.0, ab=4.0/4.0/4.0, b=1.0/1.0/1.0, c=3.0/3.0/3.0}\n");
}

#[test]
fn sharded_and_single_pass_agree() {
    // The same records, split over two shard maps and merged, give the
    // counts, minima and maxima of a single pass; the values are halves,
    // so the sums are order-independent too.
    let part1: &[(&[u8], f64)] = &[(b"x", 1.5), (b"y", 2.0), (b"x", -0.5)];
    let part2: &[(&[u8], f64)] = &[(b"y", 8.5), (b"z", 0.0), (b"x", 4.5)];

    let mut single_pass = WorkerMap::new();
    for (k, v) in part1.iter().chain(part2.iter()) {
        observe_value(&mut single_pass, k, *v);
    }
    let mut single = ShardMap::new();
    absorb_entries(&mut single, single_pass);

    let mut shard1 = WorkerMap::new();
    for (k, v) in part1 {
        observe_value(&mut shard1, k, *v);
    }
    let mut shard2 = WorkerMap::new();
    for (k, v) in part2 {
        observe_value(&mut shard2, k, *v);
    }
    let mut merged = ShardMap::new();
    absorb_entries(&mut merged, shard1);
    absorb_entries(&mut merged, shard2);

    assert_eq!(single.len(), merged.len());
    let mut i = 0;
    while i < single.len() {
        let a = single.entry_at(i);
        let b = merged.entry_at(i);
        assert_eq!(a.0, b.0);
        assert_eq!(a.1.count, b.1.count);
        assert_eq!(f64::from_bits(a.1.min_bits), f64::from_bits(b.1.min_bits));
        assert_eq!(f64::from_bits(a.1.max_bits), f64::from_bits(b.1.max_bits));
        assert_eq!(f64::from_bits(a.1.sum_bits), f64::from_bits(b.1.sum_bits));
        i += 1;
    }
}
