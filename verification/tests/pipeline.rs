use rainbow::hash::{hash_range, Hasher};
use rainbow::par::{
    available_workers, buffer_to_output, format_range, job_messages, next_chunk, partition_jobs,
    Aggregator, Job, Output,
};

#[test]
fn test_format_range_exact_line() {
    let line = format_range(7, &vec![0x00, 0xAB, 0xFF]);
    assert_eq!(&line, b"7\t00ABFF\n");
}

#[test]
fn test_format_range_plain_decimal_id() {
    let line = format_range(1234567890, &vec![0x5A]);
    assert_eq!(&line, b"1234567890\t5A\n");
}

#[test]
fn test_buffer_to_output_concatenates_lines() {
    let buffer = vec![(1u64, vec![0x0Fu8]), (2, vec![0xA0])];
    assert_eq!(&buffer_to_output(&buffer), b"1\t0F\n2\tA0\n");
}

#[test]
fn test_buffer_to_output_empty_buffer_empty_chunk() {
    let buffer: Vec<(u64, Vec<u8>)> = Vec::new();
    assert_eq!(buffer_to_output(&buffer), Vec::<u8>::new());
}

/// Drains a whole range through worker-sized chunks.
fn drain_chunks(pepper: &str, start: u64, end: u64, buffer_size: usize) -> Vec<Vec<u8>> {
    let mut h = Hasher::new(&String::from(pepper), start..end);
    let mut chunks = Vec::new();
    while let Some(chunk) = next_chunk(&mut h, buffer_size) {
        chunks.push(chunk);
    }
    chunks
}

#[test]
fn test_chunk_sizes_only_move_boundaries() {
    let whole: Vec<u8> = drain_chunks("salt", 0, 25, 1000).concat();
    for buffer_size in [1usize, 3, 8, 25] {
        let chunks = drain_chunks("salt", 0, 25, buffer_size);
        assert_eq!(chunks.concat(), whole);
        for chunk in &chunks {
            assert!(chunk.iter().filter(|b| **b == b'\n').count() <= buffer_size);
        }
    }
}

#[test]
fn test_chunk_boundaries_fall_on_buffer_size() {
    let chunks = drain_chunks("salt", 0, 10, 4);
    let counts: Vec<usize> = chunks
        .iter()
        .map(|c| c.iter().filter(|b| **b == b'\n').count())
        .collect();
    assert_eq!(counts, vec![4, 4, 2]);
}

fn parse_lines(bytes: &[u8]) -> Vec<(u64, String)> {
    String::from_utf8(bytes.to_vec())
        .unwrap()
        .lines()
        .map(|line| {
            let (id, hex) = line.split_once('\t').unwrap();
            (id.parse().unwrap(), hex.to_string())
        })
        .collect()
}

#[test]
fn test_end_to_end_two_digits() {
    // A run with digits = 2 and pepper "salt": the parallel pipeline in
    // miniature, with three jobs drained job-by-job through chunked buffers.
    let jobs = partition_jobs(100, 3);
    let mut lines = Vec::new();
    for job in jobs {
        for chunk in drain_chunks("salt", job.start, job.end, 7) {
            lines.extend(parse_lines(&chunk));
        }
    }
    assert_eq!(lines.len(), 100);
    let mut ids: Vec<u64> = lines.iter().map(|r| r.0).collect();
    ids.sort();
    assert_eq!(ids, (0..100).collect::<Vec<u64>>());

    // Id 7 must carry the digest the serial mode prints for id 7.
    let serial = hash_range(&String::from("salt"), 0..100);
    let serial_line7 = format_range(7, &serial[7].1);
    let parallel7 = lines.iter().find(|r| r.0 == 7).unwrap();
    assert_eq!(
        format!("7\t{}\n", parallel7.1).into_bytes(),
        serial_line7
    );
}

#[test]
fn test_serial_and_parallel_same_record_set() {
    let serial = hash_range(&String::from("salt"), 0..40);
    let mut parallel: Vec<(u64, Vec<u8>)> = Vec::new();
    for job in partition_jobs(40, 7) {
        parallel.extend(hash_range(&String::from("salt"), job));
    }
    parallel.sort();
    assert_eq!(parallel, serial);
}

#[test]
fn test_job_messages_close_the_queue() {
    let jobs = vec![0..4u64, 4..8];
    let msgs = job_messages(&jobs, 3);
    assert_eq!(msgs.len(), 5);
    assert!(matches!(&msgs[0], Job::JobRange(r) if *r == (0..4)));
    assert!(matches!(&msgs[1], Job::JobRange(r) if *r == (4..8)));
    for msg in &msgs[2..] {
        assert!(matches!(msg, Job::Done));
    }
}

#[test]
fn test_aggregator_counts_down_workers() {
    let mut agg = Aggregator::new(2);
    assert!(!agg.is_done());
    let write = agg.step(Output::BulkOutput(b"1\tAB\n".to_vec()));
    assert_eq!(write, Some(b"1\tAB\n".to_vec()));
    assert!(!agg.is_done());
    assert_eq!(agg.step(Output::Done), None);
    assert!(!agg.is_done());
    assert_eq!(agg.step(Output::BulkOutput(Vec::new())), Some(Vec::new()));
    assert_eq!(agg.step(Output::Done), None);
    assert!(agg.is_done());
}

#[test]
fn test_available_workers_at_least_one() {
    assert!(available_workers() >= 1);
}
