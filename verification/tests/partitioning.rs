use rainbow::error::RainbowError;
use rainbow::par::{compute_max_id, partition_jobs, plan_jobs, resolve_job_count};

#[test]
fn test_partitions_evenly() {
    let chunks = partition_jobs(12, 3);
    assert_eq!(chunks.len(), 3);
}

#[test]
fn test_partitions_returns_ranges() {
    let chunks = partition_jobs(12, 3);
    assert_eq!(chunks[0], 0..4);
    assert_eq!(chunks[1], 4..8);
    assert_eq!(chunks[2], 8..12);
}

#[test]
fn test_partitions_oddly() {
    let chunks = partition_jobs(13, 3);
    assert_eq!(chunks.len(), 4);
}

#[test]
fn test_partition_return_right_last_range() {
    let chunks = partition_jobs(13, 3);
    assert_eq!(chunks[3], 12..13);
}

#[test]
fn test_partition_covers_exactly() {
    for (max_value, job_count) in [(0u64, 1usize), (1, 4), (12, 3), (13, 3), (100, 7), (5, 8)] {
        let chunks = partition_jobs(max_value, job_count);
        let mut next_start = 0u64;
        for chunk in &chunks {
            assert_eq!(chunk.start, next_start);
            assert!(chunk.start <= chunk.end);
            next_start = chunk.end;
        }
        assert_eq!(next_start, max_value);
    }
}

#[test]
fn test_partition_is_deterministic() {
    assert_eq!(partition_jobs(13, 3), partition_jobs(13, 3));
}

#[test]
fn test_partition_of_zero_ids_has_no_work() {
    assert!(partition_jobs(0, 3).is_empty());
    assert!(partition_jobs(0, 1).is_empty());
}

#[test]
fn test_compute_max_id_small() {
    assert_eq!(compute_max_id(0), Ok(1));
    assert_eq!(compute_max_id(2), Ok(100));
    assert_eq!(compute_max_id(10), Ok(10_000_000_000));
}

#[test]
fn test_compute_max_id_largest() {
    assert_eq!(compute_max_id(19), Ok(10_000_000_000_000_000_000));
}

#[test]
fn test_compute_max_id_overflow_is_invalid_configuration() {
    assert_eq!(compute_max_id(20), Err(RainbowError::InvalidConfiguration));
    assert_eq!(compute_max_id(u32::MAX), Err(RainbowError::InvalidConfiguration));
}

#[test]
fn test_resolve_job_count() {
    assert_eq!(resolve_job_count(0, 8), 8);
    assert_eq!(resolve_job_count(5, 8), 5);
}

#[test]
fn test_plan_jobs_uses_worker_count_when_zero_requested() {
    assert_eq!(plan_jobs(12, 0, 3), Ok(partition_jobs(12, 3)));
}

#[test]
fn test_plan_jobs_honours_requested_count() {
    assert_eq!(plan_jobs(13, 3, 8), Ok(partition_jobs(13, 3)));
}

#[test]
fn test_plan_jobs_zero_jobs_is_invalid_configuration() {
    assert_eq!(plan_jobs(100, 0, 0), Err(RainbowError::InvalidConfiguration));
}
