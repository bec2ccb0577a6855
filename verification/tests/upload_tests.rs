use lockbox::id::Uid;
use lockbox::purge::Purge;
use lockbox::s3::{partition_file, sort_parts, delete_batches, S3Part, Uploads};

#[test]
fn test_partition_file_small_chunk() {
    let file_size = 4 * 1024 * 1024;
    let partition = partition_file(file_size);
    assert_eq!(partition.chunk_size, 5 * 1024 * 1024);
    assert_eq!(partition.num_chunks, 1);
}

#[test]
fn test_partition_file_zero_size() {
    let file_size = 0;
    let partition = partition_file(file_size);
    assert_eq!(partition.chunk_size, 5 * 1024 * 1024);
    assert_eq!(partition.num_chunks, 0);
}

#[test]
fn test_partition_file_6mb() {
    let file_size = 6 * 1024 * 1024;
    let partition = partition_file(file_size);
    assert_eq!(partition.chunk_size, 5 * 1024 * 1024);
    assert_eq!(partition.num_chunks, 2);
}

#[test]
fn test_partition_file_7mb() {
    let file_size = 7 * 1024 * 1024;
    let partition = partition_file(file_size);
    assert_eq!(partition.chunk_size, 5 * 1024 * 1024);
    assert_eq!(partition.num_chunks, 2);
}

#[test]
fn test_partition_file_11mb() {
    let file_size = 11 * 1024 * 1024;
    let partition = partition_file(file_size);
    assert_eq!(partition.chunk_size, 5 * 1024 * 1024);
    assert_eq!(partition.num_chunks, 3);
}

#[test]
fn test_partition_file_medium_chunk() {
    let file_size = 211 * 1024 * 1024;
    let partition = partition_file(file_size);
    assert_eq!(partition.chunk_size, 10 * 1024 * 1024);
    assert_eq!(partition.num_chunks, 22);
}

#[test]
fn test_partition_file_large_chunk() {
    let file_size = 501 * 1024 * 1024;
    let partition = partition_file(file_size);
    assert_eq!(partition.chunk_size, 50 * 1024 * 1024);
    assert_eq!(partition.num_chunks, 11);
}

#[test]
fn test_upload_happy_path_bookkeeping() {
    // start: 20 MiB cuts into four 5 MiB chunks
    let plan = partition_file(20 * 1024 * 1024);
    assert_eq!(plan.chunk_size, 5 * 1024 * 1024);
    assert_eq!(plan.num_chunks, 4);
    let mut uploads = Uploads::new();
    let file_id = Uid::new(42);
    let alg = uploads.add(file_id, "upload-1".to_string(), plan.chunk_size);
    assert_eq!(alg, "aes-gcm");
    let entry = uploads.get(file_id).unwrap();
    assert_eq!(entry.upload_id, "upload-1");
    assert_eq!(entry.chunk_size, 5 * 1024 * 1024);
    assert!(!entry.complete);
    // finish: the client's parts are ordered before completion
    let parts = vec![
        S3Part { part_number: 3, e_tag: "c".to_string() },
        S3Part { part_number: 1, e_tag: "a".to_string() },
        S3Part { part_number: 4, e_tag: "d".to_string() },
        S3Part { part_number: 2, e_tag: "b".to_string() },
    ];
    let sorted = sort_parts(parts);
    let numbers: Vec<i32> = sorted.iter().map(|p| p.part_number).collect();
    assert_eq!(numbers, vec![1, 2, 3, 4]);
    let tags: Vec<&str> = sorted.iter().map(|p| p.e_tag.as_str()).collect();
    assert_eq!(tags, vec!["a", "b", "c", "d"]);
    assert!(uploads.mark_as_complete(file_id));
    assert!(uploads.get(file_id).unwrap().complete);
}

#[test]
fn test_mark_as_complete_missing() {
    let mut uploads = Uploads::new();
    assert!(!uploads.mark_as_complete(Uid::new(9)));
}

#[test]
fn test_uploads_remove_reports_present_ids() {
    let mut uploads = Uploads::new();
    uploads.add(Uid::new(1), "a".to_string(), 5);
    uploads.add(Uid::new(2), "b".to_string(), 5);
    let gone = uploads.remove(&[Uid::new(2), Uid::new(3), Uid::new(1)]);
    let gone_ids: Vec<u64> = gone.into_iter().map(|u| u.0).collect();
    assert_eq!(gone_ids, vec![2, 1]);
    assert!(uploads.get(Uid::new(1)).is_none());
}

#[test]
fn test_delete_batches_grouping() {
    let ids: Vec<Uid> = (0..2500u64).map(Uid::new).collect();
    let batches = delete_batches(&ids);
    assert_eq!(batches.len(), 3);
    assert_eq!(batches[0].len(), 1000);
    assert_eq!(batches[1].len(), 1000);
    assert_eq!(batches[2].len(), 500);
    let flat: Vec<u64> = batches.into_iter().flatten().map(|u| u.0).collect();
    let expected: Vec<u64> = (0..2500u64).collect();
    assert_eq!(flat, expected);
}
