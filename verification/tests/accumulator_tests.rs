use das_exchange::accumulator::{ShardStore, ShardOutcome, ValidatorAction};
use das_exchange::codec::encode;
use das_exchange::message::Message;
use das_exchange::proposer::{plan_messages, SendMode};
use das_exchange::{DATA_SHARDS, TOTAL_SHARDS};

fn sample_blob(len: usize) -> Vec<u8> {
    (0..len).map(|i| (i * 13 + 5) as u8).collect()
}

/// The checksum the proposer would declare for a blob, read off the one
/// message a naive plan emits.
fn checksum_of(blob: &Vec<u8>) -> String {
    let msgs = plan_messages(&"x".to_string(), blob, SendMode::Naive);
    match &msgs[0] {
        Message::NaiveTransfer { checksum, .. } => checksum.clone(),
        _ => panic!("naive plan must emit a naive transfer"),
    }
}

fn shard_message(name: &str, blob: &Vec<u8>, index: usize, checksum: &str) -> Message {
    let shards = encode(blob);
    Message::DasShard {
        filename: name.to_string(),
        original_len: blob.len(),
        index,
        data: shards[index].clone(),
        full_file_checksum: checksum.to_string(),
    }
}

fn feed_shard(
    store: &mut ShardStore,
    name: &str,
    blob: &Vec<u8>,
    index: usize,
    checksum: &str,
) -> ShardOutcome {
    let shards = encode(blob);
    store.handle_shard(
        &name.to_string(),
        blob.len(),
        index,
        shards[index].clone(),
        &checksum.to_string(),
    )
}

#[test]
fn full_scenario_every_choice_of_k_indices() {
    let blob = sample_blob(23);
    let checksum = checksum_of(&blob);
    for a in 0..TOTAL_SHARDS {
        for b in (a + 1)..TOTAL_SHARDS {
            for c in (b + 1)..TOTAL_SHARDS {
                for d in (c + 1)..TOTAL_SHARDS {
                    let mut store = ShardStore::new();
                    let keep = [a, b, c, d];
                    let mut verified = 0;
                    for (n, &i) in keep.iter().enumerate() {
                        match feed_shard(&mut store, "blob.bin", &blob, i, &checksum) {
                            ShardOutcome::Accumulating { count } => {
                                assert_eq!(count, n + 1);
                                assert!(n + 1 < DATA_SHARDS);
                            }
                            ShardOutcome::Verified { data } => {
                                assert_eq!(data, blob);
                                assert_eq!(n + 1, DATA_SHARDS);
                                verified += 1;
                            }
                            other => panic!("unexpected outcome {:?}", outcome_name(&other)),
                        }
                    }
                    assert_eq!(verified, 1, "exactly one reconstruction for {:?}", keep);
                    // the entry was cleared, so nothing is reported as sampled
                    assert!(store.sampling_reports().is_empty());
                }
            }
        }
    }
}

fn outcome_name(out: &ShardOutcome) -> &'static str {
    match out {
        ShardOutcome::Accumulating { .. } => "Accumulating",
        ShardOutcome::Verified { .. } => "Verified",
        ShardOutcome::ChecksumMismatch => "ChecksumMismatch",
        ShardOutcome::DecodeFailed => "DecodeFailed",
    }
}

#[test]
fn sampling_scenario_two_shards_one_report() {
    let blob = sample_blob(40);
    let checksum = checksum_of(&blob);
    let mut store = ShardStore::new();
    // exactly 2 shards arrive, then the connection closes
    match feed_shard(&mut store, "blob.bin", &blob, 5, &checksum) {
        ShardOutcome::Accumulating { count } => assert_eq!(count, 1),
        other => panic!("unexpected outcome {}", outcome_name(&other)),
    }
    match feed_shard(&mut store, "blob.bin", &blob, 2, &checksum) {
        ShardOutcome::Accumulating { count } => assert_eq!(count, 2),
        other => panic!("unexpected outcome {}", outcome_name(&other)),
    }
    // no reconstruction was attempted or reported; one availability report
    let reports = store.sampling_reports();
    assert_eq!(reports, vec!["blob.bin".to_string()]);
}

#[test]
fn duplicate_index_counts_once_and_last_write_wins() {
    let blob = sample_blob(32);
    let checksum = checksum_of(&blob);
    let mut store = ShardStore::new();
    let name = "blob.bin".to_string();
    // a corrupted copy of shard 0 arrives first
    let shard_len = encode(&blob)[0].len();
    match store.handle_shard(&name, blob.len(), 0, vec![0xAA; shard_len], &checksum) {
        ShardOutcome::Accumulating { count } => assert_eq!(count, 1),
        other => panic!("unexpected outcome {}", outcome_name(&other)),
    }
    // the genuine shard 0 arrives again: still one distinct index
    match feed_shard(&mut store, "blob.bin", &blob, 0, &checksum) {
        ShardOutcome::Accumulating { count } => assert_eq!(count, 1),
        other => panic!("unexpected outcome {}", outcome_name(&other)),
    }
    // three more distinct indices reach the threshold; reconstruction
    // succeeds, which shows the second write replaced the corrupted payload
    for (n, i) in [1usize, 2, 3].iter().enumerate() {
        match feed_shard(&mut store, "blob.bin", &blob, *i, &checksum) {
            ShardOutcome::Accumulating { count } => {
                assert_eq!(count, n + 2);
                assert!(n < 2);
            }
            ShardOutcome::Verified { data } => {
                assert_eq!(data, blob);
                assert_eq!(n, 2);
            }
            other => panic!("unexpected outcome {}", outcome_name(&other)),
        }
    }
}

#[test]
fn checksum_mismatch_retains_entry_and_reattempts() {
    let blob = sample_blob(24);
    let wrong = "0".repeat(64);
    let mut store = ShardStore::new();
    for i in 0..3 {
        match feed_shard(&mut store, "blob.bin", &blob, i, &wrong) {
            ShardOutcome::Accumulating { .. } => {}
            other => panic!("unexpected outcome {}", outcome_name(&other)),
        }
    }
    match feed_shard(&mut store, "blob.bin", &blob, 3, &wrong) {
        ShardOutcome::ChecksumMismatch => {}
        other => panic!("unexpected outcome {}", outcome_name(&other)),
    }
    // the entry is retained, so the next arrival re-attempts and fails again
    match feed_shard(&mut store, "blob.bin", &blob, 4, &wrong) {
        ShardOutcome::ChecksumMismatch => {}
        other => panic!("unexpected outcome {}", outcome_name(&other)),
    }
    // four retained shards sit at or above threshold: not a sampling report
    assert!(store.sampling_reports().is_empty());
}

#[test]
fn mismatched_shard_lengths_report_decode_failure() {
    let blob = sample_blob(24);
    let checksum = checksum_of(&blob);
    let mut store = ShardStore::new();
    let name = "blob.bin".to_string();
    for i in 0..3 {
        match store.handle_shard(&name, blob.len(), i, vec![1u8; 6], &checksum) {
            ShardOutcome::Accumulating { .. } => {}
            other => panic!("unexpected outcome {}", outcome_name(&other)),
        }
    }
    match store.handle_shard(&name, blob.len(), 3, vec![1u8; 9], &checksum) {
        ShardOutcome::DecodeFailed => {}
        other => panic!("unexpected outcome {}", outcome_name(&other)),
    }
}

#[test]
fn filenames_accumulate_independently() {
    let blob_a = sample_blob(20);
    let blob_b = sample_blob(36);
    let sum_a = checksum_of(&blob_a);
    let sum_b = checksum_of(&blob_b);
    let mut store = ShardStore::new();
    feed_shard(&mut store, "a.bin", &blob_a, 0, &sum_a);
    feed_shard(&mut store, "b.bin", &blob_b, 1, &sum_b);
    feed_shard(&mut store, "a.bin", &blob_a, 1, &sum_a);
    feed_shard(&mut store, "b.bin", &blob_b, 2, &sum_b);
    feed_shard(&mut store, "a.bin", &blob_a, 2, &sum_a);
    match feed_shard(&mut store, "a.bin", &blob_a, 3, &sum_a) {
        ShardOutcome::Verified { data } => assert_eq!(data, blob_a),
        other => panic!("unexpected outcome {}", outcome_name(&other)),
    }
    // b.bin still sits at 2 of 4: reported as sampled; a.bin was cleared
    assert_eq!(store.sampling_reports(), vec!["b.bin".to_string()]);
}

#[test]
fn naive_transfer_round_trips_through_the_validator() {
    let blob = sample_blob(57);
    let msgs = plan_messages(&"blob.bin".to_string(), &blob, SendMode::Naive);
    assert_eq!(msgs.len(), 1);
    let mut store = ShardStore::new();
    let mut msgs = msgs;
    match store.handle_message(msgs.remove(0)) {
        ValidatorAction::NaiveAccepted { filename, data } => {
            assert_eq!(filename, "blob.bin");
            assert_eq!(data, blob); // bit-identical to the source
        }
        _ => panic!("a faithful naive transfer must be accepted"),
    }
}

#[test]
fn corrupted_naive_transfer_is_rejected() {
    let blob = sample_blob(57);
    let mut store = ShardStore::new();
    let msg = Message::NaiveTransfer {
        filename: "blob.bin".to_string(),
        data: blob,
        checksum: "f".repeat(64),
    };
    match store.handle_message(msg) {
        ValidatorAction::NaiveRejected { filename } => assert_eq!(filename, "blob.bin"),
        _ => panic!("a corrupted naive transfer must be rejected"),
    }
}

#[test]
fn handshake_messages_are_ignored() {
    let mut store = ShardStore::new();
    let msg = Message::Handshake {
        pubkey: vec![0u8; 32],
        sig: vec![0u8; 64],
        ts: 1000,
    };
    match store.handle_message(msg) {
        ValidatorAction::Ignored => {}
        _ => panic!("handshakes carry no payload to act on"),
    }
}

#[test]
fn out_of_range_shard_index_is_rejected() {
    let blob = sample_blob(16);
    let checksum = checksum_of(&blob);
    let mut store = ShardStore::new();
    let msg = shard_message("blob.bin", &blob, 0, &checksum);
    let msg = match msg {
        Message::DasShard {
            filename,
            original_len,
            data,
            full_file_checksum,
            ..
        } => Message::DasShard {
            filename,
            original_len,
            index: TOTAL_SHARDS,
            data,
            full_file_checksum,
        },
        _ => unreachable!(),
    };
    match store.handle_message(msg) {
        ValidatorAction::InvalidShardIndex { filename } => assert_eq!(filename, "blob.bin"),
        _ => panic!("an out-of-range index must be rejected"),
    }
    assert!(store.sampling_reports().is_empty());
}

#[test]
fn checksum_gate_at_shard_boundary_sizes() {
    // shard length 8 makes these the boundary cases around one shard
    for len in [0usize, 1, 7, 8, 9, 80] {
        let blob = sample_blob(len);
        let checksum = checksum_of(&blob);
        let mut store = ShardStore::new();
        let mut verified = false;
        for (n, i) in [5usize, 0, 3, 1].iter().enumerate() {
            match feed_shard(&mut store, "blob.bin", &blob, *i, &checksum) {
                ShardOutcome::Accumulating { count } => assert_eq!(count, n + 1),
                ShardOutcome::Verified { data } => {
                    // the reconstructed blob matches the declared checksum,
                    // so it is the original, byte for byte
                    assert_eq!(data, blob);
                    assert_eq!(n + 1, DATA_SHARDS);
                    verified = true;
                }
                other => panic!("unexpected outcome {}", outcome_name(&other)),
            }
        }
        assert!(verified, "size {} must reconstruct", len);
    }
}
