use das_exchange::codec::{encode, reconstruct, reconstruct_verified, DasError};
use das_exchange::message::Message;
use das_exchange::proposer::{plan_messages, SendMode};
use das_exchange::pad_data;
use das_exchange::{DATA_SHARDS, PARITY_SHARDS, TOTAL_SHARDS};

fn sample_blob(len: usize) -> Vec<u8> {
    (0..len).map(|i| (i * 31 + 7) as u8).collect()
}

fn subset_shards(shards: &[Vec<u8>], keep: &[usize]) -> Vec<Option<Vec<u8>>> {
    let mut out: Vec<Option<Vec<u8>>> = vec![None; TOTAL_SHARDS];
    for &i in keep {
        out[i] = Some(shards[i].clone());
    }
    out
}

fn all_k_subsets() -> Vec<Vec<usize>> {
    let mut subsets = Vec::new();
    for a in 0..TOTAL_SHARDS {
        for b in (a + 1)..TOTAL_SHARDS {
            for c in (b + 1)..TOTAL_SHARDS {
                for d in (c + 1)..TOTAL_SHARDS {
                    subsets.push(vec![a, b, c, d]);
                }
            }
        }
    }
    subsets
}

#[test]
fn constants_form_the_expected_code() {
    assert_eq!(DATA_SHARDS, 4);
    assert_eq!(PARITY_SHARDS, 2);
    assert_eq!(TOTAL_SHARDS, 6);
}

#[test]
fn encode_is_systematic() {
    let blob = sample_blob(23);
    let shards = encode(&blob);
    assert_eq!(shards.len(), TOTAL_SHARDS);
    let shard_len = shards[0].len();
    assert_eq!(shard_len, 6); // 23 pads to 24, split by 4
    for s in &shards {
        assert_eq!(s.len(), shard_len);
    }
    let padded = pad_data(&blob, DATA_SHARDS);
    for i in 0..DATA_SHARDS {
        assert_eq!(shards[i], padded[i * shard_len..(i + 1) * shard_len].to_vec());
    }
}

#[test]
fn round_trip_all_k_subsets() {
    let blob = sample_blob(23);
    let shards = encode(&blob);
    let mut tried = 0;
    for keep in all_k_subsets() {
        let partial = subset_shards(&shards, &keep);
        let got = reconstruct(&partial, blob.len());
        assert_eq!(got, Ok(blob.clone()), "failed for subset {:?}", keep);
        tried += 1;
    }
    assert_eq!(tried, 15); // C(6, 4)
}

#[test]
fn round_trip_with_all_shards() {
    let blob = sample_blob(100);
    let shards = encode(&blob);
    let partial = subset_shards(&shards, &[0, 1, 2, 3, 4, 5]);
    assert_eq!(reconstruct(&partial, blob.len()), Ok(blob));
}

#[test]
fn threshold_below_k_always_fails() {
    let blob = sample_blob(40);
    let shards = encode(&blob);
    let below: Vec<Vec<usize>> = vec![
        vec![],
        vec![0],
        vec![5],
        vec![0, 1],
        vec![4, 5],
        vec![0, 2, 4],
        vec![1, 3, 5],
    ];
    for keep in below {
        let partial = subset_shards(&shards, &keep);
        assert_eq!(
            reconstruct(&partial, blob.len()),
            Err(DasError::DecodeFailure),
            "subset {:?} should be below threshold",
            keep
        );
    }
}

#[test]
fn reconstruct_rejects_mismatched_shard_lengths() {
    let blob = sample_blob(16);
    let shards = encode(&blob);
    let mut partial = subset_shards(&shards, &[0, 1, 2, 3]);
    partial[1] = Some(vec![0u8; 9]); // wrong length
    assert_eq!(reconstruct(&partial, blob.len()), Err(DasError::DecodeFailure));
}

#[test]
fn reconstruct_rejects_declared_length_beyond_shards() {
    let blob = sample_blob(8);
    let shards = encode(&blob);
    let partial = subset_shards(&shards, &[0, 1, 2, 3]);
    // 4 shards of 2 bytes can carry at most 8 bytes
    assert_eq!(reconstruct(&partial, 9), Err(DasError::DecodeFailure));
}

#[test]
fn empty_blob_round_trips() {
    let blob: Vec<u8> = Vec::new();
    let shards = encode(&blob);
    assert_eq!(shards.len(), TOTAL_SHARDS);
    for s in &shards {
        assert_eq!(s.len(), 0);
    }
    let partial = subset_shards(&shards, &[0, 1, 2, 3]);
    assert_eq!(reconstruct(&partial, 0), Ok(Vec::new()));
}

#[test]
fn integrity_gate_distinguishes_its_outcomes() {
    let blob = sample_blob(20);
    let declared = match &plan_messages(&"x".to_string(), &blob, SendMode::Naive)[0] {
        Message::NaiveTransfer { checksum, .. } => checksum.clone(),
        _ => panic!("naive plan must emit a naive transfer"),
    };
    let shards = encode(&blob);
    let partial = subset_shards(&shards, &[1, 2, 4, 5]);
    // matching digest: the blob comes back
    assert_eq!(reconstruct_verified(&partial, blob.len(), &declared), Ok(blob.clone()));
    // wrong digest: the decode itself succeeds, so this is a checksum outcome
    let wrong = "0".repeat(64);
    assert_eq!(
        reconstruct_verified(&partial, blob.len(), &wrong),
        Err(DasError::ChecksumMismatch)
    );
    // below threshold: decode failure, not a checksum outcome
    let two = subset_shards(&shards, &[1, 2]);
    assert_eq!(
        reconstruct_verified(&two, blob.len(), &declared),
        Err(DasError::DecodeFailure)
    );
}

#[test]
fn padding_is_smallest_multiple_with_zero_fill() {
    for len in 0..33usize {
        for k in 1..7usize {
            let blob = sample_blob(len);
            let padded = pad_data(&blob, k);
            assert_eq!(padded.len() % k, 0);
            assert!(padded.len() >= len);
            assert!(padded.len() < len + k); // smallest such multiple
            assert_eq!(&padded[..len], &blob[..]);
            for &b in &padded[len..] {
                assert_eq!(b, 0u8);
            }
        }
    }
}

#[test]
fn padding_exact_multiple_is_untouched() {
    let blob = sample_blob(12);
    let padded = pad_data(&blob, DATA_SHARDS);
    assert_eq!(padded, blob);
}
