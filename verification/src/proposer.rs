//! Proposer-side planning: which messages one send run emits for a blob,
//! under each of the three strategies.

use vstd::prelude::*;
use rand::seq::SliceRandom;
use vstd::seq_lib::group_to_multiset_ensures;
use crate::{DATA_SHARDS, TOTAL_SHARDS};
use crate::codec::{encode, full_shards_of, clone_bytes, lemma_bytes_deep_view};
use crate::digest::{calculate_sha256, sha256_hex_of};
use crate::message::Message;

verus! {

/// The proposer's three send strategies.
#[derive(Clone, Copy, Debug, PartialEq, Eq, Structural)]
pub enum SendMode {
    /// One message carrying the whole blob.
    Naive,
    /// Erasure-code and send exactly `k` shards: enough to reconstruct.
    DasFull,
    /// Erasure-code and send 2 shards: deliberately below threshold, for
    /// availability sampling only.
    DasSample,
}

/// How many shards a coded strategy sends.
pub open spec fn das_count(mode: SendMode) -> int {
    if mode is DasSample {
        2
    } else {
        DATA_SHARDS as int
    }
}

/// Relies on rand::seq::SliceRandom::shuffle with rand::thread_rng: an
/// in-place random permutation. Whatever the randomness did, the slice
/// afterwards holds the same elements with the same multiplicities.
#[verifier::external_body]
fn shuffle_indices(v: &mut Vec<usize>)
    ensures
        final(v)@.to_multiset() == old(v)@.to_multiset(),
{
    v.as_mut_slice().shuffle(&mut rand::thread_rng());
}

/// The shard indices `0..n`, in a random order.
fn shuffled_shard_indices() -> (r: Vec<usize>)
    ensures
        r@.len() == TOTAL_SHARDS,
        forall|j: int| 0 <= j < r@.len() ==> 0 <= #[trigger] r@[j] < TOTAL_SHARDS,
        r@.no_duplicates(),
{
    let mut v: Vec<usize> = Vec::new();
    let mut i: usize = 0;
    while i < TOTAL_SHARDS
        invariant
            i <= TOTAL_SHARDS,
            v@.len() == i,
            forall|j: int| 0 <= j < i ==> #[trigger] v@[j] == j,
        decreases TOTAL_SHARDS - i,
    {
        v.push(i);
        i += 1;
    }
    let ghost pre = v@;
    proof {
        assert(pre.no_duplicates());
    }
    shuffle_indices(&mut v);
    proof {
        broadcast use group_to_multiset_ensures;

        pre.to_multiset_ensures();
        v@.to_multiset_ensures();
        assert(v@.to_multiset().len() == pre.to_multiset().len());
        assert(v@.len() == pre.len());
        pre.lemma_multiset_has_no_duplicates();
        assert forall|x: usize| v@.to_multiset().contains(x) implies v@.to_multiset().count(x)
            == 1 by {
            assert(pre.to_multiset().count(x) > 0);
        }
        v@.lemma_multiset_has_no_duplicates_conv();
        assert forall|j: int| 0 <= j < v@.len() implies 0 <= #[trigger] v@[j] < TOTAL_SHARDS
            by {
            assert(v@.contains(v@[j]));
            assert(v@.to_multiset().count(v@[j]) > 0);
            assert(pre.to_multiset().count(v@[j]) > 0);
            assert(pre.contains(v@[j]));
            let w = choose|w: int| 0 <= w < pre.len() && pre[w] == v@[j];
            assert(pre[w] == w);
        }
    }
    v
}

/// Plans one send run: reads nothing, writes nothing, and returns the exact
/// messages the run emits, in order. Naive mode yields the one blob-carrying
/// message; the coded modes yield shards of the blob's codeword at distinct
/// indices - `k` of them in full mode (enough to reconstruct), 2 in sampling
/// mode (deliberately below threshold).
pub fn plan_messages(filename: &String, data: &Vec<u8>, mode: SendMode) -> (msgs: Vec<Message>)
    requires
        data@.len() + DATA_SHARDS <= usize::MAX,
    ensures
        mode is Naive ==> msgs@.len() == 1 && (msgs@[0] matches Message::NaiveTransfer {
            filename: f,
            data: d,
            checksum: c,
        } && f@ == filename@ && d@ == data@ && c@ == sha256_hex_of(data@)),
        !(mode is Naive) ==> {
            &&& msgs@.len() == das_count(mode)
            &&& forall|j: int|
                0 <= j < msgs@.len() ==> (#[trigger] msgs@[j] matches Message::DasShard {
                    filename: f,
                    original_len: ol,
                    index: ix,
                    data: sh,
                    full_file_checksum: c,
                } && f@ == filename@ && ol == data@.len() && 0 <= ix < TOTAL_SHARDS && sh@
                    == full_shards_of(data@)[ix as int] && c@ == sha256_hex_of(data@))
            &&& forall|j1: int, j2: int|
                0 <= j1 < j2 < msgs@.len() ==> msgs@[j1]->DasShard_index
                    != msgs@[j2]->DasShard_index
        },
{
    let checksum = calculate_sha256(data.as_slice());
    match mode {
        SendMode::Naive => {
            let mut msgs: Vec<Message> = Vec::new();
            msgs.push(
                Message::NaiveTransfer {
                    filename: filename.clone(),
                    data: clone_bytes(data),
                    checksum,
                },
            );
            msgs
        },
        _ => {
            let shards = encode(data);
            let count: usize = if mode == SendMode::DasSample {
                2
            } else {
                DATA_SHARDS
            };
            let order = shuffled_shard_indices();
            let mut msgs: Vec<Message> = Vec::new();
            let mut j: usize = 0;
            while j < count
                invariant
                    j <= count,
                    count <= TOTAL_SHARDS,
                    order@.len() == TOTAL_SHARDS,
                    forall|t: int|
                        0 <= t < order@.len() ==> 0 <= #[trigger] order@[t] < TOTAL_SHARDS,
                    order@.no_duplicates(),
                    shards@.len() == TOTAL_SHARDS,
                    shards.deep_view() == full_shards_of(data@),
                    checksum@ == sha256_hex_of(data@),
                    msgs@.len() == j,
                    forall|t: int|
                        0 <= t < j ==> (#[trigger] msgs@[t] matches Message::DasShard {
                            filename: f,
                            original_len: ol,
                            index: ix,
                            data: sh,
                            full_file_checksum: c,
                        } && f@ == filename@ && ol == data@.len() && ix == order@[t] && sh@
                            == full_shards_of(data@)[ix as int] && c@ == sha256_hex_of(data@)),
                decreases count - j,
            {
                let ix = order[j];
                let sh = clone_bytes(&shards[ix]);
                proof {
                    lemma_bytes_deep_view(shards@[ix as int]);
                    assert(shards.deep_view()[ix as int] == full_shards_of(data@)[ix as int]);
                }
                msgs.push(
                    Message::DasShard {
                        filename: filename.clone(),
                        original_len: data.len(),
                        index: ix,
                        data: sh,
                        full_file_checksum: checksum.clone(),
                    },
                );
                j += 1;
            }
            proof {
                assert forall|j1: int, j2: int| 0 <= j1 < j2 < msgs@.len()
                    implies msgs@[j1]->DasShard_index != msgs@[j2]->DasShard_index by {
                    assert(msgs@[j1]->DasShard_index == order@[j1]);
                    assert(msgs@[j2]->DasShard_index == order@[j2]);
                }
            }
            msgs
        },
    }
}

} // verus!
