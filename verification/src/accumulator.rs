//! The per-filename shard accumulator: a state machine that collects shard
//! indices, attempts reconstruction once the threshold is reached, applies
//! the checksum gate, and clears the entry only on full success. Entries
//! left below threshold at connection end become availability reports.

use vstd::prelude::*;
use vstd::pervasive::VecAdditionalExecFns;
use crate::{DATA_SHARDS, TOTAL_SHARDS};
use crate::codec::{
    count_present, count_present_exec, matches_blob, reconstruct_verified, lemma_bytes_deep_view,
    DasError,
};
use crate::digest::{checksum_ok, checksum_matches};
use crate::message::Message;

verus! {

/// The accumulated shards of one filename: slot `i` holds the payload of
/// shard index `i`, if it has arrived.
pub struct FileEntry {
    pub name: String,
    pub slots: Vec<Option<Vec<u8>>>,
}

/// All per-filename accumulation state of a validator.
pub struct ShardStore {
    pub entries: Vec<FileEntry>,
}

/// A shard set with no shard present.
pub open spec fn empty_slots() -> Seq<Option<Seq<u8>>> {
    Seq::new(TOTAL_SHARDS as nat, |i: int| None)
}

/// What one shard arrival produced.
pub enum ShardOutcome {
    /// Below threshold: the shard was recorded and nothing else happened.
    Accumulating { count: usize },
    /// Threshold reached, decode succeeded, and the checksum matched:
    /// the blob is recovered and the entry cleared.
    Verified { data: Vec<u8> },
    /// Threshold reached and decode succeeded, but the checksum did not
    /// match; the entry is retained.
    ChecksumMismatch,
    /// Threshold reached but decoding failed; the entry is retained.
    DecodeFailed,
}

/// How the outcome of one shard arrival relates the freshly-inserted slot
/// state to the state left behind.
pub open spec fn shard_outcome_ok(
    inserted: Seq<Option<Seq<u8>>>,
    post_slots: Seq<Option<Seq<u8>>>,
    out: ShardOutcome,
    original_len: nat,
    checksum: Seq<char>,
) -> bool {
    let cnt = count_present(inserted);
    &&& (out is Accumulating <==> cnt < DATA_SHARDS)
    &&& (out matches ShardOutcome::Accumulating { count } ==> count == cnt && post_slots
        == inserted)
    &&& (out matches ShardOutcome::Verified { data } ==> checksum_ok(data@, checksum)
        && data@.len() == original_len && post_slots == empty_slots())
    &&& ((out is ChecksumMismatch || out is DecodeFailed) ==> post_slots == inserted)
    &&& (forall|b: Seq<u8>|
        (b.len() == original_len && cnt >= DATA_SHARDS && #[trigger] matches_blob(inserted, b)
            && checksum_ok(b, checksum)) ==> (out matches ShardOutcome::Verified { data }
            && data@ == b))
}

/// The full effect of one shard arrival on a store: the named entry holds
/// the inserted (or cleared) slots, and every other entry is untouched.
pub open spec fn shard_step(
    pre: ShardStore,
    post: ShardStore,
    name: Seq<char>,
    original_len: nat,
    index: int,
    data: Seq<u8>,
    checksum: Seq<char>,
    out: ShardOutcome,
) -> bool {
    &&& post.wf()
    &&& post.has_entry(name)
    &&& (forall|n: Seq<char>|
        n != name ==> ((post.has_entry(n) <==> pre.has_entry(n)) && (pre.has_entry(n)
            ==> post.slots_of(n) == pre.slots_of(n))))
    &&& shard_outcome_ok(
        pre.slots_or_empty(name).update(index, Some(data)),
        post.slots_of(name),
        out,
        original_len,
        checksum,
    )
}

impl ShardStore {
    /// Entries are keyed by distinct filenames and always hold one slot per
    /// shard index.
    pub open spec fn wf(self) -> bool {
        &&& forall|i: int|
            0 <= i < self.entries@.len() ==> (#[trigger] self.entries@[i]).slots@.len()
                == TOTAL_SHARDS
        &&& forall|i: int, j: int|
            0 <= i < j < self.entries@.len() ==> self.entries@[i].name@
                != self.entries@[j].name@
    }

    /// Whether some entry is keyed by `name`.
    pub open spec fn has_entry(self, name: Seq<char>) -> bool {
        exists|i: int|
            0 <= i < self.entries@.len() && (#[trigger] self.entries@[i]).name@ == name
    }

    /// The position of the entry keyed by `name`.
    pub open spec fn index_of(self, name: Seq<char>) -> int {
        choose|i: int|
            0 <= i < self.entries@.len() && (#[trigger] self.entries@[i]).name@ == name
    }

    /// The accumulated slots of the entry keyed by `name`.
    pub open spec fn slots_of(self, name: Seq<char>) -> Seq<Option<Seq<u8>>> {
        self.entries@[self.index_of(name)].slots.deep_view()
    }

    /// The accumulated slots of `name`, or an all-empty set if no entry
    /// exists yet.
    pub open spec fn slots_or_empty(self, name: Seq<char>) -> Seq<Option<Seq<u8>>> {
        if self.has_entry(name) {
            self.slots_of(name)
        } else {
            empty_slots()
        }
    }

    /// In a well-formed store the entry keyed by a name is unique, so any
    /// position with that name is the position `index_of` denotes.
    pub proof fn lemma_index_unique(self, name: Seq<char>, i: int)
        requires
            self.wf(),
            0 <= i < self.entries@.len(),
            self.entries@[i].name@ == name,
        ensures
            self.has_entry(name),
            self.index_of(name) == i,
    {
        assert(self.has_entry(name));
        let j = self.index_of(name);
        assert(0 <= j < self.entries@.len() && self.entries@[j].name@ == name);
        if i < j {
            assert(self.entries@[i].name@ != self.entries@[j].name@);
        } else if j < i {
            assert(self.entries@[j].name@ != self.entries@[i].name@);
        }
    }

    /// A store with no entries.
    pub fn new() -> (r: ShardStore)
        ensures
            r.wf(),
            r.entries@.len() == 0,
            forall|n: Seq<char>| !r.has_entry(n),
    {
        ShardStore { entries: Vec::new() }
    }

    fn find_entry(&self, name: &String) -> (r: Option<usize>)
        ensures
            match r {
                Some(i) => i < self.entries@.len() && self.entries@[i as int].name@ == name@,
                None => forall|i: int|
                    0 <= i < self.entries@.len() ==> (#[trigger] self.entries@[i]).name@
                        != name@,
            },
    {
        let mut i: usize = 0;
        while i < self.entries.len()
            invariant
                i <= self.entries@.len(),
                forall|j: int|
                    0 <= j < i ==> (#[trigger] self.entries@[j]).name@ != name@,
            decreases self.entries@.len() - i,
        {
            if self.entries[i].name.eq(name) {
                return Some(i);
            }
            i += 1;
        }
        None
    }

    /// Records one arriving shard for `filename` (a duplicate index
    /// overwrites: the last write wins), then, at or above the threshold,
    /// attempts reconstruction and applies the checksum gate. Only a fully
    /// verified reconstruction clears the entry; failures retain it.
    pub fn handle_shard(
        &mut self,
        filename: &String,
        original_len: usize,
        index: usize,
        data: Vec<u8>,
        checksum: &String,
    ) -> (out: ShardOutcome)
        requires
            old(self).wf(),
            index < TOTAL_SHARDS,
        ensures
            shard_step(
                *old(self),
                *final(self),
                filename@,
                original_len as nat,
                index as int,
                data@,
                checksum@,
                out,
            ),
    {
        let ghost g0 = old(self).entries@;
        let idx: usize;
        match self.find_entry(filename) {
            Some(i) => {
                idx = i;
                proof {
                    old(self).lemma_index_unique(filename@, i as int);
                }
            },
            None => {
                let slots = none_slots();
                self.entries.push(FileEntry { name: filename.clone(), slots });
                idx = self.entries.len() - 1;
            },
        }
        let ghost mid = self.entries@;
        proof {
            assert(mid[idx as int].name@ == filename@);
            assert(mid[idx as int].slots.deep_view() == old(self).slots_or_empty(filename@))
                by {
                if old(self).has_entry(filename@) {
                } else {
                    assert(mid[idx as int].slots.deep_view() =~= empty_slots());
                }
            }
        }
        let mut entry = self.entries.remove(idx);
        let ghost before = entry.slots.deep_view();
        entry.slots.set(index, Some(data));
        let ghost inserted = entry.slots.deep_view();
        proof {
            lemma_bytes_deep_view(data);
            assert(inserted =~= before.update(index as int, Some(data@))) by {
                assert(entry.slots@.len() == TOTAL_SHARDS);
                assert(forall|j: int|
                    0 <= j < TOTAL_SHARDS && j != index as int
                        ==> entry.slots@[j] == mid[idx as int].slots@[j]);
            }
        }
        let count: usize = count_present_exec(&entry.slots);
        let out: ShardOutcome;
        if count < DATA_SHARDS {
            out = ShardOutcome::Accumulating { count };
        } else {
            match reconstruct_verified(&entry.slots, original_len, checksum) {
                Result::Err(DasError::ChecksumMismatch) => {
                    out = ShardOutcome::ChecksumMismatch;
                },
                Result::Err(DasError::DecodeFailure) => {
                    out = ShardOutcome::DecodeFailed;
                },
                Result::Ok(blob) => {
                    entry.slots = none_slots();
                    out = ShardOutcome::Verified { data: blob };
                },
            }
        }
        let ghost post_slots = entry.slots.deep_view();
        self.entries.insert(idx, entry);
        proof {
            assert(self.entries@ =~= mid.update(idx as int, entry));
            assert(self.wf()) by {
                assert(forall|i: int|
                    0 <= i < self.entries@.len() && i != idx as int
                        ==> self.entries@[i] == mid[i]);
                assert(self.entries@[idx as int].name@ == filename@);
                assert(self.entries@[idx as int].slots@.len() == TOTAL_SHARDS);
            }
            self.lemma_index_unique(filename@, idx as int);
            assert(self.slots_of(filename@) == post_slots);
            assert(shard_outcome_ok(
                inserted,
                post_slots,
                out,
                original_len as nat,
                checksum@,
            ));
            assert forall|n: Seq<char>| n != filename@ implies ((self.has_entry(n)
                <==> old(self).has_entry(n)) && (old(self).has_entry(n) ==> self.slots_of(n)
                == old(self).slots_of(n))) by {
                if old(self).has_entry(n) {
                    let i = old(self).index_of(n);
                    assert(0 <= i < g0.len() && g0[i].name@ == n);
                    assert(i != idx as int);
                    assert(self.entries@[i] == g0[i]);
                    self.lemma_index_unique(n, i);
                    old(self).lemma_index_unique(n, i);
                }
                if self.has_entry(n) {
                    let i = self.index_of(n);
                    assert(0 <= i < self.entries@.len() && self.entries@[i].name@ == n);
                    assert(i != idx as int);
                    assert(i < g0.len());
                    assert(g0[i].name@ == n);
                    assert(old(self).has_entry(n));
                }
            }
        }
        out
    }

    /// The filenames whose entries sit strictly between empty and the
    /// reconstruction threshold: the availability reports issued when a
    /// connection ends.
    pub fn sampling_reports(&self) -> (r: Vec<String>)
        ensures
            r.deep_view() == sampled_names(self.entries@),
    {
        let mut r: Vec<String> = Vec::new();
        let mut i: usize = 0;
        proof {
            assert(r.deep_view() =~= sampled_names(self.entries@.take(0)));
        }
        while i < self.entries.len()
            invariant
                i <= self.entries@.len(),
                r.deep_view() == sampled_names(self.entries@.take(i as int)),
            decreases self.entries@.len() - i,
        {
            let ghost prev = r.deep_view();
            let ghost prev_v = r@;
            let c: usize = count_present_exec(&self.entries[i].slots);
            if 0 < c && c < DATA_SHARDS {
                let name = self.entries[i].name.clone();
                r.push(name);
            }
            proof {
                let e = self.entries@[i as int];
                assert(self.entries@.take(i as int + 1).drop_last() =~= self.entries@.take(
                    i as int,
                ));
                assert(self.entries@.take(i as int + 1).last() == e);
                assert forall|j: int| 0 <= j < prev.len() implies r.deep_view()[j] == prev[j]
                    by {
                    assert(r@[j] == prev_v[j]);
                }
                if 0 < c && c < DATA_SHARDS {
                    assert(is_sampled(e));
                    assert(r.deep_view()[prev.len() as int] == r@[prev.len() as int].deep_view());
                    assert(r.deep_view() =~= prev + seq![e.name@]);
                } else {
                    assert(!is_sampled(e));
                    assert(r.deep_view() =~= prev);
                }
            }
            i += 1;
        }
        proof {
            assert(self.entries@.take(self.entries@.len() as int) =~= self.entries@);
        }
        r
    }

    /// Routes one incoming message as the validator's read loop does:
    /// handshakes are noted and ignored, naive transfers pass through the
    /// checksum gate, and shards with a valid index feed the accumulator.
    ///
    /// The handshake arm is deliberately the single place an incoming
    /// handshake reaches: a session counts as secured purely because the
    /// local send succeeded, and hardening would replace this one arm with
    /// a signature check over the claimed key and timestamp, leaving the
    /// wire format untouched.
    pub fn handle_message(&mut self, msg: Message) -> (act: ValidatorAction)
        requires
            old(self).wf(),
        ensures
            final(self).wf(),
            match msg {
                Message::Handshake { .. } => act is Ignored && *final(self) == *old(self),
                Message::NaiveTransfer { filename, data, checksum } => {
                    &&& *final(self) == *old(self)
                    &&& (checksum_ok(data@, checksum@) ==> (act matches
                        ValidatorAction::NaiveAccepted { filename: f, data: d } && f@
                        == filename@ && d@ == data@))
                    &&& (!checksum_ok(data@, checksum@) ==> (act matches
                        ValidatorAction::NaiveRejected { filename: f } && f@ == filename@))
                },
                Message::DasShard { filename, original_len, index, data, full_file_checksum } => {
                    &&& (index >= TOTAL_SHARDS ==> *final(self) == *old(self) && (act matches
                        ValidatorAction::InvalidShardIndex { filename: f } && f@ == filename@))
                    &&& (index < TOTAL_SHARDS ==> (act matches ValidatorAction::ShardProcessed {
                        filename: f,
                        outcome,
                    } && f@ == filename@ && shard_step(
                        *old(self),
                        *final(self),
                        filename@,
                        original_len as nat,
                        index as int,
                        data@,
                        full_file_checksum@,
                        outcome,
                    )))
                },
            },
    {
        match msg {
            Message::Handshake { pubkey: _, sig: _, ts: _ } => ValidatorAction::Ignored,
            Message::NaiveTransfer { filename, data, checksum } => {
                if checksum_matches(data.as_slice(), &checksum) {
                    ValidatorAction::NaiveAccepted { filename, data }
                } else {
                    ValidatorAction::NaiveRejected { filename }
                }
            },
            Message::DasShard { filename, original_len, index, data, full_file_checksum } => {
                if index >= TOTAL_SHARDS {
                    ValidatorAction::InvalidShardIndex { filename }
                } else {
                    let outcome = self.handle_shard(
                        &filename,
                        original_len,
                        index,
                        data,
                        &full_file_checksum,
                    );
                    ValidatorAction::ShardProcessed { filename, outcome }
                }
            },
        }
    }
}

/// Whether an entry is an availability-sampling report: some shards arrived,
/// but fewer than the reconstruction threshold.
pub open spec fn is_sampled(e: FileEntry) -> bool {
    0 < count_present(e.slots.deep_view()) < DATA_SHARDS
}

/// The names of the sampled entries, in store order.
pub open spec fn sampled_names(s: Seq<FileEntry>) -> Seq<Seq<char>>
    decreases s.len(),
{
    if s.len() == 0 {
        Seq::empty()
    } else {
        sampled_names(s.drop_last()) + (if is_sampled(s.last()) {
            seq![s.last().name@]
        } else {
            Seq::<Seq<char>>::empty()
        })
    }
}

/// What the validator should do in response to one message.
pub enum ValidatorAction {
    /// A handshake (or anything requiring no action): noted, nothing done.
    Ignored,
    /// A naive transfer that passed the checksum gate: write the payload.
    NaiveAccepted { filename: String, data: Vec<u8> },
    /// A naive transfer whose checksum did not match: discard the payload.
    NaiveRejected { filename: String },
    /// A shard was fed to the accumulator with the given outcome.
    ShardProcessed { filename: String, outcome: ShardOutcome },
    /// A shard whose index is out of range: rejected outright.
    InvalidShardIndex { filename: String },
}

/// A shard set of `n` empty slots.
fn none_slots() -> (r: Vec<Option<Vec<u8>>>)
    ensures
        r@.len() == TOTAL_SHARDS,
        r.deep_view() == empty_slots(),
{
    let mut r: Vec<Option<Vec<u8>>> = Vec::new();
    let mut i: usize = 0;
    while i < TOTAL_SHARDS
        invariant
            i <= TOTAL_SHARDS,
            r@.len() == i,
            forall|j: int| 0 <= j < i ==> (#[trigger] r@[j]) is None,
        decreases TOTAL_SHARDS - i,
    {
        r.push(None);
        i += 1;
    }
    proof {
        assert(r.deep_view() =~= empty_slots());
    }
    r
}

} // verus!
