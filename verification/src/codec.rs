//! The erasure-coding engine: a systematic Reed-Solomon code over GF(256)
//! with `k` data shards and `m` parity shards, such that any `k` of the
//! `n = k + m` shards recover the blob.

use vstd::prelude::*;
use crate::{DATA_SHARDS, PARITY_SHARDS, TOTAL_SHARDS, pad_data, padded_len};
use crate::digest::{checksum_ok, checksum_matches};

verus! {

/// Byte `t` of parity shard `j` as the Reed-Solomon encoder derives it from
/// the `k` data shards. The encoding matrix makes this a pure function of the
/// data shards, which is all the contracts here need of it.
pub uninterp spec fn rs_parity_byte(data: Seq<Seq<u8>>, j: int, t: int) -> u8;

/// Parity shard `j`, of length `l`, for the given data shards.
pub open spec fn parity_shard(data: Seq<Seq<u8>>, j: int, l: nat) -> Seq<u8> {
    Seq::new(l, |t: int| rs_parity_byte(data, j, t))
}

/// The full `n`-shard codeword for `k` data shards of length `l`.
pub open spec fn codeword_of(data: Seq<Seq<u8>>, l: nat) -> Seq<Seq<u8>> {
    data + Seq::new(PARITY_SHARDS as nat, |j: int| parity_shard(data, j, l))
}

/// Shard length for a blob of length `len`: the padded length divided by `k`.
pub open spec fn shard_len_of(len: nat) -> nat {
    padded_len(len, DATA_SHARDS as nat) / (DATA_SHARDS as nat)
}

/// The blob extended with trailing zero bytes to a multiple of `k`.
pub open spec fn padded_of(b: Seq<u8>) -> Seq<u8> {
    b + Seq::new((padded_len(b.len(), DATA_SHARDS as nat) - b.len()) as nat, |i: int| 0u8)
}

/// The `k` data shards: consecutive equal-length slices of the padded blob.
pub open spec fn data_shards_of(b: Seq<u8>) -> Seq<Seq<u8>> {
    Seq::new(
        DATA_SHARDS as nat,
        |i: int|
            padded_of(b).subrange(
                i * shard_len_of(b.len()),
                (i + 1) * shard_len_of(b.len()),
            ),
    )
}

/// All `n` shards the encoder produces for blob `b`.
pub open spec fn full_shards_of(b: Seq<u8>) -> Seq<Seq<u8>> {
    codeword_of(data_shards_of(b), shard_len_of(b.len()))
}

/// How many slots of a partial shard set are filled.
pub open spec fn count_present(s: Seq<Option<Seq<u8>>>) -> nat
    decreases s.len(),
{
    if s.len() == 0 {
        0
    } else {
        count_present(s.drop_last()) + (if s.last() is Some {
            1nat
        } else {
            0nat
        })
    }
}

/// Every filled slot of `s` carries the matching shard of codeword `c`.
pub open spec fn agrees(s: Seq<Option<Seq<u8>>>, c: Seq<Seq<u8>>) -> bool {
    forall|i: int| 0 <= i < s.len() && s[i] is Some ==> (#[trigger] s[i])->0 == c[i]
}

/// Every filled slot of a partial shard set is a shard of blob `b`'s codeword.
pub open spec fn matches_blob(s: Seq<Option<Seq<u8>>>, b: Seq<u8>) -> bool {
    &&& s.len() == TOTAL_SHARDS
    &&& agrees(s, full_shards_of(b))
}

/// Every filled slot has payload length `l`.
pub open spec fn present_uniform(s: Seq<Option<Seq<u8>>>, l: nat) -> bool {
    forall|i: int| 0 <= i < s.len() && s[i] is Some ==> (#[trigger] s[i])->0.len() == l
}

/// An erasure-decoding outcome that is not a recovered blob.
#[derive(Clone, Copy, Debug, PartialEq, Eq, Structural)]
pub enum DasError {
    DecodeFailure,
    ChecksumMismatch,
}

// ---------------------------------------------------------------------------
// Facts about the spec-level model.
// ---------------------------------------------------------------------------

/// The padded blob splits exactly into `k` shards of `shard_len_of` bytes.
pub proof fn lemma_padded_splits(len: nat)
    ensures
        (DATA_SHARDS as nat) * shard_len_of(len) == padded_len(len, DATA_SHARDS as nat),
        len > 0 ==> shard_len_of(len) > 0,
        padded_len(len, DATA_SHARDS as nat) >= len,
{
    let p = padded_len(len, DATA_SHARDS as nat);
    assert(p % 4 == 0 && p >= len) by {
        if len % 4 != 0 {
            assert((len + 4 - len % 4) % 4 == 0) by (nonlinear_arith)
                requires
                    len % 4 != 0,
            ;
        }
    }
    assert(4 * (p / 4) == p) by (nonlinear_arith)
        requires
            p % 4 == 0,
    ;
}

/// Every shard of a blob's codeword has length `shard_len_of`.
pub proof fn lemma_full_shards_len(b: Seq<u8>)
    ensures
        full_shards_of(b).len() == TOTAL_SHARDS,
        forall|i: int|
            0 <= i < TOTAL_SHARDS ==> (#[trigger] full_shards_of(b)[i]).len() == shard_len_of(
                b.len(),
            ),
{
    lemma_padded_splits(b.len());
    let l = shard_len_of(b.len()) as int;
    assert forall|i: int| 0 <= i < TOTAL_SHARDS implies (#[trigger] full_shards_of(b)[i]).len()
        == shard_len_of(b.len()) by {
        if i < DATA_SHARDS {
            assert(full_shards_of(b)[i] == padded_of(b).subrange(i * l, (i + 1) * l));
            assert((i + 1) * l == i * l + l) by (nonlinear_arith);
            assert(0 <= i * l && (i + 1) * l <= 4 * l) by (nonlinear_arith)
                requires
                    0 <= i < 4,
                    l >= 0,
            ;
        } else {
            assert(full_shards_of(b)[i] == parity_shard(
                data_shards_of(b),
                i - DATA_SHARDS,
                shard_len_of(b.len()),
            ));
        }
    }
}

/// Concatenating the `k` data shards in index order rebuilds the padded blob.
pub proof fn lemma_concat_data_shards(b: Seq<u8>)
    ensures
        data_shards_of(b)[0] + data_shards_of(b)[1] + data_shards_of(b)[2] + data_shards_of(b)[3]
            == padded_of(b),
{
    lemma_padded_splits(b.len());
    let l = shard_len_of(b.len()) as int;
    let p = padded_of(b);
    assert(p.len() == 4 * l);
    assert(data_shards_of(b)[0] + data_shards_of(b)[1] + data_shards_of(b)[2] + data_shards_of(
        b,
    )[3] =~= p) by {
        assert(data_shards_of(b)[0] == p.subrange(0, l));
        assert(data_shards_of(b)[1] == p.subrange(l, 2 * l));
        assert(data_shards_of(b)[2] == p.subrange(2 * l, 3 * l));
        assert(data_shards_of(b)[3] == p.subrange(3 * l, 4 * l));
    }
}

/// Updating one slot adds a shard to the count exactly when it was empty;
/// in particular an insert over an already-filled index does not raise the
/// count (a duplicate never double-counts toward the threshold).
pub proof fn lemma_count_update(s: Seq<Option<Seq<u8>>>, i: int, x: Seq<u8>)
    requires
        0 <= i < s.len(),
    ensures
        count_present(s.update(i, Some(x))) == count_present(s) + (if s[i] is Some {
            0nat
        } else {
            1nat
        }),
    decreases s.len(),
{
    let u = s.update(i, Some(x));
    if i == s.len() - 1 {
        assert(u.drop_last() =~= s.drop_last());
        assert(u.last() == Some(x));
    } else {
        assert(u.drop_last() =~= s.drop_last().update(i, Some(x)));
        lemma_count_update(s.drop_last(), i, x);
        assert(u.last() == s.last());
    }
}

/// A wholly empty shard set has count zero.
pub proof fn lemma_count_present_zero(s: Seq<Option<Seq<u8>>>)
    requires
        forall|i: int| 0 <= i < s.len() ==> !((#[trigger] s[i]) is Some),
    ensures
        count_present(s) == 0,
    decreases s.len(),
{
    if s.len() > 0 {
        lemma_count_present_zero(s.drop_last());
    }
}

/// Inserting twice at one index is the same as inserting the second shard
/// once: the last write wins and the count is unchanged by the first write.
pub proof fn lemma_duplicate_insert(s: Seq<Option<Seq<u8>>>, i: int, d1: Seq<u8>, d2: Seq<u8>)
    requires
        0 <= i < s.len(),
    ensures
        s.update(i, Some(d1)).update(i, Some(d2)) == s.update(i, Some(d2)),
        count_present(s.update(i, Some(d1)).update(i, Some(d2))) == count_present(
            s.update(i, Some(d2)),
        ),
{
    assert(s.update(i, Some(d1)).update(i, Some(d2)) =~= s.update(i, Some(d2)));
}

/// The restriction of a codeword to a set of indices: those slots filled,
/// all others empty.
pub open spec fn restrict_to(c: Seq<Seq<u8>>, sel: Seq<int>) -> Seq<Option<Seq<u8>>> {
    Seq::new(c.len(), |i: int| if sel.contains(i) { Some(c[i]) } else { None })
}

proof fn lemma_restrict_count(c: Seq<Seq<u8>>, sel: Seq<int>)
    requires
        sel.no_duplicates(),
        forall|j: int| 0 <= j < sel.len() ==> 0 <= #[trigger] sel[j] < c.len(),
    ensures
        count_present(restrict_to(c, sel)) == sel.len(),
    decreases sel.len(),
{
    if sel.len() == 0 {
        lemma_count_present_zero(restrict_to(c, sel));
    } else {
        let head = sel.drop_last();
        let last = sel.last();
        lemma_restrict_count(c, head);
        assert(!head.contains(last));
        assert(restrict_to(c, sel) =~= restrict_to(c, head).update(last, Some(c[last]))) by {
            assert forall|i: int| 0 <= i < c.len() implies restrict_to(c, sel)[i] == restrict_to(
                c,
                head,
            ).update(last, Some(c[last]))[i] by {
                if i != last {
                    assert(sel.contains(i) <==> head.contains(i)) by {
                        if sel.contains(i) {
                            let w = choose|w: int| 0 <= w < sel.len() && sel[w] == i;
                            assert(w < sel.len() - 1);
                            assert(head[w] == i);
                        }
                        if head.contains(i) {
                            let w = choose|w: int| 0 <= w < head.len() && head[w] == i;
                            assert(sel[w] == i);
                        }
                    }
                } else {
                    assert(sel.contains(last));
                }
            }
        }
        assert(!(restrict_to(c, head)[last] is Some));
        lemma_count_update(restrict_to(c, head), last, c[last]);
    }
}

/// The round-trip law. Encoding a blob and keeping any choice of distinct
/// shard indices yields a partial set whose count is the number of indices
/// kept and whose filled slots all match the blob's codeword. Hence, by
/// `reconstruct`'s contract, keeping at least `k` distinct indices makes
/// `reconstruct` return exactly the original blob, and, keeping fewer,
/// `reconstruct` must fail.
pub proof fn lemma_round_trip(b: Seq<u8>, sel: Seq<int>)
    requires
        sel.no_duplicates(),
        forall|j: int| 0 <= j < sel.len() ==> 0 <= #[trigger] sel[j] < TOTAL_SHARDS,
    ensures
        count_present(restrict_to(full_shards_of(b), sel)) == sel.len(),
        matches_blob(restrict_to(full_shards_of(b), sel), b),
{
    lemma_full_shards_len(b);
    lemma_restrict_count(full_shards_of(b), sel);
}

// ---------------------------------------------------------------------------
// Trusted boundary to the Reed-Solomon coder.
// ---------------------------------------------------------------------------

/// Relies on reed_solomon_erasure::galois_8::ReedSolomon::{new, encode}:
/// `encode` overwrites the last `m` slots with parity derived from the first
/// `k` slots through the fixed encoding matrix (a pure function of the data
/// shards, named `rs_parity_byte` here), leaves the data slots unchanged, and
/// keeps every shard at its common length.
#[verifier::external_body]
fn rs_encode(shards: &mut Vec<Vec<u8>>)
    requires
        old(shards)@.len() == TOTAL_SHARDS,
        forall|i: int|
            0 <= i < TOTAL_SHARDS ==> (#[trigger] old(shards)@[i])@.len()
                == old(shards)@[0]@.len(),
        old(shards)@[0]@.len() > 0,
    ensures
        final(shards).deep_view() == codeword_of(
            old(shards).deep_view().take(DATA_SHARDS as int),
            old(shards)@[0]@.len() as nat,
        ),
        forall|j: int, t: int|
            DATA_SHARDS <= j < TOTAL_SHARDS && 0 <= t < old(shards)@[0]@.len()
                ==> final(shards)@[j]@[t] == rs_parity_byte(
                old(shards).deep_view().take(DATA_SHARDS as int),
                j - DATA_SHARDS,
                t,
            ),
{
    let r = reed_solomon_erasure::galois_8::ReedSolomon::new(DATA_SHARDS, PARITY_SHARDS).unwrap();
    r.encode(shards.as_mut_slice()).unwrap();
}

/// Relies on reed_solomon_erasure::galois_8::ReedSolomon::{new, reconstruct}:
/// with all `n` slots supplied and every filled slot of one positive common
/// length, `reconstruct` fails exactly when fewer than `k` slots are filled;
/// on success it fills every slot, keeps the filled ones, and, the code being
/// maximum-distance-separable, returns precisely the codeword that the filled
/// slots lie on whenever they lie on one.
#[verifier::external_body]
fn rs_reconstruct(shards: &mut Vec<Option<Vec<u8>>>, shard_len: usize) -> (ok: bool)
    requires
        old(shards)@.len() == TOTAL_SHARDS,
        shard_len > 0,
        present_uniform(old(shards).deep_view(), shard_len as nat),
    ensures
        ok <==> count_present(old(shards).deep_view()) >= DATA_SHARDS,
        !ok ==> final(shards)@ == old(shards)@,
        ok ==> {
            &&& final(shards)@.len() == TOTAL_SHARDS
            &&& forall|i: int|
                0 <= i < TOTAL_SHARDS ==> (#[trigger] final(shards).deep_view()[i]) is Some
                    && final(shards).deep_view()[i]->0.len() == shard_len
            &&& forall|i: int|
                0 <= i < TOTAL_SHARDS && (#[trigger] old(shards).deep_view()[i]) is Some
                    ==> final(shards).deep_view()[i] == old(shards).deep_view()[i]
            &&& forall|d: Seq<Seq<u8>>|
                (d.len() == DATA_SHARDS && (forall|j: int|
                    0 <= j < DATA_SHARDS ==> (#[trigger] d[j]).len() == shard_len) && agrees(
                    old(shards).deep_view(),
                    #[trigger] codeword_of(d, shard_len as nat),
                )) ==> final(shards).deep_view() == codeword_of(d, shard_len as nat).map_values(
                    |p: Seq<u8>| Some(p),
                )
        },
{
    let r = reed_solomon_erasure::galois_8::ReedSolomon::new(DATA_SHARDS, PARITY_SHARDS).unwrap();
    r.reconstruct(shards.as_mut_slice()).is_ok()
}

// ---------------------------------------------------------------------------
// Verified helpers.
// ---------------------------------------------------------------------------

/// The deep view of a byte vector coincides with its view.
pub(crate) proof fn lemma_bytes_deep_view(v: Vec<u8>)
    ensures
        v.deep_view() == v@,
{
    assert(v.deep_view() =~= v@);
}

/// A byte-for-byte copy of `v`.
pub(crate) fn clone_bytes(v: &Vec<u8>) -> (r: Vec<u8>)
    ensures
        r@ == v@,
{
    let mut r: Vec<u8> = Vec::new();
    let mut i: usize = 0;
    while i < v.len()
        invariant
            i <= v@.len(),
            r@ =~= v@.take(i as int),
        decreases v@.len() - i,
    {
        r.push(v[i]);
        i += 1;
    }
    assert(v@.take(v@.len() as int) =~= v@);
    r
}

/// Appends all of `v` to `out`.
fn append_bytes(out: &mut Vec<u8>, v: &Vec<u8>)
    ensures
        final(out)@ == old(out)@ + v@,
{
    let mut i: usize = 0;
    while i < v.len()
        invariant
            i <= v@.len(),
            out@ =~= old(out)@ + v@.take(i as int),
        decreases v@.len() - i,
    {
        out.push(v[i]);
        i += 1;
    }
    assert(old(out)@ + v@.take(v@.len() as int) =~= old(out)@ + v@);
}

/// A vector of `n` zero bytes.
fn zero_bytes(n: usize) -> (r: Vec<u8>)
    ensures
        r@.len() == n,
        forall|i: int| 0 <= i < n ==> r@[i] == 0u8,
{
    let mut r: Vec<u8> = Vec::new();
    let mut i: usize = 0;
    while i < n
        invariant
            i <= n,
            r@.len() == i,
            forall|j: int| 0 <= j < i ==> r@[j] == 0u8,
        decreases n - i,
    {
        r.push(0u8);
        i += 1;
    }
    r
}

proof fn lemma_count_take_step(s: Seq<Option<Seq<u8>>>, i: int)
    requires
        0 <= i < s.len(),
    ensures
        count_present(s.take(i + 1)) == count_present(s.take(i)) + (if s[i] is Some {
            1nat
        } else {
            0nat
        }),
{
    assert(s.take(i + 1).drop_last() =~= s.take(i));
    assert(s.take(i + 1).last() == s[i]);
}

/// Counts the filled slots of a partial shard set.
pub fn count_present_exec(shards: &Vec<Option<Vec<u8>>>) -> (c: usize)
    ensures
        c == count_present(shards.deep_view()),
{
    let s = Ghost(shards.deep_view());
    let mut c: usize = 0;
    let mut i: usize = 0;
    while i < shards.len()
        invariant
            i <= shards@.len(),
            s@ == shards.deep_view(),
            s@.len() == shards@.len(),
            c <= i,
            c == count_present(s@.take(i as int)),
        decreases shards@.len() - i,
    {
        proof {
            lemma_count_take_step(s@, i as int);
        }
        if shards[i].is_some() {
            c = c + 1;
        }
        i += 1;
    }
    proof {
        assert(s@.take(s@.len() as int) =~= s@);
    }
    c
}

// ---------------------------------------------------------------------------
// The engine itself.
// ---------------------------------------------------------------------------

/// Encodes a blob into `n` shards: pad with zeros to a multiple of `k`, split
/// into `k` equal data shards, and derive `m` parity shards, so that the
/// result is exactly the blob's codeword.
pub fn encode(data: &Vec<u8>) -> (shards: Vec<Vec<u8>>)
    requires
        data@.len() + DATA_SHARDS <= usize::MAX,
    ensures
        shards.deep_view() == full_shards_of(data@),
        shards@.len() == TOTAL_SHARDS,
        forall|i: int|
            0 <= i < TOTAL_SHARDS ==> (#[trigger] shards@[i])@.len() == shard_len_of(data@.len()),
{
    proof {
        lemma_padded_splits(data@.len());
    }
    let padded = pad_data(data, DATA_SHARDS);
    proof {
        assert(padded@ =~= padded_of(data@));
    }
    let shard_len: usize = padded.len() / DATA_SHARDS;
    assert(shard_len == shard_len_of(data@.len()));
    assert(4 * shard_len == padded@.len());

    let mut shards: Vec<Vec<u8>> = Vec::new();
    let mut i: usize = 0;
    let mut base: usize = 0;
    while i < DATA_SHARDS
        invariant
            i <= DATA_SHARDS,
            base == i * shard_len,
            4 * shard_len == padded@.len(),
            padded@ == padded_of(data@),
            shard_len == shard_len_of(data@.len()),
            padded@.len() <= usize::MAX,
            shards@.len() == i,
            forall|j: int| 0 <= j < i ==> (#[trigger] shards@[j])@.len() == shard_len,
            forall|j: int|
                0 <= j < i ==> (#[trigger] shards@[j])@ == padded@.subrange(
                    j * shard_len,
                    (j + 1) * shard_len,
                ),
        decreases DATA_SHARDS - i,
    {
        proof {
            assert((i + 1) * shard_len == i * shard_len + shard_len) by (nonlinear_arith);
            assert(i * shard_len + shard_len <= 4 * shard_len) by (nonlinear_arith)
                requires
                    0 <= i < 4,
                    shard_len >= 0,
            ;
        }
        let mut shard: Vec<u8> = Vec::new();
        let mut t: usize = 0;
        while t < shard_len
            invariant
                t <= shard_len,
                base + shard_len <= padded@.len(),
                padded@.len() <= usize::MAX,
                shard@ =~= padded@.subrange(base as int, base + t),
            decreases shard_len - t,
        {
            shard.push(padded[base + t]);
            proof {
                assert(shard@ =~= padded@.subrange(base as int, base + t + 1));
            }
            t += 1;
        }
        shards.push(shard);
        proof {
            assert(shards@.last()@ =~= padded@.subrange(
                i as int * shard_len,
                (i as int + 1) * shard_len,
            ));
        }
        i += 1;
        base = base + shard_len;
    }
    let mut j: usize = 0;
    while j < PARITY_SHARDS
        invariant
            j <= PARITY_SHARDS,
            shards@.len() == DATA_SHARDS + j,
            forall|t: int|
                0 <= t < shards@.len() ==> (#[trigger] shards@[t])@.len() == shard_len,
            forall|t: int|
                0 <= t < DATA_SHARDS ==> (#[trigger] shards@[t])@ == padded@.subrange(
                    t * shard_len,
                    (t + 1) * shard_len,
                ),
            4 * shard_len == padded@.len(),
            padded@ == padded_of(data@),
            shard_len == shard_len_of(data@.len()),
        decreases PARITY_SHARDS - j,
    {
        shards.push(zero_bytes(shard_len));
        j += 1;
    }
    proof {
        assert forall|q: int|
            0 <= q < DATA_SHARDS implies shards.deep_view().take(DATA_SHARDS as int)[q]
            == data_shards_of(data@)[q] by {
            lemma_bytes_deep_view(shards@[q]);
        }
        assert(shards.deep_view().take(DATA_SHARDS as int) =~= data_shards_of(data@));
    }
    if shard_len == 0 {
        proof {
            assert forall|q: int|
                0 <= q < TOTAL_SHARDS implies shards.deep_view()[q] == full_shards_of(data@)[q]
                by {
                lemma_bytes_deep_view(shards@[q]);
                if q >= DATA_SHARDS {
                    assert(full_shards_of(data@)[q] == parity_shard(
                        data_shards_of(data@),
                        q - DATA_SHARDS,
                        0,
                    ));
                    assert(shards@[q]@ =~= full_shards_of(data@)[q]);
                } else {
                    assert(full_shards_of(data@)[q] == data_shards_of(data@)[q]);
                    assert(shards.deep_view().take(DATA_SHARDS as int)[q]
                        == shards.deep_view()[q]);
                }
            }
            assert(shards.deep_view() =~= full_shards_of(data@));
        }
        return shards;
    }
    let ghost pre = shards.deep_view();
    rs_encode(&mut shards);
    proof {
        assert(pre.take(DATA_SHARDS as int) == data_shards_of(data@));
        assert(shards.deep_view() == codeword_of(
            data_shards_of(data@),
            shard_len_of(data@.len()),
        ));
        lemma_full_shards_len(data@);
        assert forall|i2: int| 0 <= i2 < TOTAL_SHARDS implies (#[trigger] shards@[i2])@.len()
            == shard_len_of(data@.len()) by {
            lemma_bytes_deep_view(shards@[i2]);
            assert(shards.deep_view()[i2] == full_shards_of(data@)[i2]);
        }
    }
    shards
}

/// Recovers the original blob from a partial shard set. Fails (and never
/// yields partial or garbage output on a below-threshold set) when fewer
/// than `k` slots are filled; on any set whose filled slots all lie on the
/// codeword of a blob of the declared length, it returns exactly that blob.
pub fn reconstruct(shards: &Vec<Option<Vec<u8>>>, original_len: usize) -> (r: Result<
    Vec<u8>,
    DasError,
>)
    requires
        shards@.len() == TOTAL_SHARDS,
    ensures
        count_present(shards.deep_view()) < DATA_SHARDS ==> r == Result::<
            Vec<u8>,
            DasError,
        >::Err(DasError::DecodeFailure),
        r is Err ==> r == Result::<Vec<u8>, DasError>::Err(DasError::DecodeFailure),
        r is Ok ==> r->Ok_0@.len() == original_len,
        forall|b: Seq<u8>|
            (b.len() == original_len && count_present(shards.deep_view()) >= DATA_SHARDS
                && #[trigger] matches_blob(shards.deep_view(), b)) ==> r is Ok && r->Ok_0@ == b,
{
    let ghost s = shards.deep_view();
    let count: usize = count_present_exec(shards);
    if count < DATA_SHARDS {
        return Err(DasError::DecodeFailure);
    }
    // Find the first filled slot; its payload length is the shard length.
    let mut first: usize = 0;
    while first < TOTAL_SHARDS && shards[first].is_none()
        invariant
            first <= TOTAL_SHARDS,
            shards@.len() == TOTAL_SHARDS,
            forall|j: int| 0 <= j < first ==> !((#[trigger] shards@[j]) is Some),
        decreases TOTAL_SHARDS - first,
    {
        first += 1;
    }
    if first == TOTAL_SHARDS {
        proof {
            lemma_count_present_zero(s);
        }
        return Err(DasError::DecodeFailure);
    }
    let l: usize = match &shards[first] {
        Some(v) => v.len(),
        None => {
            proof {
                assert(false);
            }
            0
        },
    };
    // All filled slots must share that length.
    let mut uniform: bool = true;
    let ghost mut bad: int = 0;
    let mut i: usize = 0;
    while i < TOTAL_SHARDS
        invariant
            i <= TOTAL_SHARDS,
            shards@.len() == TOTAL_SHARDS,
            s == shards.deep_view(),
            uniform ==> forall|j: int|
                0 <= j < i && s[j] is Some ==> (#[trigger] s[j])->0.len() == l,
            !uniform ==> 0 <= bad < TOTAL_SHARDS && s[bad] is Some && s[bad]->0.len() != l,
        decreases TOTAL_SHARDS - i,
    {
        match &shards[i] {
            Some(v) => {
                if v.len() != l {
                    uniform = false;
                    proof {
                        bad = i as int;
                    }
                }
            },
            None => {},
        }
        i += 1;
    }
    proof {
        // Any blob the filled slots lie on has this exact shard length.
        assert forall|b: Seq<u8>|
            b.len() == original_len && count_present(s) >= DATA_SHARDS && #[trigger] matches_blob(
                s,
                b,
            ) implies shard_len_of(b.len()) == l by {
            lemma_full_shards_len(b);
            assert(s[first as int]->0 == full_shards_of(b)[first as int]);
        }
    }
    if !uniform {
        proof {
            assert forall|b: Seq<u8>|
                !(b.len() == original_len && count_present(s) >= DATA_SHARDS
                    && #[trigger] matches_blob(s, b)) by {
                if b.len() == original_len && count_present(s) >= DATA_SHARDS && matches_blob(
                    s,
                    b,
                ) {
                    lemma_full_shards_len(b);
                    assert(s[bad]->0 == full_shards_of(b)[bad]);
                }
            }
        }
        return Err(DasError::DecodeFailure);
    }
    if l == 0 {
        if original_len == 0 {
            let r: Vec<u8> = Vec::new();
            proof {
                assert forall|b: Seq<u8>|
                    (b.len() == original_len && count_present(s) >= DATA_SHARDS
                        && #[trigger] matches_blob(s, b)) implies r@ == b by {
                    assert(b =~= r@);
                }
            }
            return Ok(r);
        } else {
            proof {
                assert forall|b: Seq<u8>|
                    !(b.len() == original_len && count_present(s) >= DATA_SHARDS
                        && #[trigger] matches_blob(s, b)) by {
                    if b.len() == original_len && count_present(s) >= DATA_SHARDS
                        && matches_blob(s, b) {
                        lemma_padded_splits(b.len());
                    }
                }
            }
            return Err(DasError::DecodeFailure);
        }
    }
    // Work on a copy, as decoding fills the missing slots in place.
    let mut work: Vec<Option<Vec<u8>>> = Vec::new();
    let mut i: usize = 0;
    proof {
        assert(work.deep_view() =~= s.take(0));
    }
    while i < TOTAL_SHARDS
        invariant
            i <= TOTAL_SHARDS,
            shards@.len() == TOTAL_SHARDS,
            s == shards.deep_view(),
            work.deep_view() == s.take(i as int),
        decreases TOTAL_SHARDS - i,
    {
        let ghost prev = work.deep_view();
        let ghost prev_v = work@;
        proof {
            assert(prev.len() == i as int);
            assert(work@.len() == i as int);
        }
        match &shards[i] {
            Some(v) => {
                let c = clone_bytes(v);
                proof {
                    lemma_bytes_deep_view(*v);
                    lemma_bytes_deep_view(c);
                    assert(c.deep_view() == v.deep_view());
                }
                work.push(Some(c));
                proof {
                    assert(work@.len() == i as int + 1);
                    assert(work@[i as int] == Some(c));
                    assert(work.deep_view()[i as int] == work@[i as int].deep_view());
                    assert(work.deep_view()[i as int] == Some(c.deep_view()));
                    assert(s[i as int] == Some(v.deep_view()));
                }
            },
            None => {
                work.push(None);
                proof {
                    assert(work@.len() == i as int + 1);
                    assert(work@[i as int] == Option::<Vec<u8>>::None);
                    assert(work.deep_view()[i as int] == work@[i as int].deep_view());
                    assert(work.deep_view()[i as int] == s[i as int]);
                }
            },
        }
        proof {
            assert forall|j: int| 0 <= j < i as int implies work.deep_view()[j] == s.take(
                i as int + 1,
            )[j] by {
                assert(work.deep_view()[j] == work@[j].deep_view());
                assert(work@[j] == prev_v[j]);
                assert(prev[j] == prev_v[j].deep_view());
                assert(work.deep_view()[j] == prev[j]);
            }
            assert(work.deep_view() =~= s.take(i as int + 1));
        }
        i += 1;
    }
    proof {
        assert(s.take(s.len() as int) =~= s);
    }
    let ok = rs_reconstruct(&mut work, l);
    if !ok {
        return Err(DasError::DecodeFailure);
    }
    // Concatenate the data shards in index order.
    let mut out: Vec<u8> = Vec::new();
    let mut i: usize = 0;
    while i < DATA_SHARDS
        invariant
            i <= DATA_SHARDS,
            work@.len() == TOTAL_SHARDS,
            forall|j: int|
                0 <= j < TOTAL_SHARDS ==> (#[trigger] work.deep_view()[j]) is Some,
            out@ == concat_data(work.deep_view(), i as int),
        decreases DATA_SHARDS - i,
    {
        match &work[i] {
            Some(v) => {
                append_bytes(&mut out, v);
            },
            None => {
                proof {
                    assert(work.deep_view()[i as int] is Some);
                    assert(false);
                }
            },
        }
        i += 1;
    }
    if out.len() < original_len {
        proof {
            assert forall|b: Seq<u8>|
                !(b.len() == original_len && count_present(s) >= DATA_SHARDS
                    && #[trigger] matches_blob(s, b)) by {
                if b.len() == original_len && count_present(s) >= DATA_SHARDS && matches_blob(
                    s,
                    b,
                ) {
                    reconstruct_success_helper(s, b, work.deep_view(), l as nat);
                    lemma_concat_data_shards(b);
                    lemma_padded_splits(b.len());
                    assert(out@ == padded_of(b));
                }
            }
        }
        return Err(DasError::DecodeFailure);
    }
    let ghost pre_out = out@;
    out.truncate(original_len);
    proof {
        assert forall|b: Seq<u8>|
            (b.len() == original_len && count_present(s) >= DATA_SHARDS
                && #[trigger] matches_blob(s, b)) implies out@ == b by {
            reconstruct_success_helper(s, b, work.deep_view(), l as nat);
            lemma_concat_data_shards(b);
            lemma_padded_splits(b.len());
            assert(pre_out == padded_of(b));
            assert(padded_of(b).subrange(0, b.len() as int) =~= b);
        }
    }
    Ok(out)
}

/// Recovers the original blob and applies the integrity gate: the recovered
/// blob's digest is recomputed and held against the digest the sender
/// declared. A mismatch is a `ChecksumMismatch` outcome, distinct from
/// `DecodeFailure`.
pub fn reconstruct_verified(
    shards: &Vec<Option<Vec<u8>>>,
    original_len: usize,
    checksum: &String,
) -> (r: Result<Vec<u8>, DasError>)
    requires
        shards@.len() == TOTAL_SHARDS,
    ensures
        count_present(shards.deep_view()) < DATA_SHARDS ==> r == Result::<
            Vec<u8>,
            DasError,
        >::Err(DasError::DecodeFailure),
        r is Ok ==> r->Ok_0@.len() == original_len && checksum_ok(r->Ok_0@, checksum@),
        forall|b: Seq<u8>|
            (b.len() == original_len && count_present(shards.deep_view()) >= DATA_SHARDS
                && #[trigger] matches_blob(shards.deep_view(), b)) ==> if checksum_ok(
                b,
                checksum@,
            ) {
                r is Ok && r->Ok_0@ == b
            } else {
                r == Result::<Vec<u8>, DasError>::Err(DasError::ChecksumMismatch)
            },
{
    match reconstruct(shards, original_len) {
        Result::Err(_) => Err(DasError::DecodeFailure),
        Result::Ok(blob) => {
            if checksum_matches(blob.as_slice(), checksum) {
                Ok(blob)
            } else {
                Err(DasError::ChecksumMismatch)
            }
        },
    }
}

/// The first `n` payloads of a fully-filled shard set, concatenated.
pub open spec fn concat_data(s: Seq<Option<Seq<u8>>>, n: int) -> Seq<u8>
    decreases n,
{
    if n <= 0 {
        Seq::empty()
    } else {
        concat_data(s, n - 1) + (if s[n - 1] is Some {
            s[n - 1]->0
        } else {
            Seq::<u8>::empty()
        })
    }
}

proof fn reconstruct_success_helper(
    s: Seq<Option<Seq<u8>>>,
    b: Seq<u8>,
    w: Seq<Option<Seq<u8>>>,
    l: nat,
)
    requires
        matches_blob(s, b),
        shard_len_of(b.len()) == l,
        forall|d: Seq<Seq<u8>>|
            (d.len() == DATA_SHARDS && (forall|j: int|
                0 <= j < DATA_SHARDS ==> (#[trigger] d[j]).len() == l) && agrees(
                s,
                #[trigger] codeword_of(d, l),
            )) ==> w == codeword_of(d, l).map_values(|p: Seq<u8>| Some(p)),
    ensures
        w == full_shards_of(b).map_values(|p: Seq<u8>| Some(p)),
        concat_data(w, DATA_SHARDS as int) == data_shards_of(b)[0] + data_shards_of(b)[1]
            + data_shards_of(b)[2] + data_shards_of(b)[3],
{
    lemma_full_shards_len(b);
    let d = data_shards_of(b);
    assert(d.len() == DATA_SHARDS);
    assert(forall|j: int| 0 <= j < DATA_SHARDS ==> (#[trigger] d[j]).len() == l) by {
        assert(forall|j: int|
            0 <= j < DATA_SHARDS ==> full_shards_of(b)[j] == data_shards_of(b)[j]);
    }
    assert(codeword_of(d, l) == full_shards_of(b));
    assert(agrees(s, codeword_of(d, l)));
    assert(w == codeword_of(d, l).map_values(|p: Seq<u8>| Some(p)));
    let m = full_shards_of(b).map_values(|p: Seq<u8>| Some(p));
    assert forall|j: int| 0 <= j < DATA_SHARDS implies w[j] is Some && w[j]->0 == d[j] by {
        assert(m[j] == Some(full_shards_of(b)[j]));
    }
    assert(concat_data(w, 4) == d[0] + d[1] + d[2] + d[3]) by {
        assert(concat_data(w, 0) == Seq::<u8>::empty());
        assert(Seq::<u8>::empty() + d[0] =~= d[0]);
        assert(concat_data(w, 1) == d[0]);
        assert(concat_data(w, 2) == d[0] + d[1]);
        assert(concat_data(w, 3) == d[0] + d[1] + d[2]);
        assert(concat_data(w, 4) == d[0] + d[1] + d[2] + d[3]);
    }
}

} // verus!
